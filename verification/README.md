# MARSTART LINK

The core of a WireGuard client that keeps several tunnels up and moves traffic
between them. `src/` is the verified library, `app/` the desktop program around
it.

## The library

- `scalar`, `arith`: single-precision numbers as bits. They are ordered and
  clamped here; sums, products, quotients and roots come from a unit that the
  caller hands in, since floating point is computed outside.
- `text`, `address`, `address_text`, `utils`: decimal and hexadecimal text,
  addresses, ranges.
- `name_map`, `ringbuf`: the containers.
- `wireguard_config`, `wireguard_parser`, `wireguard_parser_laws`,
  `wireguard_serializer`, `plain_dump`: configuration files and the driver's
  binary form of them.
- `metrics`, `snapshot`, `routes`, `loadbalance`, `game_detection`,
  `autopilot`, `monitor`, `route_registry`: from measured round trips to the
  choice of a route.
- `windows_route_manager`, `path_manager`: the routes that belong to this
  program, failover, and agreement with the system's routing table.
- `wireguard`, `session`: the life of one tunnel and of a connection, as steps
  from an event to the next action.
- `net_probe`, `network_config`, `multipath`, `profiles`, `events`: the rest.

Time comes in as numbers: `now_ms` never goes back, `timestamp_ms` is the time
of day.

## What is trusted

Four calls are believed without proof: `String::push`, base64 decoding,
`str::to_lowercase`, and the hash of a flow, of which nothing is claimed. The
results of base64 decoding and of `str::to_lowercase` go by the names
`base64_decoded` and `lowercase`.
