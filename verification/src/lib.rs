//! Verified core of the MARSTART LINK client: tunnel configuration, path and
//! route management, health tracking, load balancing and the autopilot.

pub mod address;
pub mod address_laws;
pub mod address_text;
pub mod arith;
pub mod autopilot;
pub mod dump_laws;
pub mod events;
pub mod game_detection;
pub mod game_detection_laws;
pub mod loadbalance;
pub mod loadbalance_laws;
pub mod metrics;
pub mod monitor;
pub mod multipath;
pub mod name_map;
pub mod net_probe;
pub mod network_config;
pub mod path_manager;
pub mod plain_dump;
pub mod profiles;
pub mod ringbuf;
pub mod route_registry;
pub mod routes;
pub mod routes_laws;
pub mod scalar;
pub mod session;
pub mod session_laws;
pub mod snapshot;
pub mod snapshot_laws;
pub mod text;
pub mod text_laws;
pub mod utils;
pub mod wireguard;
pub mod wireguard_config;
pub mod wireguard_layout_laws;
pub mod wireguard_parser;
pub mod wireguard_parser_laws;
pub mod wireguard_serializer;
pub mod wireguard_settings_laws;
pub mod validation_laws;
pub mod windows_route_manager;
