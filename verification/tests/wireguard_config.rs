use base64::engine::general_purpose::STANDARD;
use base64::Engine;
use marstart_link::address::{IpAddr, Ipv4Addr, Ipv6Addr, SocketAddr, SocketAddrV4, SocketAddrV6};
use marstart_link::plain_dump;
use marstart_link::wireguard_config::{
    socket_addr_to_sockaddr_inet, ParsedConfig, WireguardAllowedIp, WireguardInterface,
    WireguardPeer, AF_INET, AF_INET6, ALLOWED_IP_SIZE, INTERFACE_SIZE, PEER_SIZE,
};
use marstart_link::wireguard_parser::{
    checked_key, parse_wireguard_config, validate_config, Answer, ParseError,
};
use marstart_link::wireguard_serializer::{
    filetime_to_unix, hexdump, read_peer_stats, serialize_config,
};

fn key(first: u8) -> String {
    let mut k = [0u8; 32];
    k[0] = first;
    STANDARD.encode(k)
}

fn text() -> String {
    format!(
        "[Interface]\nPrivateKey = {}\nAddress = 10.99.0.1/24\nDNS = 1.1.1.1, ,8.8.8.8\nListenPort = 51820\n\n[Peer]\n# the server\nPublicKey = {}\nEndpoint = 10.99.0.2:51820\nAllowedIPs = 0.0.0.0/0, ::/0\nPersistentKeepalive = 25\n",
        key(0x42),
        key(0x84)
    )
}

fn parse(text: &str) -> Result<ParsedConfig, String> {
    match parse_wireguard_config(text, &vec![]) {
        Ok(c) => Ok(c),
        Err(ParseError::Invalid(m)) => Err(m),
        Err(ParseError::Unresolved(n)) => Err(format!("unresolved {n}")),
    }
}

fn fault(text: &str) -> String {
    parse(text).unwrap_err()
}

#[test]
fn a_whole_configuration_is_read() {
    let c = parse(&text()).unwrap();
    assert_eq!(c.private_key[0], 0x42);
    assert_eq!(c.private_key[31], 0);
    assert_eq!(c.listen_port, Some(51820));
    assert_eq!(c.interface_address, Some(IpAddr::V4(Ipv4Addr::new(10, 99, 0, 1))));
    assert_eq!(c.interface_prefix, Some(24));
    assert_eq!(c.dns_servers, vec!["1.1.1.1".to_string(), "8.8.8.8".to_string()]);
    assert_eq!(c.peers.len(), 1);
    let p = &c.peers[0];
    assert_eq!(p.public_key[0], 0x84);
    assert_eq!(
        p.endpoint,
        Some(SocketAddr::V4(SocketAddrV4 {
            ip: Ipv4Addr::new(10, 99, 0, 2),
            port: 51820
        }))
    );
    assert_eq!(p.endpoint_hostname.as_deref(), Some("10.99.0.2"));
    assert_eq!(p.persistent_keepalive, Some(25));
    assert_eq!(p.allowed_ips.len(), 2);
    assert_eq!(p.allowed_ips[1].address, IpAddr::V6(Ipv6Addr { bits: 0 }));
    assert_eq!(p.allowed_ips[1].cidr, 0);
    assert!(validate_config(&c).is_ok());
}

#[test]
fn keys_are_decoded_not_copied() {
    let c = parse(&text()).unwrap();
    assert_eq!(c.private_key.to_vec(), STANDARD.decode(key(0x42)).unwrap());
    assert_ne!(c.private_key.to_vec(), key(0x42).as_bytes().to_vec());
}

#[test]
fn bad_keys_are_named() {
    assert_eq!(
        fault("[Interface]\nPrivateKey = AAAA\n"),
        "Line 2: PrivateKey must be 32 bytes"
    );
    assert!(fault("[Interface]\nPrivateKey = !!!!\n").starts_with("Line 2: Invalid PrivateKey base64: "));
    assert_eq!(
        checked_key(Ok(vec![7; 31]), "PublicKey", 4),
        Err("Line 4: PublicKey must be 32 bytes".to_string())
    );
    assert_eq!(
        checked_key(Err("odd".to_string()), "PublicKey", 4),
        Err("Line 4: Invalid PublicKey base64: odd".to_string())
    );
    assert_eq!(checked_key(Ok(vec![7; 32]), "PublicKey", 4), Ok([7; 32]));
}

#[test]
fn each_malformed_line_has_its_message() {
    let k = key(1);
    assert_eq!(fault("[Bogus]\n"), "Line 1: Unknown section: [Bogus]");
    assert_eq!(fault("[Interface]\nnonsense\n"), "Line 2: Invalid format");
    assert_eq!(
        fault("[Interface]\nListenPort = x\n"),
        "Line 2: Invalid ListenPort: invalid digit found in string"
    );
    assert_eq!(
        fault("[Interface]\nListenPort = 65536\n"),
        "Line 2: Invalid ListenPort: number too large to fit in target type"
    );
    assert_eq!(
        fault("[Interface]\nListenPort =\n"),
        "Line 2: Invalid ListenPort: cannot parse integer from empty string"
    );
    assert_eq!(
        fault("[Interface]\nAddress = 10.0.0.1\n"),
        "Line 2: Address must be IP/prefix, got '10.0.0.1'"
    );
    assert_eq!(
        fault("[Interface]\nAddress = 10.0.0/24\n"),
        "Line 2: Invalid Address IP '10.0.0': invalid IP address syntax"
    );
    assert_eq!(
        fault("[Interface]\nAddress = 10.0.0.1/x\n"),
        "Line 2: Invalid Address prefix 'x': invalid digit found in string"
    );
    let peer = |line: &str| format!("[Peer]\nPublicKey = {k}\n{line}\n");
    assert_eq!(
        fault(&peer("AllowedIPs = 10.0.0.0")),
        "Line 3: Invalid AllowedIP '10.0.0.0'"
    );
    assert_eq!(
        fault(&peer("AllowedIPs = zzz/8")),
        "Line 3: Invalid IP 'zzz': invalid IP address syntax"
    );
    assert_eq!(
        fault(&peer("AllowedIPs = 10.0.0.0/")),
        "Line 3: Invalid CIDR '': cannot parse integer from empty string"
    );
    assert_eq!(fault(&peer("AllowedIPs = 10.0.0.0/33")), "Line 3: CIDR too large");
    assert_eq!(
        fault(&peer("PersistentKeepalive = -1")),
        "Line 3: Invalid Keepalive: invalid digit found in string"
    );
    assert_eq!(fault("[Peer]\n"), "Line 1: Peer missing PublicKey");
    assert_eq!(fault("[Peer]\n\n[Peer]\n"), "Line 2: Peer missing PublicKey");
    assert_eq!(fault(""), "Missing [Interface] PrivateKey");
}

#[test]
fn comments_blanks_and_unknown_keys_are_skipped() {
    let t = format!(
        "; a note\r\n  # another\r\n\r\n[Interface]\r\n  PrivateKey = {}  \r\nMTU = 1420\r\n",
        key(9)
    );
    let c = parse(&t).unwrap();
    assert_eq!(c.private_key[0], 9);
    assert!(c.peers.is_empty());
}

#[test]
fn host_names_are_asked_for_in_turn() {
    let t = format!(
        "[Interface]\nPrivateKey = {}\n[Peer]\nPublicKey = {}\nEndpoint = vpn.example:51820\n[Peer]\nPublicKey = {}\nEndpoint = two.example:1\n",
        key(1),
        key(2),
        key(3)
    );
    let a = SocketAddr::V4(SocketAddrV4 { ip: Ipv4Addr::new(1, 2, 3, 4), port: 51820 });
    let b = SocketAddr::V6(SocketAddrV6 {
        ip: Ipv6Addr { bits: 1 },
        port: 1,
        flowinfo: 0,
        scope_id: 0,
    });
    match parse_wireguard_config(&t, &vec![]) {
        Err(ParseError::Unresolved(n)) => assert_eq!(n, "vpn.example:51820"),
        _ => panic!("a lookup is needed"),
    }
    match parse_wireguard_config(&t, &vec![Answer::Address(a)]) {
        Err(ParseError::Unresolved(n)) => assert_eq!(n, "two.example:1"),
        _ => panic!("another lookup is needed"),
    }
    let c = parse_wireguard_config(&t, &vec![Answer::Address(a), Answer::Address(b)]).unwrap();
    assert_eq!(c.peers[0].endpoint, Some(a));
    assert_eq!(c.peers[0].endpoint_hostname.as_deref(), Some("vpn.example"));
    assert_eq!(c.peers[1].endpoint, Some(b));
    match parse_wireguard_config(&t, &vec![Answer::Nothing]) {
        Err(ParseError::Invalid(m)) => {
            assert_eq!(m, "Line 5: Endpoint 'vpn.example:51820' resolved to no addresses")
        }
        _ => panic!("no address"),
    }
    match parse_wireguard_config(&t, &vec![Answer::Failed("timed out".to_string())]) {
        Err(ParseError::Invalid(m)) => {
            assert_eq!(m, "Line 5: Failed to resolve 'vpn.example:51820': timed out")
        }
        _ => panic!("the lookup failed"),
    }
}

#[test]
fn each_senseless_configuration_has_its_message() {
    let good = parse(&text()).unwrap();
    let says = |c: &ParsedConfig| validate_config(c).unwrap_err();

    let mut c = good.clone();
    c.private_key = [0; 32];
    assert!(says(&c).starts_with("PrivateKey состоит из нулей"));
    let mut c = good.clone();
    c.peers.clear();
    assert!(says(&c).starts_with("Секция [Peer] отсутствует"));
    let mut c = good.clone();
    c.interface_prefix = None;
    assert!(says(&c).starts_with("Поле Address"));
    let mut c = good.clone();
    c.interface_prefix = Some(33);
    assert_eq!(says(&c), "Address: префикс /33 недопустим для IPv4 (максимум /32)");
    let mut c = good.clone();
    c.interface_address = Some(IpAddr::V6(Ipv6Addr { bits: 1 }));
    c.interface_prefix = Some(129);
    assert_eq!(says(&c), "Address: префикс /129 недопустим для IPv6 (максимум /128)");
    let mut c = good.clone();
    c.peers[0].public_key = [0; 32];
    assert_eq!(says(&c), "Peer #1: PublicKey состоит из нулей.");
    let mut c = good.clone();
    c.peers[0].public_key = c.private_key;
    assert!(says(&c).starts_with("Peer #1: PublicKey совпадает"));
    let mut c = good.clone();
    let again = c.peers[0].clone();
    c.peers.push(again);
    assert_eq!(says(&c), "Peer #2: PublicKey уже используется в другом [Peer].");
    let mut c = good.clone();
    c.peers[0].endpoint = None;
    assert!(says(&c).starts_with("Peer #1: Endpoint отсутствует"));
    let mut c = good.clone();
    c.peers[0].allowed_ips.clear();
    assert!(says(&c).starts_with("Peer #1: AllowedIPs пуст"));
    let mut c = good.clone();
    c.peers[0].preshared_key = Some([0; 32]);
    assert!(says(&c).starts_with("Peer #1: PresharedKey состоит из нулей"));
}

#[test]
fn test_interface_offsets() {
    let i = WireguardInterface {
        flags: 0x0403_0201,
        listen_port: 0x0605,
        private_key: [7; 32],
        public_key: [8; 32],
        peers_count: 0x0c0b_0a09,
    };
    let mut b = Vec::new();
    i.write(&mut b);
    assert_eq!(b.len(), 80);
    assert_eq!(b[0..4], [1, 2, 3, 4]);
    assert_eq!(b[4..6], [5, 6]);
    assert_eq!(b[6..38], [7; 32]);
    assert_eq!(b[38..70], [8; 32]);
    assert_eq!(b[70..72], [0, 0]);
    assert_eq!(b[72..76], [9, 10, 11, 12]);
    assert_eq!(b[76..80], [0; 4]);
    assert_eq!(INTERFACE_SIZE, 80);
}

#[test]
fn test_peer_offsets() {
    let p = WireguardPeer {
        flags: 1,
        reserved: 2,
        public_key: [3; 32],
        preshared_key: [4; 32],
        persistent_keepalive: 5,
        endpoint: vec![6; 28],
        tx_bytes: 7,
        rx_bytes: 8,
        last_handshake: 9,
        allowed_ips_count: 10,
    };
    let mut b = Vec::new();
    p.write(&mut b);
    assert_eq!(b.len(), 136);
    assert_eq!(b[0], 1);
    assert_eq!(b[4], 2);
    assert_eq!(b[8..40], [3; 32]);
    assert_eq!(b[40..72], [4; 32]);
    assert_eq!(b[72], 5);
    assert_eq!(b[74..76], [0, 0]);
    assert_eq!(b[76..104], [6; 28]);
    assert_eq!(b[104], 7);
    assert_eq!(b[112], 8);
    assert_eq!(b[120], 9);
    assert_eq!(b[128], 10);
    assert_eq!(b[132..136], [0; 4]);
    assert_eq!(PEER_SIZE, 136);
}

#[test]
fn test_allowed_ip_offsets() {
    let c = parse(&text()).unwrap();
    let blob = serialize_config(&c).unwrap();
    assert_eq!(blob.len(), INTERFACE_SIZE + PEER_SIZE + 2 * ALLOWED_IP_SIZE);
    let first = &blob[INTERFACE_SIZE + PEER_SIZE..INTERFACE_SIZE + PEER_SIZE + 24];
    assert_eq!(first[16..18], AF_INET.to_le_bytes());
    assert_eq!(first[18], 0);
    let second = &blob[INTERFACE_SIZE + PEER_SIZE + 24..];
    assert_eq!(second[16..18], AF_INET6.to_le_bytes());
    assert_eq!(ALLOWED_IP_SIZE, 24);
}

#[test]
fn test_byte_order_fix() {
    let a = SocketAddr::V4(SocketAddrV4 { ip: Ipv4Addr::new(192, 168, 1, 1), port: 0x1234 });
    let b = socket_addr_to_sockaddr_inet(&a);
    assert_eq!(b.len(), 28);
    assert_eq!(b[0..2], AF_INET.to_le_bytes());
    assert_eq!(b[2..4], [0x12, 0x34]);
    assert_eq!(b[4..8], [0xC0, 0xA8, 0x01, 0x01]);
    assert_eq!(b[8..28], [0; 20]);
}

#[test]
fn newer_socket_layout() {
    let a = SocketAddr::V6(SocketAddrV6 {
        ip: Ipv6Addr { bits: 0x2001_0db8_0000_0000_0000_0000_0000_0001 },
        port: 443,
        flowinfo: 0x0102_0304,
        scope_id: 9,
    });
    let b = socket_addr_to_sockaddr_inet(&a);
    assert_eq!(b[0..2], AF_INET6.to_le_bytes());
    assert_eq!(b[2..4], [1, 187]);
    assert_eq!(b[4..8], [4, 3, 2, 1]);
    assert_eq!(b[8..12], [0x20, 0x01, 0x0d, 0xb8]);
    assert_eq!(b[23], 1);
    assert_eq!(b[24..28], [9, 0, 0, 0]);
}

#[test]
fn an_allowed_range_keeps_its_bytes() {
    let mut c = parse(&text()).unwrap();
    c.peers[0].allowed_ips.truncate(1);
    c.peers[0].allowed_ips[0].address = IpAddr::V4(Ipv4Addr::new(10, 20, 30, 40));
    c.peers[0].allowed_ips[0].cidr = 24;
    let blob = serialize_config(&c).unwrap();
    let tail = &blob[INTERFACE_SIZE + PEER_SIZE..];
    assert_eq!(tail[0..4], [10, 20, 30, 40]);
    assert_eq!(tail[4..16], [0; 12]);
    assert_eq!(tail[18], 24);
    assert_eq!(tail.len(), ALLOWED_IP_SIZE);
    let direct = WireguardAllowedIp {
        address: IpAddr::V4(Ipv4Addr::new(10, 20, 30, 40)),
        cidr: 24,
    };
    let mut b = Vec::new();
    direct.write(&mut b);
    assert_eq!(b, tail.to_vec());
}

#[test]
fn flags_say_what_is_there() {
    let mut c = parse(&text()).unwrap();
    let blob = serialize_config(&c).unwrap();
    assert_eq!(blob[0], 2 + 4 + 8);
    assert_eq!(blob[80], 1 + 4 + 8 + 32);
    c.listen_port = None;
    c.peers[0].preshared_key = Some([5; 32]);
    c.peers[0].persistent_keepalive = None;
    c.peers[0].endpoint = None;
    let blob = serialize_config(&c).unwrap();
    assert_eq!(blob[0], 2 + 8);
    assert_eq!(blob[80], 1 + 2 + 32);
    assert_eq!(blob[72..76], [1, 0, 0, 0]);
}

#[test]
fn a_written_configuration_counts_nothing_yet() {
    let mut c = parse(&text()).unwrap();
    let again = c.peers[0].clone();
    c.peers.push(again);
    let blob = serialize_config(&c).unwrap();
    assert_eq!(read_peer_stats(&blob), vec![(0, 0, 0), (0, 0, 0)]);
}

#[test]
fn counters_are_read_from_their_places() {
    let c = parse(&text()).unwrap();
    let mut blob = serialize_config(&c).unwrap();
    blob[80 + 104] = 7;
    blob[80 + 112 + 1] = 1;
    let ft: u64 = 116_444_736_000_000_000 + 1_700_000_000 * 10_000_000;
    blob[80 + 120..80 + 128].copy_from_slice(&ft.to_le_bytes());
    assert_eq!(read_peer_stats(&blob), vec![(7, 256, 1_700_000_000)]);
    assert!(read_peer_stats(&blob[..79]).is_empty());
    assert!(read_peer_stats(&blob[..200]).is_empty());
}

#[test]
fn file_times() {
    assert_eq!(filetime_to_unix(0), 0);
    assert_eq!(filetime_to_unix(1), 0);
    assert_eq!(filetime_to_unix(116_444_736_000_000_000), 0);
    assert_eq!(filetime_to_unix(116_444_736_010_000_000), 1);
}

#[test]
fn dumps() {
    assert_eq!(
        hexdump(b"GET / HTTP/1.1\r\n", 16),
        "00000000  47 45 54 20 2f 20 48 54  54 50 2f 31 2e 31 0d 0a  |GET / HTTP/1.1..|\n"
    );
    assert_eq!(
        hexdump(&[0x41, 0x7f, 0x42], 2),
        format!("00000000  41 7f {} |A.|\n... (1 more bytes)\n", " ".repeat(14 * 3 + 1))
    );
    assert_eq!(hexdump(&[], 8), "");
    assert_eq!(plain_dump::hexdump(&[1, 2, 0xff], 16), "01 02 ff \n");
    assert_eq!(
        plain_dump::hexdump(&[0; 17], 16),
        format!("{}\n...\n", "00 ".repeat(16))
    );
}

#[test]
fn idle_lines_can_stand_anywhere() {
    let plain = text();
    let told = parse(&plain).unwrap();
    let mut noisy = String::from("; first\n");
    for line in plain.lines() {
        noisy.push_str(line);
        noisy.push_str("\n\n# note\n   ; note\nMTU = 1420\nTable=off\n");
    }
    let c = parse(&noisy).unwrap();
    assert_eq!(c.private_key, told.private_key);
    assert_eq!(c.listen_port, told.listen_port);
    assert_eq!(c.interface_address, told.interface_address);
    assert_eq!(c.interface_prefix, told.interface_prefix);
    assert_eq!(c.dns_servers, told.dns_servers);
    assert_eq!(c.peers.len(), 1);
    assert_eq!(c.peers[0].public_key, told.peers[0].public_key);
    assert_eq!(c.peers[0].endpoint, told.peers[0].endpoint);
    assert_eq!(c.peers[0].allowed_ips.len(), 2);
    assert_eq!(c.peers[0].persistent_keepalive, Some(25));
}

#[test]
fn peers_come_in_the_order_of_their_parts() {
    let mut t = text();
    for first in [3u8, 2, 7] {
        t.push_str(&format!("[Peer]\nPublicKey = {}\n", key(first)));
    }
    let c = parse(&t).unwrap();
    let firsts: Vec<u8> = c.peers.iter().map(|p| p.public_key[0]).collect();
    assert_eq!(firsts, vec![0x84, 3, 2, 7]);
}
