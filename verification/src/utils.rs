//! Reading ranges, and finding the driver library.

use crate::address::{ip_text, ipv4_text, parse_ip, parse_ipv4, IpAddr, Ipv4Addr};
use crate::text::{
    chars_of, lemma_read_number_bound, parse_number, pieces, read_number, same_text, split, texts,
    views,
};
use vstd::prelude::*;

verus! {

/// The range that a text `address/length` stands for, or the message.
pub open spec fn cidr_of(s: Seq<char>) -> Result<(IpAddr, u8), Seq<char>> {
    let parts = pieces(s, '/');
    if parts.len() != 2 {
        Err("Invalid CIDR format: "@ + s)
    } else {
        match ip_text(parts[0]) {
            None => Err("Invalid IP in CIDR: "@ + "invalid IP address syntax"@),
            Some(ip) => match read_number(parts[1], 255) {
                Err(e) => Err("Invalid prefix in CIDR: "@ + e.words()),
                Ok(n) => Ok((ip, n as u8)),
            },
        }
    }
}

/// The range that a text `address/length` stands for, or the message.
pub fn parse_cidr(cidr: &str) -> (r: Result<(IpAddr, u8), String>)
    ensures
        match r {
            Ok(range) => cidr_of(cidr@) == Ok::<(IpAddr, u8), Seq<char>>(range),
            Err(e) => cidr_of(cidr@) == Err::<(IpAddr, u8), Seq<char>>(e@),
        },
{
    let chars = chars_of(cidr);
    let parts = split(chars.as_slice(), '/');
    assert(views(parts@).len() == parts@.len());
    if parts.len() != 2 {
        let mut out = "Invalid CIDR format: ".to_string();
        out.append(cidr);
        return Err(out);
    }
    assert(views(parts@)[0] == parts@[0]@);
    assert(views(parts@)[1] == parts@[1]@);
    match parse_ip(parts[0].as_slice()) {
        None => {
            let mut out = "Invalid IP in CIDR: ".to_string();
            out.append("invalid IP address syntax");
            Err(out)
        },
        Some(ip) => match parse_number(parts[1].as_slice(), 255) {
            Err(e) => {
                let mut out = "Invalid prefix in CIDR: ".to_string();
                out.append(e.text());
                Err(out)
            },
            Ok(n) => {
                proof {
                    lemma_read_number_bound(parts@[1]@, 255);
                }
                Ok((ip, n as u8))
            },
        },
    }
}

/// The IPv4 range that a text `address/length` stands for, if any.
pub open spec fn destination_of(s: Seq<char>) -> Option<(Ipv4Addr, u8)> {
    let parts = pieces(s, '/');
    if parts.len() != 2 {
        None
    } else {
        match (ipv4_text(parts[0]), read_number(parts[1], 255)) {
            (Some(ip), Ok(n)) => Some((ip, n as u8)),
            _ => None,
        }
    }
}

/// The IPv4 range that a text `address/length` stands for, if any.
pub fn parse_destination(s: &str) -> (r: Option<(Ipv4Addr, u8)>)
    ensures
        r == destination_of(s@),
{
    let chars = chars_of(s);
    let parts = split(chars.as_slice(), '/');
    assert(views(parts@).len() == parts@.len());
    if parts.len() != 2 {
        return None;
    }
    assert(views(parts@)[0] == parts@[0]@);
    assert(views(parts@)[1] == parts@[1]@);
    match parse_ipv4(parts[0].as_slice()) {
        None => None,
        Some(ip) => match parse_number(parts[1].as_slice(), 255) {
            Err(_) => None,
            Ok(n) => {
                proof {
                    lemma_read_number_bound(parts@[1]@, 255);
                }
                Some((ip, n as u8))
            },
        },
    }
}

/// The place of a library: the bundled one if it is there, else the one for
/// development if that is there.
pub fn resolve_dll_path(dll_name: &str, bundled: Option<String>, development: Option<String>) -> (r:
    Result<String, String>)
    ensures
        match (bundled, development) {
            (Some(p), _) => r matches Ok(s) && s@ == p@,
            (None, Some(p)) => r matches Ok(s) && s@ == p@,
            (None, None) => r matches Err(e) && e@ == "DLL "@ + dll_name@
                + " not found in resources or dev path"@,
        },
{
    match bundled {
        Some(p) => Ok(p),
        None => match development {
            Some(p) => Ok(p),
            None => {
                let mut out = "DLL ".to_string();
                out.append(dll_name);
                out.append(" not found in resources or dev path");
                Err(out)
            },
        },
    }
}

/// The places where the driver library is looked for when the program is built, by
/// the processor that it is built for.
pub open spec fn library_places(arch: Seq<char>) -> Option<Seq<Seq<char>>> {
    if arch == "x86_64"@ {
        Some(
            seq![
                "sdk/wireguard-nt/bin/amd64/wireguard.dll"@,
                "sdk/wireguard-nt/amd64/wireguard.dll"@,
                "sdk/wireguard-nt/wireguard-nt/bin/amd64/wireguard.dll"@,
            ],
        )
    } else if arch == "aarch64"@ {
        Some(
            seq![
                "sdk/wireguard-nt/bin/arm64/wireguard.dll"@,
                "sdk/wireguard-nt/arm64/wireguard.dll"@,
                "sdk/wireguard-nt/wireguard-nt/bin/arm64/wireguard.dll"@,
            ],
        )
    } else {
        None
    }
}

/// The places where the driver library is looked for when the program is built;
/// none for a processor that is not supported.
pub fn library_candidates(arch: &str) -> (r: Option<Vec<String>>)
    ensures
        match r {
            Some(list) => library_places(arch@) == Some(texts(list@)),
            None => library_places(arch@) is None,
        },
{
    let amd = if same_text(arch, "x86_64") {
        true
    } else if same_text(arch, "aarch64") {
        false
    } else {
        return None;
    };
    let mut out: Vec<String> = Vec::new();
    if amd {
        out.push("sdk/wireguard-nt/bin/amd64/wireguard.dll".to_string());
        out.push("sdk/wireguard-nt/amd64/wireguard.dll".to_string());
        out.push("sdk/wireguard-nt/wireguard-nt/bin/amd64/wireguard.dll".to_string());
    } else {
        out.push("sdk/wireguard-nt/bin/arm64/wireguard.dll".to_string());
        out.push("sdk/wireguard-nt/arm64/wireguard.dll".to_string());
        out.push("sdk/wireguard-nt/wireguard-nt/bin/arm64/wireguard.dll".to_string());
    }
    assert(texts(out@) =~= library_places(arch@)->0);
    Some(out)
}

} // verus!
