//! The addresses, routes and name servers of an interface.

use crate::address::IpAddr;
use crate::address_text::{ip_to_text, ip_words};
use crate::text::{decimal, push_decimal};
use crate::wireguard_config::{family, AF_INET, AF_INET6};
use vstd::arithmetic::power::pow;
use vstd::prelude::*;

verus! {

/// The status of an entry that is there already.
pub const ENTRY_EXISTS: u32 = 5010;

/// The metric of a route that leads into an interface.
pub const INTERFACE_METRIC: u32 = 1;

/// An address to give to an interface; it counts at once, without a search for
/// others that use it.
#[derive(Debug, Clone, Copy, PartialEq, Eq, Structural)]
pub struct AddressRow {
    pub interface_index: u32,
    pub prefix_length: u8,
    pub family: u16,
    pub address: IpAddr,
}

/// A route to lead into an interface.
#[derive(Debug, Clone, Copy, PartialEq, Eq, Structural)]
pub struct InterfaceRoute {
    pub interface_index: u32,
    pub metric: u32,
    pub prefix_length: u8,
    pub family: u16,
    pub destination: IpAddr,
}

fn family_of(ip: IpAddr) -> (r: u16)
    ensures
        r == family(ip),
{
    if ip.is_ipv4() {
        AF_INET
    } else {
        AF_INET6
    }
}

/// The entry that gives an interface an address.
pub fn address_row(interface_index: u32, ip: IpAddr, prefix_len: u8) -> (r: AddressRow)
    ensures
        r == (AddressRow {
            interface_index,
            prefix_length: prefix_len,
            family: family(ip),
            address: ip,
        }),
{
    AddressRow {
        interface_index,
        prefix_length: prefix_len,
        family: family_of(ip),
        address: ip,
    }
}

/// The entry that leads a range into an interface.
pub fn interface_route(interface_index: u32, destination: IpAddr, prefix_len: u8) -> (r:
    InterfaceRoute)
    ensures
        r == (InterfaceRoute {
            interface_index,
            metric: INTERFACE_METRIC,
            prefix_length: prefix_len,
            family: family(destination),
            destination,
        }),
{
    InterfaceRoute {
        interface_index,
        metric: INTERFACE_METRIC,
        prefix_length: prefix_len,
        family: family_of(destination),
        destination,
    }
}

/// What comes of a call that makes an entry: an entry that is there already is no
/// error.
pub fn entry_result(call: &str, status: u32) -> (r: Result<(), String>)
    ensures
        if status == 0 || status == ENTRY_EXISTS {
            r is Ok
        } else {
            r matches Err(e) && e@ == call@ + " failed: "@ + decimal(status as nat)
        },
{
    if status != 0 && status != ENTRY_EXISTS {
        let mut out = call.to_string();
        out.append(" failed: ");
        push_decimal(&mut out, status as u64);
        return Err(out);
    }
    Ok(())
}

/// The character for a number below sixteen.
pub open spec fn upper_digit(n: int) -> char {
    if n < 10 {
        (48 + n) as char
    } else {
        (55 + n) as char
    }
}

/// A number in hexadecimal, in capitals and with a fixed number of places.
pub open spec fn upper_hex(n: int, places: nat) -> Seq<char>
    decreases places,
{
    if places == 0 {
        seq![]
    } else {
        upper_hex(n / 16, (places - 1) as nat).push(upper_digit(n % 16))
    }
}

fn push_upper(out: &mut String, n: u32, places: u32)
    ensures
        final(out)@ == old(out)@ + upper_hex(n as int, places as nat),
    decreases places,
{
    if places == 0 {
        assert(out@ =~= old(out)@ + upper_hex(n as int, 0));
    } else {
        push_upper(out, n / 16, places - 1);
        let d: u8 = (n % 16) as u8;
        let c: u8 = if d < 10 {
            48 + d
        } else {
            55 + d
        };
        out.push(c as char);
        assert(out@ =~= old(out)@ + upper_hex(n as int, places as nat));
    }
}

/// The text of an identifier of four parts, the last of them eight bytes.
pub open spec fn guid_words(data1: u32, data2: u16, data3: u16, data4: Seq<u8>) -> Seq<char> {
    "{"@ + upper_hex(data1 as int, 8) + "-"@ + upper_hex(data2 as int, 4) + "-"@ + upper_hex(
        data3 as int,
        4,
    ) + "-"@ + upper_hex(data4[0] as int, 2) + upper_hex(data4[1] as int, 2) + "-"@ + upper_hex(
        data4[2] as int,
        2,
    ) + upper_hex(data4[3] as int, 2) + upper_hex(data4[4] as int, 2) + upper_hex(
        data4[5] as int,
        2,
    ) + upper_hex(data4[6] as int, 2) + upper_hex(data4[7] as int, 2) + "}"@
}

/// The text of an identifier of four parts.
pub fn guid_text(data1: u32, data2: u16, data3: u16, data4: [u8; 8]) -> (r: String)
    ensures
        r@ == guid_words(data1, data2, data3, data4@),
{
    let mut out = "{".to_string();
    push_upper(&mut out, data1, 8);
    out.append("-");
    push_upper(&mut out, data2 as u32, 4);
    out.append("-");
    push_upper(&mut out, data3 as u32, 4);
    out.append("-");
    push_upper(&mut out, data4[0] as u32, 2);
    push_upper(&mut out, data4[1] as u32, 2);
    out.append("-");
    push_upper(&mut out, data4[2] as u32, 2);
    push_upper(&mut out, data4[3] as u32, 2);
    push_upper(&mut out, data4[4] as u32, 2);
    push_upper(&mut out, data4[5] as u32, 2);
    push_upper(&mut out, data4[6] as u32, 2);
    push_upper(&mut out, data4[7] as u32, 2);
    out.append("}");
    out
}

/// The key under which the settings of an interface are kept.
pub fn interface_key(guid: &str) -> (r: String)
    ensures
        r@ == "SYSTEM\\CurrentControlSet\\Services\\Tcpip\\Parameters\\Interfaces\\"@ + guid@,
{
    let mut out = "SYSTEM\\CurrentControlSet\\Services\\Tcpip\\Parameters\\Interfaces\\".to_string();
    out.append(guid);
    out
}

/// Some addresses with commas between them.
pub open spec fn comma_list(servers: Seq<IpAddr>) -> Seq<char>
    decreases servers.len(),
{
    if servers.len() == 0 {
        seq![]
    } else if servers.len() == 1 {
        ip_words(servers[0])
    } else {
        comma_list(servers.drop_last()) + ","@ + ip_words(servers.last())
    }
}

/// The setting for some name servers; none where there are none.
pub fn name_server_value(servers: &Vec<IpAddr>) -> (r: Option<String>)
    ensures
        match r {
            Some(s) => servers@.len() > 0 && s@ == comma_list(servers@),
            None => servers@.len() == 0,
        },
{
    if servers.len() == 0 {
        return None;
    }
    let mut out = ip_to_text(servers[0]);
    let mut i: usize = 1;
    assert(servers@.take(1).len() == 1);
    while i < servers.len()
        invariant
            1 <= i <= servers@.len(),
            out@ == comma_list(servers@.take(i as int)),
        decreases servers@.len() - i,
    {
        assert(servers@.take(i as int + 1).drop_last() =~= servers@.take(i as int));
        out.append(",");
        out.append(ip_to_text(servers[i]).as_str());
        i = i + 1;
    }
    assert(servers@.take(i as int) =~= servers@);
    Some(out)
}

// ---------------------------------------------------------------------------
// Laws
// ---------------------------------------------------------------------------

/// The number that a capital hexadecimal digit stands for.
pub open spec fn capital_value(c: char) -> int {
    if '0' <= c <= '9' {
        c as int - '0' as int
    } else {
        c as int - 'A' as int + 10
    }
}

/// Whether a character is a capital hexadecimal digit.
pub open spec fn is_capital(c: char) -> bool {
    '0' <= c <= '9' || 'A' <= c <= 'F'
}

/// The number that some capital hexadecimal digits write.
pub open spec fn capitals_number(s: Seq<char>) -> int
    decreases s.len(),
{
    if s.len() == 0 {
        0
    } else {
        capitals_number(s.drop_last()) * 16 + capital_value(s.last())
    }
}

/// Whether so many capital hexadecimal digits, from a place of a text on, write a
/// number.
pub open spec fn writes(s: Seq<char>, from: int, places: int, n: int) -> bool {
    let part = s.subrange(from, from + places);
    &&& 0 <= from
    &&& from + places <= s.len()
    &&& forall|i: int| 0 <= i < part.len() ==> is_capital(#[trigger] part[i])
    &&& capitals_number(part) == n
}

proof fn lemma_upper(n: int, places: nat)
    requires
        0 <= n < pow(16, places),
    ensures
        upper_hex(n, places).len() == places,
        forall|i: int| 0 <= i < places ==> is_capital(#[trigger] upper_hex(n, places)[i]),
        capitals_number(upper_hex(n, places)) == n,
    decreases places,
{
    reveal(pow);
    if places > 0 {
        let p = pow(16, (places - 1) as nat);
        assert(n / 16 < p) by (nonlinear_arith)
            requires
                n < 16 * p,
        ;
        lemma_upper(n / 16, (places - 1) as nat);
        let rest = upper_hex(n / 16, (places - 1) as nat);
        let s = upper_hex(n, places);
        assert(s.drop_last() =~= rest);
        assert forall|i: int| 0 <= i < places implies is_capital(#[trigger] s[i]) by {
            if i < places - 1 {
                assert(s[i] == rest[i]);
            }
        }
    }
}

proof fn lemma_powers()
    ensures
        pow(16, 2) == 0x100,
        pow(16, 4) == 0x1_0000,
        pow(16, 8) == 0x1_0000_0000,
{
    reveal_with_fuel(pow, 9);
}

/// An identifier is written in braces, its parts in capital hexadecimal digits with
/// dashes between them; of the eight bytes two stand before the last dash.
pub proof fn law_guid(data1: u32, data2: u16, data3: u16, data4: Seq<u8>)
    requires
        data4.len() == 8,
    ensures
        ({
            let s = guid_words(data1, data2, data3, data4);
            &&& s.len() == 38
            &&& s[0] == '{' && s[37] == '}'
            &&& s[9] == '-' && s[14] == '-' && s[19] == '-' && s[24] == '-'
            &&& writes(s, 1, 8, data1 as int)
            &&& writes(s, 10, 4, data2 as int)
            &&& writes(s, 15, 4, data3 as int)
            &&& writes(s, 20, 2, data4[0] as int)
            &&& writes(s, 22, 2, data4[1] as int)
            &&& forall|i: int| 2 <= i < 8 ==> writes(s, 21 + 2 * i, 2, #[trigger] data4[i] as int)
        }),
{
    let s = guid_words(data1, data2, data3, data4);
    reveal_strlit("{");
    reveal_strlit("}");
    reveal_strlit("-");
    lemma_powers();
    lemma_upper(data1 as int, 8);
    lemma_upper(data2 as int, 4);
    lemma_upper(data3 as int, 4);
    lemma_upper(data4[0] as int, 2);
    lemma_upper(data4[1] as int, 2);
    lemma_upper(data4[2] as int, 2);
    lemma_upper(data4[3] as int, 2);
    lemma_upper(data4[4] as int, 2);
    lemma_upper(data4[5] as int, 2);
    lemma_upper(data4[6] as int, 2);
    lemma_upper(data4[7] as int, 2);
    assert(s.subrange(1, 9) =~= upper_hex(data1 as int, 8));
    assert(s.subrange(10, 14) =~= upper_hex(data2 as int, 4));
    assert(s.subrange(15, 19) =~= upper_hex(data3 as int, 4));
    assert(s.subrange(20, 22) =~= upper_hex(data4[0] as int, 2));
    assert(s.subrange(22, 24) =~= upper_hex(data4[1] as int, 2));
    assert(s.subrange(25, 27) =~= upper_hex(data4[2] as int, 2));
    assert(s.subrange(27, 29) =~= upper_hex(data4[3] as int, 2));
    assert(s.subrange(29, 31) =~= upper_hex(data4[4] as int, 2));
    assert(s.subrange(31, 33) =~= upper_hex(data4[5] as int, 2));
    assert(s.subrange(33, 35) =~= upper_hex(data4[6] as int, 2));
    assert(s.subrange(35, 37) =~= upper_hex(data4[7] as int, 2));
    assert forall|i: int| 2 <= i < 8 implies writes(s, 21 + 2 * i, 2, #[trigger] data4[i] as int) by {
        assert(i == 2 || i == 3 || i == 4 || i == 5 || i == 6 || i == 7);
    }
}

} // verus!
