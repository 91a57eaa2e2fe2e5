//! Where each setting of a configuration text ends up, and which texts are read.

use crate::address::{ip_text, socket_text, IpAddr, SocketAddr};
use crate::text::{
    decimal, lemma_position, lemma_read_number_bound, lines, pieces, position, read_number,
    split_once, trimmed,
};
use crate::wireguard_config::{ParsedAllowedIp, PeerView};
use crate::wireguard_parser::{
    allowed_ip_of, allowed_ips_of, base64_decoded, config_text, endpoint_of, filled, key_of,
    nothing_read, read_interface, read_line, read_lines, read_peer, AnswerView, ParseFault,
    ReadingView, SectionView,
};
use crate::wireguard_parser_laws::{
    good, lemma_peers_begun, lemma_peers_stay, opens_peer, peer_heads,
};
use vstd::prelude::*;

verus! {

// ---------------------------------------------------------------------------
// Lines
// ---------------------------------------------------------------------------

/// Whether a line is passed over: it is blank or a comment.
pub open spec fn passed_over(raw: Seq<char>) -> bool {
    let line = trimmed(raw);
    line.len() == 0 || line[0] == '#' || line[0] == ';'
}

/// Whether a line stands in square brackets, and so opens a part.
pub open spec fn opens_part(raw: Seq<char>) -> bool {
    let line = trimmed(raw);
    line.len() > 0 && line[0] == '[' && line.last() == ']'
}

/// What stands before the first equals sign of a line, white space taken off.
pub open spec fn key_in(raw: Seq<char>) -> Seq<char> {
    let line = trimmed(raw);
    trimmed(line.take(position(line, '=')))
}

/// What stands behind the first equals sign of a line, white space taken off.
pub open spec fn value_in(raw: Seq<char>) -> Seq<char> {
    let line = trimmed(raw);
    trimmed(line.skip(position(line, '=') + 1))
}

/// Whether a line has an equals sign.
pub open spec fn has_equals(raw: Seq<char>) -> bool {
    let line = trimmed(raw);
    position(line, '=') < line.len()
}

/// Whether a line is a setting with a key.
pub open spec fn says(raw: Seq<char>, key: Seq<char>) -> bool {
    !passed_over(raw) && !opens_part(raw) && has_equals(raw) && key_in(raw) == key
}

/// The last line before `n` that opens a part, or -1.
pub open spec fn head_before(list: Seq<Seq<char>>, n: int) -> int
    decreases n,
{
    if n <= 0 {
        -1
    } else if opens_part(list[n - 1]) {
        n - 1
    } else {
        head_before(list, n - 1)
    }
}

/// Whether the line at `n` stands in a part that a given line opens.
pub open spec fn stands_in(list: Seq<Seq<char>>, n: int, head: Seq<char>) -> bool {
    head_before(list, n) >= 0 && trimmed(list[head_before(list, n)]) == head
}

/// The last line between two that is a setting with a key.
pub open spec fn latest(list: Seq<Seq<char>>, from: int, to: int, key: Seq<char>) -> Option<int>
    decreases to,
{
    if to <= 0 || to - 1 <= from {
        None
    } else if says(list[to - 1], key) {
        Some(to - 1)
    } else {
        latest(list, from, to - 1, key)
    }
}

/// The last line before `n` that is a setting with a key in an interface's part.
pub open spec fn latest_in_interface(list: Seq<Seq<char>>, n: int, key: Seq<char>) -> Option<int>
    decreases n,
{
    if n <= 0 {
        None
    } else if stands_in(list, n - 1, "[Interface]"@) && says(list[n - 1], key) {
        Some(n - 1)
    } else {
        latest_in_interface(list, n - 1, key)
    }
}

// ---------------------------------------------------------------------------
// Values
// ---------------------------------------------------------------------------

/// The key of 32 bytes that a value writes in base64.
pub open spec fn key_written(value: Seq<char>) -> Option<Seq<u8>> {
    match base64_decoded(value) {
        Ok(bytes) => if bytes.len() == 32 {
            Some(bytes)
        } else {
            None
        },
        Err(_) => None,
    }
}

/// The range that a text writes: an address, a slash, and the length of a prefix
/// that the family of the address allows.
pub open spec fn range_written(s: Seq<char>) -> Option<ParsedAllowedIp> {
    let p = position(s, '/');
    if p < s.len() {
        match (ip_text(s.take(p)), read_number(s.skip(p + 1), 255)) {
            (Some(IpAddr::V4(a)), Ok(n)) => if n <= 32 {
                Some(ParsedAllowedIp { address: IpAddr::V4(a), cidr: n as u8 })
            } else {
                None
            },
            (Some(IpAddr::V6(a)), Ok(n)) => if n <= 128 {
                Some(ParsedAllowedIp { address: IpAddr::V6(a), cidr: n as u8 })
            } else {
                None
            },
            _ => None,
        }
    } else {
        None
    }
}

/// The ranges that some texts write, blank ones left out.
pub open spec fn ranges_written(p: Seq<Seq<char>>) -> Seq<ParsedAllowedIp>
    decreases p.len(),
{
    if p.len() == 0 {
        seq![]
    } else if trimmed(p.last()).len() == 0 {
        ranges_written(p.drop_last())
    } else {
        ranges_written(p.drop_last()).push(range_written(trimmed(p.last()))->0)
    }
}

/// Whether each of some texts writes a range, blank ones left out.
pub open spec fn all_ranges(p: Seq<Seq<char>>) -> bool {
    forall|i: int|
        0 <= i < p.len() && trimmed(#[trigger] p[i]).len() > 0 ==> range_written(
            trimmed(p[i]),
        ) is Some
}

/// Some texts, white space taken off, blank ones left out.
pub open spec fn names_written(p: Seq<Seq<char>>) -> Seq<Seq<char>>
    decreases p.len(),
{
    if p.len() == 0 {
        seq![]
    } else if trimmed(p.last()).len() == 0 {
        names_written(p.drop_last())
    } else {
        names_written(p.drop_last()).push(trimmed(p.last()))
    }
}

/// The address and the length of the prefix that the value of an interface's
/// address writes.
pub open spec fn address_written(value: Seq<char>) -> Option<(IpAddr, u8)> {
    let p = position(value, '/');
    if p < value.len() {
        match (ip_text(trimmed(value.take(p))), read_number(trimmed(value.skip(p + 1)), 255)) {
            (Some(ip), Ok(n)) => Some((ip, n as u8)),
            _ => None,
        }
    } else {
        None
    }
}

/// Whether a line names a host whose address has to be asked for.
pub open spec fn asks(list: Seq<Seq<char>>, l: int) -> bool {
    &&& stands_in(list, l, "[Peer]"@)
    &&& says(list[l], "Endpoint"@)
    &&& socket_text(value_in(list[l])) is None
}

/// How many lines before `n` name a host whose address has to be asked for.
pub open spec fn asked(list: Seq<Seq<char>>, n: int) -> int
    decreases n,
{
    if n <= 0 {
        0
    } else {
        asked(list, n - 1) + if asks(list, n - 1) {
            1int
        } else {
            0
        }
    }
}

/// The address of the endpoint that a line gives: written out, or the answer to
/// the question after as many as the lines before it ask.
pub open spec fn endpoint_at(list: Seq<Seq<char>>, answers: Seq<AnswerView>, l: int) -> Option<
    SocketAddr,
> {
    match socket_text(value_in(list[l])) {
        Some(a) => Some(a),
        None => if asked(list, l) < answers.len() {
            match answers[asked(list, l)] {
                AnswerView::Address(a) => Some(a),
                _ => None,
            }
        } else {
            None
        },
    }
}

// ---------------------------------------------------------------------------
// What a text says
// ---------------------------------------------------------------------------

/// The key that the last of the lines with a key name gives.
pub open spec fn key_said(list: Seq<Seq<char>>, from: int, to: int, name: Seq<char>) -> Option<
    Seq<u8>,
> {
    match latest(list, from, to, name) {
        Some(l) => key_written(value_in(list[l])),
        None => None,
    }
}

/// The endpoint that the last line with one gives.
pub open spec fn endpoint_said(
    list: Seq<Seq<char>>,
    answers: Seq<AnswerView>,
    from: int,
    to: int,
) -> Option<SocketAddr> {
    match latest(list, from, to, "Endpoint"@) {
        Some(l) => endpoint_at(list, answers, l),
        None => None,
    }
}

/// The name of the host in the last line with an endpoint: what stands before the
/// first colon.
pub open spec fn host_said(list: Seq<Seq<char>>, from: int, to: int) -> Option<Seq<char>> {
    match latest(list, from, to, "Endpoint"@) {
        Some(l) => Some(value_in(list[l]).take(position(value_in(list[l]), ':'))),
        None => None,
    }
}

/// The number that the last line with a keepalive gives.
pub open spec fn keepalive_said(list: Seq<Seq<char>>, from: int, to: int) -> Option<u16> {
    match latest(list, from, to, "PersistentKeepalive"@) {
        Some(l) => match read_number(value_in(list[l]), 0xffff) {
            Ok(n) => Some(n as u16),
            Err(_) => None,
        },
        None => None,
    }
}

/// The allowed ranges of all lines that give some, in their order.
pub open spec fn ranges_said(list: Seq<Seq<char>>, from: int, to: int) -> Seq<ParsedAllowedIp>
    decreases to,
{
    if to <= 0 || to - 1 <= from {
        seq![]
    } else if says(list[to - 1], "AllowedIPs"@) {
        ranges_said(list, from, to - 1) + ranges_written(pieces(value_in(list[to - 1]), ','))
    } else {
        ranges_said(list, from, to - 1)
    }
}

/// The names of all lines of an interface's part that give DNS servers, in order.
pub open spec fn dns_said(list: Seq<Seq<char>>, n: int) -> Seq<Seq<char>>
    decreases n,
{
    if n <= 0 {
        seq![]
    } else if stands_in(list, n - 1, "[Interface]"@) && says(list[n - 1], "DNS"@) {
        dns_said(list, n - 1) + names_written(pieces(value_in(list[n - 1]), ','))
    } else {
        dns_said(list, n - 1)
    }
}

/// Whether a peer is what the lines of its part say, which the line at `h` opens
/// and which ends before the line at `e`.
pub open spec fn peer_as_said(
    p: PeerView,
    list: Seq<Seq<char>>,
    answers: Seq<AnswerView>,
    h: int,
    e: int,
) -> bool {
    &&& key_said(list, h, e, "PublicKey"@) == Some(p.public_key)
    &&& p.preshared_key == key_said(list, h, e, "PresharedKey"@)
    &&& p.preshared_key is None <==> latest(list, h, e, "PresharedKey"@) is None
    &&& p.endpoint == endpoint_said(list, answers, h, e)
    &&& p.endpoint is None <==> latest(list, h, e, "Endpoint"@) is None
    &&& p.endpoint_hostname == host_said(list, h, e)
    &&& p.persistent_keepalive == keepalive_said(list, h, e)
    &&& p.persistent_keepalive is None <==> latest(list, h, e, "PersistentKeepalive"@) is None
    &&& p.allowed_ips == ranges_said(list, h, e)
}

// ---------------------------------------------------------------------------
// Which lines can be read
// ---------------------------------------------------------------------------

/// Whether a setting of an interface's part can be read.
pub open spec fn interface_line_fit(raw: Seq<char>) -> bool {
    &&& says(raw, "PrivateKey"@) ==> key_written(value_in(raw)) is Some
    &&& says(raw, "ListenPort"@) ==> read_number(value_in(raw), 0xffff) is Ok
    &&& says(raw, "Address"@) ==> address_written(value_in(raw)) is Some
}

/// Whether a setting of a peer's part can be read.
pub open spec fn peer_line_fit(list: Seq<Seq<char>>, answers: Seq<AnswerView>, l: int) -> bool {
    let raw = list[l];
    &&& says(raw, "PublicKey"@) ==> key_written(value_in(raw)) is Some
    &&& says(raw, "PresharedKey"@) ==> key_written(value_in(raw)) is Some
    &&& says(raw, "Endpoint"@) ==> endpoint_at(list, answers, l) is Some
    &&& says(raw, "PersistentKeepalive"@) ==> read_number(value_in(raw), 0xffff) is Ok
    &&& says(raw, "AllowedIPs"@) ==> all_ranges(pieces(value_in(raw), ','))
}

/// Whether the line at `l` can be read. One that opens a part has to open a known
/// one, and a peer's part that it ends has to have a public key; any other is
/// passed over or a setting, with a value that fits its key.
pub open spec fn line_fit(list: Seq<Seq<char>>, answers: Seq<AnswerView>, l: int) -> bool {
    let raw = list[l];
    if passed_over(raw) {
        true
    } else if opens_part(raw) {
        &&& trimmed(raw) == "[Interface]"@ || trimmed(raw) == "[Peer]"@
        &&& part_whole(list, l)
    } else {
        &&& has_equals(raw)
        &&& stands_in(list, l, "[Interface]"@) ==> interface_line_fit(raw)
        &&& stands_in(list, l, "[Peer]"@) ==> peer_line_fit(list, answers, l)
    }
}

/// Whether the part that ends before the line at `e`, if it is a peer's, has a
/// public key.
pub open spec fn part_whole(list: Seq<Seq<char>>, e: int) -> bool {
    stands_in(list, e, "[Peer]"@) ==> latest(
        list,
        head_before(list, e),
        e,
        "PublicKey"@,
    ) is Some
}

/// Whether all lines before `n` can be read.
pub open spec fn lines_fit(list: Seq<Seq<char>>, answers: Seq<AnswerView>, n: int) -> bool {
    forall|l: int| 0 <= l < n ==> #[trigger] line_fit(list, answers, l)
}

// ---------------------------------------------------------------------------
// The state of reading
// ---------------------------------------------------------------------------

/// What a peer's part has said.
spec fn section_said(
    list: Seq<Seq<char>>,
    answers: Seq<AnswerView>,
    h: int,
    n: int,
) -> SectionView {
    SectionView::Peer {
        public_key: key_said(list, h, n, "PublicKey"@),
        preshared_key: key_said(list, h, n, "PresharedKey"@),
        endpoint: endpoint_said(list, answers, h, n),
        endpoint_hostname: host_said(list, h, n),
        persistent_keepalive: keepalive_said(list, h, n),
        allowed_ips: ranges_said(list, h, n),
    }
}

spec fn part_said(list: Seq<Seq<char>>, answers: Seq<AnswerView>, n: int) -> SectionView {
    let h = head_before(list, n);
    if h < 0 {
        SectionView::Outside
    } else if trimmed(list[h]) == "[Interface]"@ {
        SectionView::Interface
    } else {
        section_said(list, answers, h, n)
    }
}

/// What has been read but for the peers.
spec fn state_said(st: ReadingView, list: Seq<Seq<char>>, answers: Seq<AnswerView>, n: int) -> bool {
    &&& st.private_key == match latest_in_interface(list, n, "PrivateKey"@) {
        Some(l) => key_written(value_in(list[l])),
        None => None,
    }
    &&& st.listen_port == match latest_in_interface(list, n, "ListenPort"@) {
        Some(l) => match read_number(value_in(list[l]), 0xffff) {
            Ok(p) => Some(p as u16),
            Err(_) => None,
        },
        None => None,
    }
    &&& st.interface_address == match latest_in_interface(list, n, "Address"@) {
        Some(l) => Some((address_written(value_in(list[l]))->0).0),
        None => None,
    }
    &&& st.interface_prefix == match latest_in_interface(list, n, "Address"@) {
        Some(l) => Some((address_written(value_in(list[l]))->0).1),
        None => None,
    }
    &&& st.dns_servers == dns_said(list, n)
    &&& st.section == part_said(list, answers, n)
    &&& st.used == asked(list, n)
}

proof fn lemma_names(p: Seq<Seq<char>>)
    ensures
        filled(p) == names_written(p),
    decreases p.len(),
{
    if p.len() > 0 {
        lemma_names(p.drop_last());
    }
}

proof fn lemma_range(s: Seq<char>, n: int)
    ensures
        good(allowed_ip_of(s, n)) == range_written(s),
{
    lemma_read_number_bound(s.skip(position(s, '/') + 1), 255);
}

proof fn lemma_ranges(p: Seq<Seq<char>>, n: int)
    ensures
        all_ranges(p) <==> allowed_ips_of(p, n) is Ok,
        allowed_ips_of(p, n) matches Ok(list) ==> list == ranges_written(p),
    decreases p.len(),
{
    if p.len() > 0 {
        let rest = p.drop_last();
        let s = trimmed(p.last());
        lemma_ranges(rest, n);
        lemma_range(s, n);
        if all_ranges(p) {
            assert forall|i: int|
                0 <= i < rest.len() && trimmed(#[trigger] rest[i]).len() > 0 implies range_written(
                trimmed(rest[i]),
            ) is Some by {
                assert(rest[i] == p[i]);
            }
            assert(trimmed(p[p.len() - 1]) == s);
        }
        if allowed_ips_of(p, n) is Ok {
            assert forall|i: int|
                0 <= i < p.len() && trimmed(#[trigger] p[i]).len() > 0 implies range_written(
                trimmed(p[i]),
            ) is Some by {
                if i < rest.len() {
                    assert(rest[i] == p[i]);
                }
            }
        }
    }
}

/// The keys differ, and so do the lines that open parts.
proof fn lemma_words()
    ensures
        "[Interface]"@ != "[Peer]"@,
        "PrivateKey"@ != "ListenPort"@,
        "PrivateKey"@ != "Address"@,
        "PrivateKey"@ != "DNS"@,
        "ListenPort"@ != "Address"@,
        "ListenPort"@ != "DNS"@,
        "Address"@ != "DNS"@,
        "PublicKey"@ != "PresharedKey"@,
        "PublicKey"@ != "Endpoint"@,
        "PublicKey"@ != "PersistentKeepalive"@,
        "PublicKey"@ != "AllowedIPs"@,
        "PresharedKey"@ != "Endpoint"@,
        "PresharedKey"@ != "PersistentKeepalive"@,
        "PresharedKey"@ != "AllowedIPs"@,
        "Endpoint"@ != "PersistentKeepalive"@,
        "Endpoint"@ != "AllowedIPs"@,
        "PersistentKeepalive"@ != "AllowedIPs"@,
{
    reveal_strlit("[Interface]");
    reveal_strlit("[Peer]");
    reveal_strlit("PrivateKey");
    reveal_strlit("ListenPort");
    reveal_strlit("Address");
    reveal_strlit("DNS");
    reveal_strlit("PublicKey");
    reveal_strlit("PresharedKey");
    reveal_strlit("Endpoint");
    reveal_strlit("PersistentKeepalive");
    reveal_strlit("AllowedIPs");
    assert("[Interface]"@.len() == 11 && "[Peer]"@.len() == 6);
    assert("PrivateKey"@[0] == 'P' && "ListenPort"@[0] == 'L' && "Address"@[0] == 'A' && "DNS"@[0]
        == 'D');
    assert("PublicKey"@.len() == 9 && "PresharedKey"@.len() == 12 && "Endpoint"@.len() == 8
        && "PersistentKeepalive"@.len() == 19 && "AllowedIPs"@.len() == 10);
}

proof fn lemma_head_bounds(list: Seq<Seq<char>>, n: int)
    requires
        0 <= n <= list.len(),
    ensures
        -1 <= head_before(list, n) < n,
        head_before(list, n) >= 0 ==> opens_part(list[head_before(list, n)]),
        forall|l: int| head_before(list, n) < l < n ==> !opens_part(#[trigger] list[l]),
    decreases n,
{
    if n > 0 {
        lemma_head_bounds(list, n - 1);
    }
}

/// One line: it can be read exactly where it is fit, and then says what it says.
#[verifier::rlimit(60)]
proof fn lemma_one_line(list: Seq<Seq<char>>, answers: Seq<AnswerView>, st: ReadingView, n: int)
    requires
        0 <= n < list.len(),
        state_said(st, list, answers, n),
        head_before(list, n) >= 0 ==> trimmed(list[head_before(list, n)]) == "[Interface]"@
            || trimmed(list[head_before(list, n)]) == "[Peer]"@,
        part_said(list, answers, n) is Peer ==> (key_said(
            list,
            head_before(list, n),
            n,
            "PublicKey"@,
        ) is Some <==> latest(list, head_before(list, n), n, "PublicKey"@) is Some),
    ensures
        read_line(st, n + 1, list[n], answers) is Ok <==> line_fit(list, answers, n),
        read_line(st, n + 1, list[n], answers) matches Ok(next) ==> state_said(
            next,
            list,
            answers,
            n + 1,
        ),
{
    let raw = list[n];
    let line = trimmed(raw);
    lemma_words();
    lemma_head_bounds(list, n);
    let h = head_before(list, n);
    if passed_over(raw) || opens_part(raw) {
    } else if has_equals(raw) {
        let (k, v) = (key_in(raw), value_in(raw));
        assert(split_once(line, '=') == Some(
            (line.take(position(line, '=')), line.skip(position(line, '=') + 1)),
        ));
        lemma_names(pieces(v, ','));
        lemma_ranges(pieces(v, ','), n + 1);
        lemma_read_number_bound(v, 0xffff);
        if h >= 0 && trimmed(list[h]) == "[Interface]"@ {
            lemma_interface_line(list, answers, st, n);
        } else if h >= 0 {
            lemma_peer_line(list, answers, st, n);
        }
    }
}

proof fn lemma_interface_line(
    list: Seq<Seq<char>>,
    answers: Seq<AnswerView>,
    st: ReadingView,
    n: int,
)
    requires
        0 <= n < list.len(),
        state_said(st, list, answers, n),
        stands_in(list, n, "[Interface]"@),
        !passed_over(list[n]),
        !opens_part(list[n]),
        has_equals(list[n]),
    ensures
        ({
            let r = read_interface(st, n + 1, key_in(list[n]), value_in(list[n]));
            &&& r is Ok <==> interface_line_fit(list[n])
            &&& r matches Ok(next) ==> state_said(next, list, answers, n + 1)
        }),
{
    lemma_words();
    let raw = list[n];
    let v = value_in(raw);
    lemma_names(pieces(v, ','));
    lemma_read_number_bound(v, 0xffff);
    assert(dns_said(list, n + 1) == if says(raw, "DNS"@) {
        dns_said(list, n) + names_written(pieces(v, ','))
    } else {
        dns_said(list, n)
    });
    assert(head_before(list, n + 1) == head_before(list, n));
    assert(asked(list, n + 1) == asked(list, n));
    assert(part_said(list, answers, n + 1) == SectionView::Interface);
}

proof fn lemma_peer_line(list: Seq<Seq<char>>, answers: Seq<AnswerView>, st: ReadingView, n: int)
    requires
        0 <= n < list.len(),
        state_said(st, list, answers, n),
        stands_in(list, n, "[Peer]"@),
        !passed_over(list[n]),
        !opens_part(list[n]),
        has_equals(list[n]),
    ensures
        ({
            let r = read_peer(st, n + 1, key_in(list[n]), value_in(list[n]), answers);
            &&& r is Ok <==> peer_line_fit(list, answers, n)
            &&& r matches Ok(next) ==> state_said(next, list, answers, n + 1)
        }),
{
    lemma_words();
    let raw = list[n];
    let v = value_in(raw);
    let h = head_before(list, n);
    lemma_head_bounds(list, n);
    lemma_ranges(pieces(v, ','), n + 1);
    lemma_read_number_bound(v, 0xffff);
    lemma_asked_bounds(list, n);
    assert(head_before(list, n + 1) == h);
    assert(!stands_in(list, n, "[Interface]"@));
    assert(dns_said(list, n + 1) == dns_said(list, n));
    assert(asked(list, n + 1) == asked(list, n) + if asks(list, n) {
        1int
    } else {
        0
    });
    assert(part_said(list, answers, n + 1) == section_said(list, answers, h, n + 1));
    if let Ok(next) = read_peer(st, n + 1, key_in(raw), v, answers) {
        assert(next.section =~= section_said(list, answers, h, n + 1));
    }
}

proof fn lemma_asked_bounds(list: Seq<Seq<char>>, n: int)
    ensures
        0 <= asked(list, n),
    decreases n,
{
    if n > 0 {
        lemma_asked_bounds(list, n - 1);
    }
}

/// Where there is a line with a key and all lines are fit, the key is given.
proof fn lemma_keys_given(list: Seq<Seq<char>>, answers: Seq<AnswerView>, h: int, n: int)
    requires
        0 <= h < n <= list.len(),
        trimmed(list[h]) == "[Peer]"@,
        head_before(list, n) == h,
        lines_fit(list, answers, n),
    ensures
        key_said(list, h, n, "PublicKey"@) is Some <==> latest(list, h, n, "PublicKey"@) is Some,
        key_said(list, h, n, "PresharedKey"@) is Some <==> latest(
            list,
            h,
            n,
            "PresharedKey"@,
        ) is Some,
        endpoint_said(list, answers, h, n) is Some <==> latest(list, h, n, "Endpoint"@) is Some,
        keepalive_said(list, h, n) is Some <==> latest(list, h, n, "PersistentKeepalive"@) is Some,
    decreases n,
{
    lemma_words();
    if n - 1 > h {
        lemma_head_bounds(list, n);
        assert(head_before(list, n - 1) == h);
        lemma_keys_given(list, answers, h, n - 1);
        assert(line_fit(list, answers, n - 1));
        assert(stands_in(list, n - 1, "[Peer]"@));
    }
}

/// The lines before `n` can be read exactly where they are fit, and then say what
/// they say.
proof fn lemma_lines(list: Seq<Seq<char>>, answers: Seq<AnswerView>, n: int)
    requires
        0 <= n <= list.len(),
    ensures
        read_lines(list.take(n), answers) is Ok <==> lines_fit(list, answers, n),
        read_lines(list.take(n), answers) matches Ok(st) ==> {
            &&& state_said(st, list, answers, n)
            &&& head_before(list, n) >= 0 ==> trimmed(list[head_before(list, n)])
                == "[Interface]"@ || trimmed(list[head_before(list, n)]) == "[Peer]"@
        },
    decreases n,
{
    if n == 0 {
        assert(list.take(0) =~= Seq::<Seq<char>>::empty());
        assert(nothing_read().dns_servers =~= dns_said(list, 0));
    } else {
        let before = list.take(n - 1);
        assert(list.take(n).drop_last() =~= before);
        assert(list.take(n).last() == list[n - 1]);
        lemma_lines(list, answers, n - 1);
        if let Ok(st) = read_lines(before, answers) {
            let h = head_before(list, n - 1);
            lemma_head_bounds(list, n - 1);
            if h >= 0 && trimmed(list[h]) == "[Peer]"@ {
                lemma_keys_given(list, answers, h, n - 1);
            }
            lemma_one_line(list, answers, st, n - 1);
            assert(lines_fit(list, answers, n) <==> line_fit(list, answers, n - 1)) by {
                if lines_fit(list, answers, n) {
                    assert(line_fit(list, answers, n - 1));
                }
            }
            if line_fit(list, answers, n - 1) {
                lemma_head_bounds(list, n);
            }
        } else {
            if lines_fit(list, answers, n) {
                assert forall|l: int| 0 <= l < n - 1 implies #[trigger] line_fit(
                    list,
                    answers,
                    l,
                ) by {}
            }
        }
    }
}

// ---------------------------------------------------------------------------
// Laws
// ---------------------------------------------------------------------------

/// A text is read exactly where every line can be read, the last part has a public
/// key if it is a peer's, and some interface's part gives a private key.
pub proof fn law_which_texts_are_read(text: Seq<char>, answers: Seq<AnswerView>)
    ensures
        config_text(text, answers) is Ok <==> {
            let list = lines(text);
            let n = list.len() as int;
            &&& lines_fit(list, answers, n)
            &&& part_whole(list, n)
            &&& latest_in_interface(list, n, "PrivateKey"@) is Some
        },
{
    let list = lines(text);
    let n = list.len() as int;
    assert(list.take(n) =~= list);
    lemma_words();
    lemma_lines(list, answers, n);
    lemma_head_bounds(list, n);
    let h = head_before(list, n);
    if lines_fit(list, answers, n) {
        if h >= 0 && trimmed(list[h]) == "[Peer]"@ {
            lemma_keys_given(list, answers, h, n);
        }
        lemma_private_key_given(list, answers, n);
    }
}

proof fn lemma_private_key_given(list: Seq<Seq<char>>, answers: Seq<AnswerView>, n: int)
    requires
        0 <= n <= list.len(),
        lines_fit(list, answers, n),
    ensures
        latest_in_interface(list, n, "PrivateKey"@) matches Some(l) ==> key_written(
            value_in(list[l]),
        ) is Some,
        latest_in_interface(list, n, "ListenPort"@) matches Some(l) ==> read_number(
            value_in(list[l]),
            0xffff,
        ) is Ok,
        latest_in_interface(list, n, "Address"@) matches Some(l) ==> address_written(
            value_in(list[l]),
        ) is Some,
    decreases n,
{
    if n > 0 {
        lemma_private_key_given(list, answers, n - 1);
        assert(line_fit(list, answers, n - 1));
    }
}

/// Each setting of the interface lands in its field. The last line with a private
/// key, a listen port or an address gives it, and what no line gives is not there;
/// the DNS servers are those of all lines, in their order.
pub proof fn law_interface_settings(text: Seq<char>, answers: Seq<AnswerView>)
    ensures
        config_text(text, answers) matches Ok(c) ==> {
            let list = lines(text);
            let n = list.len() as int;
            &&& latest_in_interface(list, n, "PrivateKey"@) matches Some(l) && key_written(
                value_in(list[l]),
            ) == Some(c.private_key)
            &&& match latest_in_interface(list, n, "ListenPort"@) {
                Some(l) => c.listen_port is Some && read_number(value_in(list[l]), 0xffff) == Ok::<
                    int,
                    crate::text::NumberFault,
                >(c.listen_port->0 as int),
                None => c.listen_port is None,
            }
            &&& match latest_in_interface(list, n, "Address"@) {
                Some(l) => c.interface_address is Some && c.interface_prefix is Some
                    && address_written(value_in(list[l])) == Some(
                    (c.interface_address->0, c.interface_prefix->0),
                ),
                None => c.interface_address is None && c.interface_prefix is None,
            }
            &&& c.dns_servers == dns_said(list, n)
        },
{
    let list = lines(text);
    let n = list.len() as int;
    assert(list.take(n) =~= list);
    lemma_lines(list, answers, n);
    if config_text(text, answers) is Ok {
        lemma_private_key_given(list, answers, n);
        if let Some(l) = latest_in_interface(list, n, "ListenPort"@) {
            lemma_read_number_bound(value_in(list[l]), 0xffff);
        }
    }
}

/// Each setting of a peer's part lands in its field. The last line of the part
/// with a public key, a preshared key, an endpoint or a keepalive gives it, and
/// what no line gives is not there; the allowed ranges are those of all lines, in
/// their order. The part runs from the line that opens it to the next that opens
/// any, or to the end; the peer stands where its part stands among those of peers.
pub proof fn law_peer_settings(text: Seq<char>, answers: Seq<AnswerView>, h: int, e: int)
    requires
        config_text(text, answers) is Ok,
        0 <= h < e <= lines(text).len(),
        opens_peer(lines(text)[h]),
        forall|l: int| h < l < e ==> !opens_part(#[trigger] lines(text)[l]),
        e < lines(text).len() ==> opens_part(lines(text)[e]),
    ensures
        ({
            let list = lines(text);
            let c = config_text(text, answers)->Ok_0;
            let i = peer_heads(list.take(h)) as int;
            0 <= i < c.peers.len() && peer_as_said(c.peers[i], list, answers, h, e)
        }),
{
    let list = lines(text);
    let n = list.len() as int;
    let c = config_text(text, answers)->Ok_0;
    let i = peer_heads(list.take(h)) as int;
    lemma_words();
    lemma_opens_peer(list[h]);
    assert(list.take(n) =~= list);
    lemma_lines(list, answers, n);
    lemma_lines(list, answers, e);
    assert(lines_fit(list, answers, e));
    lemma_head_is(list, h, e);
    lemma_keys_given(list, answers, h, e);
    lemma_heads_between(list, h, e);
    lemma_peers_begun(list.take(e), answers);
    let st = read_lines(list.take(e), answers)->Ok_0;
    assert(st.section == section_said(list, answers, h, e));
    assert(st.peers.len() == i);
    if e < n {
        let after = list.take(e + 1);
        assert(after.drop_last() =~= list.take(e));
        assert(after.last() == list[e]);
        lemma_peers_stay(list, answers, e + 1);
        let next = read_lines(after, answers)->Ok_0;
        let end = read_lines(list, answers)->Ok_0;
        assert(next.peers.len() == i + 1);
        assert(end.peers.take(i + 1)[i] == next.peers[i]);
        assert(c.peers[i] == end.peers[i]);
    } else {
        assert(list.take(e) =~= list);
    }
}

proof fn lemma_opens_peer(raw: Seq<char>)
    requires
        opens_peer(raw),
    ensures
        opens_part(raw),
        !passed_over(raw),
{
    reveal_strlit("[Peer]");
    assert(trimmed(raw).len() == 6 && trimmed(raw)[0] == '[' && trimmed(raw).last() == ']');
}

proof fn lemma_head_is(list: Seq<Seq<char>>, h: int, e: int)
    requires
        0 <= h < e <= list.len(),
        opens_part(list[h]),
        forall|l: int| h < l < e ==> !opens_part(#[trigger] list[l]),
    ensures
        head_before(list, e) == h,
    decreases e,
{
    if h < e - 1 {
        lemma_head_is(list, h, e - 1);
    }
}

proof fn lemma_heads_between(list: Seq<Seq<char>>, h: int, e: int)
    requires
        0 <= h < e <= list.len(),
        opens_peer(list[h]),
        forall|l: int| h < l < e ==> !opens_part(#[trigger] list[l]),
    ensures
        peer_heads(list.take(e)) == peer_heads(list.take(h)) + 1,
    decreases e,
{
    assert(list.take(e).drop_last() =~= list.take(e - 1));
    assert(list.take(e).last() == list[e - 1]);
    if h < e - 1 {
        lemma_heads_between(list, h, e - 1);
        if opens_peer(list[e - 1]) {
            lemma_opens_peer(list[e - 1]);
        }
    }
}

// ---------------------------------------------------------------------------
// Faults
// ---------------------------------------------------------------------------

/// The message of a line with some words.
pub open spec fn on_line(n: int, words: Seq<char>) -> Seq<char> {
    "Line "@ + decimal(n as nat) + ": "@ + words
}

/// What is said of a value that a setting cannot have: where it stands, and why. A
/// key has to be 32 bytes, a range needs a slash, an address before it and a length
/// behind it that the family can have.
pub proof fn law_faults_of_values(
    s: Seq<char>,
    n: int,
    field: Seq<char>,
    bytes: Seq<u8>,
    why: Seq<char>,
    a: Seq<char>,
    c: Seq<char>,
)
    requires
        !a.contains('/'),
    ensures
        bytes.len() == 32 ==> key_of(Ok(bytes), field, n) == Ok::<Seq<u8>, Seq<char>>(bytes),
        bytes.len() != 32 ==> key_of(Ok(bytes), field, n) == Err::<Seq<u8>, Seq<char>>(
            on_line(n, field + " must be 32 bytes"@),
        ),
        key_of(Err(why), field, n) == Err::<Seq<u8>, Seq<char>>(
            on_line(n, "Invalid "@ + field + " base64: "@ + why),
        ),
        !s.contains('/') ==> allowed_ip_of(s, n) == Err::<ParsedAllowedIp, Seq<char>>(
            on_line(n, "Invalid AllowedIP '"@ + s + "'"@),
        ),
        ip_text(a) is None ==> allowed_ip_of(a + seq!['/'] + c, n) == Err::<
            ParsedAllowedIp,
            Seq<char>,
        >(on_line(n, "Invalid IP '"@ + a + "': "@ + "invalid IP address syntax"@)),
        ip_text(a) is Some && (read_number(c, 255) matches Ok(k) && k > (if ip_text(a)->0 is V4 {
            32int
        } else {
            128int
        })) ==> allowed_ip_of(a + seq!['/'] + c, n) == Err::<ParsedAllowedIp, Seq<char>>(
            on_line(n, "CIDR too large"@),
        ),
        socket_text(s) is None ==> endpoint_of(s, n, None) == Err::<(SocketAddr, bool), ParseFault>(
            ParseFault::Unresolved(s),
        ),
        socket_text(s) is None ==> endpoint_of(s, n, Some(AnswerView::Nothing)) == Err::<
            (SocketAddr, bool),
            ParseFault,
        >(ParseFault::Invalid(on_line(n, "Endpoint '"@ + s + "' resolved to no addresses"@))),
        socket_text(s) is None ==> endpoint_of(s, n, Some(AnswerView::Failed(why))) == Err::<
            (SocketAddr, bool),
            ParseFault,
        >(ParseFault::Invalid(on_line(n, "Failed to resolve '"@ + s + "': "@ + why))),
{
    let at = "Line "@ + decimal(n as nat) + ": "@;
    let two = a + seq!['/'] + c;
    assert forall|j: int| 0 <= j < a.len() implies two[j] != '/' by {
        assert(two[j] == a[j]);
        assert(a.contains(a[j]));
    }
    lemma_position(two, '/', a.len() as int);
    assert(two.take(a.len() as int) =~= a);
    assert(two.skip(a.len() as int + 1) =~= c);
    if !s.contains('/') {
        assert forall|j: int| 0 <= j < s.len() implies s[j] != '/' by {
            assert(s.contains(s[j]));
        }
        lemma_position(s, '/', s.len() as int);
    }
    assert(at + field + " must be 32 bytes"@ =~= on_line(n, field + " must be 32 bytes"@));
    assert(at + "Invalid "@ + field + " base64: "@ + why =~= on_line(
        n,
        "Invalid "@ + field + " base64: "@ + why,
    ));
    assert(at + "Invalid AllowedIP '"@ + s + "'"@ =~= on_line(
        n,
        "Invalid AllowedIP '"@ + s + "'"@,
    ));
    assert(at + "Invalid IP '"@ + a + "': "@ + "invalid IP address syntax"@ =~= on_line(
        n,
        "Invalid IP '"@ + a + "': "@ + "invalid IP address syntax"@,
    ));
    assert(at + "Endpoint '"@ + s + "' resolved to no addresses"@ =~= on_line(
        n,
        "Endpoint '"@ + s + "' resolved to no addresses"@,
    ));
    assert(at + "Failed to resolve '"@ + s + "': "@ + why =~= on_line(
        n,
        "Failed to resolve '"@ + s + "': "@ + why,
    ));
}

/// Reading stops at the first line that cannot be read: what is said of the lines up
/// to it is said of the whole, whatever follows.
pub proof fn law_first_fault_is_told(list: Seq<Seq<char>>, answers: Seq<AnswerView>, k: int)
    requires
        0 <= k <= list.len(),
        read_lines(list.take(k), answers) is Err,
    ensures
        read_lines(list, answers) == read_lines(list.take(k), answers),
    decreases list.len(),
{
    if k == list.len() {
        assert(list.take(k) =~= list);
    } else {
        let rest = list.drop_last();
        assert(rest.take(k) =~= list.take(k));
        law_first_fault_is_told(rest, answers, k);
    }
}

} // verus!
