//! Reading and checking the text form of a tunnel configuration.

use crate::address::{ip_text, parse_ip, parse_socket, socket_text, IpAddr, SocketAddr};
use crate::text::{
    chars_of, decimal, find, lemma_read_number_bound, lemma_texts_push, lines, opt_text,
    parse_number, pieces, position, push_decimal, read_number, spells, split, split_at_first,
    split_lines, split_once, string_of, texts, trim, trimmed, views,
};
use crate::wireguard_config::{
    is_zero_key, lemma_peer_views_push, opt_key, peer_views, same_key, zero_key, ConfigView,
    ParsedAllowedIp, ParsedConfig, ParsedPeer, PeerView,
};
use base64::engine::general_purpose::STANDARD;
use base64::Engine;
use vstd::prelude::*;
use vstd::slice::slice_subrange;

verus! {

// ---------------------------------------------------------------------------
// Base64
// ---------------------------------------------------------------------------

/// What `base64` decodes from a text with the standard alphabet and padding:
/// the bytes, or the words of its error.
pub uninterp spec fn base64_decoded(s: Seq<char>) -> Result<Seq<u8>, Seq<char>>;

/// Calls `Engine::decode` of the `STANDARD` engine of `base64`. The result is a
/// function of the text alone; what it is on a given text is not said here.
#[verifier::external_body]
fn decode_base64(s: &str) -> (r: Result<Vec<u8>, String>)
    ensures
        decoded_view(r) == base64_decoded(s@),
{
    STANDARD.decode(s).map_err(|e| e.to_string())
}

/// What a decoding holds.
pub open spec fn decoded_view(r: Result<Vec<u8>, String>) -> Result<Seq<u8>, Seq<char>> {
    match r {
        Ok(bytes) => Ok(bytes@),
        Err(e) => Err(e@),
    }
}

// ---------------------------------------------------------------------------
// Errors and answers
// ---------------------------------------------------------------------------

/// Why a configuration could not be read.
#[derive(Debug, Clone)]
pub enum ParseError {
    /// The text is no configuration.
    Invalid(String),
    /// The text names a host whose address is not known yet.
    Unresolved(String),
}

/// What a `ParseError` holds.
pub enum ParseFault {
    Invalid(Seq<char>),
    Unresolved(Seq<char>),
}

impl View for ParseError {
    type V = ParseFault;

    open spec fn view(&self) -> ParseFault {
        match *self {
            ParseError::Invalid(m) => ParseFault::Invalid(m@),
            ParseError::Unresolved(n) => ParseFault::Unresolved(n@),
        }
    }
}

/// What looking up the address of a host came to.
#[derive(Debug, Clone)]
pub enum Answer {
    /// The first address that was found.
    Address(SocketAddr),
    /// The lookup found no address.
    Nothing,
    /// The lookup failed, with a reason.
    Failed(String),
}

/// What an `Answer` holds.
pub enum AnswerView {
    Address(SocketAddr),
    Nothing,
    Failed(Seq<char>),
}

impl View for Answer {
    type V = AnswerView;

    open spec fn view(&self) -> AnswerView {
        match *self {
            Answer::Address(a) => AnswerView::Address(a),
            Answer::Nothing => AnswerView::Nothing,
            Answer::Failed(e) => AnswerView::Failed(e@),
        }
    }
}

/// What a list of answers holds.
pub open spec fn answer_views(answers: Seq<Answer>) -> Seq<AnswerView> {
    Seq::new(answers.len(), |i: int| answers[i]@)
}

/// The beginning of a message about a line.
pub open spec fn at_line(n: int) -> Seq<char> {
    "Line "@ + decimal(n as nat) + ": "@
}

fn line_message(n: usize) -> (r: String)
    ensures
        r@ == at_line(n as int),
{
    let mut out = "Line ".to_string();
    push_decimal(&mut out, n as u64);
    out.append(": ");
    out
}

/// The words for a text that is no address.
pub open spec fn bad_ip() -> Seq<char> {
    "invalid IP address syntax"@
}

// ---------------------------------------------------------------------------
// Values
// ---------------------------------------------------------------------------

/// The key that a decoding gives, or the message of line `n`.
pub open spec fn key_of(
    decoded: Result<Seq<u8>, Seq<char>>,
    field: Seq<char>,
    n: int,
) -> Result<Seq<u8>, Seq<char>> {
    match decoded {
        Ok(bytes) => if bytes.len() == 32 {
            Ok(bytes)
        } else {
            Err(at_line(n) + field + " must be 32 bytes"@)
        },
        Err(e) => Err(at_line(n) + "Invalid "@ + field + " base64: "@ + e),
    }
}

/// What a key or the message in its place holds.
pub open spec fn key_view(r: Result<[u8; 32], String>) -> Result<Seq<u8>, Seq<char>> {
    match r {
        Ok(k) => Ok(k@),
        Err(e) => Err(e@),
    }
}

/// The key that a decoding gives, or the message of line `n`.
pub fn checked_key(decoded: Result<Vec<u8>, String>, field: &str, n: usize) -> (r: Result<
    [u8; 32],
    String,
>)
    ensures
        key_view(r) == key_of(decoded_view(decoded), field@, n as int),
{
    match decoded {
        Ok(bytes) => {
            if bytes.len() != 32 {
                let mut out = line_message(n);
                out.append(field);
                out.append(" must be 32 bytes");
                return Err(out);
            }
            let mut key: [u8; 32] = [0u8; 32];
            let mut i: usize = 0;
            while i < 32
                invariant
                    i <= 32,
                    bytes@.len() == 32,
                    forall|j: int| 0 <= j < i ==> key@[j] == bytes@[j],
                decreases 32 - i,
            {
                key[i] = bytes[i];
                i = i + 1;
            }
            assert(key@ =~= bytes@);
            Ok(key)
        },
        Err(e) => {
            let mut out = line_message(n);
            out.append("Invalid ");
            out.append(field);
            out.append(" base64: ");
            out.append(e.as_str());
            Err(out)
        },
    }
}

/// The key that line `n` writes in base64, or the message.
pub fn decode_wg_key(s: &[char], field: &str, n: usize) -> (r: Result<[u8; 32], String>)
    ensures
        key_view(r) == key_of(base64_decoded(s@), field@, n as int),
{
    let text = string_of(s);
    checked_key(decode_base64(text.as_str()), field, n)
}

/// A number of line `n`, or the message with the words that stand before it.
pub open spec fn number_of(s: Seq<char>, max: int, n: int, words: Seq<char>) -> Result<
    int,
    Seq<char>,
> {
    match read_number(s, max) {
        Ok(v) => Ok(v),
        Err(e) => Err(at_line(n) + words + e.words()),
    }
}

fn parse_line_number(s: &[char], max: u32, n: usize, words: &str) -> (r: Result<u32, String>)
    ensures
        match r {
            Ok(v) => number_of(s@, max as int, n as int, words@) == Ok::<int, Seq<char>>(v as int)
                && v <= max,
            Err(e) => number_of(s@, max as int, n as int, words@) == Err::<int, Seq<char>>(e@),
        },
{
    match parse_number(s, max) {
        Ok(v) => Ok(v),
        Err(e) => {
            let mut out = line_message(n);
            out.append(words);
            out.append(e.text());
            Err(out)
        },
    }
}

/// Where the endpoint of line `n` is: written out, or told by the next answer.
/// The second part says whether an answer was used.
pub open spec fn endpoint_of(s: Seq<char>, n: int, next: Option<AnswerView>) -> Result<
    (SocketAddr, bool),
    ParseFault,
> {
    match socket_text(s) {
        Some(a) => Ok((a, false)),
        None => match next {
            None => Err(ParseFault::Unresolved(s)),
            Some(AnswerView::Address(a)) => Ok((a, true)),
            Some(AnswerView::Nothing) => Err(
                ParseFault::Invalid(
                    at_line(n) + "Endpoint '"@ + s + "' resolved to no addresses"@,
                ),
            ),
            Some(AnswerView::Failed(e)) => Err(
                ParseFault::Invalid(at_line(n) + "Failed to resolve '"@ + s + "': "@ + e),
            ),
        },
    }
}

/// Where the endpoint of line `n` is.
pub fn parse_endpoint(s: &[char], n: usize, answers: &Vec<Answer>, used: usize) -> (r: Result<
    (SocketAddr, bool),
    ParseError,
>)
    ensures
        ({
            let next = if used < answers@.len() {
                Some(answer_views(answers@)[used as int])
            } else {
                None
            };
            match r {
                Ok(p) => endpoint_of(s@, n as int, next) == Ok::<(SocketAddr, bool), ParseFault>(p),
                Err(e) => endpoint_of(s@, n as int, next) == Err::<(SocketAddr, bool), ParseFault>(
                    e@,
                ),
            }
        }),
{
    match parse_socket(s) {
        Some(a) => Ok((a, false)),
        None => {
            if used >= answers.len() {
                let name = string_of(s);
                return Err(ParseError::Unresolved(name));
            }
            match &answers[used] {
                Answer::Address(a) => Ok((*a, true)),
                Answer::Nothing => {
                    let mut out = line_message(n);
                    out.append("Endpoint '");
                    out.append(string_of(s).as_str());
                    out.append("' resolved to no addresses");
                    Err(ParseError::Invalid(out))
                },
                Answer::Failed(e) => {
                    let mut out = line_message(n);
                    out.append("Failed to resolve '");
                    out.append(string_of(s).as_str());
                    out.append("': ");
                    out.append(e.as_str());
                    Err(ParseError::Invalid(out))
                },
            }
        },
    }
}

/// The range `address/length` of line `n`, or the message.
pub open spec fn allowed_ip_of(s: Seq<char>, n: int) -> Result<ParsedAllowedIp, Seq<char>> {
    match split_once(s, '/') {
        None => Err(at_line(n) + "Invalid AllowedIP '"@ + s + "'"@),
        Some((a, c)) => match ip_text(a) {
            None => Err(at_line(n) + "Invalid IP '"@ + a + "': "@ + bad_ip()),
            Some(address) => match read_number(c, 255) {
                Err(e) => Err(at_line(n) + "Invalid CIDR '"@ + c + "': "@ + e.words()),
                Ok(cidr) => if cidr > address.longest_prefix() {
                    Err(at_line(n) + "CIDR too large"@)
                } else {
                    Ok(ParsedAllowedIp { address, cidr: cidr as u8 })
                },
            },
        },
    }
}

/// The range `address/length` of line `n`, or the message.
pub fn parse_allowed_ip(s: &[char], n: usize) -> (r: Result<ParsedAllowedIp, String>)
    ensures
        match r {
            Ok(a) => allowed_ip_of(s@, n as int) == Ok::<ParsedAllowedIp, Seq<char>>(a),
            Err(e) => allowed_ip_of(s@, n as int) == Err::<ParsedAllowedIp, Seq<char>>(e@),
        },
{
    match split_at_first(s, '/') {
        None => {
            let mut out = line_message(n);
            out.append("Invalid AllowedIP '");
            out.append(string_of(s).as_str());
            out.append("'");
            Err(out)
        },
        Some((a, c)) => match parse_ip(a) {
            None => {
                let mut out = line_message(n);
                out.append("Invalid IP '");
                out.append(string_of(a).as_str());
                out.append("': ");
                out.append("invalid IP address syntax");
                Err(out)
            },
            Some(address) => match parse_number(c, 255) {
                Err(e) => {
                    let mut out = line_message(n);
                    out.append("Invalid CIDR '");
                    out.append(string_of(c).as_str());
                    out.append("': ");
                    out.append(e.text());
                    Err(out)
                },
                Ok(cidr) => {
                    let longest: u32 = if address.is_ipv4() {
                        32
                    } else {
                        128
                    };
                    if cidr > longest {
                        let mut out = line_message(n);
                        out.append("CIDR too large");
                        return Err(out);
                    }
                    Ok(ParsedAllowedIp { address, cidr: cidr as u8 })
                },
            },
        },
    }
}

/// The ranges of a list of texts, blank ones left out, up to the first that is
/// none.
pub open spec fn allowed_ips_of(p: Seq<Seq<char>>, n: int) -> Result<
    Seq<ParsedAllowedIp>,
    Seq<char>,
>
    decreases p.len(),
{
    if p.len() == 0 {
        Ok(seq![])
    } else {
        match allowed_ips_of(p.drop_last(), n) {
            Err(e) => Err(e),
            Ok(list) => {
                let s = trimmed(p.last());
                if s.len() == 0 {
                    Ok(list)
                } else {
                    match allowed_ip_of(s, n) {
                        Ok(a) => Ok(list.push(a)),
                        Err(e) => Err(e),
                    }
                }
            },
        }
    }
}

/// The first message among a list of texts is the message of the whole list.
proof fn lemma_allowed_ips_prefix(p: Seq<Seq<char>>, n: int, i: int)
    requires
        0 <= i <= p.len(),
        allowed_ips_of(p.take(i), n) is Err,
    ensures
        allowed_ips_of(p, n) == allowed_ips_of(p.take(i), n),
    decreases p.len() - i,
{
    if i < p.len() {
        assert(p.take(i + 1).drop_last() =~= p.take(i));
        lemma_allowed_ips_prefix(p, n, i + 1);
    } else {
        assert(p.take(i) =~= p);
    }
}

fn parse_allowed_ips(value: &[char], n: usize) -> (r: Result<Vec<ParsedAllowedIp>, String>)
    ensures
        match r {
            Ok(list) => allowed_ips_of(pieces(value@, ','), n as int) == Ok::<
                Seq<ParsedAllowedIp>,
                Seq<char>,
            >(list@),
            Err(e) => allowed_ips_of(pieces(value@, ','), n as int) == Err::<
                Seq<ParsedAllowedIp>,
                Seq<char>,
            >(e@),
        },
{
    let parts = split(value, ',');
    let ghost p = views(parts@);
    let mut out: Vec<ParsedAllowedIp> = Vec::new();
    let mut i: usize = 0;
    assert(p.take(0) =~= Seq::<Seq<char>>::empty());
    assert(out@ =~= Seq::<ParsedAllowedIp>::empty());
    while i < parts.len()
        invariant
            i <= parts@.len(),
            p == views(parts@),
            p == pieces(value@, ','),
            allowed_ips_of(p.take(i as int), n as int) == Ok::<Seq<ParsedAllowedIp>, Seq<char>>(
                out@,
            ),
        decreases parts@.len() - i,
    {
        assert(p.take(i as int + 1).drop_last() =~= p.take(i as int));
        assert(p.take(i as int + 1).last() == parts@[i as int]@);
        let s = trim(parts[i].as_slice());
        if s.len() > 0 {
            match parse_allowed_ip(s, n) {
                Ok(a) => {
                    out.push(a);
                },
                Err(e) => {
                    proof {
                        lemma_allowed_ips_prefix(p, n as int, i as int + 1);
                    }
                    return Err(e);
                },
            }
        }
        i = i + 1;
    }
    assert(p.take(i as int) =~= p);
    Ok(out)
}

/// The texts of a list, white space around them taken off, blank ones left out.
pub open spec fn filled(p: Seq<Seq<char>>) -> Seq<Seq<char>>
    decreases p.len(),
{
    if p.len() == 0 {
        seq![]
    } else {
        let s = trimmed(p.last());
        if s.len() == 0 {
            filled(p.drop_last())
        } else {
            filled(p.drop_last()).push(s)
        }
    }
}

fn push_filled(out: &mut Vec<String>, value: &[char])
    ensures
        texts(final(out)@) == texts(old(out)@) + filled(pieces(value@, ',')),
{
    let parts = split(value, ',');
    let ghost p = views(parts@);
    let ghost before = texts(out@);
    let mut i: usize = 0;
    assert(p.take(0) =~= Seq::<Seq<char>>::empty());
    assert(texts(out@) =~= before + filled(p.take(0)));
    while i < parts.len()
        invariant
            i <= parts@.len(),
            p == views(parts@),
            texts(out@) == before + filled(p.take(i as int)),
        decreases parts@.len() - i,
    {
        assert(p.take(i as int + 1).drop_last() =~= p.take(i as int));
        assert(p.take(i as int + 1).last() == parts@[i as int]@);
        let s = trim(parts[i].as_slice());
        if s.len() > 0 {
            let word = string_of(s);
            proof {
                lemma_texts_push(out@, word);
                assert((before + filled(p.take(i as int))).push(s@) =~= before + filled(
                    p.take(i as int + 1),
                ));
            }
            out.push(word);
        }
        i = i + 1;
    }
    assert(p.take(i as int) =~= p);
}

// ---------------------------------------------------------------------------
// Lines
// ---------------------------------------------------------------------------

/// The part of the text that a line belongs to, with what a peer's part has
/// said so far.
#[verifier::ext_equal]
pub enum SectionView {
    Outside,
    Interface,
    Peer {
        public_key: Option<Seq<u8>>,
        preshared_key: Option<Seq<u8>>,
        endpoint: Option<SocketAddr>,
        endpoint_hostname: Option<Seq<char>>,
        persistent_keepalive: Option<u16>,
        allowed_ips: Seq<ParsedAllowedIp>,
    },
}

/// What has been read up to a line. `used` counts the answers taken.
#[verifier::ext_equal]
pub struct ReadingView {
    pub private_key: Option<Seq<u8>>,
    pub listen_port: Option<u16>,
    pub interface_address: Option<IpAddr>,
    pub interface_prefix: Option<u8>,
    pub dns_servers: Seq<Seq<char>>,
    pub peers: Seq<PeerView>,
    pub section: SectionView,
    pub used: int,
}

struct ParsedPeerBuilder {
    public_key: Option<[u8; 32]>,
    preshared_key: Option<[u8; 32]>,
    endpoint: Option<SocketAddr>,
    endpoint_hostname: Option<String>,
    persistent_keepalive: Option<u16>,
    allowed_ips: Vec<ParsedAllowedIp>,
}

enum Section {
    Outside,
    Interface,
    Peer(ParsedPeerBuilder),
}

struct Reading {
    private_key: Option<[u8; 32]>,
    listen_port: Option<u16>,
    interface_address: Option<IpAddr>,
    interface_prefix: Option<u8>,
    dns_servers: Vec<String>,
    peers: Vec<ParsedPeer>,
    section: Section,
    used: usize,
}

impl View for ParsedPeerBuilder {
    type V = SectionView;

    closed spec fn view(&self) -> SectionView {
        SectionView::Peer {
            public_key: opt_key(self.public_key),
            preshared_key: opt_key(self.preshared_key),
            endpoint: self.endpoint,
            endpoint_hostname: opt_text(self.endpoint_hostname),
            persistent_keepalive: self.persistent_keepalive,
            allowed_ips: self.allowed_ips@,
        }
    }
}

impl View for Section {
    type V = SectionView;

    closed spec fn view(&self) -> SectionView {
        match *self {
            Section::Outside => SectionView::Outside,
            Section::Interface => SectionView::Interface,
            Section::Peer(b) => b@,
        }
    }
}

impl View for Reading {
    type V = ReadingView;

    closed spec fn view(&self) -> ReadingView {
        ReadingView {
            private_key: opt_key(self.private_key),
            listen_port: self.listen_port,
            interface_address: self.interface_address,
            interface_prefix: self.interface_prefix,
            dns_servers: texts(self.dns_servers@),
            peers: peer_views(self.peers@),
            section: self.section@,
            used: self.used as int,
        }
    }
}

/// What is known before the first line.
pub open spec fn nothing_read() -> ReadingView {
    ReadingView {
        private_key: None,
        listen_port: None,
        interface_address: None,
        interface_prefix: None,
        dns_servers: seq![],
        peers: seq![],
        section: SectionView::Outside,
        used: 0,
    }
}

/// The beginning of a peer's part.
pub open spec fn empty_peer() -> SectionView {
    SectionView::Peer {
        public_key: None,
        preshared_key: None,
        endpoint: None,
        endpoint_hostname: None,
        persistent_keepalive: None,
        allowed_ips: seq![],
    }
}

/// Ends the part of a peer, if one is open: the peer joins the list. A peer needs
/// a public key; `n` is the line that the message names.
pub open spec fn close_peer(st: ReadingView, n: int) -> Result<ReadingView, ParseFault> {
    match st.section {
        SectionView::Peer {
            public_key,
            preshared_key,
            endpoint,
            endpoint_hostname,
            persistent_keepalive,
            allowed_ips,
        } => match public_key {
            None => Err(ParseFault::Invalid(at_line(n) + "Peer missing PublicKey"@)),
            Some(key) => Ok(
                ReadingView {
                    peers: st.peers.push(
                        PeerView {
                            public_key: key,
                            preshared_key,
                            endpoint,
                            endpoint_hostname,
                            persistent_keepalive,
                            allowed_ips,
                        },
                    ),
                    section: SectionView::Outside,
                    ..st
                },
            ),
        },
        _ => Ok(ReadingView { section: SectionView::Outside, ..st }),
    }
}

/// Reads a line in square brackets, which opens a part. `n` is its number.
pub open spec fn read_header(st: ReadingView, n: int, line: Seq<char>) -> Result<
    ReadingView,
    ParseFault,
> {
    match close_peer(st, n - 1) {
        Err(e) => Err(e),
        Ok(closed) => if line == "[Interface]"@ {
            Ok(ReadingView { section: SectionView::Interface, ..closed })
        } else if line == "[Peer]"@ {
            Ok(ReadingView { section: empty_peer(), ..closed })
        } else {
            Err(ParseFault::Invalid(at_line(n) + "Unknown section: "@ + line))
        },
    }
}

/// Reads a setting of the interface's part. Unknown keys are passed over.
pub open spec fn read_interface(
    st: ReadingView,
    n: int,
    key: Seq<char>,
    value: Seq<char>,
) -> Result<ReadingView, ParseFault> {
    if key == "PrivateKey"@ {
        match key_of(base64_decoded(value), "PrivateKey"@, n) {
            Ok(k) => Ok(ReadingView { private_key: Some(k), ..st }),
            Err(e) => Err(ParseFault::Invalid(e)),
        }
    } else if key == "ListenPort"@ {
        match number_of(value, 0xffff, n, "Invalid ListenPort: "@) {
            Ok(p) => Ok(ReadingView { listen_port: Some(p as u16), ..st }),
            Err(e) => Err(ParseFault::Invalid(e)),
        }
    } else if key == "Address"@ {
        match split_once(value, '/') {
            None => Err(
                ParseFault::Invalid(
                    at_line(n) + "Address must be IP/prefix, got '"@ + value + "'"@,
                ),
            ),
            Some((a, p)) => match ip_text(trimmed(a)) {
                None => Err(
                    ParseFault::Invalid(
                        at_line(n) + "Invalid Address IP '"@ + a + "': "@ + bad_ip(),
                    ),
                ),
                Some(ip) => match read_number(trimmed(p), 255) {
                    Err(e) => Err(
                        ParseFault::Invalid(
                            at_line(n) + "Invalid Address prefix '"@ + p + "': "@ + e.words(),
                        ),
                    ),
                    Ok(prefix) => Ok(
                        ReadingView {
                            interface_address: Some(ip),
                            interface_prefix: Some(prefix as u8),
                            ..st
                        },
                    ),
                },
            },
        }
    } else if key == "DNS"@ {
        Ok(ReadingView { dns_servers: st.dns_servers + filled(pieces(value, ',')), ..st })
    } else {
        Ok(st)
    }
}

/// Reads a setting of a peer's part. Unknown keys are passed over.
pub open spec fn read_peer(
    st: ReadingView,
    n: int,
    key: Seq<char>,
    value: Seq<char>,
    answers: Seq<AnswerView>,
) -> Result<ReadingView, ParseFault> {
    match st.section {
        SectionView::Peer {
            public_key,
            preshared_key,
            endpoint,
            endpoint_hostname,
            persistent_keepalive,
            allowed_ips,
        } => if key == "PublicKey"@ {
            match key_of(base64_decoded(value), "PublicKey"@, n) {
                Ok(k) => Ok(
                    ReadingView {
                        section: SectionView::Peer {
                            public_key: Some(k),
                            preshared_key,
                            endpoint,
                            endpoint_hostname,
                            persistent_keepalive,
                            allowed_ips,
                        },
                        ..st
                    },
                ),
                Err(e) => Err(ParseFault::Invalid(e)),
            }
        } else if key == "PresharedKey"@ {
            match key_of(base64_decoded(value), "PresharedKey"@, n) {
                Ok(k) => Ok(
                    ReadingView {
                        section: SectionView::Peer {
                            public_key,
                            preshared_key: Some(k),
                            endpoint,
                            endpoint_hostname,
                            persistent_keepalive,
                            allowed_ips,
                        },
                        ..st
                    },
                ),
                Err(e) => Err(ParseFault::Invalid(e)),
            }
        } else if key == "Endpoint"@ {
            let next = if st.used < answers.len() {
                Some(answers[st.used])
            } else {
                None
            };
            match endpoint_of(value, n, next) {
                Ok((a, taken)) => Ok(
                    ReadingView {
                        section: SectionView::Peer {
                            public_key,
                            preshared_key,
                            endpoint: Some(a),
                            endpoint_hostname: Some(value.take(position(value, ':'))),
                            persistent_keepalive,
                            allowed_ips,
                        },
                        used: if taken {
                            st.used + 1
                        } else {
                            st.used
                        },
                        ..st
                    },
                ),
                Err(e) => Err(e),
            }
        } else if key == "PersistentKeepalive"@ {
            match number_of(value, 0xffff, n, "Invalid Keepalive: "@) {
                Ok(k) => Ok(
                    ReadingView {
                        section: SectionView::Peer {
                            public_key,
                            preshared_key,
                            endpoint,
                            endpoint_hostname,
                            persistent_keepalive: Some(k as u16),
                            allowed_ips,
                        },
                        ..st
                    },
                ),
                Err(e) => Err(ParseFault::Invalid(e)),
            }
        } else if key == "AllowedIPs"@ {
            match allowed_ips_of(pieces(value, ','), n) {
                Ok(list) => Ok(
                    ReadingView {
                        section: SectionView::Peer {
                            public_key,
                            preshared_key,
                            endpoint,
                            endpoint_hostname,
                            persistent_keepalive,
                            allowed_ips: allowed_ips + list,
                        },
                        ..st
                    },
                ),
                Err(e) => Err(ParseFault::Invalid(e)),
            }
        } else {
            Ok(st)
        },
        _ => Ok(st),
    }
}

/// Reads one line, whose number is `n`: a blank or a comment, the head of a
/// part, or a setting `key = value`.
pub open spec fn read_line(
    st: ReadingView,
    n: int,
    raw: Seq<char>,
    answers: Seq<AnswerView>,
) -> Result<ReadingView, ParseFault> {
    let line = trimmed(raw);
    if line.len() == 0 || line[0] == '#' || line[0] == ';' {
        Ok(st)
    } else if line[0] == '[' && line.last() == ']' {
        read_header(st, n, line)
    } else {
        match split_once(line, '=') {
            None => Err(ParseFault::Invalid(at_line(n) + "Invalid format"@)),
            Some((k, v)) => match st.section {
                SectionView::Outside => Ok(st),
                SectionView::Interface => read_interface(st, n, trimmed(k), trimmed(v)),
                SectionView::Peer { .. } => read_peer(st, n, trimmed(k), trimmed(v), answers),
            },
        }
    }
}

/// Reads lines one after another, up to the first that cannot be read.
pub open spec fn read_lines(list: Seq<Seq<char>>, answers: Seq<AnswerView>) -> Result<
    ReadingView,
    ParseFault,
>
    decreases list.len(),
{
    if list.len() == 0 {
        Ok(nothing_read())
    } else {
        match read_lines(list.drop_last(), answers) {
            Err(e) => Err(e),
            Ok(st) => read_line(st, list.len() as int, list.last(), answers),
        }
    }
}

/// The configuration that a text writes, given what the lookups of its host
/// names came to, in the order in which they were asked for.
pub open spec fn config_text(text: Seq<char>, answers: Seq<AnswerView>) -> Result<
    ConfigView,
    ParseFault,
> {
    match read_lines(lines(text), answers) {
        Err(e) => Err(e),
        Ok(st) => match close_peer(st, lines(text).len() as int) {
            Err(e) => Err(e),
            Ok(end) => match end.private_key {
                None => Err(ParseFault::Invalid("Missing [Interface] PrivateKey"@)),
                Some(key) => Ok(
                    ConfigView {
                        private_key: key,
                        listen_port: end.listen_port,
                        interface_address: end.interface_address,
                        interface_prefix: end.interface_prefix,
                        dns_servers: end.dns_servers,
                        peers: end.peers,
                    },
                ),
            },
        },
    }
}

spec fn reading_view(r: Result<Reading, ParseError>) -> Result<ReadingView, ParseFault> {
    match r {
        Ok(st) => Ok(st@),
        Err(e) => Err(e@),
    }
}

fn finish_peer(st: Reading, n: usize) -> (r: Result<Reading, ParseError>)
    ensures
        reading_view(r) == close_peer(st@, n as int),
{
    let mut st = st;
    match st.section {
        Section::Peer(b) => match b.public_key {
            None => {
                let mut out = line_message(n);
                out.append("Peer missing PublicKey");
                Err(ParseError::Invalid(out))
            },
            Some(public_key) => {
                let peer = ParsedPeer {
                    public_key,
                    preshared_key: b.preshared_key,
                    endpoint: b.endpoint,
                    endpoint_hostname: b.endpoint_hostname,
                    persistent_keepalive: b.persistent_keepalive,
                    allowed_ips: b.allowed_ips,
                };
                proof {
                    lemma_peer_views_push(st.peers@, peer);
                }
                st.peers.push(peer);
                st.section = Section::Outside;
                Ok(st)
            },
        },
        _ => {
            st.section = Section::Outside;
            Ok(st)
        },
    }
}

fn parse_header(st: Reading, n: usize, line: &[char]) -> (r: Result<Reading, ParseError>)
    requires
        n >= 1,
    ensures
        reading_view(r) == read_header(st@, n as int, line@),
{
    match finish_peer(st, n - 1) {
        Err(e) => Err(e),
        Ok(closed) => {
            let mut st = closed;
            if spells(line, "[Interface]") {
                st.section = Section::Interface;
                Ok(st)
            } else if spells(line, "[Peer]") {
                let allowed_ips: Vec<ParsedAllowedIp> = Vec::new();
                assert(allowed_ips@ =~= Seq::<ParsedAllowedIp>::empty());
                st.section = Section::Peer(
                    ParsedPeerBuilder {
                        public_key: None,
                        preshared_key: None,
                        endpoint: None,
                        endpoint_hostname: None,
                        persistent_keepalive: None,
                        allowed_ips,
                    },
                );
                Ok(st)
            } else {
                let mut out = line_message(n);
                out.append("Unknown section: ");
                out.append(string_of(line).as_str());
                Err(ParseError::Invalid(out))
            }
        },
    }
}

fn parse_interface(st: Reading, n: usize, key: &[char], value: &[char]) -> (r: Result<
    Reading,
    ParseError,
>)
    ensures
        reading_view(r) == read_interface(st@, n as int, key@, value@),
{
    let mut st = st;
    if spells(key, "PrivateKey") {
        match decode_wg_key(value, "PrivateKey", n) {
            Ok(k) => {
                st.private_key = Some(k);
                Ok(st)
            },
            Err(e) => Err(ParseError::Invalid(e)),
        }
    } else if spells(key, "ListenPort") {
        match parse_line_number(value, 0xffff, n, "Invalid ListenPort: ") {
            Ok(p) => {
                st.listen_port = Some(p as u16);
                Ok(st)
            },
            Err(e) => Err(ParseError::Invalid(e)),
        }
    } else if spells(key, "Address") {
        match split_at_first(value, '/') {
            None => {
                let mut out = line_message(n);
                out.append("Address must be IP/prefix, got '");
                out.append(string_of(value).as_str());
                out.append("'");
                Err(ParseError::Invalid(out))
            },
            Some((a, p)) => match parse_ip(trim(a)) {
                None => {
                    let mut out = line_message(n);
                    out.append("Invalid Address IP '");
                    out.append(string_of(a).as_str());
                    out.append("': ");
                    out.append("invalid IP address syntax");
                    Err(ParseError::Invalid(out))
                },
                Some(ip) => match parse_number(trim(p), 255) {
                    Err(e) => {
                        let mut out = line_message(n);
                        out.append("Invalid Address prefix '");
                        out.append(string_of(p).as_str());
                        out.append("': ");
                        out.append(e.text());
                        Err(ParseError::Invalid(out))
                    },
                    Ok(prefix) => {
                        st.interface_address = Some(ip);
                        st.interface_prefix = Some(prefix as u8);
                        Ok(st)
                    },
                },
            },
        }
    } else if spells(key, "DNS") {
        push_filled(&mut st.dns_servers, value);
        Ok(st)
    } else {
        Ok(st)
    }
}

fn parse_peer(st: Reading, n: usize, key: &[char], value: &[char], answers: &Vec<Answer>) -> (r:
    Result<Reading, ParseError>)
    requires
        st.used <= answers@.len(),
    ensures
        reading_view(r) == read_peer(st@, n as int, key@, value@, answer_views(answers@)),
        r matches Ok(next) ==> next.used <= answers@.len(),
{
    let mut st = st;
    match st.section {
        Section::Peer(builder) => {
            let mut b = builder;
            if spells(key, "PublicKey") {
                match decode_wg_key(value, "PublicKey", n) {
                    Ok(k) => {
                        b.public_key = Some(k);
                    },
                    Err(e) => {
                        return Err(ParseError::Invalid(e));
                    },
                }
            } else if spells(key, "PresharedKey") {
                match decode_wg_key(value, "PresharedKey", n) {
                    Ok(k) => {
                        b.preshared_key = Some(k);
                    },
                    Err(e) => {
                        return Err(ParseError::Invalid(e));
                    },
                }
            } else if spells(key, "Endpoint") {
                let end = find(value, ':');
                let host = slice_subrange(value, 0, end);
                assert(host@ =~= value@.take(end as int));
                match parse_endpoint(value, n, answers, st.used) {
                    Ok((a, taken)) => {
                        b.endpoint_hostname = Some(string_of(host));
                        b.endpoint = Some(a);
                        if taken {
                            let known: usize = answers.len();
                            assert(st.used < known);
                            st.used = st.used + 1;
                        }
                    },
                    Err(e) => {
                        return Err(e);
                    },
                }
            } else if spells(key, "PersistentKeepalive") {
                match parse_line_number(value, 0xffff, n, "Invalid Keepalive: ") {
                    Ok(k) => {
                        b.persistent_keepalive = Some(k as u16);
                    },
                    Err(e) => {
                        return Err(ParseError::Invalid(e));
                    },
                }
            } else if spells(key, "AllowedIPs") {
                match parse_allowed_ips(value, n) {
                    Ok(list) => {
                        let mut more = list;
                        b.allowed_ips.append(&mut more);
                    },
                    Err(e) => {
                        return Err(ParseError::Invalid(e));
                    },
                }
            }
            st.section = Section::Peer(b);
            Ok(st)
        },
        _ => Ok(st),
    }
}

fn parse_line(st: Reading, n: usize, raw: &[char], answers: &Vec<Answer>) -> (r: Result<
    Reading,
    ParseError,
>)
    requires
        n >= 1,
        st.used <= answers@.len(),
    ensures
        reading_view(r) == read_line(st@, n as int, raw@, answer_views(answers@)),
        r matches Ok(next) ==> next.used <= answers@.len(),
{
    let line = trim(raw);
    if line.len() == 0 || line[0] == '#' || line[0] == ';' {
        return Ok(st);
    }
    if line[0] == '[' && line[line.len() - 1] == ']' {
        let r = parse_header(st, n, line);
        assert(r matches Ok(next) ==> next@.used == st@.used);
        return r;
    }
    match split_at_first(line, '=') {
        None => {
            let mut out = line_message(n);
            out.append("Invalid format");
            Err(ParseError::Invalid(out))
        },
        Some((k, v)) => {
            let key = trim(k);
            let value = trim(v);
            match st.section {
                Section::Outside => Ok(st),
                Section::Interface => {
                    let r = parse_interface(st, n, key, value);
                    assert(r matches Ok(next) ==> next@.used == st@.used);
                    r
                },
                Section::Peer(_) => parse_peer(st, n, key, value, answers),
            }
        },
    }
}

/// The first line that cannot be read decides for the whole text.
proof fn lemma_read_lines_prefix(list: Seq<Seq<char>>, answers: Seq<AnswerView>, i: int)
    requires
        0 <= i <= list.len(),
        read_lines(list.take(i), answers) is Err,
    ensures
        read_lines(list, answers) == read_lines(list.take(i), answers),
    decreases list.len() - i,
{
    if i < list.len() {
        assert(list.take(i + 1).drop_last() =~= list.take(i));
        lemma_read_lines_prefix(list, answers, i + 1);
    } else {
        assert(list.take(i) =~= list);
    }
}

/// What reading a configuration came to.
pub open spec fn config_view(r: Result<ParsedConfig, ParseError>) -> Result<
    ConfigView,
    ParseFault,
> {
    match r {
        Ok(c) => Ok(c@),
        Err(e) => Err(e@),
    }
}

/// Reads a configuration. `answers` says what the lookups of the host names in
/// the text came to, in the order in which they were asked for; where one more
/// is needed, the error names the host.
pub fn parse_wireguard_config(text: &str, answers: &Vec<Answer>) -> (r: Result<
    ParsedConfig,
    ParseError,
>)
    ensures
        config_view(r) == config_text(text@, answer_views(answers@)),
{
    let chars = chars_of(text);
    let list = split_lines(chars.as_slice());
    let ghost all = views(list@);
    let ghost told = answer_views(answers@);
    let mut st = Reading {
        private_key: None,
        listen_port: None,
        interface_address: None,
        interface_prefix: None,
        dns_servers: Vec::new(),
        peers: Vec::new(),
        section: Section::Outside,
        used: 0,
    };
    let mut i: usize = 0;
    assert(all.take(0) =~= Seq::<Seq<char>>::empty());
    assert(st@ =~= nothing_read());
    while i < list.len()
        invariant
            i <= list@.len(),
            all == views(list@),
            all == lines(text@),
            told == answer_views(answers@),
            st.used <= answers@.len(),
            read_lines(all.take(i as int), told) == Ok::<ReadingView, ParseFault>(st@),
        decreases list@.len() - i,
    {
        assert(all.take(i as int + 1).drop_last() =~= all.take(i as int));
        assert(all.take(i as int + 1).last() == list@[i as int]@);
        match parse_line(st, i + 1, list[i].as_slice(), answers) {
            Ok(next) => {
                st = next;
            },
            Err(e) => {
                proof {
                    lemma_read_lines_prefix(all, told, i as int + 1);
                }
                return Err(e);
            },
        }
        i = i + 1;
    }
    assert(all.take(i as int) =~= all);
    match finish_peer(st, list.len()) {
        Err(e) => Err(e),
        Ok(end) => match end.private_key {
            None => Err(ParseError::Invalid("Missing [Interface] PrivateKey".to_string())),
            Some(private_key) => Ok(
                ParsedConfig {
                    private_key,
                    listen_port: end.listen_port,
                    interface_address: end.interface_address,
                    interface_prefix: end.interface_prefix,
                    dns_servers: end.dns_servers,
                    peers: end.peers,
                },
            ),
        },
    }
}

// ---------------------------------------------------------------------------
// Validation
// ---------------------------------------------------------------------------

/// The beginning of a message about a peer; `i` counts from 0.
pub open spec fn peer_label(i: int) -> Seq<char> {
    "Peer #"@ + decimal((i + 1) as nat)
}

/// Whether a peer before the one at `i` has the same public key.
pub open spec fn key_seen(c: ConfigView, i: int) -> bool {
    exists|j: int| 0 <= j < i && #[trigger] c.peers[j].public_key == c.peers[i].public_key
}

/// What is wrong with the peer at `i`, if anything.
pub open spec fn peer_fault(c: ConfigView, i: int) -> Option<Seq<char>> {
    let p = c.peers[i];
    if zero_key(p.public_key) {
        Some(peer_label(i) + ": PublicKey состоит из нулей."@)
    } else if c.private_key == p.public_key {
        Some(
            peer_label(i)
                + ": PublicKey совпадает с вашим PrivateKey — ошибка конфигурации."@,
        )
    } else if key_seen(c, i) {
        Some(peer_label(i) + ": PublicKey уже используется в другом [Peer]."@)
    } else if p.endpoint is None {
        Some(
            peer_label(i)
                + ": Endpoint отсутствует. Укажите адрес и порт сервера (host:port)."@,
        )
    } else if p.allowed_ips.len() == 0 {
        Some(
            peer_label(i)
                + ": AllowedIPs пуст. Укажите хотя бы один маршрут, например: 0.0.0.0/0"@,
        )
    } else {
        match p.preshared_key {
            Some(k) => if zero_key(k) {
                Some(
                    peer_label(i)
                        + ": PresharedKey состоит из нулей — удалите поле или замените ключ."@,
                )
            } else {
                None
            },
            None => None,
        }
    }
}

/// What is wrong with the first faulty peer among the first `k`, if any is.
pub open spec fn peers_fault(c: ConfigView, k: int) -> Option<Seq<char>>
    decreases k,
{
    if k <= 0 {
        None
    } else {
        match peers_fault(c, k - 1) {
            Some(m) => Some(m),
            None => peer_fault(c, k - 1),
        }
    }
}

/// What is wrong with the address of the interface, if anything.
pub open spec fn address_fault(c: ConfigView) -> Option<Seq<char>> {
    match (c.interface_address, c.interface_prefix) {
        (Some(ip), Some(prefix)) => if prefix > ip.longest_prefix() {
            Some(
                "Address: префикс /"@ + decimal(prefix as nat) + " недопустим для "@ + (
                if ip is V4 {
                    "IPv4"@
                } else {
                    "IPv6"@
                }) + " (максимум /"@ + decimal(ip.longest_prefix() as nat) + ")"@,
            )
        } else {
            None
        },
        _ => Some("Поле Address в [Interface] обязательно. Пример: Address = 10.0.0.2/32"@),
    }
}

/// What is wrong with a configuration, if anything: the first fault in the order
/// private key, peers at all, address, each peer.
pub open spec fn config_fault(c: ConfigView) -> Option<Seq<char>> {
    if zero_key(c.private_key) {
        Some("PrivateKey состоит из нулей. Сгенерируйте новую пару ключей (wg genkey)."@)
    } else if c.peers.len() == 0 {
        Some("Секция [Peer] отсутствует. Укажите PublicKey и Endpoint сервера."@)
    } else if address_fault(c) is Some {
        address_fault(c)
    } else {
        peers_fault(c, c.peers.len() as int)
    }
}

fn labelled(i: usize, words: &str) -> (r: String)
    requires
        i < usize::MAX,
    ensures
        r@ == peer_label(i as int) + words@,
{
    let mut out = "Peer #".to_string();
    push_decimal(&mut out, i as u64 + 1);
    out.append(words);
    out
}

fn has_seen_key(config: &ParsedConfig, i: usize) -> (r: bool)
    requires
        i < config.peers@.len(),
    ensures
        r == key_seen(config@, i as int),
{
    let ghost c = config@;
    assert(forall|k: int| 0 <= k < c.peers.len() ==> #[trigger] c.peers[k] == config.peers@[k]@);
    let mut j: usize = 0;
    while j < i
        invariant
            j <= i < config.peers@.len(),
            c == config@,
            forall|k: int| 0 <= k < c.peers.len() ==> #[trigger] c.peers[k] == config.peers@[k]@,
            forall|k: int| 0 <= k < j ==> #[trigger] c.peers[k].public_key != c.peers[i as int].public_key,
        decreases i - j,
    {
        if same_key(&config.peers[j].public_key, &config.peers[i].public_key) {
            assert(c.peers[j as int].public_key == c.peers[i as int].public_key);
            return true;
        }
        assert(c.peers[j as int].public_key != c.peers[i as int].public_key);
        j = j + 1;
    }
    false
}

fn check_peer(config: &ParsedConfig, i: usize) -> (r: Option<String>)
    requires
        i < config.peers@.len(),
    ensures
        opt_text(r) == peer_fault(config@, i as int),
{
    let count: usize = config.peers.len();
    assert(i < count);
    let p = &config.peers[i];
    assert(config@.peers[i as int] == p@);
    if is_zero_key(&p.public_key) {
        return Some(labelled(i, ": PublicKey состоит из нулей."));
    }
    if same_key(&config.private_key, &p.public_key) {
        return Some(
            labelled(
                i,
                ": PublicKey совпадает с вашим PrivateKey — ошибка конфигурации.",
            ),
        );
    }
    if has_seen_key(config, i) {
        return Some(labelled(i, ": PublicKey уже используется в другом [Peer]."));
    }
    if p.endpoint.is_none() {
        return Some(
            labelled(
                i,
                ": Endpoint отсутствует. Укажите адрес и порт сервера (host:port).",
            ),
        );
    }
    if p.allowed_ips.len() == 0 {
        return Some(
            labelled(
                i,
                ": AllowedIPs пуст. Укажите хотя бы один маршрут, например: 0.0.0.0/0",
            ),
        );
    }
    match &p.preshared_key {
        Some(k) => {
            if is_zero_key(k) {
                return Some(
                    labelled(
                        i,
                        ": PresharedKey состоит из нулей — удалите поле или замените ключ.",
                    ),
                );
            }
        },
        None => {},
    }
    None
}

fn check_address(config: &ParsedConfig) -> (r: Option<String>)
    ensures
        opt_text(r) == address_fault(config@),
{
    match (config.interface_address, config.interface_prefix) {
        (Some(ip), Some(prefix)) => {
            let longest: u8 = if ip.is_ipv4() {
                32
            } else {
                128
            };
            if prefix > longest {
                let mut out = "Address: префикс /".to_string();
                push_decimal(&mut out, prefix as u64);
                out.append(" недопустим для ");
                if ip.is_ipv4() {
                    out.append("IPv4");
                } else {
                    out.append("IPv6");
                }
                out.append(" (максимум /");
                push_decimal(&mut out, longest as u64);
                out.append(")");
                return Some(out);
            }
            None
        },
        _ => Some(
            "Поле Address в [Interface] обязательно. Пример: Address = 10.0.0.2/32".to_string(),
        ),
    }
}

/// The first faulty peer decides.
proof fn lemma_peers_fault(c: ConfigView, i: int, k: int)
    requires
        0 <= i < k,
        peers_fault(c, i) is None,
        peer_fault(c, i) is Some,
    ensures
        peers_fault(c, k) == peer_fault(c, i),
    decreases k - i,
{
    if i + 1 < k {
        lemma_peers_fault(c, i, k - 1);
    }
}

/// Whether a configuration makes sense for a client; if not, the message of its
/// first fault.
pub fn validate_config(config: &ParsedConfig) -> (r: Result<(), String>)
    ensures
        match r {
            Ok(()) => config_fault(config@) is None,
            Err(m) => config_fault(config@) == Some(m@),
        },
{
    if is_zero_key(&config.private_key) {
        return Err(
            "PrivateKey состоит из нулей. Сгенерируйте новую пару ключей (wg genkey).".to_string(),
        );
    }
    if config.peers.len() == 0 {
        return Err(
            "Секция [Peer] отсутствует. Укажите PublicKey и Endpoint сервера.".to_string(),
        );
    }
    match check_address(config) {
        Some(m) => {
            return Err(m);
        },
        None => {},
    }
    let mut i: usize = 0;
    while i < config.peers.len()
        invariant
            i <= config.peers@.len(),
            !zero_key(config@.private_key),
            config@.peers.len() == config.peers@.len() > 0,
            address_fault(config@) is None,
            peers_fault(config@, i as int) is None,
        decreases config.peers@.len() - i,
    {
        match check_peer(config, i) {
            Some(m) => {
                proof {
                    lemma_peers_fault(config@, i as int, config@.peers.len() as int);
                }
                return Err(m);
            },
            None => {},
        }
        i = i + 1;
    }
    Ok(())
}

// ---------------------------------------------------------------------------
// Laws
// ---------------------------------------------------------------------------

/// A peer list without a fault has none at any place.
proof fn lemma_no_peer_fault(c: ConfigView, k: int, i: int)
    requires
        0 <= i < k,
        peers_fault(c, k) is None,
    ensures
        peer_fault(c, i) is None,
    decreases k,
{
    if i < k - 1 {
        lemma_no_peer_fault(c, k - 1, i);
    }
}

proof fn lemma_no_peers_fault(c: ConfigView, k: int)
    requires
        forall|i: int| 0 <= i < k ==> peer_fault(c, i) is None,
    ensures
        peers_fault(c, k) is None,
    decreases k,
{
    if k > 0 {
        lemma_no_peers_fault(c, k - 1);
    }
}

/// Whether a peer has a key that is neither zero nor the private key, an endpoint,
/// at least one allowed range, and no preshared key of zeros.
pub open spec fn peer_fit(p: PeerView, private_key: Seq<u8>) -> bool {
    &&& !zero_key(p.public_key)
    &&& p.public_key != private_key
    &&& p.endpoint is Some
    &&& p.allowed_ips.len() > 0
    &&& p.preshared_key is Some ==> !zero_key(p.preshared_key->0)
}

/// Whether a configuration is fit for a client: its private key is not zero, its
/// address has a prefix within the family, there is a peer, every peer is fit, and
/// no two have the same key.
pub open spec fn config_fit(c: ConfigView) -> bool {
    &&& !zero_key(c.private_key)
    &&& c.peers.len() > 0
    &&& c.interface_address is Some
    &&& c.interface_prefix is Some
    &&& c.interface_prefix->0 <= c.interface_address->0.longest_prefix()
    &&& forall|i: int| 0 <= i < c.peers.len() ==> peer_fit(#[trigger] c.peers[i], c.private_key)
    &&& forall|i: int, j: int|
        0 <= i < j < c.peers.len() ==> (#[trigger] c.peers[i]).public_key != (
        #[trigger] c.peers[j]).public_key
}

/// Validation passes exactly the configurations that are fit for a client.
pub proof fn law_valid_config_is_fit(c: ConfigView)
    ensures
        config_fault(c) is None <==> config_fit(c),
{
    if config_fault(c) is None {
        assert forall|i: int| 0 <= i < c.peers.len() implies peer_fault(c, i) is None by {
            lemma_no_peer_fault(c, c.peers.len() as int, i);
        }
        assert forall|i: int, j: int| 0 <= i < j < c.peers.len() implies (
        #[trigger] c.peers[i]).public_key != (#[trigger] c.peers[j]).public_key by {
            assert(peer_fault(c, j) is None);
            assert(!key_seen(c, j));
        }
        assert forall|i: int| 0 <= i < c.peers.len() implies peer_fit(
            #[trigger] c.peers[i],
            c.private_key,
        ) by {
            assert(peer_fault(c, i) is None);
        }
    }
    if config_fit(c) {
        assert forall|i: int| 0 <= i < c.peers.len() implies peer_fault(c, i) is None by {
            assert(peer_fit(c.peers[i], c.private_key));
            assert(!key_seen(c, i));
        }
        lemma_no_peers_fault(c, c.peers.len() as int);
    }
}

/// Whether every range of a list keeps to the prefix lengths of its family.
pub open spec fn ranges_fit(list: Seq<ParsedAllowedIp>) -> bool {
    forall|i: int| 0 <= i < list.len() ==> (#[trigger] list[i]).cidr <= list[i].address.longest_prefix()
}

/// Whether a peer has a whole key and ranges that fit.
pub open spec fn peer_sound(p: PeerView) -> bool {
    &&& p.public_key.len() == 32
    &&& p.preshared_key is Some ==> p.preshared_key->0.len() == 32
    &&& ranges_fit(p.allowed_ips)
}

spec fn reading_sound(st: ReadingView) -> bool {
    &&& st.private_key is Some ==> st.private_key->0.len() == 32
    &&& forall|i: int| 0 <= i < st.peers.len() ==> peer_sound(#[trigger] st.peers[i])
    &&& match st.section {
        SectionView::Peer { public_key, preshared_key, allowed_ips, .. } => {
            &&& public_key is Some ==> public_key->0.len() == 32
            &&& preshared_key is Some ==> preshared_key->0.len() == 32
            &&& ranges_fit(allowed_ips)
        },
        _ => true,
    }
}

proof fn lemma_allowed_ips_fit(p: Seq<Seq<char>>, n: int)
    ensures
        allowed_ips_of(p, n) matches Ok(list) ==> ranges_fit(list),
    decreases p.len(),
{
    if p.len() > 0 {
        lemma_allowed_ips_fit(p.drop_last(), n);
        let s = trimmed(p.last());
        if let Some((_, c)) = split_once(s, '/') {
            lemma_read_number_bound(c, 255);
        }
    }
}

proof fn lemma_read_lines_sound(list: Seq<Seq<char>>, answers: Seq<AnswerView>)
    ensures
        read_lines(list, answers) matches Ok(st) ==> reading_sound(st),
    decreases list.len(),
{
    if list.len() > 0 {
        lemma_read_lines_sound(list.drop_last(), answers);
        let n = list.len() as int;
        let line = trimmed(list.last());
        if let Some((_, v)) = split_once(line, '=') {
            lemma_allowed_ips_fit(pieces(trimmed(v), ','), n);
        }
    }
}

/// What is read from a text is sound: keys are whole, and no allowed range has a
/// prefix longer than its family allows.
pub proof fn law_parsed_config_is_sound(text: Seq<char>, answers: Seq<AnswerView>)
    ensures
        config_text(text, answers) matches Ok(c) ==> {
            &&& c.private_key.len() == 32
            &&& forall|i: int| 0 <= i < c.peers.len() ==> peer_sound(#[trigger] c.peers[i])
        },
{
    lemma_read_lines_sound(lines(text), answers);
}

proof fn lemma_used(list: Seq<Seq<char>>, answers: Seq<AnswerView>)
    ensures
        read_lines(list, answers) matches Ok(st) ==> 0 <= st.used <= list.len(),
        read_lines(list, answers) matches Err(ParseFault::Unresolved(name)) ==> answers.len()
            < list.len(),
    decreases list.len(),
{
    if list.len() > 0 {
        lemma_used(list.drop_last(), answers);
    }
}

/// Asking ends: with an answer for every line of the text, no host name is left
/// without one.
pub proof fn law_answers_suffice(text: Seq<char>, answers: Seq<AnswerView>)
    requires
        answers.len() >= lines(text).len(),
    ensures
        !(config_text(text, answers) matches Err(ParseFault::Unresolved(name))),
{
    lemma_used(lines(text), answers);
}

} // verus!
