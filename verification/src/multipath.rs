//! The header in front of every packet that is sent over several paths.

use crate::address::Ipv4Addr;
use crate::wireguard_config::be;
use vstd::prelude::*;

verus! {

/// The first two bytes of a header.
pub const MAGIC: u16 = 0x4741;

/// The size of a header.
pub const HEADER_SIZE: usize = 18;

/// A header, each field in network byte order.
#[derive(Debug, Clone, Copy)]
pub struct MultipathHeader {
    pub magic: [u8; 2],
    pub seq: [u8; 4],
    pub src_ip: [u8; 4],
    pub src_port: [u8; 2],
    pub dst_ip: [u8; 4],
    pub dst_port: [u8; 2],
}

/// What a header says.
#[verifier::ext_equal]
pub struct Fields {
    pub seq: u32,
    pub src_ip: Ipv4Addr,
    pub src_port: u16,
    pub dst_ip: Ipv4Addr,
    pub dst_port: u16,
}

/// The number that two bytes in network byte order stand for.
pub open spec fn word(b: Seq<u8>) -> u16 {
    (b[0] * 0x100 + b[1]) as u16
}

/// The number that four bytes in network byte order stand for.
pub open spec fn long(b: Seq<u8>) -> u32 {
    Ipv4Addr::value(b[0] as int, b[1] as int, b[2] as int, b[3] as int) as u32
}

/// What the bytes of a header say.
pub open spec fn read_fields(b: Seq<u8>) -> Fields {
    Fields {
        seq: long(b.subrange(2, 6)),
        src_ip: Ipv4Addr { bits: long(b.subrange(6, 10)) },
        src_port: word(b.subrange(10, 12)),
        dst_ip: Ipv4Addr { bits: long(b.subrange(12, 16)) },
        dst_port: word(b.subrange(16, 18)),
    }
}

/// What a packet says in its header, if it has one.
pub open spec fn read_header(data: Seq<u8>) -> Option<Fields> {
    if data.len() < HEADER_SIZE || word(data) != MAGIC {
        None
    } else {
        Some(read_fields(data))
    }
}

/// The bytes of the header that says something.
pub open spec fn header_bytes(f: Fields) -> Seq<u8> {
    be(MAGIC as int, 2) + be(f.seq as int, 4) + be(f.src_ip.bits as int, 4) + be(
        f.src_port as int,
        2,
    ) + be(f.dst_ip.bits as int, 4) + be(f.dst_port as int, 2)
}

proof fn lemma_word(n: u16)
    ensures
        be(n as int, 2) == seq![(n / 0x100) as u8, (n % 0x100) as u8],
        word(be(n as int, 2)) == n,
{
    reveal_with_fuel(be, 3);
    assert(be(n as int, 2) =~= seq![(n / 0x100) as u8, (n % 0x100) as u8]);
}

proof fn lemma_long(n: u32)
    ensures
        ({
            let a = Ipv4Addr { bits: n };
            be(n as int, 4) == seq![a.octet(0), a.octet(1), a.octet(2), a.octet(3)]
        }),
        long(be(n as int, 4)) == n,
{
    let a = Ipv4Addr { bits: n };
    reveal_with_fuel(be, 5);
    assert(n / 0x100 / 0x100 == n / 0x1_0000 && n / 0x100 / 0x100 / 0x100 == n / 0x100_0000) by (
    bit_vector);
    assert(n / 0x100_0000 < 0x100) by (bit_vector);
    assert(be(n as int, 4) =~= seq![a.octet(0), a.octet(1), a.octet(2), a.octet(3)]);
}

proof fn lemma_long_octets(a: u8, b: u8, c: u8, d: u8)
    ensures
        be(Ipv4Addr::value(a as int, b as int, c as int, d as int), 4) == seq![a, b, c, d],
{
    let n: u32 = Ipv4Addr::value(a as int, b as int, c as int, d as int) as u32;
    lemma_long(n);
    assert(n / 0x100_0000 == a && n / 0x1_0000 % 0x100 == b && n / 0x100 % 0x100 == c && n % 0x100
        == d) by (bit_vector)
        requires
            n == a * 0x100_0000 + b * 0x1_0000 + c * 0x100 + d,
    ;
}

impl MultipathHeader {
    /// The bytes of this header.
    pub open spec fn bytes(self) -> Seq<u8> {
        self.magic@ + self.seq@ + self.src_ip@ + self.src_port@ + self.dst_ip@ + self.dst_port@
    }

    /// What this header says.
    pub open spec fn fields(self) -> Fields {
        Fields {
            seq: long(self.seq@),
            src_ip: Ipv4Addr { bits: long(self.src_ip@) },
            src_port: word(self.src_port@),
            dst_ip: Ipv4Addr { bits: long(self.dst_ip@) },
            dst_port: word(self.dst_port@),
        }
    }

    /// The header that says something.
    pub fn new(seq: u32, src_ip: Ipv4Addr, src_port: u16, dst_ip: Ipv4Addr, dst_port: u16) -> (r:
        MultipathHeader)
        ensures
            r.fields() == (Fields { seq, src_ip, src_port, dst_ip, dst_port }),
            r.bytes() == header_bytes(r.fields()),
    {
        let number = Ipv4Addr { bits: seq };
        let r = MultipathHeader {
            magic: [(MAGIC / 0x100) as u8, (MAGIC % 0x100) as u8],
            seq: number.octets(),
            src_ip: src_ip.octets(),
            src_port: [(src_port / 0x100) as u8, (src_port % 0x100) as u8],
            dst_ip: dst_ip.octets(),
            dst_port: [(dst_port / 0x100) as u8, (dst_port % 0x100) as u8],
        };
        proof {
            lemma_word(MAGIC);
            lemma_long(seq);
            lemma_long(src_ip.bits);
            lemma_word(src_port);
            lemma_long(dst_ip.bits);
            lemma_word(dst_port);
            assert(r.magic@ =~= be(MAGIC as int, 2));
            assert(r.seq@ =~= be(seq as int, 4));
            assert(r.src_ip@ =~= be(src_ip.bits as int, 4));
            assert(r.src_port@ =~= be(src_port as int, 2));
            assert(r.dst_ip@ =~= be(dst_ip.bits as int, 4));
            assert(r.dst_port@ =~= be(dst_port as int, 2));
        }
        r
    }

    /// The bytes of this header.
    pub fn as_bytes(&self) -> (r: Vec<u8>)
        ensures
            r@ == self.bytes(),
    {
        let mut out: Vec<u8> = Vec::new();
        out.push(self.magic[0]);
        out.push(self.magic[1]);
        out.push(self.seq[0]);
        out.push(self.seq[1]);
        out.push(self.seq[2]);
        out.push(self.seq[3]);
        out.push(self.src_ip[0]);
        out.push(self.src_ip[1]);
        out.push(self.src_ip[2]);
        out.push(self.src_ip[3]);
        out.push(self.src_port[0]);
        out.push(self.src_port[1]);
        out.push(self.dst_ip[0]);
        out.push(self.dst_ip[1]);
        out.push(self.dst_ip[2]);
        out.push(self.dst_ip[3]);
        out.push(self.dst_port[0]);
        out.push(self.dst_port[1]);
        assert(out@ =~= self.bytes());
        out
    }

    /// The header at the beginning of a packet.
    pub fn parse(data: &[u8]) -> (r: Option<MultipathHeader>)
        ensures
            match r {
                Some(h) => read_header(data@) == Some(h.fields()) && h.bytes() == data@.take(
                    HEADER_SIZE as int,
                ),
                None => read_header(data@) is None,
            },
    {
        if data.len() < HEADER_SIZE {
            return None;
        }
        let magic: u16 = data[0] as u16 * 0x100 + data[1] as u16;
        if magic != MAGIC {
            return None;
        }
        let r = MultipathHeader {
            magic: [data[0], data[1]],
            seq: [data[2], data[3], data[4], data[5]],
            src_ip: [data[6], data[7], data[8], data[9]],
            src_port: [data[10], data[11]],
            dst_ip: [data[12], data[13], data[14], data[15]],
            dst_port: [data[16], data[17]],
        };
        assert(r.seq@ =~= data@.subrange(2, 6));
        assert(r.src_ip@ =~= data@.subrange(6, 10));
        assert(r.src_port@ =~= data@.subrange(10, 12));
        assert(r.dst_ip@ =~= data@.subrange(12, 16));
        assert(r.dst_port@ =~= data@.subrange(16, 18));
        assert(r.bytes() =~= data@.take(HEADER_SIZE as int));
        Some(r)
    }

    /// The sequence number.
    pub fn get_seq(&self) -> (r: u32)
        ensures
            r == self.fields().seq,
    {
        Ipv4Addr::new(self.seq[0], self.seq[1], self.seq[2], self.seq[3]).bits
    }

    /// The address that the packet comes from.
    pub fn get_src_ip(&self) -> (r: Ipv4Addr)
        ensures
            r == self.fields().src_ip,
    {
        Ipv4Addr::new(self.src_ip[0], self.src_ip[1], self.src_ip[2], self.src_ip[3])
    }

    /// The address that the packet goes to.
    pub fn get_dst_ip(&self) -> (r: Ipv4Addr)
        ensures
            r == self.fields().dst_ip,
    {
        Ipv4Addr::new(self.dst_ip[0], self.dst_ip[1], self.dst_ip[2], self.dst_ip[3])
    }

    /// The port that the packet comes from.
    pub fn get_src_port(&self) -> (r: u16)
        ensures
            r == self.fields().src_port,
    {
        self.src_port[0] as u16 * 0x100 + self.src_port[1] as u16
    }

    /// The port that the packet goes to.
    pub fn get_dst_port(&self) -> (r: u16)
        ensures
            r == self.fields().dst_port,
    {
        self.dst_port[0] as u16 * 0x100 + self.dst_port[1] as u16
    }
}

/// A header reads back as what it was written from, whatever follows it.
pub proof fn law_header_reads_back(f: Fields, rest: Seq<u8>)
    ensures
        header_bytes(f).len() == HEADER_SIZE,
        read_header(header_bytes(f) + rest) == Some(f),
{
    let data = header_bytes(f) + rest;
    lemma_word(MAGIC);
    lemma_long(f.seq);
    lemma_long(f.src_ip.bits);
    lemma_word(f.src_port);
    lemma_long(f.dst_ip.bits);
    lemma_word(f.dst_port);
    assert(data.subrange(2, 6) =~= be(f.seq as int, 4));
    assert(data.subrange(6, 10) =~= be(f.src_ip.bits as int, 4));
    assert(data.subrange(10, 12) =~= be(f.src_port as int, 2));
    assert(data.subrange(12, 16) =~= be(f.dst_ip.bits as int, 4));
    assert(data.subrange(16, 18) =~= be(f.dst_port as int, 2));
    assert(data[0] == be(MAGIC as int, 2)[0] && data[1] == be(MAGIC as int, 2)[1]);
}

/// A header that was read writes the same bytes again.
pub proof fn law_header_writes_back(data: Seq<u8>)
    requires
        read_header(data) is Some,
    ensures
        header_bytes(read_header(data)->0) == data.take(HEADER_SIZE as int),
{
    let f = read_header(data)->0;
    let d = data;
    lemma_long_octets(d[2], d[3], d[4], d[5]);
    lemma_long_octets(d[6], d[7], d[8], d[9]);
    lemma_long_octets(d[12], d[13], d[14], d[15]);
    lemma_word(f.src_port);
    lemma_word(f.dst_port);
    lemma_word(MAGIC);
    lemma_long(f.seq);
    lemma_long(f.src_ip.bits);
    lemma_long(f.dst_ip.bits);
    assert(header_bytes(f) =~= data.take(HEADER_SIZE as int));
}

/// Where each field of a header stands: behind the two bytes 0x47 and 0x41 the
/// sequence number, the address and the port that the packet comes from, and those
/// that it goes to, each with its most significant byte first.
pub proof fn law_header_layout(f: Fields)
    ensures
        ({
            let h = header_bytes(f);
            &&& h.len() == 18
            &&& h[0] == 0x47 && h[1] == 0x41
            &&& f.seq == h[2] * 0x100_0000 + h[3] * 0x1_0000 + h[4] * 0x100 + h[5]
            &&& f.src_ip.bits == h[6] * 0x100_0000 + h[7] * 0x1_0000 + h[8] * 0x100 + h[9]
            &&& f.src_port == h[10] * 0x100 + h[11]
            &&& f.dst_ip.bits == h[12] * 0x100_0000 + h[13] * 0x1_0000 + h[14] * 0x100 + h[15]
            &&& f.dst_port == h[16] * 0x100 + h[17]
        }),
{
    let h = header_bytes(f);
    let (a, b, c, d, e, g) = (
        be(MAGIC as int, 2),
        be(f.seq as int, 4),
        be(f.src_ip.bits as int, 4),
        be(f.src_port as int, 2),
        be(f.dst_ip.bits as int, 4),
        be(f.dst_port as int, 2),
    );
    lemma_word(MAGIC);
    lemma_long(f.seq);
    lemma_long(f.src_ip.bits);
    lemma_word(f.src_port);
    lemma_long(f.dst_ip.bits);
    lemma_word(f.dst_port);
    assert(h == a + b + c + d + e + g);
    assert(h[0] == a[0] && h[1] == a[1]);
    assert(h[2] == b[0] && h[3] == b[1] && h[4] == b[2] && h[5] == b[3]);
    assert(h[6] == c[0] && h[7] == c[1] && h[8] == c[2] && h[9] == c[3]);
    assert(h[10] == d[0] && h[11] == d[1]);
    assert(h[12] == e[0] && h[13] == e[1] && h[14] == e[2] && h[15] == e[3]);
    assert(h[16] == g[0] && h[17] == g[1]);
}

/// A packet has a header exactly where it has at least 18 bytes and begins with
/// 0x47 and 0x41. The header then says what stands in its places.
pub proof fn law_which_packets_are_read(data: Seq<u8>)
    ensures
        read_header(data) is Some <==> data.len() >= 18 && data[0] == 0x47 && data[1] == 0x41,
        read_header(data) matches Some(f) ==> {
            &&& f.seq == data[2] * 0x100_0000 + data[3] * 0x1_0000 + data[4] * 0x100 + data[5]
            &&& f.src_ip.bits == data[6] * 0x100_0000 + data[7] * 0x1_0000 + data[8] * 0x100
                + data[9]
            &&& f.src_port == data[10] * 0x100 + data[11]
            &&& f.dst_ip.bits == data[12] * 0x100_0000 + data[13] * 0x1_0000 + data[14] * 0x100
                + data[15]
            &&& f.dst_port == data[16] * 0x100 + data[17]
        },
{
}

} // verus!
