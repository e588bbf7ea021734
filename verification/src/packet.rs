//! The wire packet format: a fixed 17-byte big-endian header followed by a
//! payload that depends on the packet type, and the CRC32 used for whole-file
//! verification.

use vstd::prelude::*;
use crate::consts::HEADER_SIZE;

verus! {

/// Kind of a packet. On the wire an ACK is tagged 0, a PUT 1; every other
/// tag is a protocol violation and decodes to an error.
#[derive(Clone, Copy, Debug, PartialEq, Eq, Structural)]
pub enum PacketType {
    ACK,
    PUT,
    UNKNOWN,
}

/// Fixed-size packet header, serialized as four big-endian fields with no
/// padding: `seq_number: u32`, `seq_total: u32`, the type tag as one byte,
/// `file_id: u64`.
#[derive(Clone, Copy, Debug, PartialEq, Eq, Structural)]
pub struct Header {
    pub seq_number: u32,
    pub seq_total: u32,
    pub type_: PacketType,
    pub file_id: u64,
}

impl Header {
    /// Number of bytes the header occupies on the wire: two `u32` fields,
    /// the one-byte type tag and one `u64` field.
    pub fn serialized_size() -> (n: usize)
        ensures
            n == HEADER_SIZE,
    {
        4 + 4 + 1 + 8
    }
}

/// Payload carried beside the header.
pub enum Data {
    /// A chunk of file data taken from a chunk source, carried by an
    /// outbound PUT.
    Ref(Vec<u8>),
    /// A decoded inbound PUT payload.
    Copy(Vec<u8>),
    /// A whole-file CRC32 carried by an ACK.
    Crs32(u32),
    /// A bare per-packet ACK without a checksum.
    Empty,
}

/// One protocol packet: header plus payload.
pub struct Packet {
    pub header: Header,
    pub data: Data,
}

/// Error returned when an inbound datagram cannot be decoded.
#[derive(Clone, Copy, Debug, PartialEq, Eq, Structural)]
pub enum DecodeError {
    /// Fewer bytes than one serialized header.
    TooShort,
    /// The type tag is neither ACK nor PUT.
    UnknownPacketType,
}

/// The one-byte wire tag of each packet type.
pub open spec fn type_tag(t: PacketType) -> u8 {
    match t {
        PacketType::ACK => 0,
        PacketType::PUT => 1,
        PacketType::UNKNOWN => 0xff,
    }
}

/// The packet type a wire tag stands for; every tag but 0 and 1 is unknown.
pub open spec fn tag_type(b: u8) -> PacketType {
    if b == 0 {
        PacketType::ACK
    } else if b == 1 {
        PacketType::PUT
    } else {
        PacketType::UNKNOWN
    }
}

/// A `u32` as four big-endian bytes.
pub open spec fn u32_be(x: u32) -> Seq<u8> {
    seq![(x >> 24) as u8, (x >> 16) as u8, (x >> 8) as u8, x as u8]
}

/// A `u64` as eight big-endian bytes.
pub open spec fn u64_be(x: u64) -> Seq<u8> {
    seq![
        (x >> 56) as u8,
        (x >> 48) as u8,
        (x >> 40) as u8,
        (x >> 32) as u8,
        (x >> 24) as u8,
        (x >> 16) as u8,
        (x >> 8) as u8,
        x as u8,
    ]
}

/// The `u32` that four big-endian bytes stand for.
pub open spec fn u32_from_be(s: Seq<u8>) -> u32
    recommends
        s.len() == 4,
{
    ((s[0] as u32) << 24) | ((s[1] as u32) << 16) | ((s[2] as u32) << 8) | (s[3] as u32)
}

/// The `u64` that eight big-endian bytes stand for.
pub open spec fn u64_from_be(s: Seq<u8>) -> u64
    recommends
        s.len() == 8,
{
    ((s[0] as u64) << 56) | ((s[1] as u64) << 48) | ((s[2] as u64) << 40) | ((s[3] as u64) << 32)
        | ((s[4] as u64) << 24) | ((s[5] as u64) << 16) | ((s[6] as u64) << 8) | (s[7] as u64)
}

pub proof fn lemma_u32_be_roundtrip(x: u32)
    ensures
        u32_from_be(u32_be(x)) == x,
{
    assert((((((x >> 24) as u8) as u32) << 24) | ((((x >> 16) as u8) as u32) << 16) | ((((x
        >> 8) as u8) as u32) << 8) | ((x as u8) as u32)) == x) by (bit_vector);
}

pub proof fn lemma_u64_be_roundtrip(x: u64)
    ensures
        u64_from_be(u64_be(x)) == x,
{
    assert((((((x >> 56) as u8) as u64) << 56) | ((((x >> 48) as u8) as u64) << 48) | ((((x
        >> 40) as u8) as u64) << 40) | ((((x >> 32) as u8) as u64) << 32) | ((((x
        >> 24) as u8) as u64) << 24) | ((((x >> 16) as u8) as u64) << 16) | ((((x
        >> 8) as u8) as u64) << 8) | ((x as u8) as u64)) == x) by (bit_vector);
}

pub proof fn lemma_u32_be_inverse(s: Seq<u8>)
    requires
        s.len() == 4,
    ensures
        u32_be(u32_from_be(s)) == s,
{
    let b0 = s[0];
    let b1 = s[1];
    let b2 = s[2];
    let b3 = s[3];
    assert(((((b0 as u32) << 24 | (b1 as u32) << 16 | (b2 as u32) << 8 | (b3 as u32)) >> 24) as u8)
        == b0) by (bit_vector);
    assert(((((b0 as u32) << 24 | (b1 as u32) << 16 | (b2 as u32) << 8 | (b3 as u32)) >> 16) as u8)
        == b1) by (bit_vector);
    assert(((((b0 as u32) << 24 | (b1 as u32) << 16 | (b2 as u32) << 8 | (b3 as u32)) >> 8) as u8)
        == b2) by (bit_vector);
    assert((((b0 as u32) << 24 | (b1 as u32) << 16 | (b2 as u32) << 8 | (b3 as u32)) as u8) == b3)
        by (bit_vector);
    assert(u32_be(u32_from_be(s)) =~= s);
}

/// The bytes a payload contributes to the encoded packet: chunk data as is,
/// a checksum as four big-endian bytes, nothing for a bare ACK.
pub open spec fn spec_payload_bytes(d: Data) -> Seq<u8> {
    match d {
        Data::Ref(v) => v@,
        Data::Copy(v) => v@,
        Data::Crs32(c) => u32_be(c),
        Data::Empty => Seq::empty(),
    }
}

/// The 17 bytes of a serialized header.
pub open spec fn spec_header_bytes(h: Header) -> Seq<u8> {
    u32_be(h.seq_number) + u32_be(h.seq_total) + seq![type_tag(h.type_)] + u64_be(h.file_id)
}

/// The full encoding of a packet: header bytes, then payload bytes.
pub open spec fn spec_encode(p: Packet) -> Seq<u8> {
    spec_header_bytes(p.header) + spec_payload_bytes(p.data)
}

/// Whether a byte string decodes at all: it holds a whole header and its
/// type tag is ACK or PUT.
pub open spec fn spec_can_decode(b: Seq<u8>) -> bool {
    b.len() >= HEADER_SIZE && tag_type(b[8]) != PacketType::UNKNOWN
}

/// The header read back from an encoded packet.
pub open spec fn spec_header(b: Seq<u8>) -> Header
    recommends
        b.len() >= HEADER_SIZE,
{
    Header {
        seq_number: u32_from_be(b.subrange(0, 4)),
        seq_total: u32_from_be(b.subrange(4, 8)),
        type_: tag_type(b[8]),
        file_id: u64_from_be(b.subrange(9, 17)),
    }
}

/// The payload bytes a decoded packet carries: for a PUT everything after
/// the header; for an ACK the four checksum bytes when at least four trail
/// the header, else nothing.
pub open spec fn spec_decoded_payload(b: Seq<u8>) -> Seq<u8>
    recommends
        spec_can_decode(b),
{
    if spec_header(b).type_ == PacketType::PUT {
        b.skip(HEADER_SIZE as int)
    } else if b.len() >= HEADER_SIZE + 4 {
        b.subrange(HEADER_SIZE as int, HEADER_SIZE as int + 4)
    } else {
        Seq::empty()
    }
}

/// A packet whose payload variant agrees with its type: a PUT carries chunk
/// bytes, an ACK a checksum or nothing; unknown types are never built.
pub open spec fn wf_packet(p: Packet) -> bool {
    match p.header.type_ {
        PacketType::PUT => p.data is Ref || p.data is Copy,
        PacketType::ACK => p.data is Crs32 || p.data is Empty,
        PacketType::UNKNOWN => false,
    }
}

fn tag_of(t: PacketType) -> (b: u8)
    ensures
        b == type_tag(t),
{
    match t {
        PacketType::ACK => 0,
        PacketType::PUT => 1,
        PacketType::UNKNOWN => 0xff,
    }
}

fn push_u32_be(out: &mut Vec<u8>, x: u32)
    ensures
        final(out)@ == old(out)@ + u32_be(x),
{
    out.push(#[verifier::truncate] ((x >> 24) as u8));
    out.push(#[verifier::truncate] ((x >> 16) as u8));
    out.push(#[verifier::truncate] ((x >> 8) as u8));
    out.push(#[verifier::truncate] (x as u8));
    proof {
        assert(out@ =~= old(out)@ + u32_be(x));
    }
}

fn push_u64_be(out: &mut Vec<u8>, x: u64)
    ensures
        final(out)@ == old(out)@ + u64_be(x),
{
    out.push(#[verifier::truncate] ((x >> 56) as u8));
    out.push(#[verifier::truncate] ((x >> 48) as u8));
    out.push(#[verifier::truncate] ((x >> 40) as u8));
    out.push(#[verifier::truncate] ((x >> 32) as u8));
    out.push(#[verifier::truncate] ((x >> 24) as u8));
    out.push(#[verifier::truncate] ((x >> 16) as u8));
    out.push(#[verifier::truncate] ((x >> 8) as u8));
    out.push(#[verifier::truncate] (x as u8));
    proof {
        assert(out@ =~= old(out)@ + u64_be(x));
    }
}

fn push_bytes(out: &mut Vec<u8>, v: &Vec<u8>)
    ensures
        final(out)@ == old(out)@ + v@,
{
    let mut i: usize = 0;
    while i < v.len()
        invariant
            i <= v@.len(),
            out@ == old(out)@ + v@.subrange(0, i as int),
        decreases v@.len() - i,
    {
        out.push(v[i]);
        i = i + 1;
        proof {
            assert(out@ =~= old(out)@ + v@.subrange(0, i as int));
        }
    }
    proof {
        assert(v@.subrange(0, v@.len() as int) =~= v@);
    }
}

fn read_u32_be(b: &[u8], off: usize) -> (x: u32)
    requires
        off + 4 <= b@.len(),
    ensures
        x == u32_from_be(b@.subrange(off as int, off as int + 4)),
{
    let x0 = b[off] as u32;
    let x1 = b[off + 1] as u32;
    let x2 = b[off + 2] as u32;
    let x3 = b[off + 3] as u32;
    (x0 << 24) | (x1 << 16) | (x2 << 8) | x3
}

fn read_u64_be(b: &[u8], off: usize) -> (x: u64)
    requires
        off + 8 <= b@.len(),
    ensures
        x == u64_from_be(b@.subrange(off as int, off as int + 8)),
{
    let x0 = b[off] as u64;
    let x1 = b[off + 1] as u64;
    let x2 = b[off + 2] as u64;
    let x3 = b[off + 3] as u64;
    let x4 = b[off + 4] as u64;
    let x5 = b[off + 5] as u64;
    let x6 = b[off + 6] as u64;
    let x7 = b[off + 7] as u64;
    (x0 << 56) | (x1 << 48) | (x2 << 40) | (x3 << 32) | (x4 << 24) | (x5 << 16) | (x6 << 8) | x7
}

fn slice_range_to_vec(b: &[u8], start: usize, end: usize) -> (r: Vec<u8>)
    requires
        start <= end <= b@.len(),
    ensures
        r@ == b@.subrange(start as int, end as int),
{
    let mut r: Vec<u8> = Vec::new();
    let mut i: usize = start;
    while i < end
        invariant
            start <= i <= end <= b@.len(),
            r@ == b@.subrange(start as int, i as int),
        decreases end - i,
    {
        r.push(b[i]);
        i = i + 1;
        proof {
            assert(r@ =~= b@.subrange(start as int, i as int));
        }
    }
    r
}

/// Serialization into a fresh byte vector.
pub trait EncodeToVec {
    /// The bytes the value serializes to.
    spec fn encoding(&self) -> Seq<u8>;

    /// Serializes the value; the result is exactly `encoding()`.
    fn encode_to_vec(&self) -> (r: Vec<u8>)
        ensures
            r@ == self.encoding(),
    ;
}

impl EncodeToVec for Packet {
    open spec fn encoding(&self) -> Seq<u8> {
        spec_encode(*self)
    }

    fn encode_to_vec(&self) -> (r: Vec<u8>) {
        let mut out: Vec<u8> = Vec::new();
        push_u32_be(&mut out, self.header.seq_number);
        push_u32_be(&mut out, self.header.seq_total);
        out.push(tag_of(self.header.type_));
        push_u64_be(&mut out, self.header.file_id);
        proof {
            assert(out@ =~= spec_header_bytes(self.header));
        }
        match &self.data {
            Data::Ref(v) => push_bytes(&mut out, v),
            Data::Copy(v) => push_bytes(&mut out, v),
            Data::Crs32(c) => push_u32_be(&mut out, *c),
            Data::Empty => {},
        }
        proof {
            assert(out@ =~= spec_encode(*self));
        }
        out
    }
}

impl Packet {
    /// Parses one datagram. A buffer shorter than a header or one whose type
    /// tag is neither ACK nor PUT is rejected; a PUT yields an owned copy of
    /// every byte after the header; an ACK yields the trailing checksum when
    /// at least four bytes follow the header, else a bare ACK.
    pub fn decode_from_slice(slice: &[u8]) -> (r: Result<Packet, DecodeError>)
        ensures
            slice@.len() < HEADER_SIZE ==> r == Err::<Packet, DecodeError>(DecodeError::TooShort),
            slice@.len() >= HEADER_SIZE && tag_type(slice@[8]) == PacketType::UNKNOWN ==> r
                == Err::<Packet, DecodeError>(DecodeError::UnknownPacketType),
            spec_can_decode(slice@) ==> r is Ok && {
                let p = r->Ok_0;
                &&& p.header == spec_header(slice@)
                &&& spec_payload_bytes(p.data) == spec_decoded_payload(slice@)
                &&& wf_packet(p)
                &&& (p.header.type_ == PacketType::PUT ==> p.data is Copy)
                &&& (p.header.type_ == PacketType::ACK && slice@.len() >= HEADER_SIZE + 4
                    ==> p.data is Crs32)
                &&& (p.header.type_ == PacketType::ACK && slice@.len() < HEADER_SIZE + 4
                    ==> p.data is Empty)
            },
    {
        if slice.len() < 17 {
            return Err(DecodeError::TooShort);
        }
        let seq_number = read_u32_be(slice, 0);
        let seq_total = read_u32_be(slice, 4);
        let tag = slice[8];
        let file_id = read_u64_be(slice, 9);
        if tag == 0 {
            let header = Header { seq_number, seq_total, type_: PacketType::ACK, file_id };
            let data = if slice.len() >= 21 {
                Data::Crs32(read_u32_be(slice, 17))
            } else {
                Data::Empty
            };
            proof {
                if slice@.len() >= 21 {
                    lemma_u32_be_inverse(slice@.subrange(17, 21));
                }
            }
            Ok(Packet { header, data })
        } else if tag == 1 {
            let header = Header { seq_number, seq_total, type_: PacketType::PUT, file_id };
            let rest = slice_range_to_vec(slice, 17, slice.len());
            proof {
                assert(slice@.subrange(17, slice@.len() as int) =~= slice@.skip(17));
            }
            Ok(Packet { header, data: Data::Copy(rest) })
        } else {
            Err(DecodeError::UnknownPacketType)
        }
    }
}

/// Round trip: decoding the encoding of any well-formed PUT or ACK packet
/// succeeds and yields the same header and the same payload bytes.
pub proof fn lemma_encode_decode_roundtrip(p: Packet)
    requires
        wf_packet(p),
    ensures
        spec_can_decode(spec_encode(p)),
        spec_header(spec_encode(p)) == p.header,
        spec_decoded_payload(spec_encode(p)) == spec_payload_bytes(p.data),
{
    let enc = spec_encode(p);
    let h = p.header;
    assert(enc.subrange(0, 4) =~= u32_be(h.seq_number));
    assert(enc.subrange(4, 8) =~= u32_be(h.seq_total));
    assert(enc[8] == type_tag(h.type_));
    assert(enc.subrange(9, 17) =~= u64_be(h.file_id));
    lemma_u32_be_roundtrip(h.seq_number);
    lemma_u32_be_roundtrip(h.seq_total);
    lemma_u64_be_roundtrip(h.file_id);
    match p.data {
        Data::Ref(v) => {
            assert(enc.skip(17) =~= v@);
        },
        Data::Copy(v) => {
            assert(enc.skip(17) =~= v@);
        },
        Data::Crs32(c) => {
            assert(enc.subrange(17, 21) =~= u32_be(c));
        },
        Data::Empty => {
            assert(enc.len() == HEADER_SIZE);
        },
    }
}

/// What the CRC32 with the iSCSI (Castagnoli) polynomial maps a byte string
/// to. The value is fixed by the bytes alone; the trusted wrapper below ties
/// it to the outside implementation.
pub uninterp spec fn crc32_of(data: Seq<u8>) -> u32;

/// Relies on `crc::Crc::<u32>::checksum` with the `CRC_32_ISCSI` algorithm:
/// the digest is a pure function of the input bytes.
#[verifier::external_body]
pub(crate) fn crc32_bytes(data: &[u8]) -> (r: u32)
    ensures
        r == crc32_of(data@),
{
    crc::Crc::<u32>::new(&crc::CRC_32_ISCSI).checksum(data)
}

/// The chunk bytes a packet contributes to its file's checksum: the data of
/// a PUT payload; checksum and bare-ACK payloads contribute nothing.
pub open spec fn chunk_data(d: Data) -> Seq<u8> {
    match d {
        Data::Ref(v) => v@,
        Data::Copy(v) => v@,
        Data::Crs32(_) => Seq::empty(),
        Data::Empty => Seq::empty(),
    }
}

/// The concatenation of the chunk bytes of a packet sequence, in order.
pub open spec fn chunks_concat(s: Seq<Packet>) -> Seq<u8>
    decreases s.len(),
{
    if s.len() == 0 {
        Seq::empty()
    } else {
        chunks_concat(s.drop_last()) + chunk_data(s.last().data)
    }
}

/// The whole-file CRC32 of a value's chunk bytes.
pub trait Crc32Sum {
    /// The bytes the checksum is taken over.
    spec fn crc_input(&self) -> Seq<u8>;

    /// CRC32 (iSCSI polynomial) of `crc_input()`.
    fn crc32(&self) -> (r: u32)
        ensures
            r == crc32_of(self.crc_input()),
    ;
}

impl Crc32Sum for Vec<Packet> {
    open spec fn crc_input(&self) -> Seq<u8> {
        chunks_concat(self@)
    }

    fn crc32(&self) -> (r: u32) {
        let mut acc: Vec<u8> = Vec::new();
        let mut i: usize = 0;
        while i < self.len()
            invariant
                i <= self@.len(),
                acc@ == chunks_concat(self@.subrange(0, i as int)),
            decreases self@.len() - i,
        {
            match &self[i].data {
                Data::Ref(v) => push_bytes(&mut acc, v),
                Data::Copy(v) => push_bytes(&mut acc, v),
                Data::Crs32(_) => {},
                Data::Empty => {},
            }
            i = i + 1;
            proof {
                assert(self@.subrange(0, i as int).drop_last() =~= self@.subrange(
                    0,
                    i as int - 1,
                ));
                assert(acc@ =~= chunks_concat(self@.subrange(0, i as int)));
            }
        }
        proof {
            assert(self@.subrange(0, self@.len() as int) =~= self@);
        }
        crc32_bytes(acc.as_slice())
    }
}

} // verus!

