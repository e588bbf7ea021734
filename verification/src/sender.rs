//! Session state: the expected per-file checksums, the per-packet
//! retransmission state machines, the routing and diagnostic decisions of
//! the receiver, and the completion and failure policy. An asynchronous
//! shell owns the socket and the rate limiter and drives these decisions.

use vstd::prelude::*;
use std::collections::HashMap;
use crate::packet::{
    chunk_data, crc32_of, spec_can_decode, spec_header, wf_packet, Data, Packet, PacketType,
};
use crate::packets_view::{chunk_bytes, num_chunks, PacketsSource};

verus! {

broadcast use vstd::std_specs::hash::group_hash_axioms;

/// The pair identifying a packet within a session.
pub open spec fn key_of(p: Packet) -> (u64, u32) {
    (p.header.file_id, p.header.seq_number)
}

/// No two packets share a `(file_id, seq_number)` pair.
pub open spec fn unique_keys(s: Seq<Packet>) -> bool {
    forall|i: int, j: int|
        0 <= i < j < s.len() ==> key_of(#[trigger] s[i]) != key_of(#[trigger] s[j])
}

/// Some packet in `s` carries the given key.
pub open spec fn has_key(s: Seq<Packet>, id: u64, seq: u32) -> bool {
    exists|i: int| 0 <= i < s.len() && key_of(#[trigger] s[i]) == (id, seq)
}

/// The packet of `s` carrying the given key; meaningful when the key is
/// present and keys are unique.
pub open spec fn packet_at(s: Seq<Packet>, id: u64, seq: u32) -> Packet {
    s[choose|i: int| 0 <= i < s.len() && key_of(#[trigger] s[i]) == (id, seq)]
}

/// The file's bytes reassembled in ascending sequence-number order: the
/// chunk data of the packets keyed `(id, 0) .. (id, n - 1)`, concatenated.
pub open spec fn file_bytes(s: Seq<Packet>, id: u64, n: nat) -> Seq<u8>
    recommends
        n <= u32::MAX + 1,
    decreases n,
{
    if n == 0 {
        Seq::empty()
    } else {
        file_bytes(s, id, (n - 1) as nat) + chunk_data(packet_at(s, id, (n - 1) as u32).data)
    }
}

/// A well-formed session packet set: keys are unique, every sequence number
/// is below its file's chunk count, packets of one file agree on that count,
/// and every sequence number below the count is present.
pub open spec fn wf_packet_set(s: Seq<Packet>) -> bool {
    &&& unique_keys(s)
    &&& forall|i: int|
        0 <= i < s.len() ==> (#[trigger] s[i]).header.seq_number < s[i].header.seq_total
    &&& forall|i: int, j: int|
        0 <= i < s.len() && 0 <= j < s.len() && (#[trigger] s[i]).header.file_id == (
        #[trigger] s[j]).header.file_id ==> s[i].header.seq_total == s[j].header.seq_total
    &&& forall|i: int, seq: u32|
        0 <= i < s.len() && seq < s[i].header.seq_total ==> #[trigger] has_key(
            s,
            s[i].header.file_id,
            seq,
        )
}

/// Some packet of `s` belongs to the given file.
pub open spec fn file_present(s: Seq<Packet>, id: u64) -> bool {
    exists|i: int| 0 <= i < s.len() && (#[trigger] s[i]).header.file_id == id
}

fn find_packet(packets: &Vec<Packet>, id: u64, seq: u32) -> (j: usize)
    requires
        unique_keys(packets@),
        has_key(packets@, id, seq),
    ensures
        j < packets@.len(),
        packets@[j as int] == packet_at(packets@, id, seq),
        key_of(packets@[j as int]) == (id, seq),
{
    let n = packets.len();
    let mut j: usize = 0;
    while j < n
        invariant
            n == packets@.len(),
            j <= n,
            unique_keys(packets@),
            has_key(packets@, id, seq),
            forall|k: int| 0 <= k < j ==> key_of(#[trigger] packets@[k]) != (id, seq),
        decreases n - j,
    {
        if packets[j].header.file_id == id && packets[j].header.seq_number == seq {
            proof {
                let w = choose|i: int|
                    0 <= i < packets@.len() && key_of(#[trigger] packets@[i]) == (id, seq);
                assert(packets@[w] == packets@[j as int]);
            }
            return j;
        }
        j = j + 1;
    }
    proof {
        let w = choose|i: int|
            0 <= i < packets@.len() && key_of(#[trigger] packets@[i]) == (id, seq);
        assert(false);
    }
    0
}

/// The expected whole-file CRC32 of every file in the packet set: each file's
/// chunks are hashed strictly in ascending sequence-number order, whatever
/// order the packets stand in.
pub fn calc_hashes_for_files(packets: &Vec<Packet>) -> (r: HashMap<u64, u32>)
    requires
        wf_packet_set(packets@),
    ensures
        forall|id: u64| #[trigger] r@.contains_key(id) <==> file_present(packets@, id),
        forall|i: int|
            0 <= i < packets@.len() ==> r@[(#[trigger] packets@[i]).header.file_id] == crc32_of(
                file_bytes(
                    packets@,
                    packets@[i].header.file_id,
                    packets@[i].header.seq_total as nat,
                ),
            ),
{
    let mut r: HashMap<u64, u32> = HashMap::new();
    let n = packets.len();
    let mut i: usize = 0;
    while i < n
        invariant
            n == packets@.len(),
            i <= n,
            wf_packet_set(packets@),
            forall|id: u64| #[trigger]
                r@.contains_key(id) ==> file_present(packets@, id),
            forall|k: int|
                0 <= k < i ==> r@.contains_key((#[trigger] packets@[k]).header.file_id),
            forall|k: int|
                0 <= k < packets@.len() && r@.contains_key(
                    (#[trigger] packets@[k]).header.file_id,
                ) ==> r@[packets@[k].header.file_id] == crc32_of(
                    file_bytes(
                        packets@,
                        packets@[k].header.file_id,
                        packets@[k].header.seq_total as nat,
                    ),
                ),
        decreases n - i,
    {
        let id = packets[i].header.file_id;
        if !r.contains_key(&id) {
            let total = packets[i].header.seq_total;
            let mut acc: Vec<u8> = Vec::new();
            let mut q: u32 = 0;
            while q < total
                invariant
                    n == packets@.len(),
                    i < n,
                    wf_packet_set(packets@),
                    id == packets@[i as int].header.file_id,
                    total == packets@[i as int].header.seq_total,
                    q <= total,
                    acc@ == file_bytes(packets@, id, q as nat),
                decreases total - q,
            {
                proof {
                    assert(has_key(packets@, id, q));
                }
                let j = find_packet(packets, id, q);
                match &packets[j].data {
                    Data::Ref(v) => append_bytes(&mut acc, v),
                    Data::Copy(v) => append_bytes(&mut acc, v),
                    Data::Crs32(_) => {},
                    Data::Empty => {},
                }
                q = q + 1;
            }
            let h = crate::packet::crc32_bytes(acc.as_slice());
            r.insert(id, h);
            proof {
                assert(file_present(packets@, id));
                assert forall|k: int|
                    0 <= k < packets@.len() && r@.contains_key(
                        (#[trigger] packets@[k]).header.file_id,
                    ) implies r@[packets@[k].header.file_id] == crc32_of(
                    file_bytes(
                        packets@,
                        packets@[k].header.file_id,
                        packets@[k].header.seq_total as nat,
                    ),
                ) by {
                    if packets@[k].header.file_id == id {
                        assert(packets@[k].header.seq_total == total);
                    }
                }
            }
        }
        i = i + 1;
    }
    r
}

fn append_bytes(out: &mut Vec<u8>, v: &Vec<u8>)
    ensures
        final(out)@ == old(out)@ + v@,
{
    let mut i: usize = 0;
    while i < v.len()
        invariant
            i <= v@.len(),
            out@ == old(out)@ + v@.subrange(0, i as int),
        decreases v@.len() - i,
    {
        out.push(v[i]);
        i = i + 1;
        proof {
            assert(out@ =~= old(out)@ + v@.subrange(0, i as int));
        }
    }
    proof {
        assert(v@.subrange(0, v@.len() as int) =~= v@);
    }
}

/// The packet stands for one chunk of the source: right file id, a PUT, the
/// source's chunk count as its total, and its numbered chunk's bytes as data.
pub open spec fn packet_of_source(src: PacketsSource, p: Packet) -> bool {
    &&& p.header.file_id == src.spec_id()
    &&& p.header.type_ == PacketType::PUT
    &&& p.header.seq_total == num_chunks(src.spec_bytes().len(), src.spec_packet_size())
    &&& p.header.seq_number < p.header.seq_total
    &&& p.data matches Data::Ref(v) && v@ == chunk_bytes(
        src.spec_bytes(),
        src.spec_packet_size(),
        p.header.seq_number as nat,
    )
}

/// The packet stands for a chunk of one of the first `f` sources.
pub open spec fn packet_from_sources(files: Seq<PacketsSource>, f: int, p: Packet) -> bool {
    exists|g: int| 0 <= g < f && packet_of_source(#[trigger] files[g], p)
}

/// The packet set holds exactly the sources' chunks: keys are unique, every
/// packet is one source's chunk, and every chunk of every source is there.
pub open spec fn collected_from(files: Seq<PacketsSource>, s: Seq<Packet>) -> bool {
    &&& unique_keys(s)
    &&& forall|k: int|
        0 <= k < s.len() ==> packet_from_sources(files, files.len() as int, #[trigger] s[k])
    &&& forall|g: int, q: u32|
        0 <= g < files.len() && (q as nat) < num_chunks(
            files[g].spec_bytes().len(),
            files[g].spec_packet_size(),
        ) ==> #[trigger] has_key(s, files[g].spec_id(), q)
}

/// Every chunk of every source as one PUT packet, file by file: the whole
/// session's packet set, well formed by construction.
pub fn collect_packets(files: &Vec<PacketsSource>) -> (r: Vec<Packet>)
    requires
        forall|i: int| 0 <= i < files@.len() ==> (#[trigger] files@[i]).wf(),
        forall|i: int, j: int|
            0 <= i < j < files@.len() ==> (#[trigger] files@[i]).spec_id() != (
            #[trigger] files@[j]).spec_id(),
    ensures
        wf_packet_set(r@),
        collected_from(files@, r@),
{
    let nf = files.len();
    let mut r: Vec<Packet> = Vec::new();
    let mut g: usize = 0;
    while g < nf
        invariant
            nf == files@.len(),
            g <= nf,
            forall|i: int| 0 <= i < files@.len() ==> (#[trigger] files@[i]).wf(),
            forall|i: int, j: int|
                0 <= i < j < files@.len() ==> (#[trigger] files@[i]).spec_id() != (
                #[trigger] files@[j]).spec_id(),
            unique_keys(r@),
            forall|k: int|
                0 <= k < r@.len() ==> packet_from_sources(files@, g as int, #[trigger] r@[k]),
            forall|g2: int, q: u32|
                0 <= g2 < g && (q as nat) < num_chunks(
                    files@[g2].spec_bytes().len(),
                    files@[g2].spec_packet_size(),
                ) ==> #[trigger] has_key(r@, files@[g2].spec_id(), q),
        decreases nf - g,
    {
        let mut seg = files[g].packets();
        let ghost seg0 = seg@;
        let ghost r0 = r@;
        let ghost gid = files@[g as int].spec_id();
        proof {
            assert forall|k: int| 0 <= k < r0.len() implies packet_from_sources(
                files@,
                g as int,
                #[trigger] r0[k],
            ) by {
                assert(packet_from_sources(files@, g as int, r@[k]));
            }
            assert forall|k: int| 0 <= k < r0.len() implies key_of(#[trigger] r0[k]).0 != gid by {
                let g2 = choose|g2: int|
                    0 <= g2 < g && packet_of_source(#[trigger] files@[g2], r0[k]);
                assert(files@[g2].spec_id() != gid);
            }
            assert forall|g2: int, q: u32|
                0 <= g2 < g && (q as nat) < num_chunks(
                    files@[g2].spec_bytes().len(),
                    files@[g2].spec_packet_size(),
                ) implies has_key(r0, files@[g2].spec_id(), q) by {
                assert(has_key(r@, files@[g2].spec_id(), q));
            }
        }
        let mut t: usize = 0;
        while seg.len() > 0
            invariant
                nf == files@.len(),
                g < nf,
                t <= seg0.len(),
                seg@ == seg0.skip(t as int),
                gid == files@[g as int].spec_id(),
                seg0.len() == num_chunks(
                    files@[g as int].spec_bytes().len(),
                    files@[g as int].spec_packet_size(),
                ),
                forall|i: int|
                    0 <= i < seg0.len() ==> packet_of_source(
                        files@[g as int],
                        #[trigger] seg0[i],
                    ) && seg0[i].header.seq_number == i,
                r@ == r0 + seg0.subrange(0, t as int),
                unique_keys(r0),
                forall|k: int| 0 <= k < r0.len() ==> key_of(#[trigger] r0[k]).0 != gid,
            decreases seg@.len(),
        {
            let p = seg.remove(0);
            proof {
                assert(seg0.skip(t as int)[0] == seg0[t as int]);
            }
            r.push(p);
            t = t + 1;
            proof {
                assert(seg@ =~= seg0.skip(t as int));
                assert(r@ =~= r0 + seg0.subrange(0, t as int));
            }
        }
        proof {
            assert(r@ =~= r0 + seg0);
            assert forall|i: int, j: int| 0 <= i < j < r@.len() implies key_of(#[trigger] r@[i])
                != key_of(#[trigger] r@[j]) by {
                if j >= r0.len() {
                    assert(r@[j] == seg0[j - r0.len()]);
                    assert(key_of(r@[j]) == (gid, (j - r0.len()) as u32));
                    if i >= r0.len() {
                        assert(r@[i] == seg0[i - r0.len()]);
                    } else {
                        assert(key_of(r@[i]).0 != gid);
                    }
                }
            }
            assert forall|k: int| 0 <= k < r@.len() implies packet_from_sources(
                files@,
                g as int + 1,
                #[trigger] r@[k],
            ) by {
                if k < r0.len() {
                    let g2 = choose|g2: int|
                        0 <= g2 < g && packet_of_source(#[trigger] files@[g2], r0[k]);
                    assert(packet_of_source(files@[g2], r@[k]));
                } else {
                    assert(r@[k] == seg0[k - r0.len()]);
                    assert(packet_of_source(files@[g as int], r@[k]));
                }
            }
            assert forall|g2: int, q: u32|
                0 <= g2 < g + 1 && (q as nat) < num_chunks(
                    files@[g2].spec_bytes().len(),
                    files@[g2].spec_packet_size(),
                ) implies #[trigger] has_key(r@, files@[g2].spec_id(), q) by {
                if g2 < g {
                    assert(has_key(r0, files@[g2].spec_id(), q));
                    let w = choose|i: int|
                        0 <= i < r0.len() && key_of(#[trigger] r0[i]) == (files@[g2].spec_id(), q);
                    assert(r@[w] == r0[w]);
                    assert(key_of(r@[w]) == (files@[g2].spec_id(), q));
                } else {
                    let i = r0.len() + q as nat;
                    assert(r@[i as int] == seg0[q as int]);
                    assert(key_of(r@[i as int]) == (gid, q));
                }
            }
        }
        g = g + 1;
    }
    proof {
        assert forall|i: int|
            0 <= i < r@.len() implies (#[trigger] r@[i]).header.seq_number
            < r@[i].header.seq_total by {
            let g2 = choose|g2: int|
                0 <= g2 < nf && packet_of_source(#[trigger] files@[g2], r@[i]);
        }
        assert forall|i: int, j: int|
            0 <= i < r@.len() && 0 <= j < r@.len() && (#[trigger] r@[i]).header.file_id == (
            #[trigger] r@[j]).header.file_id implies r@[i].header.seq_total
            == r@[j].header.seq_total by {
            let gi = choose|g2: int|
                0 <= g2 < nf && packet_of_source(#[trigger] files@[g2], r@[i]);
            let gj = choose|g2: int|
                0 <= g2 < nf && packet_of_source(#[trigger] files@[g2], r@[j]);
            if gi != gj {
                assert(files@[gi].spec_id() != files@[gj].spec_id());
            }
        }
        assert forall|i: int, seq: u32|
            0 <= i < r@.len() && seq < r@[i].header.seq_total implies #[trigger] has_key(
            r@,
            r@[i].header.file_id,
            seq,
        ) by {
            let gi = choose|g2: int|
                0 <= g2 < nf && packet_of_source(#[trigger] files@[g2], r@[i]);
            assert((seq as nat) < num_chunks(
                files@[gi].spec_bytes().len(),
                files@[gi].spec_packet_size(),
            ));
        }
    }
    r
}

proof fn lemma_collected_file_prefix(files: Seq<PacketsSource>, s: Seq<Packet>, g: int, q: nat)
    requires
        forall|i: int| 0 <= i < files.len() ==> (#[trigger] files[i]).wf(),
        forall|i: int, j: int|
            0 <= i < j < files.len() ==> (#[trigger] files[i]).spec_id() != (
            #[trigger] files[j]).spec_id(),
        collected_from(files, s),
        0 <= g < files.len(),
        q <= num_chunks(files[g].spec_bytes().len(), files[g].spec_packet_size()),
    ensures
        file_bytes(s, files[g].spec_id(), q) == files[g].spec_bytes().subrange(
            0,
            if q * files[g].spec_packet_size() <= files[g].spec_bytes().len() {
                (q * files[g].spec_packet_size()) as int
            } else {
                files[g].spec_bytes().len() as int
            },
        ),
    decreases q,
{
    let id = files[g].spec_id();
    let c = files[g].spec_packet_size();
    let bytes = files[g].spec_bytes();
    if q == 0 {
        assert(bytes.subrange(0, 0) =~= Seq::<u8>::empty());
    } else {
        lemma_collected_file_prefix(files, s, g, (q - 1) as nat);
        let qq = (q - 1) as u32;
        assert(has_key(s, id, qq));
        let w = choose|i: int| 0 <= i < s.len() && key_of(#[trigger] s[i]) == (id, qq);
        assert(packet_from_sources(files, files.len() as int, s[w]));
        let g2 = choose|g2: int| 0 <= g2 < files.len() && packet_of_source(#[trigger] files[g2], s[w]);
        if g2 != g {
            assert(files[g2].spec_id() != files[g].spec_id());
        }
        assert(packet_of_source(files[g], s[w]));
        let w2 = choose|i: int| 0 <= i < s.len() && key_of(#[trigger] s[i]) == (id, qq);
        assert(packet_at(s, id, qq) == s[w2]);
        assert(s[w2] == s[w]);
        assert(chunk_data(s[w].data) == chunk_bytes(bytes, c, (q - 1) as nat));
        crate::packets_view::lemma_chunk_start_in_range(bytes.len(), c, (q - 1) as nat);
        vstd::arithmetic::mul::lemma_mul_is_distributive_sub_other_way(c as int, q as int, 1);
        vstd::arithmetic::mul::lemma_mul_basics(c as int);
        let start = ((q - 1) * c) as int;
        let end: int = if q * c <= bytes.len() {
            (q * c) as int
        } else {
            bytes.len() as int
        };
        assert(chunk_bytes(bytes, c, (q - 1) as nat) == bytes.subrange(start, end));
        assert(bytes.subrange(0, start) + bytes.subrange(start, end) =~= bytes.subrange(0, end));
    }
}

/// End to end: in a packet set collected from well-formed sources with
/// distinct file ids, every file reassembles — chunk by chunk, in ascending
/// sequence order — to exactly its own bytes, so the expected whole-file
/// CRC32 is the CRC32 of the file itself.
pub proof fn lemma_expected_crc_is_file_crc(files: Seq<PacketsSource>, s: Seq<Packet>, g: int)
    requires
        forall|i: int| 0 <= i < files.len() ==> (#[trigger] files[i]).wf(),
        forall|i: int, j: int|
            0 <= i < j < files.len() ==> (#[trigger] files[i]).spec_id() != (
            #[trigger] files[j]).spec_id(),
        collected_from(files, s),
        0 <= g < files.len(),
    ensures
        ({
            let n = num_chunks(files[g].spec_bytes().len(), files[g].spec_packet_size());
            &&& file_bytes(s, files[g].spec_id(), n) == files[g].spec_bytes()
            &&& crc32_of(file_bytes(s, files[g].spec_id(), n)) == crc32_of(files[g].spec_bytes())
        }),
{
    let c = files[g].spec_packet_size();
    let bytes = files[g].spec_bytes();
    let n = num_chunks(bytes.len(), c);
    lemma_collected_file_prefix(files, s, g, n);
    if bytes.len() > 0 {
        let q0 = (bytes.len() - 1) as nat / c;
        vstd::arithmetic::div_mod::lemma_fundamental_div_mod((bytes.len() - 1) as int, c as int);
        vstd::arithmetic::div_mod::lemma_mod_bound((bytes.len() - 1) as int, c as int);
        vstd::arithmetic::mul::lemma_mul_is_distributive_add_other_way(c as int, q0 as int, 1);
        vstd::arithmetic::mul::lemma_mul_is_commutative(c as int, q0 as int);
        assert(n * c >= bytes.len());
    }
    assert(bytes.subrange(0, bytes.len() as int) =~= bytes);
}

/// Equal chunk multisets name the same packet under each present key:
/// reordering a session's packets never changes what a key stands for.
pub proof fn lemma_packet_at_permutation(s1: Seq<Packet>, s2: Seq<Packet>, id: u64, seq: u32)
    requires
        s1.to_multiset() == s2.to_multiset(),
        unique_keys(s1),
        unique_keys(s2),
        has_key(s1, id, seq),
    ensures
        has_key(s2, id, seq),
        packet_at(s2, id, seq) == packet_at(s1, id, seq),
{
    broadcast use vstd::seq_lib::group_to_multiset_ensures;

    let i1 = choose|i: int| 0 <= i < s1.len() && key_of(#[trigger] s1[i]) == (id, seq);
    let p = s1[i1];
    assert(s1.contains(p));
    assert(s1.to_multiset().count(p) > 0);
    assert(s2.contains(p));
    let j = choose|j: int| 0 <= j < s2.len() && s2[j] == p;
    assert(key_of(s2[j]) == (id, seq));
    assert(has_key(s2, id, seq));
    let i2 = choose|i: int| 0 <= i < s2.len() && key_of(#[trigger] s2[i]) == (id, seq);
    assert(s2[i2] == p);
    assert(packet_at(s1, id, seq) == p);
}

/// Order independence: a file's bytes reassembled in ascending sequence
/// order — and with them its expected CRC32 — are the same for any two
/// packet sequences holding the same packets, in whatever order.
pub proof fn lemma_expected_crc_order_independent(
    s1: Seq<Packet>,
    s2: Seq<Packet>,
    id: u64,
    n: nat,
)
    requires
        s1.to_multiset() == s2.to_multiset(),
        unique_keys(s1),
        unique_keys(s2),
        n <= u32::MAX + 1,
        forall|q: u32| q < n ==> has_key(s1, id, q),
    ensures
        file_bytes(s2, id, n) == file_bytes(s1, id, n),
        crc32_of(file_bytes(s2, id, n)) == crc32_of(file_bytes(s1, id, n)),
    decreases n,
{
    if n > 0 {
        lemma_expected_crc_order_independent(s1, s2, id, (n - 1) as nat);
        lemma_packet_at_permutation(s1, s2, id, (n - 1) as u32);
    }
}

/// State of one per-packet sender: transmitting, waiting for its ack, or
/// finished for good.
#[derive(Clone, Copy, Debug, PartialEq, Eq, Structural)]
pub enum SenderState {
    Sending,
    WaitingAck,
    Done,
}

/// What the shell observed for one sender: its transmit completed or failed,
/// an ack arrived carrying some key, the ack wait timed out, or the sender's
/// mailbox was closed.
#[derive(Clone, Copy, Debug, PartialEq, Eq, Structural)]
pub enum SenderEvent {
    Transmitted,
    TransmitFailed,
    AckArrived(u64, u32),
    TimedOut,
    MailboxClosed,
}

/// What the shell must do next for one sender.
#[derive(Clone, Copy, Debug, PartialEq, Eq, Structural)]
pub enum SenderAction {
    /// Wait for an ack, up to the timeout.
    WaitForAck,
    /// Acquire tokens and transmit the packet again.
    Retransmit,
    /// The sender is complete: close its mailbox and count it.
    Finish,
    /// Warn that an ack with a foreign key reached this sender and keep
    /// waiting without resetting the timer.
    WarnWrongAck,
    /// The transmit error is fatal: abort the whole session.
    Fatal,
    /// Nothing: late or duplicate deliveries are dropped in silence.
    Ignore,
}

/// The per-packet retransmission state machine. From `Sending` a transmit
/// leads to the ack wait; a timeout leads back to a retransmission; only the
/// key-matching ack, or a closed mailbox, completes the sender; a transmit
/// failure is fatal. A finished sender absorbs every further event.
pub open spec fn spec_step(st: SenderState, key: (u64, u32), ev: SenderEvent) -> (
    SenderState,
    SenderAction,
) {
    match st {
        SenderState::Sending => match ev {
            SenderEvent::Transmitted => (SenderState::WaitingAck, SenderAction::WaitForAck),
            SenderEvent::TransmitFailed => (SenderState::Done, SenderAction::Fatal),
            _ => (SenderState::Sending, SenderAction::Ignore),
        },
        SenderState::WaitingAck => match ev {
            SenderEvent::AckArrived(f, s) => if (f, s) == key {
                (SenderState::Done, SenderAction::Finish)
            } else {
                (SenderState::WaitingAck, SenderAction::WarnWrongAck)
            },
            SenderEvent::TimedOut => (SenderState::Sending, SenderAction::Retransmit),
            SenderEvent::MailboxClosed => (SenderState::Done, SenderAction::Finish),
            _ => (SenderState::WaitingAck, SenderAction::Ignore),
        },
        SenderState::Done => (SenderState::Done, SenderAction::Ignore),
    }
}

/// Idempotence of acknowledgment: the matching ack completes a waiting
/// sender; delivering it again changes nothing, asks for no action and is
/// never an error — and an ack is never fatal in any state.
pub proof fn lemma_ack_idempotent(st: SenderState, key: (u64, u32))
    ensures
        ({
            let (st1, a1) = spec_step(st, key, SenderEvent::AckArrived(key.0, key.1));
            let (st2, a2) = spec_step(st1, key, SenderEvent::AckArrived(key.0, key.1));
            &&& a1 != SenderAction::Fatal
            &&& a2 != SenderAction::Fatal
            &&& (st is WaitingAck ==> st1 is Done && a1 == SenderAction::Finish)
            &&& (st1 is Done ==> st2 == st1 && a2 == SenderAction::Ignore)
        }),
{
}

/// One outbound packet with its retransmission state. The shell owns the
/// socket, the rate limiter and the mailbox; every decision is taken here.
pub struct OnePacketSender {
    packet: Packet,
    state: SenderState,
}

impl OnePacketSender {
    /// The fixed packet this sender owns.
    pub closed spec fn spec_packet(&self) -> Packet {
        self.packet
    }

    /// The current state of the retransmission machine.
    pub closed spec fn spec_state(&self) -> SenderState {
        self.state
    }

    /// The key this sender answers to.
    pub open spec fn spec_key(&self) -> (u64, u32) {
        key_of(self.spec_packet())
    }

    /// A fresh sender, about to transmit its packet for the first time.
    pub fn new(packet: Packet) -> (r: OnePacketSender)
        ensures
            r.spec_packet() == packet,
            r.spec_state() == SenderState::Sending,
    {
        OnePacketSender { packet, state: SenderState::Sending }
    }

    /// The packet to encode and transmit.
    pub fn packet(&self) -> (p: &Packet)
        ensures
            *p == self.spec_packet(),
    {
        &self.packet
    }

    /// The key this sender answers to.
    pub fn key(&self) -> (k: (u64, u32))
        ensures
            k == self.spec_key(),
    {
        (self.packet.header.file_id, self.packet.header.seq_number)
    }

    /// Whether the sender is complete.
    pub fn is_done(&self) -> (b: bool)
        ensures
            b == (self.spec_state() == SenderState::Done),
    {
        match self.state {
            SenderState::Done => true,
            _ => false,
        }
    }

    /// Feeds one observed event to the state machine and returns the action
    /// the shell must take; the packet never changes.
    pub fn step(&mut self, ev: SenderEvent) -> (a: SenderAction)
        ensures
            final(self).spec_packet() == old(self).spec_packet(),
            (final(self).spec_state(), a) == spec_step(
                old(self).spec_state(),
                old(self).spec_key(),
                ev,
            ),
    {
        let (st, a) = match self.state {
            SenderState::Sending => match ev {
                SenderEvent::Transmitted => (SenderState::WaitingAck, SenderAction::WaitForAck),
                SenderEvent::TransmitFailed => (SenderState::Done, SenderAction::Fatal),
                _ => (SenderState::Sending, SenderAction::Ignore),
            },
            SenderState::WaitingAck => match ev {
                SenderEvent::AckArrived(f, s) => if f == self.packet.header.file_id && s
                    == self.packet.header.seq_number {
                    (SenderState::Done, SenderAction::Finish)
                } else {
                    (SenderState::WaitingAck, SenderAction::WarnWrongAck)
                },
                SenderEvent::TimedOut => (SenderState::Sending, SenderAction::Retransmit),
                SenderEvent::MailboxClosed => (SenderState::Done, SenderAction::Finish),
                _ => (SenderState::WaitingAck, SenderAction::Ignore),
            },
            SenderState::Done => (SenderState::Done, SenderAction::Ignore),
        };
        self.state = st;
        a
    }
}

/// The effective transmission quota in bytes per second: the requested one,
/// clamped to at least one maximum-size datagram per second, so that even
/// the largest packet can always drain from the token bucket.
pub fn clamped_speed_limit(requested: u32) -> (r: u32)
    ensures
        r as usize >= crate::consts::MAX_DATAGRAM_SIZE,
        r == if requested as usize >= crate::consts::MAX_DATAGRAM_SIZE {
            requested
        } else {
            crate::consts::MAX_DATAGRAM_SIZE as u32
        },
{
    if requested as usize >= crate::consts::MAX_DATAGRAM_SIZE {
        requested
    } else {
        crate::consts::MAX_DATAGRAM_SIZE as u32
    }
}

/// What the received-CRC table does with one inbound checksum: the value is
/// stored under the file, and a diagnostic is due unless the same value was
/// already stored — a repeat of the same checksum stays silent.
pub open spec fn spec_record(m: Map<u64, u32>, id: u64, c: u32) -> (Map<u64, u32>, bool) {
    (m.insert(id, c), !(m.contains_key(id) && m[id] == c))
}

/// Idempotence of checksum delivery: recording the same checksum twice
/// leaves the table as after the first time and raises no second diagnostic.
pub proof fn lemma_repeat_crc_silent(m: Map<u64, u32>, id: u64, c: u32)
    ensures
        ({
            let (m1, _) = spec_record(m, id, c);
            let (m2, diag2) = spec_record(m1, id, c);
            m2 == m1 && !diag2
        }),
{
    let (m1, _) = spec_record(m, id, c);
    let (m2, _) = spec_record(m1, id, c);
    assert(m2 =~= m1);
}

/// What the receiver decided about one inbound datagram.
pub struct RecvOutcome {
    /// The decoded packet, or nothing for a malformed datagram, which is
    /// dropped while the loop continues.
    pub decoded: Option<Packet>,
    /// A due diagnostic: the file, its expected CRC32 (zero when none was
    /// computed) and the received one.
    pub diagnostic: Option<(u64, u32, u32)>,
    /// The index of the sender the packet's key matches, if any; a datagram
    /// matching no sender is dropped in silence.
    pub route_to: Option<usize>,
}

/// The session: expected and received per-file checksums, one sender per
/// packet, the fixed ack timeout, the count of finished senders, and whether
/// a fatal error has been reported.
pub struct PacketsSender {
    crc32: HashMap<u64, u32>,
    received_crc32: HashMap<u64, u32>,
    senders: Vec<OnePacketSender>,
    timeout: u64,
    number_of_sent_packets: usize,
    failed: bool,
}

impl PacketsSender {
    /// The expected CRC32 of each file.
    pub closed spec fn spec_expected(&self) -> Map<u64, u32> {
        self.crc32@
    }

    /// The checksums received so far.
    pub closed spec fn spec_received(&self) -> Map<u64, u32> {
        self.received_crc32@
    }

    /// The per-packet senders.
    pub closed spec fn spec_senders(&self) -> Seq<OnePacketSender> {
        self.senders@
    }

    /// The fixed ack timeout in milliseconds.
    pub closed spec fn spec_timeout(&self) -> u64 {
        self.timeout
    }

    /// How many senders have finished.
    pub closed spec fn spec_sent_count(&self) -> nat {
        self.number_of_sent_packets as nat
    }

    /// Whether a fatal error has been reported.
    pub closed spec fn spec_failed(&self) -> bool {
        self.failed
    }

    /// Builds the session: computes each file's expected CRC32 over its
    /// chunks in ascending sequence order — whatever order the packets come
    /// in — and puts one fresh sender in charge of each packet.
    pub fn new(packets: Vec<Packet>, timeout: u64) -> (r: PacketsSender)
        requires
            wf_packet_set(packets@),
        ensures
            forall|id: u64| #[trigger]
                r.spec_expected().contains_key(id) <==> file_present(packets@, id),
            forall|i: int|
                0 <= i < packets@.len() ==> r.spec_expected()[(#[trigger] packets@[i]).header.file_id]
                    == crc32_of(
                    file_bytes(
                        packets@,
                        packets@[i].header.file_id,
                        packets@[i].header.seq_total as nat,
                    ),
                ),
            r.spec_received() == Map::<u64, u32>::empty(),
            r.spec_senders().len() == packets@.len(),
            forall|i: int|
                0 <= i < packets@.len() ==> (#[trigger] r.spec_senders()[i]).spec_packet()
                    == packets@[i] && r.spec_senders()[i].spec_state() == SenderState::Sending,
            r.spec_timeout() == timeout,
            r.spec_sent_count() == 0,
            !r.spec_failed(),
    {
        let crc32 = calc_hashes_for_files(&packets);
        let ghost orig = packets@;
        let mut rest = packets;
        let mut senders: Vec<OnePacketSender> = Vec::new();
        while rest.len() > 0
            invariant
                senders@.len() + rest@.len() == orig.len(),
                rest@ == orig.skip(senders@.len() as int),
                forall|i: int|
                    0 <= i < senders@.len() ==> (#[trigger] senders@[i]).spec_packet() == orig[i]
                        && senders@[i].spec_state() == SenderState::Sending,
            decreases rest@.len(),
        {
            let p = rest.remove(0);
            proof {
                assert(orig.skip(senders@.len() as int)[0] == orig[senders@.len() as int]);
            }
            senders.push(OnePacketSender::new(p));
            proof {
                assert(rest@ =~= orig.skip(senders@.len() as int));
            }
        }
        PacketsSender {
            crc32,
            received_crc32: HashMap::new(),
            senders,
            timeout,
            number_of_sent_packets: 0,
            failed: false,
        }
    }

    /// The total number of per-packet senders.
    pub fn num_senders(&self) -> (n: usize)
        ensures
            n == self.spec_senders().len(),
    {
        self.senders.len()
    }

    /// The fixed ack timeout in milliseconds.
    pub fn timeout_ms(&self) -> (t: u64)
        ensures
            t == self.spec_timeout(),
    {
        self.timeout
    }

    /// The packet a sender owns, for the shell to encode and transmit.
    pub fn sender_packet(&self, i: usize) -> (p: &Packet)
        requires
            i < self.spec_senders().len(),
        ensures
            *p == self.spec_senders()[i as int].spec_packet(),
    {
        self.senders[i].packet()
    }

    /// Whether a sender is complete.
    pub fn sender_done(&self, i: usize) -> (b: bool)
        requires
            i < self.spec_senders().len(),
        ensures
            b == (self.spec_senders()[i as int].spec_state() == SenderState::Done),
    {
        self.senders[i].is_done()
    }

    /// Feeds one observed event to sender `i`; no other state changes.
    pub fn step_sender(&mut self, i: usize, ev: SenderEvent) -> (a: SenderAction)
        requires
            i < old(self).spec_senders().len(),
        ensures
            ({
                let s_old = old(self).spec_senders()[i as int];
                let s_new = final(self).spec_senders()[i as int];
                &&& (s_new.spec_state(), a) == spec_step(s_old.spec_state(), s_old.spec_key(), ev)
                &&& s_new.spec_packet() == s_old.spec_packet()
            }),
            final(self).spec_senders().len() == old(self).spec_senders().len(),
            forall|j: int|
                0 <= j < old(self).spec_senders().len() && j != i ==> final(self).spec_senders()[j]
                    == old(self).spec_senders()[j],
            final(self).spec_expected() == old(self).spec_expected(),
            final(self).spec_received() == old(self).spec_received(),
            final(self).spec_timeout() == old(self).spec_timeout(),
            final(self).spec_sent_count() == old(self).spec_sent_count(),
            final(self).spec_failed() == old(self).spec_failed(),
    {
        let sender = &mut self.senders[i];
        let a = sender.step(ev);
        a
    }

    /// The index of the sender answering to `(file_id, seq)`, if any.
    pub fn find_sender(&self, file_id: u64, seq: u32) -> (r: Option<usize>)
        ensures
            r matches Some(j) ==> j < self.spec_senders().len()
                && self.spec_senders()[j as int].spec_key() == (file_id, seq),
            r is None ==> forall|j: int|
                0 <= j < self.spec_senders().len() ==> (#[trigger] self.spec_senders()[j]).spec_key()
                    != (file_id, seq),
    {
        let n = self.senders.len();
        let mut j: usize = 0;
        while j < n
            invariant
                n == self.spec_senders().len(),
                j <= n,
                forall|k: int|
                    0 <= k < j ==> (#[trigger] self.spec_senders()[k]).spec_key() != (
                    file_id,
                    seq,
                ),
            decreases n - j,
        {
            let k = self.senders[j].key();
            if k.0 == file_id && k.1 == seq {
                return Some(j);
            }
            j = j + 1;
        }
        None
    }

    /// Stores one received whole-file checksum and says whether a diagnostic
    /// is due: on first arrival or on a value that differs from the stored
    /// one, never on a repeat of the same value.
    pub fn record_received_crc(&mut self, file_id: u64, crc: u32) -> (diag: bool)
        ensures
            (final(self).spec_received(), diag) == spec_record(
                old(self).spec_received(),
                file_id,
                crc,
            ),
            final(self).spec_expected() == old(self).spec_expected(),
            final(self).spec_senders() == old(self).spec_senders(),
            final(self).spec_timeout() == old(self).spec_timeout(),
            final(self).spec_sent_count() == old(self).spec_sent_count(),
            final(self).spec_failed() == old(self).spec_failed(),
    {
        let old_value = self.received_crc32.insert(file_id, crc);
        match old_value {
            Some(v) => v != crc,
            None => true,
        }
    }

    /// The expected CRC32 of a file, or zero when none was computed.
    pub fn expected_crc(&self, file_id: u64) -> (c: u32)
        ensures
            c == if self.spec_expected().contains_key(file_id) {
                self.spec_expected()[file_id]
            } else {
                0
            },
    {
        match self.crc32.get(&file_id) {
            Some(v) => *v,
            None => 0,
        }
    }

    /// Counts one more finished sender.
    pub fn sender_finished(&mut self)
        requires
            old(self).spec_sent_count() < old(self).spec_senders().len(),
        ensures
            final(self).spec_sent_count() == old(self).spec_sent_count() + 1,
            final(self).spec_expected() == old(self).spec_expected(),
            final(self).spec_received() == old(self).spec_received(),
            final(self).spec_senders() == old(self).spec_senders(),
            final(self).spec_timeout() == old(self).spec_timeout(),
            final(self).spec_failed() == old(self).spec_failed(),
    {
        let n = self.senders.len();
        assert(self.number_of_sent_packets < n);
        self.number_of_sent_packets = self.number_of_sent_packets + 1;
    }

    /// Whether every sender has finished: the moment the receiver loop is
    /// cancelled and the session completes.
    pub fn all_sent(&self) -> (b: bool)
        ensures
            b == (self.spec_sent_count() == self.spec_senders().len()),
    {
        self.number_of_sent_packets == self.senders.len()
    }

    /// Reports a fatal error; only the first report asks for the abort of
    /// the whole session, later ones are discarded.
    pub fn record_failure(&mut self) -> (first: bool)
        ensures
            final(self).spec_failed(),
            first == !old(self).spec_failed(),
            final(self).spec_expected() == old(self).spec_expected(),
            final(self).spec_received() == old(self).spec_received(),
            final(self).spec_senders() == old(self).spec_senders(),
            final(self).spec_timeout() == old(self).spec_timeout(),
            final(self).spec_sent_count() == old(self).spec_sent_count(),
    {
        let first = !self.failed;
        self.failed = true;
        first
    }

    /// Decides everything about one inbound datagram: a malformed one is
    /// dropped; a decoded packet carrying a checksum updates the received
    /// table and may owe a diagnostic; the packet is routed to the sender
    /// matching its key, if any.
    pub fn handle_datagram(&mut self, buf: &[u8]) -> (r: RecvOutcome)
        ensures
            final(self).spec_expected() == old(self).spec_expected(),
            final(self).spec_senders() == old(self).spec_senders(),
            final(self).spec_timeout() == old(self).spec_timeout(),
            final(self).spec_sent_count() == old(self).spec_sent_count(),
            final(self).spec_failed() == old(self).spec_failed(),
            !spec_can_decode(buf@) ==> r.decoded is None && r.diagnostic is None && r.route_to
                is None && final(self).spec_received() == old(self).spec_received(),
            spec_can_decode(buf@) ==> (r.decoded matches Some(p) && {
                &&& p.header == spec_header(buf@)
                &&& wf_packet(p)
                &&& crate::packet::spec_payload_bytes(p.data) == crate::packet::spec_decoded_payload(
                    buf@,
                )
                &&& (p.data matches Data::Crs32(c) ==> {
                    let (m, diag) = spec_record(old(self).spec_received(), p.header.file_id, c);
                    &&& final(self).spec_received() == m
                    &&& (diag <==> r.diagnostic is Some)
                    &&& (r.diagnostic matches Some(d) ==> d == (
                        p.header.file_id,
                        if old(self).spec_expected().contains_key(p.header.file_id) {
                            old(self).spec_expected()[p.header.file_id]
                        } else {
                            0u32
                        },
                        c,
                    ))
                })
                &&& (!(p.data is Crs32) ==> final(self).spec_received()
                    == old(self).spec_received() && r.diagnostic is None)
                &&& (r.route_to matches Some(j) ==> j < final(self).spec_senders().len()
                    && final(self).spec_senders()[j as int].spec_key() == key_of(p))
                &&& (r.route_to is None ==> forall|j: int|
                    0 <= j < final(self).spec_senders().len()
                        ==> (#[trigger] final(self).spec_senders()[j]).spec_key() != key_of(p))
            }),
    {
        let packet = match Packet::decode_from_slice(buf) {
            Err(_) => {
                return RecvOutcome { decoded: None, diagnostic: None, route_to: None };
            },
            Ok(packet) => packet,
        };
        let crc_value: Option<u32> = match &packet.data {
            Data::Crs32(c) => Some(*c),
            _ => None,
        };
        let diagnostic: Option<(u64, u32, u32)> = match crc_value {
            Some(c) => {
                let expected = self.expected_crc(packet.header.file_id);
                let diag = self.record_received_crc(packet.header.file_id, c);
                if diag {
                    Some((packet.header.file_id, expected, c))
                } else {
                    None
                }
            },
            None => None,
        };
        let route_to = self.find_sender(packet.header.file_id, packet.header.seq_number);
        RecvOutcome { decoded: Some(packet), diagnostic, route_to }
    }
}

} // verus!
