//! Turning one file's bytes into a finite sequence of PUT packets: one
//! packet per contiguous chunk of at most `packet_size` bytes, numbered in
//! file order.

use vstd::prelude::*;
use crate::packet::{Data, Header, Packet, PacketType};

verus! {

/// How many chunks of size at most `c` a byte string of length `len` splits
/// into: zero for an empty string, else one chunk per started block of `c`.
pub open spec fn num_chunks(len: nat, c: nat) -> nat
    recommends
        c > 0,
{
    if len == 0 {
        0
    } else {
        (len - 1) as nat / c + 1
    }
}

/// The bytes of chunk `i`: from `i * c` up to the next block boundary or the
/// end of the string, whichever comes first.
pub open spec fn chunk_bytes(bytes: Seq<u8>, c: nat, i: nat) -> Seq<u8>
    recommends
        c > 0,
        i < num_chunks(bytes.len(), c),
{
    bytes.subrange(
        (i * c) as int,
        if (i + 1) * c <= bytes.len() {
            ((i + 1) * c) as int
        } else {
            bytes.len() as int
        },
    )
}

/// Every chunk index below the chunk count starts strictly inside the string,
/// and all but the last chunk are full blocks.
pub proof fn lemma_chunk_start_in_range(len: nat, c: nat, i: nat)
    requires
        c > 0,
        i < num_chunks(len, c),
    ensures
        i * c < len,
        i + 1 < num_chunks(len, c) ==> (i + 1) * c < len,
{
    let q = (len - 1) as nat / c;
    vstd::arithmetic::div_mod::lemma_fundamental_div_mod((len - 1) as int, c as int);
    vstd::arithmetic::div_mod::lemma_mod_bound((len - 1) as int, c as int);
    vstd::arithmetic::mul::lemma_mul_is_commutative(c as int, q as int);
    assert(q as int * c as int <= len - 1);
    vstd::arithmetic::mul::lemma_mul_inequality(i as int, q as int, c as int);
    if i + 1 < num_chunks(len, c) {
        vstd::arithmetic::mul::lemma_mul_inequality((i + 1) as int, q as int, c as int);
    }
}

/// A file of size exactly `k` whole blocks of `c` bytes splits into exactly
/// `k` chunks, each a full, non-empty block of `c` bytes.
pub proof fn lemma_exact_multiple_chunks(bytes: Seq<u8>, c: nat, k: nat)
    requires
        c > 0,
        bytes.len() == k * c,
    ensures
        num_chunks(bytes.len(), c) == k,
        forall|i: nat| i < k ==> #[trigger] chunk_bytes(bytes, c, i).len() == c,
{
    if k == 0 {
        assert(bytes.len() == 0);
    } else {
        assert(k * c >= 1 * c) by {
            vstd::arithmetic::mul::lemma_mul_inequality(1, k as int, c as int);
        }
        assert((k * c - 1) as int == (k - 1) as int * c as int + (c - 1) as int) by {
            vstd::arithmetic::mul::lemma_mul_is_distributive_sub_other_way(
                c as int,
                k as int,
                1,
            );
        }
        vstd::arithmetic::div_mod::lemma_fundamental_div_mod_converse(
            (k * c - 1) as int,
            c as int,
            (k - 1) as int,
            (c - 1) as int,
        );
        assert(num_chunks(bytes.len(), c) == k);
        assert forall|i: nat| i < k implies #[trigger] chunk_bytes(bytes, c, i).len() == c by {
            lemma_chunk_start_in_range(bytes.len(), c, i);
            vstd::arithmetic::mul::lemma_mul_is_distributive_add_other_way(c as int, i as int, 1);
            vstd::arithmetic::mul::lemma_mul_basics(c as int);
            vstd::arithmetic::mul::lemma_mul_inequality((i + 1) as int, k as int, c as int);
            assert((i + 1) * c <= bytes.len());
            assert(chunk_bytes(bytes, c, i) == bytes.subrange(
                (i * c) as int,
                ((i + 1) * c) as int,
            ));
        }
    }
}

/// One file's bytes, its session-assigned id, and the chunk size its PUT
/// packets are cut to.
pub struct PacketsSource {
    id: u64,
    bytes: Vec<u8>,
    packet_size: usize,
}

impl PacketsSource {
    /// The session-assigned file id.
    pub closed spec fn spec_id(&self) -> u64 {
        self.id
    }

    /// The file's bytes.
    pub closed spec fn spec_bytes(&self) -> Seq<u8> {
        self.bytes@
    }

    /// The chunk size.
    pub closed spec fn spec_packet_size(&self) -> nat {
        self.packet_size as nat
    }

    /// A usable source: chunks are non-empty and every chunk index fits the
    /// header's `u32` sequence-number field.
    pub open spec fn wf(&self) -> bool {
        self.spec_packet_size() > 0 && num_chunks(self.spec_bytes().len(), self.spec_packet_size())
            <= u32::MAX
    }

    /// Wraps one file's bytes as a chunk source.
    pub fn new(id: u64, packet_size: usize, bytes: Vec<u8>) -> (r: PacketsSource)
        requires
            packet_size > 0,
            num_chunks(bytes@.len(), packet_size as nat) <= u32::MAX,
        ensures
            r.wf(),
            r.spec_id() == id,
            r.spec_bytes() == bytes@,
            r.spec_packet_size() == packet_size,
    {
        PacketsSource { id, bytes, packet_size }
    }

    /// One PUT packet per chunk: packet `i` carries chunk `i`, numbered `i`
    /// of the total chunk count, under this source's file id.
    pub fn packets(&self) -> (r: Vec<Packet>)
        requires
            self.wf(),
        ensures
            r@.len() == num_chunks(self.spec_bytes().len(), self.spec_packet_size()),
            forall|i: int|
                0 <= i < r@.len() ==> {
                    let p = #[trigger] r@[i];
                    &&& p.header.seq_number == i
                    &&& p.header.seq_total == r@.len()
                    &&& p.header.type_ == PacketType::PUT
                    &&& p.header.file_id == self.spec_id()
                    &&& p.data matches Data::Ref(v) && v@ == chunk_bytes(
                        self.spec_bytes(),
                        self.spec_packet_size(),
                        i as nat,
                    )
                },
    {
        let len = self.bytes.len();
        let ps = self.packet_size;
        let n: usize = if len == 0 {
            0
        } else {
            (len - 1) / ps + 1
        };
        let n32: u32 = n as u32;
        let mut r: Vec<Packet> = Vec::new();
        let mut i: usize = 0;
        let mut start: usize = 0;
        while i < n
            invariant
                self.wf(),
                len == self.spec_bytes().len(),
                ps == self.spec_packet_size(),
                n == num_chunks(self.spec_bytes().len(), self.spec_packet_size()),
                n32 == n,
                i <= n,
                r@.len() == i,
                i < n ==> start == i * ps && start < len,
                forall|j: int|
                    0 <= j < i ==> {
                        let p = #[trigger] r@[j];
                        &&& p.header.seq_number == j
                        &&& p.header.seq_total == n
                        &&& p.header.type_ == PacketType::PUT
                        &&& p.header.file_id == self.spec_id()
                        &&& p.data matches Data::Ref(v) && v@ == chunk_bytes(
                            self.spec_bytes(),
                            self.spec_packet_size(),
                            j as nat,
                        )
                    },
            decreases n - i,
        {
            proof {
                lemma_chunk_start_in_range(len as nat, ps as nat, i as nat);
                vstd::arithmetic::mul::lemma_mul_is_distributive_add_other_way(
                    ps as int,
                    i as int,
                    1,
                );
            }
            let end: usize = if len - start > ps {
                start + ps
            } else {
                len
            };
            let chunk = vec_range_to_vec(&self.bytes, start, end);
            let packet = Packet {
                header: Header {
                    seq_number: i as u32,
                    seq_total: n32,
                    type_: PacketType::PUT,
                    file_id: self.id,
                },
                data: Data::Ref(chunk),
            };
            r.push(packet);
            i = i + 1;
            start = end;
            proof {
                if i < n {
                    lemma_chunk_start_in_range(len as nat, ps as nat, i as nat);
                }
            }
        }
        r
    }
}

fn vec_range_to_vec(b: &Vec<u8>, start: usize, end: usize) -> (r: Vec<u8>)
    requires
        start <= end <= b@.len(),
    ensures
        r@ == b@.subrange(start as int, end as int),
{
    let mut r: Vec<u8> = Vec::new();
    let mut i: usize = start;
    while i < end
        invariant
            start <= i <= end <= b@.len(),
            r@ == b@.subrange(start as int, i as int),
        decreases end - i,
    {
        r.push(b[i]);
        i = i + 1;
        proof {
            assert(r@ =~= b@.subrange(start as int, i as int));
        }
    }
    r
}

} // verus!
