//! The segment image every process shares: a header of six little-endian
//! 64-bit words (capacity, slot size, head, tail, count, lock word), then
//! `capacity` slots, each a little-endian 64-bit length followed by
//! `slot_size` payload bytes. Payload bytes past the length are zero.

use vstd::bytes::{
    lemma_auto_spec_u64_to_from_le_bytes, spec_u64_from_le_bytes, spec_u64_to_le_bytes,
    u64_from_le_bytes, u64_to_le_bytes,
};
use vstd::prelude::*;

use crate::ring::{slot_of, RingView};

verus! {

pub const WORD_LEN: usize = 8;

pub const HEADER_LEN: usize = 48;

pub const CAPACITY_AT: usize = 0;

pub const SLOT_SIZE_AT: usize = 8;

pub const HEAD_AT: usize = 16;

pub const TAIL_AT: usize = 24;

pub const COUNT_AT: usize = 32;

pub const LOCK_AT: usize = 40;

/// The 64-bit little-endian word stored at byte `at` of `b`.
pub open spec fn word(b: Seq<u8>, at: int) -> nat {
    spec_u64_from_le_bytes(b.subrange(at, at + WORD_LEN)) as nat
}

/// Byte offset of slot `j`.
pub open spec fn slot_offset(slot_size: nat, j: nat) -> nat {
    (HEADER_LEN + j * (WORD_LEN + slot_size)) as nat
}

/// Size of the image of a ring with these bounds.
pub open spec fn image_len(capacity: nat, slot_size: nat) -> nat {
    slot_offset(slot_size, capacity)
}

/// The length stored in slot `j`.
pub open spec fn stored_len(b: Seq<u8>, slot_size: nat, j: nat) -> nat {
    word(b, slot_offset(slot_size, j) as int)
}

/// The message bytes of slot `j`, as far as its stored length reaches.
pub open spec fn payload(b: Seq<u8>, slot_size: nat, j: nat) -> Seq<u8> {
    let o = slot_offset(slot_size, j) + WORD_LEN;
    b.subrange(o as int, (o + stored_len(b, slot_size, j)) as int)
}

/// `b` is the image of a well-formed ring: positive bounds, the exact
/// length those bounds give, head and tail inside the ring with the tail
/// `count` slots after the head, and no slot longer than the slot size.
pub open spec fn image_wf(b: Seq<u8>) -> bool {
    let capacity = word(b, CAPACITY_AT as int);
    let slot_size = word(b, SLOT_SIZE_AT as int);
    let head = word(b, HEAD_AT as int);
    let tail = word(b, TAIL_AT as int);
    let count = word(b, COUNT_AT as int);
    &&& b.len() >= HEADER_LEN
    &&& capacity > 0
    &&& slot_size > 0
    &&& b.len() == image_len(capacity, slot_size)
    &&& head < capacity
    &&& tail < capacity
    &&& count <= capacity
    &&& tail == slot_of(head as int, count as int, capacity as int)
    &&& forall|j: nat| j < capacity ==> #[trigger] stored_len(b, slot_size, j) <= slot_size
}

/// The queue that an image holds.
pub open spec fn image_view(b: Seq<u8>) -> RingView {
    let capacity = word(b, CAPACITY_AT as int);
    let slot_size = word(b, SLOT_SIZE_AT as int);
    let head = word(b, HEAD_AT as int);
    RingView {
        capacity,
        slot_size,
        messages: Seq::new(
            word(b, COUNT_AT as int),
            |k: int| payload(b, slot_size, slot_of(head as int, k, capacity as int) as nat),
        ),
    }
}

pub proof fn lemma_slot_offset_step(slot_size: nat, j: nat)
    ensures
        slot_offset(slot_size, j + 1) == slot_offset(slot_size, j) + WORD_LEN + slot_size,
{
    assert((j + 1) * (WORD_LEN + slot_size) == j * (WORD_LEN + slot_size) + (WORD_LEN + slot_size))
        by (nonlinear_arith);
}

pub proof fn lemma_slot_offset_mono(slot_size: nat, i: nat, j: nat)
    requires
        i <= j,
    ensures
        slot_offset(slot_size, i) <= slot_offset(slot_size, j),
{
    assert(i * (WORD_LEN + slot_size) <= j * (WORD_LEN + slot_size)) by (nonlinear_arith)
        requires
            i <= j,
    ;
}

/// Size of the image of a ring with these bounds, if it fits in a `usize`.
pub fn checked_image_len(capacity: usize, slot_size: usize) -> (r: Option<usize>)
    ensures
        match r {
            Some(n) => n == image_len(capacity as nat, slot_size as nat),
            None => image_len(capacity as nat, slot_size as nat) > usize::MAX,
        },
{
    let w = match slot_size.checked_add(WORD_LEN) {
        Some(w) => w,
        None => {
            assert(capacity * (WORD_LEN + slot_size) >= 0) by (nonlinear_arith);
            if capacity == 0 {
                return Some(HEADER_LEN);
            }
            assert(capacity * (WORD_LEN + slot_size) >= (WORD_LEN + slot_size)) by (nonlinear_arith)
                requires
                    capacity >= 1,
            ;
            return None;
        },
    };
    match capacity.checked_mul(w) {
        Some(p) => p.checked_add(HEADER_LEN),
        None => None,
    }
}

pub(crate) fn append_bytes(out: &mut Vec<u8>, s: &[u8])
    ensures
        final(out)@ == old(out)@ + s@,
{
    let ghost start = out@;
    let mut i: usize = 0;
    while i < s.len()
        invariant
            i <= s@.len(),
            out@ == start + s@.subrange(0, i as int),
        decreases s@.len() - i,
    {
        out.push(s[i]);
        i = i + 1;
        assert(out@ =~= start + s@.subrange(0, i as int));
    }
    assert(s@.subrange(0, s@.len() as int) =~= s@);
}

pub(crate) fn append_zeros(out: &mut Vec<u8>, n: usize)
    ensures
        final(out)@ == old(out)@ + Seq::new(n as nat, |i: int| 0u8),
{
    let ghost start = out@;
    let mut i: usize = 0;
    while i < n
        invariant
            i <= n,
            out@ == start + Seq::new(i as nat, |k: int| 0u8),
        decreases n - i,
    {
        out.push(0u8);
        i = i + 1;
        assert(out@ =~= start + Seq::new(i as nat, |k: int| 0u8));
    }
}

pub(crate) fn append_word(out: &mut Vec<u8>, x: u64)
    ensures
        final(out)@ == old(out)@ + spec_u64_to_le_bytes(x),
        spec_u64_to_le_bytes(x).len() == WORD_LEN,
        spec_u64_from_le_bytes(spec_u64_to_le_bytes(x)) == x,
{
    let bytes = u64_to_le_bytes(x);
    append_bytes(out, bytes.as_slice());
    proof {
        lemma_auto_spec_u64_to_from_le_bytes();
    }
}

/// Bytes below the length of a prefix read the same in the whole.
pub proof fn lemma_prefix_subrange(a: Seq<u8>, b: Seq<u8>, lo: int, hi: int)
    requires
        a.len() <= b.len(),
        b.subrange(0, a.len() as int) == a,
        0 <= lo <= hi <= a.len(),
    ensures
        b.subrange(lo, hi) == a.subrange(lo, hi),
{
    assert(b.subrange(lo, hi) =~= b.subrange(0, a.len() as int).subrange(lo, hi));
}

/// Reads the word at byte `at`.
pub(crate) fn read_word(b: &[u8], at: usize) -> (r: u64)
    requires
        at + WORD_LEN <= b@.len(),
    ensures
        r == word(b@, at as int),
{
    let n = b.len();
    assert(at + WORD_LEN <= n);
    u64_from_le_bytes(&b[at..at + WORD_LEN])
}

} // verus!
