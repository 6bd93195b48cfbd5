use vstd::prelude::*;

use crate::layout::{
    append_bytes, append_word, append_zeros, checked_image_len, image_len, image_view, image_wf,
    lemma_prefix_subrange, lemma_slot_offset_mono, lemma_slot_offset_step, payload, read_word,
    slot_offset, stored_len, word, CAPACITY_AT, COUNT_AT, HEADER_LEN, HEAD_AT, SLOT_SIZE_AT,
    TAIL_AT, WORD_LEN,
};
use crate::status::NabdError;

verus! {

/// Abstract state of a ring: its fixed bounds and the queued messages, oldest first.
pub struct RingView {
    pub capacity: nat,
    pub slot_size: nat,
    pub messages: Seq<Seq<u8>>,
}

/// The bounds are positive, no more messages are queued than there are
/// slots, and every message fits in a slot.
pub open spec fn ring_wf(v: RingView) -> bool {
    &&& v.capacity > 0
    &&& v.slot_size > 0
    &&& v.messages.len() <= v.capacity
    &&& forall|k: int| 0 <= k < v.messages.len() ==> #[trigger] v.messages[k].len() <= v.slot_size
}

/// What a push of `m` reports on a ring in state `v`.
pub open spec fn push_outcome(v: RingView, m: Seq<u8>) -> Result<(), NabdError> {
    if m.len() > v.slot_size {
        Err(NabdError::MessageTooLarge)
    } else if v.messages.len() >= v.capacity {
        Err(NabdError::Full)
    } else {
        Ok(())
    }
}

/// The state after a push of `m`: appended at the tail on success, unchanged otherwise.
pub open spec fn after_push(v: RingView, m: Seq<u8>) -> RingView {
    if push_outcome(v, m) is Ok {
        RingView { messages: v.messages.push(m), ..v }
    } else {
        v
    }
}

/// What a pop into a buffer of `buf_cap` bytes returns on a ring in state `v`.
pub open spec fn pop_outcome(v: RingView, buf_cap: nat) -> Result<Seq<u8>, NabdError> {
    if v.messages.len() == 0 {
        Err(NabdError::Empty)
    } else if v.messages[0].len() > buf_cap {
        Err(NabdError::BufferTooSmall)
    } else {
        Ok(v.messages[0])
    }
}

/// The state after a pop: the oldest message removed on success, unchanged otherwise.
pub open spec fn after_pop(v: RingView, buf_cap: nat) -> RingView {
    if pop_outcome(v, buf_cap) is Ok {
        RingView { messages: v.messages.drop_first(), ..v }
    } else {
        v
    }
}

/// Physical slot of the `k`-th queued message, counting from `head` with wraparound.
pub open spec fn slot_of(head: int, k: int, capacity: int) -> int {
    if head + k < capacity {
        head + k
    } else {
        head + k - capacity
    }
}

/// The state after pushing each message of `ms` in turn.
pub open spec fn push_all(v: RingView, ms: Seq<Seq<u8>>) -> RingView
    decreases ms.len(),
{
    if ms.len() == 0 {
        v
    } else {
        push_all(after_push(v, ms[0]), ms.drop_first())
    }
}

/// The messages returned by `n` successive pops into buffers of `buf_cap`
/// bytes, stopping at the first pop that fails.
pub open spec fn pop_all(v: RingView, n: nat, buf_cap: nat) -> Seq<Seq<u8>>
    decreases n,
{
    if n == 0 {
        Seq::empty()
    } else {
        match pop_outcome(v, buf_cap) {
            Ok(m) => seq![m] + pop_all(after_pop(v, buf_cap), (n - 1) as nat, buf_cap),
            Err(_) => Seq::empty(),
        }
    }
}

/// Pushes that all fit append their messages in order.
pub proof fn lemma_push_all_appends(v: RingView, ms: Seq<Seq<u8>>)
    requires
        ring_wf(v),
        v.messages.len() + ms.len() <= v.capacity,
        forall|k: int| 0 <= k < ms.len() ==> #[trigger] ms[k].len() <= v.slot_size,
    ensures
        push_all(v, ms) == (RingView { messages: v.messages + ms, ..v }),
    decreases ms.len(),
{
    if ms.len() == 0 {
        assert(v.messages + ms =~= v.messages);
    } else {
        let w = after_push(v, ms[0]);
        assert(w.messages == v.messages.push(ms[0]));
        assert forall|k: int| 0 <= k < ms.drop_first().len() implies #[trigger] ms.drop_first()[k].len()
            <= w.slot_size by {
            assert(ms.drop_first()[k] == ms[k + 1]);
        }
        assert forall|k: int| 0 <= k < w.messages.len() implies #[trigger] w.messages[k].len()
            <= w.slot_size by {
            if k < v.messages.len() {
                assert(w.messages[k] == v.messages[k]);
            }
        }
        lemma_push_all_appends(w, ms.drop_first());
        assert(v.messages.push(ms[0]) + ms.drop_first() =~= v.messages + ms);
    }
}

/// Pops into buffers that hold every queued message return the oldest `n` in order.
pub proof fn lemma_pop_all_takes(v: RingView, n: nat, buf_cap: nat)
    requires
        n <= v.messages.len(),
        forall|k: int| 0 <= k < v.messages.len() ==> #[trigger] v.messages[k].len() <= buf_cap,
    ensures
        pop_all(v, n, buf_cap) == v.messages.take(n as int),
    decreases n,
{
    if n == 0 {
        assert(v.messages.take(0) =~= Seq::<Seq<u8>>::empty());
    } else {
        let w = after_pop(v, buf_cap);
        assert(v.messages[0].len() <= buf_cap);
        assert(w.messages == v.messages.drop_first());
        assert forall|k: int| 0 <= k < w.messages.len() implies #[trigger] w.messages[k].len()
            <= buf_cap by {
            assert(w.messages[k] == v.messages[k + 1]);
        }
        lemma_pop_all_takes(w, (n - 1) as nat, buf_cap);
        assert(seq![v.messages[0]] + v.messages.drop_first().take(n - 1) =~= v.messages.take(
            n as int,
        ));
    }
}

/// FIFO: on an empty ring, pushing up to `capacity` messages that each fit
/// in a slot and then popping as many times returns exactly those messages,
/// in the order they were pushed, and leaves the ring empty.
pub proof fn lemma_fifo(v: RingView, ms: Seq<Seq<u8>>, buf_cap: nat)
    requires
        ring_wf(v),
        v.messages.len() == 0,
        ms.len() <= v.capacity,
        forall|k: int| 0 <= k < ms.len() ==> #[trigger] ms[k].len() <= v.slot_size,
        buf_cap >= v.slot_size,
    ensures
        push_all(v, ms).messages == ms,
        pop_all(push_all(v, ms), ms.len(), buf_cap) == ms,
{
    lemma_push_all_appends(v, ms);
    assert(v.messages + ms =~= ms);
    let w = push_all(v, ms);
    assert forall|k: int| 0 <= k < w.messages.len() implies #[trigger] w.messages[k].len()
        <= buf_cap by {
        assert(ms[k].len() <= v.slot_size);
    }
    lemma_pop_all_takes(w, ms.len(), buf_cap);
    assert(ms.take(ms.len() as int) =~= ms);
}

/// Round trip: on an empty ring, a push of a message that fits both a slot
/// and the pop buffer, followed by a pop, returns that message unchanged
/// and leaves the ring as it was.
pub proof fn lemma_push_pop_round_trip(v: RingView, m: Seq<u8>, buf_cap: nat)
    requires
        ring_wf(v),
        v.messages.len() == 0,
        m.len() <= v.slot_size,
        m.len() <= buf_cap,
    ensures
        push_outcome(v, m) is Ok,
        pop_outcome(after_push(v, m), buf_cap) == Ok::<Seq<u8>, NabdError>(m),
        after_pop(after_push(v, m), buf_cap) == v,
{
    let w = after_push(v, m);
    assert(w.messages =~= seq![m]);
    assert(w.messages.drop_first() =~= v.messages);
}

/// A well-formed ring stays well-formed through any push or pop.
pub proof fn lemma_ops_keep_wf(v: RingView, m: Seq<u8>, buf_cap: nat)
    requires
        ring_wf(v),
    ensures
        ring_wf(after_push(v, m)),
        ring_wf(after_pop(v, buf_cap)),
{
    let w = after_push(v, m);
    if push_outcome(v, m) is Ok {
        assert forall|k: int| 0 <= k < w.messages.len() implies #[trigger] w.messages[k].len()
            <= w.slot_size by {
            if k < v.messages.len() {
                assert(w.messages[k] == v.messages[k]);
            }
        }
    }
    let u = after_pop(v, buf_cap);
    if pop_outcome(v, buf_cap) is Ok {
        assert forall|k: int| 0 <= k < u.messages.len() implies #[trigger] u.messages[k].len()
            <= u.slot_size by {
            assert(u.messages[k] == v.messages[k + 1]);
        }
    }
}

/// A bounded ring of fixed-size slots, each holding at most one message.
pub struct Ring {
    pub(crate) capacity: usize,
    pub(crate) slot_size: usize,
    pub(crate) head: usize,
    pub(crate) tail: usize,
    pub(crate) count: usize,
    pub(crate) slots: Vec<Vec<u8>>,
}

impl View for Ring {
    type V = RingView;

    closed spec fn view(&self) -> RingView {
        RingView {
            capacity: self.capacity as nat,
            slot_size: self.slot_size as nat,
            messages: Seq::new(
                self.count as nat,
                |k: int| self.slots@[slot_of(self.head as int, k, self.capacity as int)]@,
            ),
        }
    }
}

/// A fresh copy of `s`.
pub(crate) fn copy_bytes(s: &[u8]) -> (r: Vec<u8>)
    ensures
        r@ == s@,
{
    let mut r: Vec<u8> = Vec::with_capacity(s.len());
    let mut i: usize = 0;
    while i < s.len()
        invariant
            i <= s@.len(),
            r@ == s@.subrange(0, i as int),
        decreases s@.len() - i,
    {
        r.push(s[i]);
        i = i + 1;
        assert(r@ =~= s@.subrange(0, i as int));
    }
    assert(r@ =~= s@);
    r
}

impl Ring {
    /// Head and tail lie in `[0, capacity)`, the tail sits `count` slots
    /// after the head, and no slot holds more than `slot_size` bytes.
    pub closed spec fn wf(&self) -> bool {
        &&& self.capacity > 0
        &&& self.slot_size > 0
        &&& self.slots@.len() == self.capacity
        &&& self.head < self.capacity
        &&& self.tail < self.capacity
        &&& self.count <= self.capacity
        &&& self.tail as int == slot_of(self.head as int, self.count as int, self.capacity as int)
        &&& forall|i: int| 0 <= i < self.capacity ==> #[trigger] self.slots@[i]@.len() <= self.slot_size
    }

    /// A well-formed ring has a well-formed view.
    pub proof fn lemma_view_wf(&self)
        requires
            self.wf(),
        ensures
            ring_wf(self@),
    {
        assert forall|k: int| 0 <= k < self@.messages.len() implies #[trigger] self@.messages[k].len()
            <= self@.slot_size by {
            let i = slot_of(self.head as int, k, self.capacity as int);
            assert(self.slots@[i]@.len() <= self.slot_size);
        }
    }

    /// An empty ring of `capacity` slots of `slot_size` bytes each.
    pub fn new(capacity: usize, slot_size: usize) -> (r: Ring)
        requires
            capacity > 0,
            slot_size > 0,
        ensures
            r.wf(),
            r@.capacity == capacity,
            r@.slot_size == slot_size,
            r@.messages == Seq::<Seq<u8>>::empty(),
    {
        let mut slots: Vec<Vec<u8>> = Vec::with_capacity(capacity);
        let mut i: usize = 0;
        while i < capacity
            invariant
                i <= capacity,
                slots@.len() == i,
                forall|j: int| 0 <= j < i ==> #[trigger] slots@[j]@.len() == 0,
            decreases capacity - i,
        {
            slots.push(Vec::new());
            i = i + 1;
        }
        let r = Ring { capacity, slot_size, head: 0, tail: 0, count: 0, slots };
        assert(r@.messages =~= Seq::<Seq<u8>>::empty());
        r
    }

    pub fn capacity(&self) -> (r: usize)
        requires
            self.wf(),
        ensures
            r == self@.capacity,
    {
        self.capacity
    }

    pub fn slot_size(&self) -> (r: usize)
        requires
            self.wf(),
        ensures
            r == self@.slot_size,
    {
        self.slot_size
    }

    /// Number of messages currently queued.
    pub fn count(&self) -> (r: usize)
        requires
            self.wf(),
        ensures
            r == self@.messages.len(),
    {
        self.count
    }

    /// Appends `data` at the tail. A message longer than a slot is refused
    /// with `MessageTooLarge`, a push on a full ring with `Full`; in both
    /// cases the ring is left as it was.
    pub fn push(&mut self, data: &[u8]) -> (r: Result<(), NabdError>)
        requires
            old(self).wf(),
        ensures
            final(self).wf(),
            r == push_outcome(old(self)@, data@),
            final(self)@ == after_push(old(self)@, data@),
    {
        if data.len() > self.slot_size {
            return Err(NabdError::MessageTooLarge);
        }
        if self.count >= self.capacity {
            return Err(NabdError::Full);
        }
        let ghost pre = *self;
        let msg = copy_bytes(data);
        let t = self.tail;
        self.slots[t] = msg;
        self.tail = if t + 1 == self.capacity { 0 } else { t + 1 };
        self.count = self.count + 1;
        assert forall|i: int| 0 <= i < self.capacity implies #[trigger] self.slots@[i]@.len()
            <= self.slot_size by {
            if i != t as int {
                assert(self.slots@[i] == pre.slots@[i]);
            }
        }
        assert(self@.messages =~= pre@.messages.push(data@)) by {
            assert forall|k: int| 0 <= k < pre.count implies slot_of(
                self.head as int,
                k,
                self.capacity as int,
            ) != t as int by {}
        }
        Ok(())
    }

    /// Removes and returns the oldest message, provided it fits in a buffer
    /// of `buf_cap` bytes. An empty ring reports `Empty`; a message longer
    /// than the buffer reports `BufferTooSmall` and stays queued.
    pub fn pop(&mut self, buf_cap: usize) -> (r: Result<Vec<u8>, NabdError>)
        requires
            old(self).wf(),
        ensures
            final(self).wf(),
            match r {
                Ok(m) => pop_outcome(old(self)@, buf_cap as nat) == Ok::<Seq<u8>, NabdError>(m@),
                Err(e) => pop_outcome(old(self)@, buf_cap as nat) == Err::<Seq<u8>, NabdError>(e),
            },
            final(self)@ == after_pop(old(self)@, buf_cap as nat),
    {
        if self.count == 0 {
            return Err(NabdError::Empty);
        }
        let h = self.head;
        if self.slots[h].len() > buf_cap {
            proof {
                assert(self@.messages[0] == self.slots@[h as int]@);
            }
            return Err(NabdError::BufferTooSmall);
        }
        let ghost pre = *self;
        let msg = copy_bytes(self.slots[h].as_slice());
        assert(pre@.messages[0] == msg@);
        self.head = if h + 1 == self.capacity { 0 } else { h + 1 };
        self.count = self.count - 1;
        assert(self@.messages =~= pre@.messages.drop_first());
        Ok(msg)
    }

    /// The segment image of this ring; see `image_wf` for its layout.
    pub fn encode(&self) -> (r: Vec<u8>)
        requires
            self.wf(),
            image_len(self@.capacity, self@.slot_size) <= usize::MAX,
        ensures
            image_wf(r@),
            image_view(r@) == self@,
    {
        let mut out: Vec<u8> = Vec::new();
        append_word(&mut out, self.capacity as u64);
        append_word(&mut out, self.slot_size as u64);
        append_word(&mut out, self.head as u64);
        append_word(&mut out, self.tail as u64);
        append_word(&mut out, self.count as u64);
        append_word(&mut out, 0u64);
        let ghost hdr = out@;
        proof {
            assert(word(hdr, CAPACITY_AT as int) == self.capacity) by {
                assert(hdr.subrange(0, 8) =~= vstd::bytes::spec_u64_to_le_bytes(self.capacity as u64));
            }
            assert(word(hdr, SLOT_SIZE_AT as int) == self.slot_size) by {
                assert(hdr.subrange(8, 16) =~= vstd::bytes::spec_u64_to_le_bytes(self.slot_size as u64));
            }
            assert(word(hdr, HEAD_AT as int) == self.head) by {
                assert(hdr.subrange(16, 24) =~= vstd::bytes::spec_u64_to_le_bytes(self.head as u64));
            }
            assert(word(hdr, TAIL_AT as int) == self.tail) by {
                assert(hdr.subrange(24, 32) =~= vstd::bytes::spec_u64_to_le_bytes(self.tail as u64));
            }
            assert(word(hdr, COUNT_AT as int) == self.count) by {
                assert(hdr.subrange(32, 40) =~= vstd::bytes::spec_u64_to_le_bytes(self.count as u64));
            }
            assert(hdr.len() == HEADER_LEN);
            assert(out@.subrange(0, HEADER_LEN as int) =~= hdr);
        }
        let ss = self.slot_size;
        let mut j: usize = 0;
        while j < self.capacity
            invariant
                self.wf(),
                ss == self.slot_size,
                image_len(self@.capacity, self@.slot_size) <= usize::MAX,
                j <= self.capacity,
                hdr.len() == HEADER_LEN,
                out@.len() == slot_offset(ss as nat, j as nat),
                out@.subrange(0, HEADER_LEN as int) == hdr,
                forall|i: nat|
                    i < j ==> #[trigger] stored_len(out@, ss as nat, i) == self.slots@[i as int]@.len()
                        && payload(out@, ss as nat, i) == self.slots@[i as int]@,
            decreases self.capacity - j,
        {
            let ghost before = out@;
            proof {
                lemma_slot_offset_step(ss as nat, j as nat);
                lemma_slot_offset_mono(ss as nat, (j + 1) as nat, self.capacity as nat);
                assert(self.slots@[j as int]@.len() <= ss);
            }
            let m = self.slots[j].as_slice();
            append_word(&mut out, m.len() as u64);
            let ghost mid = out@;
            append_bytes(&mut out, m);
            append_zeros(&mut out, ss - m.len());
            proof {
                let off = before.len() as int;
                assert(out@.subrange(0, off) =~= before);
                assert(out@.subrange(0, HEADER_LEN as int) =~= hdr) by {
                    lemma_prefix_subrange(before, out@, 0, HEADER_LEN as int);
                }
                assert(stored_len(out@, ss as nat, j as nat) == m@.len()) by {
                    assert(out@.subrange(off, off + 8) =~= vstd::bytes::spec_u64_to_le_bytes(m.len() as u64));
                }
                assert(payload(out@, ss as nat, j as nat) =~= m@);
                assert forall|i: nat| i < j + 1 implies #[trigger] stored_len(out@, ss as nat, i)
                    == self.slots@[i as int]@.len() && payload(out@, ss as nat, i) == self.slots@[i as int]@ by {
                    if i < j {
                        let oi = slot_offset(ss as nat, i) as int;
                        lemma_slot_offset_step(ss as nat, i);
                        lemma_slot_offset_mono(ss as nat, i + 1, j as nat);
                        assert(self.slots@[i as int]@.len() <= ss);
                        lemma_prefix_subrange(before, out@, oi, oi + 8);
                        assert(stored_len(before, ss as nat, i) == self.slots@[i as int]@.len());
                        assert(payload(before, ss as nat, i) == self.slots@[i as int]@);
                        lemma_prefix_subrange(before, out@, oi + 8, oi + 8 + self.slots@[i as int]@.len());
                        assert(stored_len(out@, ss as nat, i) == stored_len(before, ss as nat, i));
                    }
                }
            }
            j = j + 1;
        }
        proof {
            let b = out@;
            lemma_prefix_subrange(hdr, b, 0, 8);
            lemma_prefix_subrange(hdr, b, 8, 16);
            lemma_prefix_subrange(hdr, b, 16, 24);
            lemma_prefix_subrange(hdr, b, 24, 32);
            lemma_prefix_subrange(hdr, b, 32, 40);
            assert(word(b, CAPACITY_AT as int) == self.capacity);
            assert(word(b, SLOT_SIZE_AT as int) == self.slot_size);
            assert(word(b, HEAD_AT as int) == self.head);
            assert(word(b, TAIL_AT as int) == self.tail);
            assert(word(b, COUNT_AT as int) == self.count);
            assert forall|j: nat| j < self.capacity implies #[trigger] stored_len(b, ss as nat, j) <= ss by {
                assert(self.slots@[j as int]@.len() <= ss);
            }
            assert(image_view(b).messages =~= self@.messages);
        }
        out
    }

    /// Reads a ring back from a segment image. Fails with `OpenFailed`
    /// exactly when `bytes` is not the image of a well-formed ring.
    pub fn decode(bytes: &[u8]) -> (r: Result<Ring, NabdError>)
        ensures
            match r {
                Ok(ring) => image_wf(bytes@) && ring.wf() && ring@ == image_view(bytes@),
                Err(e) => !image_wf(bytes@) && e == NabdError::OpenFailed,
            },
    {
        let n = bytes.len();
        if n < HEADER_LEN {
            return Err(NabdError::OpenFailed);
        }
        let cap64 = read_word(bytes, CAPACITY_AT);
        let ss64 = read_word(bytes, SLOT_SIZE_AT);
        let head64 = read_word(bytes, HEAD_AT);
        let tail64 = read_word(bytes, TAIL_AT);
        let count64 = read_word(bytes, COUNT_AT);
        if cap64 == 0 || ss64 == 0 {
            return Err(NabdError::OpenFailed);
        }
        if cap64 > n as u64 || ss64 > n as u64 {
            proof {
                let c = cap64 as nat;
                let s = ss64 as nat;
                assert(c * (WORD_LEN + s) >= c && c * (WORD_LEN + s) >= WORD_LEN + s) by (nonlinear_arith)
                    requires
                        c >= 1,
                ;
            }
            return Err(NabdError::OpenFailed);
        }
        let capacity = cap64 as usize;
        let slot_size = ss64 as usize;
        match checked_image_len(capacity, slot_size) {
            None => {
                return Err(NabdError::OpenFailed);
            },
            Some(len) => {
                if len != n {
                    return Err(NabdError::OpenFailed);
                }
            },
        }
        if head64 >= cap64 || tail64 >= cap64 || count64 > cap64 {
            return Err(NabdError::OpenFailed);
        }
        let head = head64 as usize;
        let tail = tail64 as usize;
        let count = count64 as usize;
        let expected_tail = if head < capacity - count {
            head + count
        } else {
            head - (capacity - count)
        };
        if tail != expected_tail {
            return Err(NabdError::OpenFailed);
        }
        let mut slots: Vec<Vec<u8>> = Vec::with_capacity(capacity);
        let mut off: usize = HEADER_LEN;
        let mut j: usize = 0;
        while j < capacity
            invariant
                n == bytes@.len(),
                n == image_len(capacity as nat, slot_size as nat),
                slot_size as nat == ss64 as nat,
                slot_size > 0,
                capacity as nat == word(bytes@, CAPACITY_AT as int),
                slot_size as nat == word(bytes@, SLOT_SIZE_AT as int),
                j <= capacity,
                off == slot_offset(slot_size as nat, j as nat),
                slots@.len() == j,
                forall|i: nat|
                    i < j ==> #[trigger] stored_len(bytes@, slot_size as nat, i) <= slot_size
                        && slots@[i as int]@ == payload(bytes@, slot_size as nat, i)
                        && slots@[i as int]@.len() <= slot_size,
            decreases capacity - j,
        {
            proof {
                lemma_slot_offset_step(slot_size as nat, j as nat);
                lemma_slot_offset_mono(slot_size as nat, (j + 1) as nat, capacity as nat);
            }
            let len64 = read_word(bytes, off);
            if len64 > ss64 {
                assert(stored_len(bytes@, slot_size as nat, j as nat) > slot_size);
                return Err(NabdError::OpenFailed);
            }
            let len = len64 as usize;
            assert(off + WORD_LEN + slot_size <= n);
            let p = copy_bytes(&bytes[off + WORD_LEN..off + WORD_LEN + len]);
            slots.push(p);
            proof {
                assert forall|i: nat| i < j + 1 implies #[trigger] stored_len(bytes@, slot_size as nat, i)
                    <= slot_size && slots@[i as int]@ == payload(bytes@, slot_size as nat, i)
                    && slots@[i as int]@.len() <= slot_size by {
                    if i < j {
                        assert(stored_len(bytes@, slot_size as nat, i) <= slot_size);
                    }
                }
            }
            off = off + WORD_LEN + slot_size;
            j = j + 1;
        }
        let ring = Ring { capacity, slot_size, head, tail, count, slots };
        proof {
            assert forall|i: int| 0 <= i < capacity implies #[trigger] ring.slots@[i]@.len() <= slot_size by {
                assert(stored_len(bytes@, slot_size as nat, i as nat) <= slot_size);
            }
            assert(ring@.messages =~= image_view(bytes@).messages);
        }
        Ok(ring)
    }
}

} // verus!
