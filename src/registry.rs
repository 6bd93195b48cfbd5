use vstd::prelude::*;

use vstd::string::StringSliceAdditionalSpecFns;

use crate::layout::{checked_image_len, image_len};
use crate::name::{bytes_equal, is_valid_name, valid_name};
use crate::ring::{
    after_pop, after_push, copy_bytes, pop_outcome, push_outcome, ring_wf, Ring, RingView,
};
use crate::status::{NabdError, NABD_CREATE};

verus! {

/// Buffer size that `Nabd::pop` offers for one message.
pub const POP_BUFFER_LEN: usize = 4096;

/// Abstract namespace: the names currently bound, each to a segment, and
/// every segment created so far. Unlinking a name drops its binding only;
/// the segment stays reachable through the handles already open on it.
pub struct NamespaceView {
    pub entries: Seq<(Seq<u8>, nat)>,
    pub segments: Seq<RingView>,
}

pub open spec fn is_bound(v: NamespaceView, n: Seq<u8>) -> bool {
    exists|i: int| 0 <= i < v.entries.len() && (#[trigger] v.entries[i]).0 == n
}

pub open spec fn entry_index(v: NamespaceView, n: Seq<u8>) -> int {
    choose|i: int| 0 <= i < v.entries.len() && (#[trigger] v.entries[i]).0 == n
}

/// The segment that `n` names, if it is bound.
pub open spec fn segment_of(v: NamespaceView, n: Seq<u8>) -> nat {
    v.entries[entry_index(v, n)].1
}

/// Names are bound at most once, bindings point at existing segments, and
/// every segment is a well-formed ring.
pub open spec fn namespace_wf(v: NamespaceView) -> bool {
    &&& forall|i: int, j: int|
        0 <= i < v.entries.len() && 0 <= j < v.entries.len() && i != j ==> (#[trigger] v.entries[i]).0
            != (#[trigger] v.entries[j]).0
    &&& forall|i: int| 0 <= i < v.entries.len() ==> (#[trigger] v.entries[i]).1 < v.segments.len()
    &&& forall|s: int| 0 <= s < v.segments.len() ==> ring_wf(#[trigger] v.segments[s])
}

pub open spec fn creates(flags: i32) -> bool {
    flags & NABD_CREATE != 0
}

/// Whether an open of an unbound name creates a new segment: `NABD_CREATE`
/// is given, both sizes are positive and the segment's image fits in memory.
pub open spec fn may_create(flags: i32, capacity: nat, slot_size: nat) -> bool {
    creates(flags) && capacity > 0 && slot_size > 0 && image_len(capacity, slot_size) <= usize::MAX
}

/// The segment that an open attaches to, or why it fails. A bound name is
/// attached to whatever the flags say, provided the stored sizes agree.
pub open spec fn open_outcome(
    v: NamespaceView,
    n: Seq<u8>,
    capacity: nat,
    slot_size: nat,
    flags: i32,
) -> Result<nat, NabdError> {
    if !valid_name(n) {
        Err(NabdError::NameInvalid)
    } else if is_bound(v, n) {
        let s = segment_of(v, n);
        if v.segments[s as int].capacity != capacity || v.segments[s as int].slot_size != slot_size {
            Err(NabdError::SizeMismatch)
        } else {
            Ok(s)
        }
    } else if !may_create(flags, capacity, slot_size) {
        Err(NabdError::OpenFailed)
    } else {
        Ok(v.segments.len())
    }
}

/// The namespace after an open: a created segment starts empty and is bound
/// to the name; any other open changes nothing.
pub open spec fn after_open(
    v: NamespaceView,
    n: Seq<u8>,
    capacity: nat,
    slot_size: nat,
    flags: i32,
) -> NamespaceView {
    if valid_name(n) && !is_bound(v, n) && may_create(flags, capacity, slot_size) {
        NamespaceView {
            entries: v.entries.push((n, v.segments.len())),
            segments: v.segments.push(
                RingView { capacity, slot_size, messages: Seq::empty() },
            ),
        }
    } else {
        v
    }
}

pub open spec fn unlink_outcome(v: NamespaceView, n: Seq<u8>) -> Result<(), NabdError> {
    if !valid_name(n) {
        Err(NabdError::NameInvalid)
    } else if !is_bound(v, n) {
        Err(NabdError::OpenFailed)
    } else {
        Ok(())
    }
}

/// The namespace after an unlink: the binding is gone, the segments stay.
pub open spec fn after_unlink(v: NamespaceView, n: Seq<u8>) -> NamespaceView {
    if valid_name(n) && is_bound(v, n) {
        NamespaceView { entries: v.entries.remove(entry_index(v, n)), ..v }
    } else {
        v
    }
}

/// The namespace after a push of `m` through a handle on segment `s`.
pub open spec fn push_via(v: NamespaceView, s: nat, m: Seq<u8>) -> NamespaceView {
    NamespaceView { segments: v.segments.update(s as int, after_push(v.segments[s as int], m)), ..v }
}

/// The namespace after a pop into `buf_cap` bytes through a handle on segment `s`.
pub open spec fn pop_via(v: NamespaceView, s: nat, buf_cap: nat) -> NamespaceView {
    NamespaceView {
        segments: v.segments.update(s as int, after_pop(v.segments[s as int], buf_cap)),
        ..v
    }
}

struct Entry {
    name: Vec<u8>,
    segment: usize,
}

/// The named segments known to this process.
pub struct Namespace {
    entries: Vec<Entry>,
    segments: Vec<Ring>,
}

impl View for Namespace {
    type V = NamespaceView;

    closed spec fn view(&self) -> NamespaceView {
        NamespaceView {
            entries: self.entries@.map_values(|e: Entry| (e.name@, e.segment as nat)),
            segments: self.segments@.map_values(|r: Ring| r@),
        }
    }
}

/// A handle onto one segment, carrying the role flags it was opened with.
pub struct Nabd {
    segment: usize,
    flags: i32,
}

impl Nabd {
    /// Index of the segment this handle maps.
    pub closed spec fn segment(&self) -> nat {
        self.segment as nat
    }

    pub closed spec fn spec_flags(&self) -> i32 {
        self.flags
    }
}

impl Namespace {
    pub closed spec fn wf(&self) -> bool {
        &&& namespace_wf(self@)
        &&& forall|s: int| 0 <= s < self.segments@.len() ==> (#[trigger] self.segments@[s]).wf()
    }

    pub proof fn lemma_view_wf(&self)
        requires
            self.wf(),
        ensures
            namespace_wf(self@),
    {
    }

    /// An empty namespace.
    pub fn new() -> (r: Namespace)
        ensures
            r.wf(),
            r@.entries.len() == 0,
            r@.segments.len() == 0,
    {
        let r = Namespace { entries: Vec::new(), segments: Vec::new() };
        assert(r@.entries =~= Seq::<(Seq<u8>, nat)>::empty());
        r
    }

    /// Whether `h` refers to a segment of this namespace.
    pub open spec fn holds(&self, h: &Nabd) -> bool {
        h.segment() < self@.segments.len()
    }

    fn find(&self, name: &[u8]) -> (r: Option<usize>)
        requires
            self.wf(),
        ensures
            match r {
                Some(i) => i < self@.entries.len() && self@.entries[i as int].0 == name@
                    && entry_index(self@, name@) == i && is_bound(self@, name@),
                None => !is_bound(self@, name@),
            },
    {
        let mut i: usize = 0;
        while i < self.entries.len()
            invariant
                self.wf(),
                i <= self@.entries.len(),
                forall|j: int| 0 <= j < i ==> (#[trigger] self@.entries[j]).0 != name@,
            decreases self@.entries.len() - i,
        {
            if bytes_equal(self.entries[i].name.as_slice(), name) {
                assert(self@.entries[i as int].0 == name@);
                let ghost k = entry_index(self@, name@);
                assert(0 <= k < self@.entries.len() && self@.entries[k].0 == name@);
                return Some(i);
            }
            i = i + 1;
        }
        None
    }
}

/// Every open and unlink keeps the namespace well-formed.
pub proof fn lemma_open_unlink_keep_wf(
    v: NamespaceView,
    n: Seq<u8>,
    capacity: nat,
    slot_size: nat,
    flags: i32,
)
    requires
        namespace_wf(v),
    ensures
        namespace_wf(after_open(v, n, capacity, slot_size, flags)),
        namespace_wf(after_unlink(v, n)),
{
    let w = after_open(v, n, capacity, slot_size, flags);
    if valid_name(n) && !is_bound(v, n) && may_create(flags, capacity, slot_size) {
        assert forall|i: int, j: int|
            0 <= i < w.entries.len() && 0 <= j < w.entries.len() && i != j implies (#[trigger] w.entries[i]).0
            != (#[trigger] w.entries[j]).0 by {
            if i == v.entries.len() {
                assert(w.entries[j] == v.entries[j]);
            } else if j == v.entries.len() {
                assert(w.entries[i] == v.entries[i]);
            } else {
                assert(w.entries[i] == v.entries[i]);
                assert(w.entries[j] == v.entries[j]);
            }
        }
        assert forall|i: int| 0 <= i < w.entries.len() implies (#[trigger] w.entries[i]).1
            < w.segments.len() by {
            if i < v.entries.len() {
                assert(w.entries[i] == v.entries[i]);
            }
        }
        assert forall|s: int| 0 <= s < w.segments.len() implies ring_wf(#[trigger] w.segments[s]) by {
            if s < v.segments.len() {
                assert(w.segments[s] == v.segments[s]);
            }
        }
    }
    let u = after_unlink(v, n);
    if valid_name(n) && is_bound(v, n) {
        let k = entry_index(v, n);
        assert forall|i: int, j: int|
            0 <= i < u.entries.len() && 0 <= j < u.entries.len() && i != j implies (#[trigger] u.entries[i]).0
            != (#[trigger] u.entries[j]).0 by {
            let i0 = if i < k { i } else { i + 1 };
            let j0 = if j < k { j } else { j + 1 };
            assert(u.entries[i] == v.entries[i0]);
            assert(u.entries[j] == v.entries[j0]);
        }
        assert forall|i: int| 0 <= i < u.entries.len() implies (#[trigger] u.entries[i]).1
            < u.segments.len() by {
            let i0 = if i < k { i } else { i + 1 };
            assert(u.entries[i] == v.entries[i0]);
        }
    }
}

/// After an unlink, an open with `NABD_CREATE` and positive sizes creates
/// a new segment that holds no message, whatever the name held before.
pub proof fn lemma_unlink_then_create(
    v: NamespaceView,
    n: Seq<u8>,
    capacity: nat,
    slot_size: nat,
    flags: i32,
)
    requires
        namespace_wf(v),
        valid_name(n),
        may_create(flags, capacity, slot_size),
    ensures
        open_outcome(after_unlink(v, n), n, capacity, slot_size, flags) == Ok::<nat, NabdError>(
            after_unlink(v, n).segments.len(),
        ),
        after_open(after_unlink(v, n), n, capacity, slot_size, flags).segments[after_unlink(
            v,
            n,
        ).segments.len() as int].messages.len() == 0,
{
    let u = after_unlink(v, n);
    if is_bound(v, n) {
        let k = entry_index(v, n);
        if is_bound(u, n) {
            let i = choose|i: int| 0 <= i < u.entries.len() && (#[trigger] u.entries[i]).0 == n;
            let i0 = if i < k { i } else { i + 1 };
            assert(u.entries[i] == v.entries[i0]);
            assert(v.entries[i0].0 == v.entries[k].0);
        }
    }
    assert(!is_bound(u, n));
}

/// Two handles opened on one name map one queue: the second open attaches
/// to the segment that the first one opened or created, so a push through
/// either handle is what a pop through the other one sees. In particular,
/// on an empty queue, a message pushed through the first handle is the one
/// a pop through the second handle returns.
pub proof fn lemma_shared_handles(
    v: NamespaceView,
    n: Seq<u8>,
    capacity: nat,
    slot_size: nat,
    flags_a: i32,
    flags_b: i32,
    m: Seq<u8>,
    buf_cap: nat,
)
    requires
        namespace_wf(v),
        open_outcome(v, n, capacity, slot_size, flags_a) is Ok,
    ensures
        ({
            let w = after_open(v, n, capacity, slot_size, flags_a);
            let a = open_outcome(v, n, capacity, slot_size, flags_a)->Ok_0;
            &&& open_outcome(w, n, capacity, slot_size, flags_b) == Ok::<nat, NabdError>(a)
            &&& after_open(w, n, capacity, slot_size, flags_b) == w
            &&& push_via(w, a, m).segments[a as int] == after_push(w.segments[a as int], m)
            &&& (w.segments[a as int].messages.len() == 0 && m.len() <= slot_size && m.len()
                <= buf_cap) ==> pop_outcome(push_via(w, a, m).segments[a as int], buf_cap)
                == Ok::<Seq<u8>, NabdError>(m)
        }),
{
    let w = after_open(v, n, capacity, slot_size, flags_a);
    let a = open_outcome(v, n, capacity, slot_size, flags_a)->Ok_0;
    lemma_open_unlink_keep_wf(v, n, capacity, slot_size, flags_a);
    if !is_bound(v, n) {
        let last = v.entries.len() as int;
        assert(w.entries[last].0 == n);
        assert(is_bound(w, n));
        let k = entry_index(w, n);
        assert(k == last);
    } else {
        assert(w == v);
    }
    assert(is_bound(w, n));
    assert(segment_of(w, n) == a);
    let p = push_via(w, a, m);
    if w.segments[a as int].messages.len() == 0 && m.len() <= slot_size && m.len() <= buf_cap {
        assert(p.segments[a as int].messages =~= seq![m]);
    }
}

impl Nabd {
    /// Opens the queue called `name`. A bound name is attached to, and its
    /// stored capacity and slot size must equal the ones asked for
    /// (`SizeMismatch` otherwise), whether or not `NABD_CREATE` is given. An
    /// unbound name gets a fresh, empty segment when `NABD_CREATE` is given,
    /// both sizes are positive and the segment's image fits in memory, and
    /// fails with `OpenFailed` otherwise. A
    /// malformed name fails with `NameInvalid`.
    pub fn open(ns: &mut Namespace, name: &str, capacity: usize, slot_size: usize, flags: i32) -> (r:
        Result<Nabd, NabdError>)
        requires
            old(ns).wf(),
        ensures
            final(ns).wf(),
            final(ns)@ == after_open(old(ns)@, name.spec_bytes(), capacity as nat, slot_size as nat, flags),
            match r {
                Ok(h) => open_outcome(old(ns)@, name.spec_bytes(), capacity as nat, slot_size as nat, flags)
                    == Ok::<nat, NabdError>(h.segment()) && h.spec_flags() == flags,
                Err(e) => open_outcome(old(ns)@, name.spec_bytes(), capacity as nat, slot_size as nat, flags)
                    == Err::<nat, NabdError>(e),
            },
    {
        let bytes = name.as_bytes();
        if !is_valid_name(bytes) {
            return Err(NabdError::NameInvalid);
        }
        match ns.find(bytes) {
            Some(i) => {
                let s = ns.entries[i].segment;
                assert(ns.segments@[s as int].wf());
                if ns.segments[s].capacity() != capacity || ns.segments[s].slot_size() != slot_size {
                    Err(NabdError::SizeMismatch)
                } else {
                    Ok(Nabd { segment: s, flags })
                }
            },
            None => {
                if flags & NABD_CREATE == 0 || capacity == 0 || slot_size == 0 {
                    return Err(NabdError::OpenFailed);
                }
                if checked_image_len(capacity, slot_size).is_none() {
                    return Err(NabdError::OpenFailed);
                }
                let ghost pre = ns@;
                let ring = Ring::new(capacity, slot_size);
                let s = ns.segments.len();
                ns.segments.push(ring);
                let stored = copy_bytes(bytes);
                ns.entries.push(Entry { name: stored, segment: s });
                let ghost post = after_open(pre, name.spec_bytes(), capacity as nat, slot_size as nat, flags);
                assert(ns@.entries =~= post.entries);
                assert(ns@.segments =~= post.segments);
                assert forall|j: int| 0 <= j < ns.segments@.len() implies (#[trigger] ns.segments@[j]).wf() by {
                }
                Ok(Nabd { segment: s, flags })
            },
        }
    }

    /// Removes the binding of `name`, so that later opens without
    /// `NABD_CREATE` fail. Handles already open keep working on the
    /// segment. An unbound name reports `OpenFailed`, a malformed one
    /// `NameInvalid`; neither changes anything.
    pub fn unlink(ns: &mut Namespace, name: &str) -> (r: Result<(), NabdError>)
        requires
            old(ns).wf(),
        ensures
            final(ns).wf(),
            r == unlink_outcome(old(ns)@, name.spec_bytes()),
            final(ns)@ == after_unlink(old(ns)@, name.spec_bytes()),
    {
        let bytes = name.as_bytes();
        if !is_valid_name(bytes) {
            return Err(NabdError::NameInvalid);
        }
        match ns.find(bytes) {
            None => Err(NabdError::OpenFailed),
            Some(i) => {
                let ghost pre = ns@;
                let _gone = ns.entries.remove(i);
                assert(ns@.entries =~= pre.entries.remove(i as int));
                Ok(())
            },
        }
    }

    /// Pushes `data` onto the queue this handle maps; see `Ring::push`.
    pub fn push(&self, ns: &mut Namespace, data: &[u8]) -> (r: Result<(), NabdError>)
        requires
            old(ns).wf(),
            old(ns).holds(self),
        ensures
            final(ns).wf(),
            r == push_outcome(old(ns)@.segments[self.segment() as int], data@),
            final(ns)@ == push_via(old(ns)@, self.segment(), data@),
    {
        let ghost pre = ns@;
        let r = ns.segments[self.segment].push(data);
        assert(ns@.segments =~= push_via(pre, self.segment(), data@).segments);
        r
    }

    /// Pops the oldest message of the queue this handle maps into a buffer
    /// of `buf_cap` bytes; see `Ring::pop`.
    pub fn pop_with_capacity(&self, ns: &mut Namespace, buf_cap: usize) -> (r: Result<Vec<u8>, NabdError>)
        requires
            old(ns).wf(),
            old(ns).holds(self),
        ensures
            final(ns).wf(),
            match r {
                Ok(m) => pop_outcome(old(ns)@.segments[self.segment() as int], buf_cap as nat)
                    == Ok::<Seq<u8>, NabdError>(m@),
                Err(e) => pop_outcome(old(ns)@.segments[self.segment() as int], buf_cap as nat)
                    == Err::<Seq<u8>, NabdError>(e),
            },
            final(ns)@ == pop_via(old(ns)@, self.segment(), buf_cap as nat),
    {
        let ghost pre = ns@;
        let r = ns.segments[self.segment].pop(buf_cap);
        assert(ns@.segments =~= pop_via(pre, self.segment(), buf_cap as nat).segments);
        r
    }

    /// Pops the oldest message into a buffer of `POP_BUFFER_LEN` bytes.
    pub fn pop(&self, ns: &mut Namespace) -> (r: Result<Vec<u8>, NabdError>)
        requires
            old(ns).wf(),
            old(ns).holds(self),
        ensures
            final(ns).wf(),
            match r {
                Ok(m) => pop_outcome(old(ns)@.segments[self.segment() as int], POP_BUFFER_LEN as nat)
                    == Ok::<Seq<u8>, NabdError>(m@),
                Err(e) => pop_outcome(old(ns)@.segments[self.segment() as int], POP_BUFFER_LEN as nat)
                    == Err::<Seq<u8>, NabdError>(e),
            },
            final(ns)@ == pop_via(old(ns)@, self.segment(), POP_BUFFER_LEN as nat),
    {
        self.pop_with_capacity(ns, POP_BUFFER_LEN)
    }

    /// Number of messages queued on the segment this handle maps.
    pub fn count(&self, ns: &Namespace) -> (r: usize)
        requires
            ns.wf(),
            ns.holds(self),
        ensures
            r == ns@.segments[self.segment() as int].messages.len(),
    {
        assert(ns.segments@[self.segment as int].wf());
        ns.segments[self.segment].count()
    }

    /// The role flags this handle was opened with.
    pub fn flags(&self) -> (r: i32)
        ensures
            r == self.spec_flags(),
    {
        self.flags
    }

    /// Releases the handle. The segment and its contents are untouched.
    pub fn close(self) {
    }
}

} // verus!
