use vstd::prelude::*;

verus! {

/// Longest accepted queue name, in bytes.
pub const NAME_MAX: usize = 255;

/// A queue name: a `/` followed by at least one byte, none of them `/` or
/// NUL, at most `NAME_MAX` bytes in all.
pub open spec fn valid_name(n: Seq<u8>) -> bool {
    &&& 2 <= n.len() <= NAME_MAX
    &&& n[0] == 0x2fu8
    &&& forall|i: int| 1 <= i < n.len() ==> #[trigger] n[i] != 0x2fu8 && n[i] != 0u8
}

/// Whether `name` is a well-formed queue name.
pub fn is_valid_name(name: &[u8]) -> (r: bool)
    ensures
        r == valid_name(name@),
{
    if name.len() < 2 || name.len() > NAME_MAX || name[0] != 0x2fu8 {
        return false;
    }
    let mut i: usize = 1;
    while i < name.len()
        invariant
            1 <= i <= name@.len(),
            forall|j: int| 1 <= j < i ==> #[trigger] name@[j] != 0x2fu8 && name@[j] != 0u8,
        decreases name@.len() - i,
    {
        if name[i] == 0x2fu8 || name[i] == 0u8 {
            return false;
        }
        i = i + 1;
    }
    true
}

/// Whether `a` and `b` hold the same bytes.
pub fn bytes_equal(a: &[u8], b: &[u8]) -> (r: bool)
    ensures
        r == (a@ == b@),
{
    if a.len() != b.len() {
        return false;
    }
    let mut i: usize = 0;
    while i < a.len()
        invariant
            a@.len() == b@.len(),
            i <= a@.len(),
            forall|j: int| 0 <= j < i ==> a@[j] == b@[j],
        decreases a@.len() - i,
    {
        if a[i] != b[i] {
            return false;
        }
        i = i + 1;
    }
    assert(a@ =~= b@);
    true
}

} // verus!
