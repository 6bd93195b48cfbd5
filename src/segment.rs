use vstd::prelude::*;

use crate::layout::{checked_image_len, image_len, image_view, image_wf};
use crate::ring::{after_pop, after_push, pop_outcome, push_outcome, Ring, RingView};
use crate::status::NabdError;

verus! {

/// The image of a freshly created, empty segment. Fails with `OpenFailed`
/// when a size is zero or the image would not fit in memory.
pub fn create_image(capacity: usize, slot_size: usize) -> (r: Result<Vec<u8>, NabdError>)
    ensures
        match r {
            Ok(b) => capacity > 0 && slot_size > 0 && image_len(capacity as nat, slot_size as nat)
                <= usize::MAX && image_wf(b@) && image_view(b@) == (RingView {
                capacity: capacity as nat,
                slot_size: slot_size as nat,
                messages: Seq::empty(),
            }),
            Err(e) => e == NabdError::OpenFailed && !(capacity > 0 && slot_size > 0 && image_len(
                capacity as nat,
                slot_size as nat,
            ) <= usize::MAX),
        },
{
    if capacity == 0 || slot_size == 0 || checked_image_len(capacity, slot_size).is_none() {
        return Err(NabdError::OpenFailed);
    }
    let ring = Ring::new(capacity, slot_size);
    Ok(ring.encode())
}

/// Checks an existing image before attaching to it: `OpenFailed` when it
/// is not a well-formed image, `SizeMismatch` when its stored capacity or
/// slot size differs from the one asked for.
pub fn check_image(bytes: &[u8], capacity: usize, slot_size: usize) -> (r: Result<(), NabdError>)
    ensures
        r == (if !image_wf(bytes@) {
            Err(NabdError::OpenFailed)
        } else if image_view(bytes@).capacity != capacity || image_view(bytes@).slot_size != slot_size {
            Err(NabdError::SizeMismatch)
        } else {
            Ok(())
        }),
{
    let ring = Ring::decode(bytes)?;
    proof {
        ring.lemma_view_wf();
    }
    if ring.capacity() != capacity || ring.slot_size() != slot_size {
        Err(NabdError::SizeMismatch)
    } else {
        Ok(())
    }
}

/// Number of messages queued in an image; `OpenFailed` if it is malformed.
pub fn image_count(bytes: &[u8]) -> (r: Result<usize, NabdError>)
    ensures
        match r {
            Ok(n) => image_wf(bytes@) && n == image_view(bytes@).messages.len(),
            Err(e) => !image_wf(bytes@) && e == NabdError::OpenFailed,
        },
{
    let ring = Ring::decode(bytes)?;
    Ok(ring.count())
}

/// Pushes `data` onto the queue an image holds, in place. A malformed image
/// reports `OpenFailed`; otherwise the result is that of `Ring::push`, and
/// the image afterwards holds the queue after the push.
pub fn push_image(bytes: &mut Vec<u8>, data: &[u8]) -> (r: Result<(), NabdError>)
    ensures
        !image_wf(old(bytes)@) ==> (r == Err::<(), NabdError>(NabdError::OpenFailed) && final(bytes)@
            == old(bytes)@),
        image_wf(old(bytes)@) ==> (r == push_outcome(image_view(old(bytes)@), data@)
            && image_wf(final(bytes)@)
            && image_view(final(bytes)@) == after_push(image_view(old(bytes)@), data@)),
{
    let mut ring = match Ring::decode(bytes.as_slice()) {
        Ok(ring) => ring,
        Err(e) => {
            return Err(e);
        },
    };
    let r = ring.push(data);
    let n = bytes.len();
    assert(image_len(ring@.capacity, ring@.slot_size) == n);
    *bytes = ring.encode();
    r
}

/// Pops the oldest message of the queue an image holds into a buffer of
/// `buf_cap` bytes, in place. A malformed image reports `OpenFailed`;
/// otherwise the result is that of `Ring::pop`, and the image afterwards
/// holds the queue after the pop.
pub fn pop_image(bytes: &mut Vec<u8>, buf_cap: usize) -> (r: Result<Vec<u8>, NabdError>)
    ensures
        !image_wf(old(bytes)@) ==> (r == Err::<Vec<u8>, NabdError>(NabdError::OpenFailed)
            && final(bytes)@ == old(bytes)@),
        image_wf(old(bytes)@) ==> (match r {
            Ok(m) => pop_outcome(image_view(old(bytes)@), buf_cap as nat)
                == Ok::<Seq<u8>, NabdError>(m@),
            Err(e) => pop_outcome(image_view(old(bytes)@), buf_cap as nat)
                == Err::<Seq<u8>, NabdError>(e),
        }),
        image_wf(old(bytes)@) ==> (image_wf(final(bytes)@) && image_view(final(bytes)@)
            == after_pop(image_view(old(bytes)@), buf_cap as nat)),
{
    let mut ring = match Ring::decode(bytes.as_slice()) {
        Ok(ring) => ring,
        Err(e) => {
            return Err(e);
        },
    };
    let r = ring.pop(buf_cap);
    let n = bytes.len();
    assert(image_len(ring@.capacity, ring@.slot_size) == n);
    *bytes = ring.encode();
    r
}

} // verus!
