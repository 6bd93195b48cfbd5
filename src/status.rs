use vstd::prelude::*;

verus! {

/// Why a queue operation did not succeed. `Empty` and `Full` are
/// steady-state signals; the others report a caller error at the call site.
#[derive(Debug, Clone, Copy, PartialEq, Eq, Structural)]
pub enum NabdError {
    Empty,
    Full,
    OpenFailed,
    NameInvalid,
    SizeMismatch,
    MessageTooLarge,
    BufferTooSmall,
}

pub const NABD_OK: i32 = 0;
pub const NABD_EMPTY: i32 = -1;
pub const NABD_FULL: i32 = -2;
pub const NABD_OPEN_FAILED: i32 = -3;
pub const NABD_NAME_INVALID: i32 = -4;
pub const NABD_SIZE_MISMATCH: i32 = -5;
pub const NABD_MESSAGE_TOO_LARGE: i32 = -6;
pub const NABD_BUFFER_TOO_SMALL: i32 = -7;

/// Open flags, combinable as a bitmask.
pub const NABD_CREATE: i32 = 0x01;
pub const NABD_PRODUCER: i32 = 0x02;
pub const NABD_CONSUMER: i32 = 0x04;

pub open spec fn error_code(e: NabdError) -> i32 {
    match e {
        NabdError::Empty => NABD_EMPTY,
        NabdError::Full => NABD_FULL,
        NabdError::OpenFailed => NABD_OPEN_FAILED,
        NabdError::NameInvalid => NABD_NAME_INVALID,
        NabdError::SizeMismatch => NABD_SIZE_MISMATCH,
        NabdError::MessageTooLarge => NABD_MESSAGE_TOO_LARGE,
        NabdError::BufferTooSmall => NABD_BUFFER_TOO_SMALL,
    }
}

impl NabdError {
    /// The integer code of this error, as carried across the C-style interface.
    pub fn code(&self) -> (r: i32)
        ensures
            r == error_code(*self),
    {
        match self {
            NabdError::Empty => NABD_EMPTY,
            NabdError::Full => NABD_FULL,
            NabdError::OpenFailed => NABD_OPEN_FAILED,
            NabdError::NameInvalid => NABD_NAME_INVALID,
            NabdError::SizeMismatch => NABD_SIZE_MISMATCH,
            NabdError::MessageTooLarge => NABD_MESSAGE_TOO_LARGE,
            NabdError::BufferTooSmall => NABD_BUFFER_TOO_SMALL,
        }
    }
}

} // verus!
