//! A named, capacity-bounded message queue. Byte messages are pushed at the
//! tail of a ring of fixed-size slots and popped from its head; named
//! segments are created, attached to and unlinked in a namespace, and every
//! handle opened on a name works on that name's one queue.

pub mod layout;
pub mod name;
pub mod registry;
pub mod ring;
pub mod segment;
pub mod status;

pub use registry::{Nabd, Namespace, POP_BUFFER_LEN};
pub use ring::Ring;
pub use status::{
    NabdError, NABD_BUFFER_TOO_SMALL, NABD_CONSUMER, NABD_CREATE, NABD_EMPTY, NABD_FULL,
    NABD_MESSAGE_TOO_LARGE, NABD_NAME_INVALID, NABD_OK, NABD_OPEN_FAILED, NABD_PRODUCER,
    NABD_SIZE_MISMATCH,
};
