use nabd::name::is_valid_name;
use nabd::{
    Nabd, NabdError, Namespace, Ring, NABD_CONSUMER, NABD_CREATE, NABD_EMPTY, NABD_FULL, NABD_OK,
    NABD_PRODUCER, POP_BUFFER_LEN,
};

#[test]
fn test_flow() {
    let mut ns = Namespace::new();
    let name = "/rust_test";
    let _ = Nabd::unlink(&mut ns, name);

    {
        let q = Nabd::open(&mut ns, name, 16, 64, NABD_CREATE | NABD_PRODUCER | NABD_CONSUMER).unwrap();
        let msg = b"Hello Rust";
        q.push(&mut ns, msg).unwrap();

        let popped = q.pop(&mut ns).unwrap();
        assert_eq!(popped, msg);
    }

    let _ = Nabd::unlink(&mut ns, name);
}

#[test]
fn hello_then_empty() {
    let mut ns = Namespace::new();
    let q = Nabd::open(&mut ns, "/test", 16, 64, NABD_CREATE).unwrap();
    assert_eq!(q.push(&mut ns, b"Hello"), Ok(()));
    let m = q.pop(&mut ns).unwrap();
    assert_eq!(m, b"Hello".to_vec());
    assert_eq!(m.len(), 5);
    assert_eq!(q.pop(&mut ns), Err(NabdError::Empty));
}

#[test]
fn full_then_wraparound() {
    let mut ns = Namespace::new();
    let q = Nabd::open(&mut ns, "/small", 2, 8, NABD_CREATE).unwrap();
    assert_eq!(q.push(&mut ns, b"a"), Ok(()));
    assert_eq!(q.push(&mut ns, b"b"), Ok(()));
    assert_eq!(q.push(&mut ns, b"c"), Err(NabdError::Full));
    assert_eq!(q.pop(&mut ns), Ok(b"a".to_vec()));
    assert_eq!(q.push(&mut ns, b"c"), Ok(()));
    assert_eq!(q.pop(&mut ns), Ok(b"b".to_vec()));
    assert_eq!(q.pop(&mut ns), Ok(b"c".to_vec()));
    assert_eq!(q.pop(&mut ns), Err(NabdError::Empty));
}

#[test]
fn fifo_order_up_to_capacity() {
    let mut ns = Namespace::new();
    let q = Nabd::open(&mut ns, "/fifo", 5, 4, NABD_CREATE).unwrap();
    let msgs: Vec<Vec<u8>> = vec![vec![1], vec![], vec![2, 3], vec![4, 5, 6, 7], vec![8]];
    for m in &msgs {
        assert_eq!(q.push(&mut ns, m), Ok(()));
    }
    assert_eq!(q.count(&ns), 5);
    for m in &msgs {
        assert_eq!(q.pop(&mut ns), Ok(m.clone()));
    }
    assert_eq!(q.count(&ns), 0);
}

#[test]
fn fifo_across_many_wraps() {
    let mut r = Ring::new(3, 2);
    let mut next_in: u8 = 0;
    let mut next_out: u8 = 0;
    for round in 0..20u8 {
        let n = (round % 3) + 1;
        for _ in 0..n {
            if r.push(&[next_in, next_in]).is_ok() {
                next_in += 1;
            }
        }
        for _ in 0..n {
            if let Ok(m) = r.pop(2) {
                assert_eq!(m, vec![next_out, next_out]);
                next_out += 1;
            }
        }
    }
    assert!(next_out > 10);
}

#[test]
fn push_on_full_keeps_count() {
    let mut ns = Namespace::new();
    let q = Nabd::open(&mut ns, "/full", 1, 4, NABD_CREATE).unwrap();
    q.push(&mut ns, b"x").unwrap();
    assert_eq!(q.count(&ns), 1);
    assert_eq!(q.push(&mut ns, b"y"), Err(NabdError::Full));
    assert_eq!(q.count(&ns), 1);
    assert_eq!(q.pop(&mut ns), Ok(b"x".to_vec()));
}

#[test]
fn pop_on_empty_keeps_count() {
    let mut ns = Namespace::new();
    let q = Nabd::open(&mut ns, "/empty", 4, 4, NABD_CREATE).unwrap();
    assert_eq!(q.count(&ns), 0);
    assert_eq!(q.pop(&mut ns), Err(NabdError::Empty));
    assert_eq!(q.count(&ns), 0);
}

#[test]
fn unlink_then_create_is_empty() {
    let mut ns = Namespace::new();
    let q = Nabd::open(&mut ns, "/reborn", 4, 8, NABD_CREATE).unwrap();
    q.push(&mut ns, b"old").unwrap();
    assert_eq!(Nabd::unlink(&mut ns, "/reborn"), Ok(()));
    let fresh = Nabd::open(&mut ns, "/reborn", 4, 8, NABD_CREATE).unwrap();
    assert_eq!(fresh.count(&ns), 0);
    assert_eq!(fresh.pop(&mut ns), Err(NabdError::Empty));
    // The handle opened before the unlink still maps the old queue.
    assert_eq!(q.pop(&mut ns), Ok(b"old".to_vec()));
}

#[test]
fn unlink_then_attach_fails() {
    let mut ns = Namespace::new();
    let _q = Nabd::open(&mut ns, "/gone", 4, 8, NABD_CREATE).unwrap();
    assert_eq!(Nabd::unlink(&mut ns, "/gone"), Ok(()));
    assert_eq!(Nabd::open(&mut ns, "/gone", 4, 8, NABD_CONSUMER).err(), Some(NabdError::OpenFailed));
    assert_eq!(Nabd::unlink(&mut ns, "/gone"), Err(NabdError::OpenFailed));
}

#[test]
fn two_handles_share_one_queue() {
    let mut ns = Namespace::new();
    let a = Nabd::open(&mut ns, "/shared", 8, 16, NABD_CREATE | NABD_PRODUCER).unwrap();
    let b = Nabd::open(&mut ns, "/shared", 8, 16, NABD_CONSUMER).unwrap();
    a.push(&mut ns, b"ping").unwrap();
    assert_eq!(b.count(&ns), 1);
    assert_eq!(b.pop(&mut ns), Ok(b"ping".to_vec()));
    assert_eq!(a.pop(&mut ns), Err(NabdError::Empty));
    assert_eq!(a.flags(), NABD_CREATE | NABD_PRODUCER);
    assert_eq!(b.flags(), NABD_CONSUMER);
    a.close();
    b.close();
}

#[test]
fn create_on_existing_name_attaches() {
    let mut ns = Namespace::new();
    let a = Nabd::open(&mut ns, "/twice", 4, 8, NABD_CREATE).unwrap();
    a.push(&mut ns, b"kept").unwrap();
    let b = Nabd::open(&mut ns, "/twice", 4, 8, NABD_CREATE).unwrap();
    assert_eq!(b.pop(&mut ns), Ok(b"kept".to_vec()));
}

#[test]
fn round_trip_keeps_bytes() {
    let mut ns = Namespace::new();
    let q = Nabd::open(&mut ns, "/rt", 2, 6, NABD_CREATE).unwrap();
    let m = vec![0u8, 255, 10, 0, 7, 1];
    q.push(&mut ns, &m).unwrap();
    let back = q.pop(&mut ns).unwrap();
    assert_eq!(back, m);
    assert_eq!(back.len(), 6);
    q.push(&mut ns, b"").unwrap();
    assert_eq!(q.pop(&mut ns), Ok(Vec::new()));
}

#[test]
fn size_mismatch_on_attach() {
    let mut ns = Namespace::new();
    let _a = Nabd::open(&mut ns, "/sized", 4, 8, NABD_CREATE).unwrap();
    assert_eq!(Nabd::open(&mut ns, "/sized", 5, 8, 0).err(), Some(NabdError::SizeMismatch));
    assert_eq!(Nabd::open(&mut ns, "/sized", 4, 9, NABD_CREATE).err(), Some(NabdError::SizeMismatch));
    assert!(Nabd::open(&mut ns, "/sized", 4, 8, 0).is_ok());
}

#[test]
fn open_missing_without_create_fails() {
    let mut ns = Namespace::new();
    assert_eq!(Nabd::open(&mut ns, "/missing", 4, 8, NABD_PRODUCER).err(), Some(NabdError::OpenFailed));
}

#[test]
fn open_with_zero_sizes_fails() {
    let mut ns = Namespace::new();
    assert_eq!(Nabd::open(&mut ns, "/zero", 0, 8, NABD_CREATE).err(), Some(NabdError::OpenFailed));
    assert_eq!(Nabd::open(&mut ns, "/zero", 4, 0, NABD_CREATE).err(), Some(NabdError::OpenFailed));
}

#[test]
fn malformed_names_are_refused() {
    let mut ns = Namespace::new();
    for bad in ["", "/", "noslash", "/a/b", "/nul\0", &format!("/{}", "x".repeat(255))] {
        assert_eq!(Nabd::open(&mut ns, bad, 4, 8, NABD_CREATE).err(), Some(NabdError::NameInvalid));
        assert_eq!(Nabd::unlink(&mut ns, bad), Err(NabdError::NameInvalid));
    }
    assert!(Nabd::open(&mut ns, &format!("/{}", "x".repeat(254)), 4, 8, NABD_CREATE).is_ok());
}

#[test]
fn name_rules() {
    assert!(is_valid_name(b"/q"));
    assert!(is_valid_name(b"/rust_test"));
    assert!(!is_valid_name(b"q"));
    assert!(!is_valid_name(b"//"));
    assert!(!is_valid_name(b"/a\0"));
}

#[test]
fn message_too_large_leaves_queue() {
    let mut ns = Namespace::new();
    let q = Nabd::open(&mut ns, "/big", 4, 3, NABD_CREATE).unwrap();
    assert_eq!(q.push(&mut ns, b"abcd"), Err(NabdError::MessageTooLarge));
    assert_eq!(q.count(&ns), 0);
    assert_eq!(q.push(&mut ns, b"abc"), Ok(()));
}

#[test]
fn buffer_too_small_leaves_message() {
    let mut ns = Namespace::new();
    let q = Nabd::open(&mut ns, "/buf", 4, 16, NABD_CREATE).unwrap();
    q.push(&mut ns, b"0123456789").unwrap();
    assert_eq!(q.pop_with_capacity(&mut ns, 9), Err(NabdError::BufferTooSmall));
    assert_eq!(q.count(&ns), 1);
    assert_eq!(q.pop_with_capacity(&mut ns, 10), Ok(b"0123456789".to_vec()));
}

#[test]
fn default_pop_buffer_limit() {
    let mut ns = Namespace::new();
    let q = Nabd::open(&mut ns, "/wide", 2, 5000, NABD_CREATE).unwrap();
    let m = vec![7u8; POP_BUFFER_LEN + 1];
    q.push(&mut ns, &m).unwrap();
    assert_eq!(q.pop(&mut ns), Err(NabdError::BufferTooSmall));
    assert_eq!(q.pop_with_capacity(&mut ns, POP_BUFFER_LEN + 1), Ok(m));
}

#[test]
fn ring_reports_bounds() {
    let r = Ring::new(7, 3);
    assert_eq!(r.capacity(), 7);
    assert_eq!(r.slot_size(), 3);
    assert_eq!(r.count(), 0);
}

#[test]
fn error_codes() {
    assert_eq!(NABD_OK, 0);
    assert_eq!(NabdError::Empty.code(), NABD_EMPTY);
    assert_eq!(NabdError::Full.code(), NABD_FULL);
    assert_eq!(NabdError::OpenFailed.code(), -3);
    assert_eq!(NabdError::NameInvalid.code(), -4);
    assert_eq!(NabdError::SizeMismatch.code(), -5);
    assert_eq!(NabdError::MessageTooLarge.code(), -6);
    assert_eq!(NabdError::BufferTooSmall.code(), -7);
}
