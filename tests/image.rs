use nabd::layout::{checked_image_len, HEADER_LEN, WORD_LEN};
use nabd::segment::{check_image, create_image, image_count, pop_image, push_image};
use nabd::{NabdError, Ring};

fn word_at(b: &[u8], at: usize) -> u64 {
    let mut w = [0u8; 8];
    w.copy_from_slice(&b[at..at + 8]);
    u64::from_le_bytes(w)
}

#[test]
fn fresh_image_layout() {
    let b = create_image(3, 5).unwrap();
    assert_eq!(b.len(), HEADER_LEN + 3 * (WORD_LEN + 5));
    assert_eq!(b.len(), 87);
    assert_eq!(word_at(&b, 0), 3);
    assert_eq!(word_at(&b, 8), 5);
    assert_eq!(word_at(&b, 16), 0);
    assert_eq!(word_at(&b, 24), 0);
    assert_eq!(word_at(&b, 32), 0);
    assert_eq!(word_at(&b, 40), 0);
    assert!(b[HEADER_LEN..].iter().all(|x| *x == 0));
}

#[test]
fn image_len_values() {
    assert_eq!(checked_image_len(16, 64), Some(48 + 16 * 72));
    assert_eq!(checked_image_len(0, 64), Some(48));
    assert_eq!(checked_image_len(usize::MAX, 1), None);
    assert_eq!(checked_image_len(2, usize::MAX), None);
}

#[test]
fn create_image_refuses_bad_sizes() {
    assert_eq!(create_image(0, 4), Err(NabdError::OpenFailed));
    assert_eq!(create_image(4, 0), Err(NabdError::OpenFailed));
    assert_eq!(create_image(usize::MAX, 8), Err(NabdError::OpenFailed));
}

#[test]
fn push_writes_slot_bytes() {
    let mut b = create_image(2, 4).unwrap();
    assert_eq!(push_image(&mut b, b"hi"), Ok(()));
    // slot 0 starts right after the header: length word, then payload
    assert_eq!(word_at(&b, HEADER_LEN), 2);
    assert_eq!(&b[HEADER_LEN + 8..HEADER_LEN + 10], b"hi");
    assert_eq!(word_at(&b, 24), 1);
    assert_eq!(word_at(&b, 32), 1);
    assert_eq!(image_count(&b), Ok(1));
}

#[test]
fn image_fifo_and_wraparound() {
    let mut b = create_image(2, 8).unwrap();
    assert_eq!(push_image(&mut b, b"a"), Ok(()));
    assert_eq!(push_image(&mut b, b"b"), Ok(()));
    assert_eq!(push_image(&mut b, b"c"), Err(NabdError::Full));
    assert_eq!(pop_image(&mut b, 8), Ok(b"a".to_vec()));
    assert_eq!(push_image(&mut b, b"c"), Ok(()));
    assert_eq!(pop_image(&mut b, 8), Ok(b"b".to_vec()));
    assert_eq!(pop_image(&mut b, 8), Ok(b"c".to_vec()));
    assert_eq!(pop_image(&mut b, 8), Err(NabdError::Empty));
    assert_eq!(image_count(&b), Ok(0));
}

#[test]
fn image_errors_leave_bytes() {
    let mut b = create_image(1, 3).unwrap();
    let before = b.clone();
    assert_eq!(push_image(&mut b, b"long"), Err(NabdError::MessageTooLarge));
    assert_eq!(b, before);
    assert_eq!(pop_image(&mut b, 3), Err(NabdError::Empty));
    assert_eq!(b, before);
    push_image(&mut b, b"abc").unwrap();
    let full = b.clone();
    assert_eq!(pop_image(&mut b, 2), Err(NabdError::BufferTooSmall));
    assert_eq!(b, full);
    assert_eq!(pop_image(&mut b, 3), Ok(b"abc".to_vec()));
}

#[test]
fn attach_checks() {
    let b = create_image(4, 16).unwrap();
    assert_eq!(check_image(&b, 4, 16), Ok(()));
    assert_eq!(check_image(&b, 5, 16), Err(NabdError::SizeMismatch));
    assert_eq!(check_image(&b, 4, 15), Err(NabdError::SizeMismatch));
    assert_eq!(check_image(&b[..b.len() - 1], 4, 16), Err(NabdError::OpenFailed));
    assert_eq!(check_image(&[], 4, 16), Err(NabdError::OpenFailed));
}

#[test]
fn corrupt_images_are_refused() {
    let good = create_image(2, 4).unwrap();
    let mut bad_head = good.clone();
    bad_head[16] = 2;
    assert_eq!(Ring::decode(&bad_head).err(), Some(NabdError::OpenFailed));
    let mut bad_tail = good.clone();
    bad_tail[24] = 1;
    assert_eq!(Ring::decode(&bad_tail).err(), Some(NabdError::OpenFailed));
    let mut bad_len = good.clone();
    bad_len[HEADER_LEN] = 5;
    assert_eq!(Ring::decode(&bad_len).err(), Some(NabdError::OpenFailed));
    let mut mut_push = bad_len.clone();
    assert_eq!(push_image(&mut mut_push, b"x"), Err(NabdError::OpenFailed));
    assert_eq!(mut_push, bad_len);
    assert!(Ring::decode(&good).is_ok());
}

#[test]
fn encode_decode_round_trip() {
    let mut r = Ring::new(3, 4);
    r.push(b"one").unwrap();
    r.push(b"").unwrap();
    r.pop(4).unwrap();
    r.push(b"four").unwrap();
    r.push(b"xy").unwrap();
    let img = r.encode();
    let mut back = Ring::decode(&img).unwrap();
    assert_eq!(back.count(), 3);
    assert_eq!(back.pop(4), Ok(Vec::new()));
    assert_eq!(back.pop(4), Ok(b"four".to_vec()));
    assert_eq!(back.pop(4), Ok(b"xy".to_vec()));
    assert_eq!(back.encode().len(), img.len());
}
