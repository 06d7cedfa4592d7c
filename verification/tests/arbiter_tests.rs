//! Tests for the buffer arbiter.

use patmatch::arbiter::{Arbiter, ReleaseError};

#[test]
fn allocate_gives_zeroed_buffer_of_exact_size() {
    let mut a = Arbiter::new();
    let h = a.allocate(5);
    let buf = a.buffer(h).unwrap();
    assert_eq!(buf, &vec![0u8; 5]);
}

#[test]
fn release_with_original_size_succeeds() {
    let mut a = Arbiter::new();
    let h = a.allocate(16);
    assert_eq!(a.deallocate(h, 16), Ok(()));
    assert!(a.buffer(h).is_none());
}

#[test]
fn release_with_wrong_size_is_rejected() {
    let mut a = Arbiter::new();
    let h = a.allocate(16);
    assert_eq!(a.deallocate(h, 15), Err(ReleaseError::SizeMismatch));
    // The buffer is still live and can be released correctly afterwards.
    assert_eq!(a.deallocate(h, 16), Ok(()));
}

#[test]
fn double_release_is_rejected() {
    let mut a = Arbiter::new();
    let h = a.allocate(8);
    assert_eq!(a.deallocate(h, 8), Ok(()));
    assert_eq!(a.deallocate(h, 8), Err(ReleaseError::UnknownHandle));
}

#[test]
fn unknown_handle_is_rejected() {
    let mut a = Arbiter::new();
    assert_eq!(a.deallocate(3, 8), Err(ReleaseError::UnknownHandle));
}

#[test]
fn acquire_release_cycles_do_not_grow_the_table() {
    let mut a = Arbiter::new();
    let first = a.allocate(32);
    assert_eq!(a.deallocate(first, 32), Ok(()));
    for _ in 0..100 {
        let h = a.allocate(32);
        assert_eq!(h, first, "a released slot must be reused");
        assert_eq!(a.deallocate(h, 32), Ok(()));
    }
}

#[test]
fn lowest_free_slot_is_reused() {
    let mut a = Arbiter::new();
    let h0 = a.allocate(1);
    let h1 = a.allocate(2);
    let h2 = a.allocate(3);
    assert_eq!((h0, h1, h2), (0, 1, 2));
    assert_eq!(a.deallocate(h1, 2), Ok(()));
    assert_eq!(a.allocate(9), h1);
    assert_eq!(a.deallocate(h0, 1), Ok(()));
    assert_eq!(a.deallocate(h1, 9), Ok(()));
    assert_eq!(a.deallocate(h2, 3), Ok(()));
}

#[test]
fn store_stages_bytes_of_matching_length() {
    let mut a = Arbiter::new();
    let h = a.allocate(3);
    assert_eq!(a.store(h, vec![9, 8, 7]), Ok(()));
    assert_eq!(a.buffer(h).unwrap(), &vec![9, 8, 7]);
    // A length change would corrupt the release bookkeeping; it is rejected.
    assert_eq!(a.store(h, vec![1]), Err(ReleaseError::SizeMismatch));
    assert_eq!(a.deallocate(h, 3), Ok(()));
}

#[test]
fn store_to_dead_handle_is_rejected() {
    let mut a = Arbiter::new();
    let h = a.allocate(2);
    assert_eq!(a.deallocate(h, 2), Ok(()));
    assert_eq!(a.store(h, vec![0, 0]), Err(ReleaseError::UnknownHandle));
}
