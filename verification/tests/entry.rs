use seamless::entry::{gather_frames, make_entries, Entry};
use seamless::error::LoopError;

#[test]
fn test_wait_after_fulfill_returns_immediately() {
    // Readiness signaled before the wait begins: the wait must return at
    // once with the fully written buffer.
    let entry = Entry::default();
    entry.fulfill(vec![1, 2, 3]);
    let data = entry.wait_ready().get_data();
    assert_eq!(data, Some(vec![1, 2, 3]));
}

#[test]
fn test_get_data_before_load_is_none() {
    let entry = Entry::default();
    assert_eq!(entry.get_data(), None);
}

#[test]
fn test_fulfill_overwrites_buffer() {
    let entry = Entry::default();
    entry.fulfill(vec![1]);
    entry.fulfill(vec![2]);
    assert_eq!(entry.get_data(), Some(vec![2]));
}

#[test]
fn test_concurrent_wait_sees_buffer() {
    // One thread signals readiness while another blocks on it: whichever
    // runs first, the waiter must wake and observe the whole buffer.
    let entry = Entry::default();
    let (_, data) = rayon::join(
        || entry.fulfill(vec![7, 8, 9]),
        || entry.wait_ready().get_data(),
    );
    assert_eq!(data, Some(vec![7, 8, 9]));
}

#[test]
fn test_load_missing_file_is_decode_error() {
    let paths = vec![b"no_such_frame_anywhere.png".to_vec()];
    let entries = make_entries(&paths);
    assert_eq!(entries[0].load(), Err(LoopError::DecodeError));
}

#[test]
fn test_make_entries_keeps_paths_in_order() {
    let paths = vec![b"a.png".to_vec(), b"b.png".to_vec()];
    let entries = make_entries(&paths);
    assert_eq!(entries.len(), 2);
    assert_eq!(entries[0].path, b"a.png".to_vec());
    assert_eq!(entries[1].path, b"b.png".to_vec());
}

#[test]
fn test_default_entry_is_empty() {
    let entry = Entry::default();
    assert!(entry.path.is_empty());
    assert_eq!(entry.get_data(), None);
}

#[test]
fn test_gather_frames_collects_in_order() {
    let paths = vec![b"a.png".to_vec(), b"b.png".to_vec()];
    let entries = make_entries(&paths);
    entries[0].fulfill(vec![1, 1]);
    entries[1].fulfill(vec![2, 2]);
    let frames = gather_frames(&entries).unwrap();
    assert_eq!(frames, vec![vec![1, 1], vec![2, 2]]);
}
