use mm3u::status::Status;
use mm3u::status::StatusError;

#[test]
fn test_status() {
    // A store with no backing file yet is uninitialized.
    let mut ss = Status::new(Vec::new());
    assert_eq!(ss.is_init(), false);
    ss.set_page(1024, 1024 * 10 + 1).expect("Failed to set page");
    ss.update(2, 3).expect("Failed to update");

    // The backing image holds the header plus 11 four-byte slots.
    let file_content = ss.bytes();
    assert_eq!(file_content.len(), 8 * 2 + 11 * 4);

    // Reopening the written image sees the same state.
    let mut ss = Status::new(file_content);
    assert_eq!(ss.is_init(), true);
    let res = ss.find_crc32();
    assert_eq!(res[2], 3);
    ss.update(3, 3).expect("update 3 failed");
}

#[test]
fn crash_consistency_after_update() {
    // Reopening the image right after an update (as a crash would) observes
    // the updated slot and nothing else changed.
    let mut ss = Status::new(Vec::new());
    ss.set_page(1024, 5000).expect("set_page");
    ss.update(4, 0xdead_beef).expect("update");
    let reopened = Status::new(ss.bytes());
    assert_eq!(reopened.is_init(), true);
    assert_eq!(reopened.get_size(), 1024);
    let slots = reopened.find_crc32();
    assert_eq!(slots.len(), 5);
    assert_eq!(slots[4], 0xdead_beef);
    for i in 0..4 {
        assert_eq!(slots[i], 0);
    }
}

#[test]
fn update_is_idempotent() {
    let mut ss = Status::new(Vec::new());
    ss.set_page(1024, 10241).expect("set_page");
    ss.update(2, 7).expect("first update");
    let once = ss.bytes();
    let once_slots = ss.find_crc32();
    ss.update(2, 7).expect("second update");
    assert_eq!(ss.bytes(), once);
    assert_eq!(ss.find_crc32(), once_slots);
}

#[test]
fn update_rejects_uninitialized_store() {
    let mut ss = Status::new(Vec::new());
    assert_eq!(ss.update(0, 1), Err(StatusError::Uninitialized));
}

#[test]
fn update_rejects_out_of_range_index() {
    let mut ss = Status::new(Vec::new());
    ss.set_page(1024, 10241).expect("set_page");
    assert_eq!(ss.update(11, 1), Err(StatusError::OutOfRange));
    assert_eq!(ss.update(10, 1), Ok(()));
}

#[test]
fn short_or_inconsistent_image_opens_uninitialized() {
    // Shorter than the header.
    let ss = Status::new(vec![0u8; 16]);
    assert_eq!(ss.is_init(), false);
    assert_eq!(ss.find_crc32().len(), 0);

    // A truncated table disagrees with the stored page count.
    let mut good = Status::new(Vec::new());
    good.set_page(1024, 10241).expect("set_page");
    let mut image = good.bytes();
    image.truncate(image.len() - 3);
    let ss = Status::new(image);
    assert_eq!(ss.is_init(), false);
    assert_eq!(ss.get_size(), 0);
    assert_eq!(ss.find_crc32().len(), 0);
}

#[test]
fn reinitializing_discards_recorded_checksums() {
    let mut ss = Status::new(Vec::new());
    ss.set_page(1024, 10241).expect("set_page");
    ss.update(2, 3).expect("update");
    ss.set_page(1024, 10241).expect("set_page again");
    let slots = ss.find_crc32();
    assert_eq!(slots.len(), 11);
    assert!(slots.iter().all(|c| *c == 0));
}
