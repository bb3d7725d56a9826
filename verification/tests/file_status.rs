use luna::file_status::FileStatus;
use std::hash::Hasher;

#[test]
fn file_status_changes() {
    let before = FileStatus::from_metadata(1_700_000_000, 5, 120);
    let again = FileStatus::from_metadata(1_700_000_000, 5, 120);
    assert_eq!(before, again);
    assert_ne!(before, FileStatus::from_metadata(1_700_000_000, 5, 121));
    assert_ne!(before, FileStatus::from_metadata(1_700_000_001, 5, 120));
    assert_ne!(before, FileStatus::from_metadata(1_700_000_000, 6, 120));
}

#[test]
fn status_is_the_default_hash_of_the_little_endian_fields() {
    let mut h = std::collections::hash_map::DefaultHasher::new();
    h.write(&(-3i64).to_le_bytes());
    h.write(&7u32.to_le_bytes());
    h.write(&9u64.to_le_bytes());
    assert_eq!(FileStatus::from_metadata(-3, 7, 9), FileStatus(h.finish()));
}
