use vuoto::layout::{HEADER_SIZE, RECORD_SIZE, VERSION};
use vuoto::{IndexError, VaultIndex};

const MAGIC: &[u8; 8] = b"VUOTOIDX";

/// Performs the recorded edits on a simulated file.
fn flush(index: &mut VaultIndex, disk: &mut Vec<u8>) {
    for edit in index.take_edits() {
        edit.apply(disk);
    }
}

/// Opens an index on a simulated file, as a fresh process would.
fn open_disk(disk: &mut Vec<u8>) -> VaultIndex {
    let mut index = VaultIndex::open(disk.clone()).unwrap();
    flush(&mut index, disk);
    index
}

fn add(index: &mut VaultIndex, disk: &mut Vec<u8>, name: &str) -> Result<(), IndexError> {
    let r = index.add(name);
    flush(index, disk);
    r
}

fn remove(index: &mut VaultIndex, disk: &mut Vec<u8>, name: &str) -> bool {
    let r = index.remove(name);
    flush(index, disk);
    r
}

fn valid_header() -> Vec<u8> {
    let mut v = MAGIC.to_vec();
    v.extend_from_slice(&VERSION.to_le_bytes());
    v
}

fn has(index: &VaultIndex, name: &str) -> bool {
    index.vaults().contains(&name.to_string())
}

#[test]
fn test_create_new_index() {
    let mut disk = Vec::new();
    let index = open_disk(&mut disk);

    assert_eq!(index.vaults().len(), 0);
    assert_eq!(disk.len(), HEADER_SIZE);
    assert_eq!(index.contents(), disk.as_slice());
}

#[test]
fn test_open_existing_valid_index() {
    let mut disk = Vec::new();
    {
        let mut index = open_disk(&mut disk);
        add(&mut index, &mut disk, "test_vault").unwrap();
        assert_eq!(index.vaults().len(), 1);
    }

    let index = open_disk(&mut disk);
    assert_eq!(index.vaults().len(), 1);
    assert_eq!(index.vaults()[0], "test_vault");
}

#[test]
fn test_add_vault_basic() {
    let mut disk = Vec::new();
    let mut index = open_disk(&mut disk);

    add(&mut index, &mut disk, "vault1").unwrap();
    assert_eq!(index.vaults().len(), 1);
    assert_eq!(index.vaults()[0], "vault1");

    add(&mut index, &mut disk, "vault2").unwrap();
    assert_eq!(index.vaults().len(), 2);
    assert!(has(&index, "vault1"));
    assert!(has(&index, "vault2"));
}

#[test]
fn test_add_duplicate_vault() {
    let mut disk = Vec::new();
    let mut index = open_disk(&mut disk);

    add(&mut index, &mut disk, "vault1").unwrap();
    add(&mut index, &mut disk, "vault1").unwrap();

    assert_eq!(index.vaults().len(), 1);
    assert_eq!(index.vaults()[0], "vault1");
}

#[test]
fn test_add_empty_name() {
    let mut disk = Vec::new();
    let mut index = open_disk(&mut disk);

    let result = add(&mut index, &mut disk, "");
    assert!(result.is_err());
    assert_eq!(index.vaults().len(), 0);
}

#[test]
fn test_add_name_too_long() {
    let mut disk = Vec::new();
    let mut index = open_disk(&mut disk);

    let long_name = "a".repeat(RECORD_SIZE + 1);
    let result = add(&mut index, &mut disk, &long_name);
    assert!(result.is_err());
    assert_eq!(index.vaults().len(), 0);
}

#[test]
fn test_add_name_max_length() {
    let mut disk = Vec::new();
    let mut index = open_disk(&mut disk);

    let max_name = "a".repeat(RECORD_SIZE);
    add(&mut index, &mut disk, &max_name).unwrap();
    assert_eq!(index.vaults().len(), 1);
    assert_eq!(index.vaults()[0], max_name);
}

#[test]
fn test_add_name_with_null_byte() {
    let mut disk = Vec::new();
    let mut index = open_disk(&mut disk);

    let result = add(&mut index, &mut disk, "vault\0name");
    assert!(result.is_err());
    assert_eq!(index.vaults().len(), 0);
}

#[test]
fn test_remove_existing_vault() {
    let mut disk = Vec::new();
    let mut index = open_disk(&mut disk);

    add(&mut index, &mut disk, "vault1").unwrap();
    add(&mut index, &mut disk, "vault2").unwrap();
    assert_eq!(index.vaults().len(), 2);

    let removed = remove(&mut index, &mut disk, "vault1");
    assert!(removed);
    assert_eq!(index.vaults().len(), 1);
    assert_eq!(index.vaults()[0], "vault2");
}

#[test]
fn test_remove_nonexistent_vault() {
    let mut disk = Vec::new();
    let mut index = open_disk(&mut disk);

    add(&mut index, &mut disk, "vault1").unwrap();

    let removed = remove(&mut index, &mut disk, "nonexistent");
    assert!(!removed);
    assert_eq!(index.vaults().len(), 1);
    assert_eq!(index.vaults()[0], "vault1");
}

#[test]
fn test_persistence_after_operations() {
    let mut disk = Vec::new();
    {
        let mut index = open_disk(&mut disk);
        add(&mut index, &mut disk, "vault1").unwrap();
        add(&mut index, &mut disk, "vault2").unwrap();
        add(&mut index, &mut disk, "vault3").unwrap();
        remove(&mut index, &mut disk, "vault2");
    }

    let index = open_disk(&mut disk);
    assert_eq!(index.vaults().len(), 2);
    assert!(has(&index, "vault1"));
    assert!(has(&index, "vault3"));
    assert!(!has(&index, "vault2"));
}

#[test]
fn test_slot_reuse_after_removal() {
    let mut disk = Vec::new();
    let mut index = open_disk(&mut disk);

    add(&mut index, &mut disk, "vault1").unwrap();
    add(&mut index, &mut disk, "vault2").unwrap();
    add(&mut index, &mut disk, "vault3").unwrap();

    remove(&mut index, &mut disk, "vault2");

    add(&mut index, &mut disk, "vault4").unwrap();

    assert_eq!(index.vaults().len(), 3);
    assert!(has(&index, "vault1"));
    assert!(has(&index, "vault3"));
    assert!(has(&index, "vault4"));
    assert!(!has(&index, "vault2"));

    drop(index);
    let index = open_disk(&mut disk);
    assert_eq!(index.vaults().len(), 3);
    assert!(has(&index, "vault1"));
    assert!(has(&index, "vault3"));
    assert!(has(&index, "vault4"));
}

#[test]
fn test_unicode_vault_names() {
    let mut disk = Vec::new();
    let mut index = open_disk(&mut disk);

    let unicode_names = vec!["café", "数据库", "🔐vault"];

    for name in &unicode_names {
        if name.as_bytes().len() <= RECORD_SIZE {
            add(&mut index, &mut disk, name).unwrap();
        }
    }

    drop(index);
    let index = open_disk(&mut disk);

    for name in &unicode_names {
        if name.as_bytes().len() <= RECORD_SIZE {
            assert!(has(&index, name));
        }
    }
}

#[test]
fn test_many_operations() {
    let mut disk = Vec::new();
    let mut index = open_disk(&mut disk);

    for i in 0..100 {
        add(&mut index, &mut disk, &format!("vault_{:03}", i)).unwrap();
    }
    assert_eq!(index.vaults().len(), 100);

    for i in (0..100).step_by(2) {
        remove(&mut index, &mut disk, &format!("vault_{:03}", i));
    }
    assert_eq!(index.vaults().len(), 50);

    for i in 0..10 {
        add(&mut index, &mut disk, &format!("new_vault_{}", i)).unwrap();
    }
    assert_eq!(index.vaults().len(), 60);

    drop(index);
    let index = open_disk(&mut disk);
    assert_eq!(index.vaults().len(), 60);
}

#[test]
fn test_invalid_header_magic() {
    let mut disk = b"INVALID!".to_vec();
    disk.extend_from_slice(&VERSION.to_le_bytes());

    let index = open_disk(&mut disk);
    assert_eq!(index.vaults().len(), 0);

    let header = &disk[..HEADER_SIZE];
    let (magic_bytes, version_bytes) = header.split_at(MAGIC.len());
    assert_eq!(magic_bytes, MAGIC);
    let version = u32::from_le_bytes([
        version_bytes[0],
        version_bytes[1],
        version_bytes[2],
        version_bytes[3],
    ]);
    assert_eq!(version, VERSION);
}

#[test]
fn test_invalid_header_version() {
    let mut disk = MAGIC.to_vec();
    disk.extend_from_slice(&999u32.to_le_bytes());

    let index = open_disk(&mut disk);
    assert_eq!(index.vaults().len(), 0);
}

#[test]
fn test_partial_record_at_end() {
    let mut disk = Vec::new();
    let mut index = open_disk(&mut disk);
    add(&mut index, &mut disk, "test").unwrap();
    drop(index);

    disk.extend_from_slice(&[1, 2, 3, 4, 5]);

    let index = open_disk(&mut disk);
    assert_eq!(index.vaults().len(), 1);
    assert_eq!(index.vaults()[0], "test");
}

#[test]
fn test_calculate_offset_for_slot() {
    assert_eq!(VaultIndex::calculate_offset_for_slot(0), HEADER_SIZE as u64);
    assert_eq!(
        VaultIndex::calculate_offset_for_slot(1),
        HEADER_SIZE as u64 + RECORD_SIZE as u64
    );
    assert_eq!(
        VaultIndex::calculate_offset_for_slot(5),
        HEADER_SIZE as u64 + 5 * RECORD_SIZE as u64
    );
}

#[test]
fn test_empty_file() {
    let mut disk = Vec::new();
    let index = open_disk(&mut disk);
    assert_eq!(index.vaults().len(), 0);
}

#[test]
fn test_file_with_only_header() {
    let mut disk = valid_header();
    let index = open_disk(&mut disk);
    assert_eq!(index.vaults().len(), 0);
}

#[test]
fn test_add_and_remove_same_name_multiple_times() {
    let mut disk = Vec::new();
    let mut index = open_disk(&mut disk);

    for _ in 0..5 {
        add(&mut index, &mut disk, "test_vault").unwrap();
        assert_eq!(index.vaults().len(), 1);

        let removed = remove(&mut index, &mut disk, "test_vault");
        assert!(removed);
        assert_eq!(index.vaults().len(), 0);
    }
}
