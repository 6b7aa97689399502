use storage_adapter::errors::Error;
use storage_adapter::contents::Contents;
use storage_adapter::store::MemoryStore;
use storage_adapter::visibility::Visibility;

#[test]
fn write_then_read_round_trip() {
    let mut store = MemoryStore::new();
    let payload = vec![1u8, 2, 3, 250];
    store.write(b"dir/file", Contents::from_vec(payload.clone())).unwrap();
    let back = store.read(b"dir/file").unwrap();
    assert_eq!(back.into_vec(), payload);
}

#[test]
fn overwrite_is_last_write_wins() {
    let mut store = MemoryStore::new();
    store.write(b"k", Contents::from_vec(vec![1])).unwrap();
    store.write(b"k", Contents::from_vec(vec![2, 3])).unwrap();
    assert_eq!(store.read(b"k").unwrap().into_vec(), vec![2, 3]);
}

#[test]
fn exists_after_write_and_not_after_delete() {
    let mut store = MemoryStore::new();
    assert_eq!(store.file_exists(b"p").unwrap(), false);
    store.write(b"p", Contents::from_vec(vec![9])).unwrap();
    assert_eq!(store.file_exists(b"p").unwrap(), true);
    store.delete(b"p").unwrap();
    assert_eq!(store.file_exists(b"p").unwrap(), false);
}

#[test]
fn delete_of_absent_path_succeeds() {
    let mut store = MemoryStore::new();
    assert!(store.delete(b"never/written").is_ok());
    assert_eq!(store.file_exists(b"never/written").unwrap(), false);
}

#[test]
fn read_of_absent_path_is_not_found() {
    let mut store = MemoryStore::new();
    assert!(matches!(store.read(b"missing"), Err(Error::NotFound)));
}

#[test]
fn listing_depth_shallow_and_deep() {
    let mut store = MemoryStore::new();
    store.write(b"a/b", Contents::from_vec(vec![1])).unwrap();
    store.write(b"a/c", Contents::from_vec(vec![2])).unwrap();
    store.write(b"a/d/e", Contents::from_vec(vec![3])).unwrap();
    let shallow = store.list_contents(b"a", false).unwrap();
    assert_eq!(shallow, vec![b"a/b".to_vec(), b"a/c".to_vec(), b"a/d".to_vec()]);
    let deep = store.list_contents(b"a", true).unwrap();
    assert_eq!(deep, vec![b"a/b".to_vec(), b"a/c".to_vec(), b"a/d/e".to_vec()]);
}

#[test]
fn listing_of_unmatched_prefix_is_empty() {
    let mut store = MemoryStore::new();
    store.write(b"a/b", Contents::from_vec(vec![1])).unwrap();
    assert_eq!(store.list_contents(b"zzz", false).unwrap(), Vec::<Vec<u8>>::new());
    assert_eq!(store.list_contents(b"zzz", true).unwrap(), Vec::<Vec<u8>>::new());
}

#[test]
fn listing_at_root_uses_empty_prefix() {
    let mut store = MemoryStore::new();
    store.write(b"a/b", Contents::from_vec(vec![1])).unwrap();
    store.write(b"c", Contents::from_vec(vec![2])).unwrap();
    let shallow = store.list_contents(b"", false).unwrap();
    assert_eq!(shallow, vec![b"a".to_vec(), b"c".to_vec()]);
}

#[test]
fn invalid_path_is_rejected_before_any_backend_call() {
    let mut store = MemoryStore::new();
    let bad = [0xffu8, 0xfe, b'x'];
    let calls_before = store.calls_served();
    assert!(matches!(store.write(&bad, Contents::from_vec(vec![1])), Err(Error::InvalidPath)));
    assert!(matches!(store.read(&bad), Err(Error::InvalidPath)));
    assert!(matches!(store.delete(&bad), Err(Error::InvalidPath)));
    assert!(matches!(store.file_exists(&bad), Err(Error::InvalidPath)));
    assert!(matches!(store.list_contents(&bad, true), Err(Error::InvalidPath)));
    assert!(matches!(store.directory_exists(&bad), Err(Error::InvalidPath)));
    assert_eq!(store.calls_served(), calls_before);
    store.write(b"fine", Contents::from_vec(vec![1])).unwrap();
    assert_eq!(store.calls_served(), calls_before + 1);
}

#[test]
fn copy_preserves_source() {
    let mut store = MemoryStore::new();
    let payload = vec![7u8, 8, 9];
    store.write(b"src", Contents::from_vec(payload.clone())).unwrap();
    store.copy(b"src", b"dst").unwrap();
    assert_eq!(store.read(b"src").unwrap().into_vec(), payload);
    assert_eq!(store.read(b"dst").unwrap().into_vec(), payload);
}

#[test]
fn copy_of_absent_source_is_not_found() {
    let mut store = MemoryStore::new();
    assert!(matches!(store.copy(b"nowhere", b"dst"), Err(Error::NotFound)));
}

#[test]
fn rename_moves_the_object() {
    let mut store = MemoryStore::new();
    let payload = vec![4u8, 5];
    store.write(b"from", Contents::from_vec(payload.clone())).unwrap();
    store.rename(b"from", b"to").unwrap();
    assert_eq!(store.file_exists(b"from").unwrap(), false);
    assert_eq!(store.read(b"to").unwrap().into_vec(), payload);
}

#[test]
fn rename_onto_itself_changes_nothing() {
    let mut store = MemoryStore::new();
    store.write(b"self", Contents::from_vec(vec![1])).unwrap();
    store.rename(b"self", b"self").unwrap();
    assert_eq!(store.read(b"self").unwrap().into_vec(), vec![1]);
}

#[test]
fn rename_of_absent_source_is_not_found() {
    let mut store = MemoryStore::new();
    assert!(matches!(store.rename(b"ghost", b"dst"), Err(Error::NotFound)));
}

#[test]
fn directory_exists_tracks_prefixes() {
    let mut store = MemoryStore::new();
    store.write(b"a/d/e", Contents::from_vec(vec![1])).unwrap();
    assert_eq!(store.directory_exists(b"a").unwrap(), true);
    assert_eq!(store.directory_exists(b"a/d").unwrap(), true);
    assert_eq!(store.directory_exists(b"b").unwrap(), false);
    assert_eq!(store.directory_exists(b"a/d/e").unwrap(), false);
}

#[test]
fn create_directory_succeeds_and_changes_nothing() {
    let mut store = MemoryStore::new();
    store.create_directory(b"made").unwrap();
    assert_eq!(store.directory_exists(b"made").unwrap(), false);
    assert_eq!(store.list_contents(b"", true).unwrap(), Vec::<Vec<u8>>::new());
}

#[test]
fn delete_directory_removes_everything_below() {
    let mut store = MemoryStore::new();
    store.write(b"a/b", Contents::from_vec(vec![1])).unwrap();
    store.write(b"a/d/e", Contents::from_vec(vec![2])).unwrap();
    store.write(b"x", Contents::from_vec(vec![3])).unwrap();
    store.delete_directory(b"a").unwrap();
    assert_eq!(store.file_exists(b"a/b").unwrap(), false);
    assert_eq!(store.file_exists(b"a/d/e").unwrap(), false);
    assert_eq!(store.file_exists(b"x").unwrap(), true);
}

#[test]
fn delete_directory_of_absent_prefix_succeeds() {
    let mut store = MemoryStore::new();
    store.write(b"x", Contents::from_vec(vec![3])).unwrap();
    assert!(store.delete_directory(b"nothing/here").is_ok());
    assert_eq!(store.file_exists(b"x").unwrap(), true);
}

#[test]
fn file_size_reports_stored_length() {
    let mut store = MemoryStore::new();
    store.write(b"sized", Contents::from_vec(vec![0u8; 5])).unwrap();
    assert_eq!(store.file_size(b"sized").unwrap(), 5);
    assert!(matches!(store.file_size(b"missing"), Err(Error::NotFound)));
}

#[test]
fn visibility_defaults_to_private() {
    let mut store = MemoryStore::new();
    assert!(matches!(store.visibility(b"any"), Ok(Visibility::Private)));
    assert!(matches!(
        store.set_visibility(b"any", Visibility::Public),
        Err(Error::UnsupportedOperation)
    ));
}

#[test]
fn unsupported_metadata_is_refused_programmatically() {
    let mut store = MemoryStore::new();
    store.write(b"k", Contents::from_vec(vec![1])).unwrap();
    assert!(matches!(store.mime_type(b"k"), Err(Error::UnsupportedOperation)));
    assert!(matches!(store.last_modified(b"k"), Err(Error::UnsupportedOperation)));
    assert!(matches!(store.checksum(b"k"), Err(Error::UnsupportedOperation)));
    assert!(matches!(store.mime_type(&[0xff]), Err(Error::InvalidPath)));
}
