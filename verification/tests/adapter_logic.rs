use storage_adapter::contents::Contents;
use storage_adapter::errors::Error;
use storage_adapter::paths::validate_path;
use storage_adapter::remote::{
    acl_for_visibility, checksum_from_stat, file_size_from_stat, interpret_copy,
    interpret_delete, interpret_directory_exists, interpret_exists, interpret_list,
    interpret_read, interpret_visibility, interpret_write, last_modified_from_stat,
    mime_type_from_stat, move_proceeds_to_delete, AclKind, AclOutcome, CopyOutcome,
    DeleteOutcome, FetchOutcome, ListOutcome, ObjectStat, PutOutcome, StatOutcome,
};
use storage_adapter::visibility::{Config, Visibility};

fn sample_stat() -> ObjectStat {
    ObjectStat {
        size: 42,
        last_modified: String::from("Fri, 24 Feb 2012 06:07:48 GMT"),
        content_type: String::from("text/plain"),
        etag: String::from("\"5B3C1A2E053D763E1B002CC607C5A0FE\""),
    }
}

#[test]
fn contents_text_round_trip() {
    let c = Contents::from_text("héllo wörld");
    assert_eq!(c.into_text().unwrap(), "héllo wörld");
}

#[test]
fn contents_from_invalid_utf8_fails_decoding() {
    let c = Contents::from_vec(vec![0xff, 0xfe, 0x01]);
    assert!(matches!(c.into_text(), Err(Error::DecodeError)));
}

#[test]
fn contents_byte_round_trip() {
    let data = vec![0u8, 255, 7];
    let c = Contents::from_vec(data.clone());
    assert_eq!(c.len(), 3);
    assert_eq!(c.as_bytes(), &data);
    assert_eq!(c.into_vec(), data);
}

#[test]
fn contents_collects_native_payload() {
    let payload = bytes::Bytes::from(vec![10u8, 20, 30]);
    let c = Contents::from_payload(payload);
    assert_eq!(c.into_vec(), vec![10u8, 20, 30]);
}

#[test]
fn path_validation_accepts_utf8_and_rejects_the_rest() {
    assert_eq!(validate_path(b"some/dir/file.txt").unwrap(), "some/dir/file.txt");
    assert!(matches!(validate_path(&[b'a', 0xc0]), Err(Error::InvalidPath)));
}

#[test]
fn config_requires_every_field() {
    let full = Config {
        bucket: String::from("bucket"),
        endpoint: String::from("https://endpoint.example"),
        access_key: String::from("access"),
        secret_key: String::from("secret"),
    };
    assert!(full.validate());
    let mut missing = full.clone();
    missing.bucket = String::new();
    assert!(!missing.validate());
}

#[test]
fn read_outcomes_map_to_the_error_taxonomy() {
    let got = interpret_read(FetchOutcome::Found(Contents::from_vec(vec![1, 2]))).unwrap();
    assert_eq!(got.into_vec(), vec![1, 2]);
    assert!(matches!(interpret_read(FetchOutcome::Absent), Err(Error::NotFound)));
    let failed = interpret_read(FetchOutcome::Failed(String::from("boom")));
    assert!(matches!(failed, Err(Error::BackendError(m)) if m == "boom"));
}

#[test]
fn existence_never_coerces_failures_to_false() {
    assert_eq!(interpret_exists(&StatOutcome::Found(sample_stat())).unwrap(), true);
    assert_eq!(interpret_exists(&StatOutcome::Absent).unwrap(), false);
    let failed = interpret_exists(&StatOutcome::Failed(String::from("net down")));
    assert!(matches!(failed, Err(Error::BackendError(_))));
}

#[test]
fn write_outcomes_map_to_the_error_taxonomy() {
    assert!(interpret_write(PutOutcome::Done).is_ok());
    let failed = interpret_write(PutOutcome::Failed(String::from("denied")));
    assert!(matches!(failed, Err(Error::BackendError(m)) if m == "denied"));
}

#[test]
fn delete_is_idempotent_for_the_remote_backend() {
    assert!(interpret_delete(DeleteOutcome::Done).is_ok());
    assert!(interpret_delete(DeleteOutcome::Absent).is_ok());
    let failed = interpret_delete(DeleteOutcome::Failed(String::from("denied")));
    assert!(matches!(failed, Err(Error::BackendError(_))));
}

#[test]
fn copy_outcomes_map_to_the_error_taxonomy() {
    assert!(interpret_copy(CopyOutcome::Done).is_ok());
    assert!(matches!(interpret_copy(CopyOutcome::SourceAbsent), Err(Error::NotFound)));
    let failed = interpret_copy(CopyOutcome::Failed(String::from("denied")));
    assert!(matches!(failed, Err(Error::BackendError(_))));
}

#[test]
fn move_only_deletes_after_a_successful_copy() {
    assert!(move_proceeds_to_delete(&Ok(())));
    assert!(!move_proceeds_to_delete(&Err(Error::BackendError(String::from("x")))));
}

#[test]
fn remote_listing_filters_depth() {
    let keys = vec![b"a/b".to_vec(), b"a/c".to_vec(), b"a/d/e".to_vec()];
    let dir = b"a".to_vec();
    let shallow = interpret_list(ListOutcome::Listed(keys.clone()), &dir, false).unwrap();
    assert_eq!(shallow, vec![b"a/b".to_vec(), b"a/c".to_vec(), b"a/d".to_vec()]);
    let deep = interpret_list(ListOutcome::Listed(keys), &dir, true).unwrap();
    assert_eq!(deep, vec![b"a/b".to_vec(), b"a/c".to_vec(), b"a/d/e".to_vec()]);
    let failed = interpret_list(ListOutcome::Failed(String::from("bad xml")), &dir, true);
    assert!(matches!(failed, Err(Error::BackendError(_))));
}

#[test]
fn remote_directory_exists_checks_the_prefix() {
    let dir = b"a".to_vec();
    let keys = vec![b"a/b".to_vec()];
    assert_eq!(interpret_directory_exists(ListOutcome::Listed(keys), &dir).unwrap(), true);
    let other = vec![b"b/c".to_vec()];
    assert_eq!(interpret_directory_exists(ListOutcome::Listed(other), &dir).unwrap(), false);
}

#[test]
fn metadata_accessors_share_one_stat() {
    let found = StatOutcome::Found(sample_stat());
    assert_eq!(file_size_from_stat(&found).unwrap(), 42);
    assert_eq!(last_modified_from_stat(&found).unwrap(), "Fri, 24 Feb 2012 06:07:48 GMT");
    assert_eq!(checksum_from_stat(&found).unwrap(), "\"5B3C1A2E053D763E1B002CC607C5A0FE\"");
    let mime = mime_type_from_stat(&found).unwrap();
    assert_eq!(mime.essence_str(), "text/plain");
}

#[test]
fn metadata_of_absent_object_is_not_found() {
    assert!(matches!(file_size_from_stat(&StatOutcome::Absent), Err(Error::NotFound)));
    assert!(matches!(last_modified_from_stat(&StatOutcome::Absent), Err(Error::NotFound)));
    assert!(matches!(checksum_from_stat(&StatOutcome::Absent), Err(Error::NotFound)));
    assert!(matches!(mime_type_from_stat(&StatOutcome::Absent), Err(Error::NotFound)));
}

#[test]
fn malformed_content_type_is_a_backend_error() {
    let mut stat = sample_stat();
    stat.content_type = String::from("no-slash-here");
    let r = mime_type_from_stat(&StatOutcome::Found(stat));
    assert!(matches!(r, Err(Error::BackendError(_))));
}

#[test]
fn metadata_failures_are_wrapped() {
    let failed = StatOutcome::Failed(String::from("timeout"));
    assert!(matches!(file_size_from_stat(&failed), Err(Error::BackendError(m)) if m == "timeout"));
}

#[test]
fn acl_grades_project_onto_binary_visibility() {
    assert!(matches!(
        interpret_visibility(&AclOutcome::Got(AclKind::PublicRead)),
        Ok(Visibility::Public)
    ));
    assert!(matches!(
        interpret_visibility(&AclOutcome::Got(AclKind::PublicReadWrite)),
        Ok(Visibility::Public)
    ));
    assert!(matches!(
        interpret_visibility(&AclOutcome::Got(AclKind::Private)),
        Ok(Visibility::Private)
    ));
    assert!(matches!(
        interpret_visibility(&AclOutcome::Got(AclKind::Default)),
        Ok(Visibility::Private)
    ));
    assert!(matches!(interpret_visibility(&AclOutcome::Absent), Ok(Visibility::Private)));
    let failed = interpret_visibility(&AclOutcome::Failed(String::from("denied")));
    assert!(matches!(failed, Err(Error::BackendError(_))));
}

#[test]
fn visibility_maps_back_to_an_acl_grade() {
    assert!(matches!(acl_for_visibility(Visibility::Public), AclKind::PublicRead));
    assert!(matches!(acl_for_visibility(Visibility::Private), AclKind::Private));
}
