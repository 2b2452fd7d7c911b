use flatdata::error::ResourceStorageError;
use flatdata::memstorage::MemoryResourceStorage;
use flatdata::storage::{
    create_archive, diff, read_size_header, write_schema, write_to_stream, BytesCursor,
    ResourceHandle, ResourceStorage, Stream,
};
use flatdata::test_structs::GraphArchive;

// Writing B bytes through a resource handle and closing it leaves a
// frame of exactly header + B + padding, with the header decoding to B.
#[test]
fn test_resource_handle_frame() {
    let cursor = BytesCursor::new();
    let mut handle = ResourceHandle::new(cursor).expect("handle creation failed");
    assert!(handle.is_open());
    handle.write(&[10, 20, 30]).expect("write failed");
    handle.write(&[40]).expect("write failed");
    let sink = handle.close().expect("close failed");
    assert!(!handle.is_open());
    let bytes = sink.into_data();
    assert_eq!(bytes.len(), 8 + 4 + 8);
    assert_eq!(read_size_header(&bytes), 4);
    assert_eq!(&bytes[8..12], &[10, 20, 30, 40]);
    for j in 12..bytes.len() {
        assert_eq!(bytes[j], 0);
    }
    // a closed handle rejects writes and a second close
    match handle.write(&[1]) {
        Err(ResourceStorageError::Io { message }) => assert_eq!(message, "stream closed"),
        other => panic!("expected Io, got {:?}", other),
    }
    assert!(handle.close().is_err());
}

#[test]
fn test_write_to_stream_frame() {
    let mut cursor = BytesCursor::new();
    write_to_stream(&[7, 7, 7], &mut cursor).expect("framing failed");
    let bytes = cursor.into_data();
    assert_eq!(bytes.len(), 8 + 3 + 8);
    assert_eq!(read_size_header(&bytes), 3);
    assert_eq!(&bytes[8..11], &[7, 7, 7]);
}

#[test]
fn test_write_and_read_resource() {
    let mut storage = MemoryResourceStorage::new("/root/res".to_string());
    assert!(!storage.resource_exists("r"));
    storage.write("r", "schema text", &[9, 8, 7]).expect("write failed");
    assert!(storage.resource_exists("r"));
    assert!(storage.resource_exists("r.schema"));
    let d = storage
        .read_and_check_schema("r", "schema text")
        .expect("read_and_check_schema failed");
    assert_eq!(d.as_bytes(), &[9, 8, 7]);
    assert_eq!(d.size_in_bytes(), 3);
    // the alias entry point behaves the same
    let d2 = storage.read("r", "schema text").expect("read failed");
    assert_eq!(d2.data(), &[9, 8, 7]);
}

// Any single-byte difference between the stored and the expected schema
// text is a schema mismatch, carrying a line-level diff.
#[test]
fn test_schema_mismatch() {
    let mut storage = MemoryResourceStorage::new("/root/res".to_string());
    storage.write("r", "schema text", &[1]).expect("write failed");
    match storage.read_and_check_schema("r", "schema texu") {
        Err(ResourceStorageError::SchemaMismatch { resource_name, diff }) => {
            assert_eq!(resource_name, "r");
            assert_eq!(diff, "-schema text\n+schema texu");
        }
        other => panic!("expected SchemaMismatch, got {:?}", other),
    }
}

#[test]
fn test_read_not_found() {
    let mut storage = MemoryResourceStorage::new("/root/res".to_string());
    match storage.read_and_check_schema("missing", "s") {
        Err(ResourceStorageError::NotFound { .. }) => {}
        other => panic!("expected NotFound, got {:?}", other),
    }
    match storage.read_resource_mut("missing") {
        Err(ResourceStorageError::NotFound { .. }) => {}
        other => panic!("expected NotFound, got {:?}", other),
    }
}

// Opening a resource for mutation after it was already opened
// read-only fails: the same bytes are never aliased as both mutable
// and immutable.
#[test]
fn test_permission_denied() {
    let mut storage = MemoryResourceStorage::new("/root/res".to_string());
    storage.write("r", "s", &[1, 2]).expect("write failed");
    storage.read_resource("r").expect("read failed");
    match storage.read_resource_mut("r") {
        Err(ResourceStorageError::PermissionDenied { .. }) => {}
        other => panic!("expected PermissionDenied, got {:?}", other),
    }
    // a frozen resource cannot be overwritten either
    let sink = BytesCursor::new();
    match storage.store_stream("r", sink) {
        Err(ResourceStorageError::PermissionDenied { .. }) => {}
        other => panic!("expected PermissionDenied, got {:?}", other),
    }
}

// A mutable open hands the resource's sink back out; the resource
// leaves the storage until the sink is stored again.
#[test]
fn test_read_resource_mut_roundtrip() {
    let mut storage = MemoryResourceStorage::new("/root/res".to_string());
    storage.write("r", "s", &[5]).expect("write failed");
    let sink = storage.read_resource_mut("r").expect("mutable open failed");
    assert!(!storage.resource_exists("r"));
    storage.store_stream("r", sink).expect("store failed");
    assert!(storage.resource_exists("r"));
    let d = storage.read_and_check_schema("r", "s").expect("read failed");
    assert_eq!(d.as_bytes(), &[5]);
}

// A resource whose physical size disagrees with its header is refused.
#[test]
fn test_unexpected_data_size() {
    let mut storage = MemoryResourceStorage::new("/root/res".to_string());
    let mut sink = storage.create_output_stream("raw").expect("create failed");
    sink.write_all(&[1, 2, 3]).expect("write failed");
    storage.store_stream("raw", sink).expect("store failed");
    let mut sink = storage.create_output_stream("raw.schema").expect("create failed");
    write_schema("s", &mut sink).expect("write failed");
    storage.store_stream("raw.schema", sink).expect("store failed");
    match storage.read_and_check_schema("raw", "s") {
        Err(ResourceStorageError::UnexpectedDataSize) => {}
        other => panic!("expected UnexpectedDataSize, got {:?}", other),
    }
}

// A stored schema that is not valid UTF-8 text is refused as such.
#[test]
fn test_invalid_text() {
    let mut storage = MemoryResourceStorage::new("/root/res".to_string());
    storage.write("r", "good", &[1]).expect("write failed");
    let mut sink = storage.create_output_stream("r.schema").expect("create failed");
    sink.write_all(&[0xff, 0xc0]).expect("write failed");
    storage.store_stream("r.schema", sink).expect("store failed");
    match storage.read_and_check_schema("r", "good") {
        Err(ResourceStorageError::InvalidText) => {}
        other => panic!("expected InvalidText, got {:?}", other),
    }
}

// Creating an archive writes the empty-payload marker resource; a
// second creation with the same name is refused.
#[test]
fn test_create_archive() {
    let mut storage = MemoryResourceStorage::new("/root/res".to_string());
    create_archive::<GraphArchive, _>(&mut storage).expect("create_archive failed");
    assert!(storage.resource_exists("graph.archive"));
    let d = storage
        .read_and_check_schema("graph.archive", "archive graph { }")
        .expect("marker read failed");
    assert_eq!(d.size_in_bytes(), 0);
    match create_archive::<GraphArchive, _>(&mut storage) {
        Err(ResourceStorageError::AlreadyExists { resource_name }) => {
            assert_eq!(resource_name, "graph.archive");
        }
        other => panic!("expected AlreadyExists, got {:?}", other),
    }
}

#[test]
fn test_subdir_is_fresh() {
    let mut storage = MemoryResourceStorage::new("/root/res".to_string());
    storage.write("r", "s", &[1]).expect("write failed");
    let sub = storage.subdir("sub");
    assert!(!sub.resource_exists("r"));
}

#[test]
fn test_diff_rendering() {
    assert_eq!(diff("a\nb", "a\nc"), " a\n-b\n+c");
    assert_eq!(diff("x", "x"), " x");
    assert_eq!(diff("", "x"), "+x");
    assert_eq!(diff("old line", "new line"), "-old line\n+new line");
}

#[test]
fn test_cursor_write_and_seek() {
    let mut cursor = BytesCursor::new();
    cursor.write_all(&[1, 2, 3, 4]).expect("write failed");
    cursor.seek_begin().expect("seek failed");
    cursor.write_all(&[9]).expect("write failed");
    let mut data = Vec::new();
    std::mem::swap(cursor.get_mut(), &mut data);
    assert_eq!(data, vec![9, 2, 3, 4]);
}
