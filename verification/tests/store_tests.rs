use minigit::errors::GitError;
use minigit::objects::base::{write_object, ObjectBase};
use minigit::objects::blob::BlobObject;
use minigit::objects::io::{decode_object, object_path_parts, read_object, ObjectStore,
    ObjectWriter};

#[test]
fn blob_hello_scenario() {
    // Writing the 6-byte blob "hello\n" must produce the SHA-1 of
    // "blob 6\0hello\n" and read back exactly as serialized.
    let mut store = ObjectStore::new();
    let blob = BlobObject::new(b"hello\n".to_vec());
    let hash = write_object(&blob, &mut store);
    assert_eq!(hash.to_hex(), "ce013625030ba8dba906f756967f9e9ca394464a");
    let bytes = store.read(&hash).unwrap();
    assert_eq!(bytes, b"blob 6\x00hello\n".to_vec());
    assert_eq!(&bytes[7..], b"hello\n");
}

#[test]
fn content_addressing_round_trip() {
    let mut store = ObjectStore::new();
    let mut writer = ObjectWriter::new();
    writer.write(b"blob 11\x00some ");
    writer.write(b"content");
    let hash = writer.finalize(&mut store);
    let bytes = store.read(&hash).unwrap();
    assert_eq!(bytes, b"blob 11\x00some content".to_vec());
}

#[test]
fn write_twice_same_digest_store_readable() {
    let mut store = ObjectStore::new();
    let first = write_object(&BlobObject::new(b"payload".to_vec()), &mut store);
    let second = write_object(&BlobObject::new(b"payload".to_vec()), &mut store);
    assert_eq!(first.as_bytes(), second.as_bytes());
    assert_eq!(first.to_hex(), second.to_hex());
    assert_eq!(store.object_count(), 1);
    assert_eq!(store.read(&second).unwrap(), b"blob 7\x00payload".to_vec());
}

#[test]
fn digest_is_deterministic() {
    let mut store_a = ObjectStore::new();
    let mut store_b = ObjectStore::new();
    let ha = write_object(&BlobObject::new(b"same bytes".to_vec()), &mut store_a);
    let hb = write_object(&BlobObject::new(b"same bytes".to_vec()), &mut store_b);
    assert_eq!(ha.to_hex(), hb.to_hex());
}

#[test]
fn chunking_does_not_change_the_digest() {
    let mut store_a = ObjectStore::new();
    let mut writer_a = ObjectWriter::new();
    writer_a.write(b"blob 3\x00");
    writer_a.write(b"a");
    writer_a.write(b"bc");
    let ha = writer_a.finalize(&mut store_a);

    let mut store_b = ObjectStore::new();
    let mut writer_b = ObjectWriter::new();
    writer_b.write(b"blob 3\x00abc");
    let hb = writer_b.finalize(&mut store_b);
    assert_eq!(ha.to_hex(), hb.to_hex());
}

#[test]
fn missing_object_is_object_not_found() {
    let store = ObjectStore::new();
    let hash =
        minigit::objects::io::Hash::from_hex("ce013625030ba8dba906f756967f9e9ca394464a")
            .unwrap();
    assert_eq!(store.read(&hash), Err(GitError::ObjectNotFound));
}

#[test]
fn read_object_by_text() {
    let mut store = ObjectStore::new();
    let hash = write_object(&BlobObject::new(b"hello\n".to_vec()), &mut store);
    let hex = hash.to_hex();
    assert_eq!(read_object(&store, &hex).unwrap(), b"blob 6\x00hello\n".to_vec());
    assert_eq!(
        read_object(&store, "0000000000000000000000000000000000000000"),
        Err(GitError::ObjectNotFound)
    );
    assert_eq!(read_object(&store, "not a digest"), Err(GitError::MalformedDigest));
}

#[test]
fn malformed_digest_text() {
    // 39 characters.
    assert_eq!(
        minigit::objects::io::Hash::from_hex("ce013625030ba8dba906f756967f9e9ca394464")
            .unwrap_err(),
        GitError::MalformedDigest
    );
    // 41 characters.
    assert_eq!(
        minigit::objects::io::Hash::from_hex("ce013625030ba8dba906f756967f9e9ca394464aa")
            .unwrap_err(),
        GitError::MalformedDigest
    );
    // A non-hex character.
    assert_eq!(
        minigit::objects::io::Hash::from_hex("ce013625030ba8dba906f756967f9e9ca394464g")
            .unwrap_err(),
        GitError::MalformedDigest
    );
    assert_eq!(
        minigit::objects::io::Hash::from_hex("").unwrap_err(),
        GitError::MalformedDigest
    );
}

#[test]
fn hex_round_trip() {
    let hash =
        minigit::objects::io::Hash::from_hex("0123456789abcdef0123456789ABCDEF01234567")
            .unwrap();
    // The canonical form is lowercase.
    assert_eq!(hash.to_hex(), "0123456789abcdef0123456789abcdef01234567");
    assert_eq!(
        hash.as_bytes(),
        &vec![
            0x01u8, 0x23, 0x45, 0x67, 0x89, 0xab, 0xcd, 0xef, 0x01, 0x23, 0x45, 0x67, 0x89,
            0xab, 0xcd, 0xef, 0x01, 0x23, 0x45, 0x67,
        ]
    );
}

#[test]
fn path_parts_shard_the_hex_form() {
    let hash =
        minigit::objects::io::Hash::from_hex("ce013625030ba8dba906f756967f9e9ca394464a")
            .unwrap();
    let (shard, name) = object_path_parts(&hash);
    assert_eq!(shard, "ce");
    assert_eq!(name, "013625030ba8dba906f756967f9e9ca394464a");
}

#[test]
fn stored_bytes_are_compressed() {
    let mut store = ObjectStore::new();
    let hash = write_object(&BlobObject::new(b"hello\n".to_vec()), &mut store);
    assert_eq!(store.object_count(), 1);
    let (stored_hash, compressed) = store.object_at(0);
    assert_eq!(stored_hash.to_hex(), hash.to_hex());
    // The persisted form is a zlib stream, not the raw serialization.
    assert_ne!(compressed, &b"blob 6\x00hello\n".to_vec());
    assert_eq!(decode_object(compressed).unwrap(), b"blob 6\x00hello\n".to_vec());
}

#[test]
fn decode_object_rejects_garbage() {
    assert_eq!(
        decode_object(&vec![1u8, 2, 3, 4, 5]).unwrap_err(),
        GitError::CorruptObject
    );
}

#[test]
fn body_size_matches_blob_body() {
    let blob = BlobObject::new(b"hello\n".to_vec());
    assert_eq!(blob.obj_type(), "blob");
    assert_eq!(blob.body_size(), 6);
}
