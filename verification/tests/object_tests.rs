use minigit::common::datetime::{Timestamp, Timezone};
use minigit::common::user::User;
use minigit::objects::base::{write_object, ObjectBase};
use minigit::objects::commit::CommitObject;
use minigit::objects::io::ObjectStore;
use minigit::objects::tree::{parse_tree_entries, Mode, TreeEntry, TreeObject};

fn hash_of(hex: &str) -> minigit::objects::io::Hash {
    minigit::objects::io::Hash::from_hex(hex).unwrap()
}

fn serialized(store: &ObjectStore, hash: &minigit::objects::io::Hash) -> Vec<u8> {
    store.read(hash).unwrap()
}

fn body_of(serialized: &[u8]) -> Vec<u8> {
    let nul = serialized.iter().position(|b| *b == 0).unwrap();
    serialized[nul + 1..].to_vec()
}

#[test]
fn tree_entry_layout() {
    let entry = TreeEntry {
        mode: Mode(0o100644),
        name: String::from("hoge.txt"),
        hash: hash_of("0102030405060708090a0b0c0d0e0f1011121314"),
    };
    assert_eq!(entry.size(), 6 + 1 + 8 + 1 + 20);

    let mut store = ObjectStore::new();
    let mut tree = TreeObject::new();
    tree.add(entry);
    let hash = write_object(&tree, &mut store);
    let bytes = serialized(&store, &hash);
    let mut expected = b"tree 36\x00100644 hoge.txt\x00".to_vec();
    expected.extend_from_slice(&[
        1u8, 2, 3, 4, 5, 6, 7, 8, 9, 10, 11, 12, 13, 14, 15, 16, 17, 18, 19, 20,
    ]);
    assert_eq!(bytes, expected);
}

#[test]
fn directory_mode_is_zero_padded() {
    let mut store = ObjectStore::new();
    let mut tree = TreeObject::new();
    tree.add(TreeEntry {
        mode: Mode(0o40000),
        name: String::from("dir"),
        hash: hash_of("aaaaaaaaaaaaaaaaaaaaaaaaaaaaaaaaaaaaaaaa"),
    });
    let hash = write_object(&tree, &mut store);
    let bytes = serialized(&store, &hash);
    assert!(bytes.starts_with(b"tree 31\x00040000 dir\x00"));
}

#[test]
fn body_size_matches_tree_body() {
    let mut tree = TreeObject::new();
    tree.add(TreeEntry {
        mode: Mode(0o100644),
        name: String::from("a.txt"),
        hash: hash_of("0000000000000000000000000000000000000001"),
    });
    tree.add(TreeEntry {
        mode: Mode(0o40000),
        name: String::from("sub"),
        hash: hash_of("0000000000000000000000000000000000000002"),
    });
    let mut store = ObjectStore::new();
    let size = tree.body_size();
    let hash = write_object(&tree, &mut store);
    let body = body_of(&serialized(&store, &hash));
    assert_eq!(body.len(), size);
    assert_eq!(size, (6 + 1 + 5 + 1 + 20) + (6 + 1 + 3 + 1 + 20));
}

#[test]
fn tree_framing_recovers_entries() {
    let mut tree = TreeObject::new();
    tree.add(TreeEntry {
        mode: Mode(0o100644),
        name: String::from("name with spaces.txt"),
        hash: hash_of("0102030405060708090a0b0c0d0e0f1011121314"),
    });
    tree.add(TreeEntry {
        mode: Mode(0o40000),
        name: String::from("sub"),
        hash: hash_of("14131211100f0e0d0c0b0a090807060504030201"),
    });
    let mut store = ObjectStore::new();
    let hash = write_object(&tree, &mut store);
    let body = body_of(&serialized(&store, &hash));

    let parsed = parse_tree_entries(&body).unwrap();
    assert_eq!(parsed.len(), 2);
    assert_eq!(parsed[0].mode, 0o100644);
    assert_eq!(parsed[0].name, b"name with spaces.txt".to_vec());
    assert_eq!(
        parsed[0].hash,
        hash_of("0102030405060708090a0b0c0d0e0f1011121314").as_bytes().clone()
    );
    assert_eq!(parsed[1].mode, 0o40000);
    assert_eq!(parsed[1].name, b"sub".to_vec());
    assert_eq!(
        parsed[1].hash,
        hash_of("14131211100f0e0d0c0b0a090807060504030201").as_bytes().clone()
    );
}

#[test]
fn tree_parser_rejects_truncated_bytes() {
    // A valid prefix whose digest is cut short.
    assert!(parse_tree_entries(&b"100644 a\x00shorthash".to_vec()).is_none());
    // A missing NUL terminator.
    assert!(parse_tree_entries(&b"100644 noterminator".to_vec()).is_none());
    // A mode that is not octal.
    assert!(parse_tree_entries(&b"10c644 a\x00".to_vec()).is_none());
    // The empty body parses as no entries.
    assert_eq!(parse_tree_entries(&Vec::new()).unwrap().len(), 0);
}

#[test]
fn commit_serialization() {
    let commit = CommitObject {
        tree_hash: hash_of("4eadb96a553b7fbbf4adb3fe8f47090b9cc679dd"),
        parent_hash: hash_of("0000000000000000000000000000000000000000"),
        author: User { name: String::from("Shuhei"), email: String::from("sh@example.com") },
        author_timestamp: Timestamp::new(1631017871, Timezone::from_sec(32400)),
        committer: User {
            name: String::from("Shuhei"),
            email: String::from("sh@example.com"),
        },
        commit_timestamp: Timestamp::new(1631017871, Timezone::from_sec(32400)),
        message: String::from("Initial commit"),
    };
    let expected = "tree 4eadb96a553b7fbbf4adb3fe8f47090b9cc679dd\n\
                    parent 0000000000000000000000000000000000000000\n\
                    author Shuhei <sh@example.com> 1631017871 +0900\n\
                    committer Shuhei <sh@example.com> 1631017871 +0900\n\
                    \n\
                    Initial commit\n";
    assert_eq!(commit.body_size(), expected.len());
    assert_eq!(commit.obj_type(), "commit");

    let mut store = ObjectStore::new();
    let hash = write_object(&commit, &mut store);
    let bytes = serialized(&store, &hash);
    let mut full = format!("commit {}\x00", expected.len()).into_bytes();
    full.extend_from_slice(expected.as_bytes());
    assert_eq!(bytes, full);
}

#[test]
fn commit_with_negative_offset_and_old_epoch() {
    let commit = CommitObject {
        tree_hash: hash_of("4eadb96a553b7fbbf4adb3fe8f47090b9cc679dd"),
        parent_hash: hash_of("ce013625030ba8dba906f756967f9e9ca394464a"),
        author: User { name: String::from("A"), email: String::from("a@b") },
        author_timestamp: Timestamp::new(-1, Timezone::from_sec(-16200)),
        committer: User { name: String::from("C"), email: String::from("c@d") },
        commit_timestamp: Timestamp::new(0, Timezone::from_sec(0)),
        message: String::from("m"),
    };
    let body = "tree 4eadb96a553b7fbbf4adb3fe8f47090b9cc679dd\n\
                parent ce013625030ba8dba906f756967f9e9ca394464a\n\
                author A <a@b> -1 -0430\n\
                committer C <c@d> 0 +0000\n\
                \n\
                m\n";
    assert_eq!(commit.body_size(), body.len());
    let mut store = ObjectStore::new();
    let hash = write_object(&commit, &mut store);
    let bytes = serialized(&store, &hash);
    assert_eq!(&body_of(&bytes), body.as_bytes());
    assert!(hash.to_hex().len() == 40);
}

#[test]
fn commit_body_size_counts_utf8_bytes() {
    let commit = CommitObject {
        tree_hash: hash_of("4eadb96a553b7fbbf4adb3fe8f47090b9cc679dd"),
        parent_hash: hash_of("0000000000000000000000000000000000000000"),
        author: User { name: String::from("Aimée"), email: String::from("a@b") },
        author_timestamp: Timestamp::new(1, Timezone::from_sec(0)),
        committer: User { name: String::from("Aimée"), email: String::from("a@b") },
        commit_timestamp: Timestamp::new(1, Timezone::from_sec(0)),
        message: String::from("héllo"),
    };
    let mut store = ObjectStore::new();
    let size = commit.body_size();
    let hash = write_object(&commit, &mut store);
    let body = body_of(&serialized(&store, &hash));
    assert_eq!(body.len(), size);
    // "é" takes two bytes; the size is a byte count, not a character count.
    assert!(String::from_utf8(body).unwrap().ends_with("héllo\n"));
}

