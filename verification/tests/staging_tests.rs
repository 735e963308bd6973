use minigit::errors::GitError;
use minigit::objects::base::write_object;
use minigit::objects::blob::BlobObject;
use minigit::objects::io::ObjectStore;
use minigit::objects::tree::{Mode, TreeEntry, TreeObject};
use minigit::tree::{FileSource, Tree};

#[test]
fn recursive_hashing_matches_manual_construction() {
    // Stage { a/b.txt, a/c.txt, d.txt } with known contents ...
    let mut tree = Tree::new();
    tree.add_path(&String::from("a/b.txt"), true);
    tree.add_path(&String::from("a/c.txt"), true);
    tree.add_path(&String::from("d.txt"), true);

    let mut files = FileSource::new();
    files.add(String::from("a/b.txt"), b"bb\n".to_vec());
    files.add(String::from("a/c.txt"), b"cc\n".to_vec());
    files.add(String::from("d.txt"), b"dd\n".to_vec());

    let mut store = ObjectStore::new();
    let root = tree.write_recursively(&files, &mut store).unwrap();

    // ... and build the same snapshot by hand, in the same post-order.
    let mut manual_store = ObjectStore::new();
    let hb = write_object(&BlobObject::new(b"bb\n".to_vec()), &mut manual_store);
    let hc = write_object(&BlobObject::new(b"cc\n".to_vec()), &mut manual_store);
    let mut tree_a = TreeObject::new();
    tree_a.add(TreeEntry { mode: Mode(0o100644), name: String::from("b.txt"), hash: hb });
    tree_a.add(TreeEntry { mode: Mode(0o100644), name: String::from("c.txt"), hash: hc });
    let ha = write_object(&tree_a, &mut manual_store);
    let hd = write_object(&BlobObject::new(b"dd\n".to_vec()), &mut manual_store);
    let mut root_tree = TreeObject::new();
    root_tree.add(TreeEntry { mode: Mode(0o40000), name: String::from("a"), hash: ha });
    root_tree.add(TreeEntry { mode: Mode(0o100644), name: String::from("d.txt"), hash: hd });
    let manual_root = write_object(&root_tree, &mut manual_store);

    assert_eq!(root.to_hex(), manual_root.to_hex());
    assert_eq!(root.to_hex(), "4eadb96a553b7fbbf4adb3fe8f47090b9cc679dd");

    // The blobs, the subtree and the root are all persisted.
    assert_eq!(store.object_count(), 5);
    let reread = store.read(&root).unwrap();
    assert!(reread.starts_with(b"tree "));
}

#[test]
fn known_child_digests() {
    let mut tree = Tree::new();
    tree.add_path(&String::from("a/b.txt"), true);
    let mut files = FileSource::new();
    files.add(String::from("a/b.txt"), b"bb\n".to_vec());
    let mut store = ObjectStore::new();
    let root = tree.write_recursively(&files, &mut store).unwrap();

    // The blob and the subtree have their independently computed digests.
    let blob =
        minigit::objects::io::Hash::from_hex("e0b3f1b09bd1819ed1f7ce2e75fc7400809f5350")
            .unwrap();
    assert_eq!(store.read(&blob).unwrap(), b"blob 3\x00bb\n".to_vec());
    assert_eq!(root.to_hex().len(), 40);
}

#[test]
fn missing_file_aborts_with_io_failure() {
    let mut tree = Tree::new();
    tree.add_path(&String::from("present.txt"), true);
    tree.add_path(&String::from("absent.txt"), true);
    let mut files = FileSource::new();
    files.add(String::from("present.txt"), b"here\n".to_vec());
    let mut store = ObjectStore::new();
    let result = tree.write_recursively(&files, &mut store);
    assert_eq!(result.unwrap_err(), GitError::IoFailure);
    // The sibling written before the failure remains persisted.
    assert_eq!(store.object_count(), 1);
}

#[test]
fn directories_only_are_written_empty() {
    let mut tree = Tree::new();
    tree.add_path(&String::from("some/dir"), false);
    let files = FileSource::new();
    let mut store = ObjectStore::new();
    let root = tree.write_recursively(&files, &mut store).unwrap();
    // some/, its empty child dir/, and the root: three tree objects.
    assert_eq!(store.object_count(), 3);
    let root_bytes = store.read(&root).unwrap();
    assert!(root_bytes.starts_with(b"tree 32\x00040000 some\x00"));
}

#[test]
fn re_adding_a_file_path_keeps_the_first_entry() {
    // Descending stops at an existing file entry: staging a path beneath a
    // file changes nothing, and the snapshot is the one-file snapshot.
    let mut tree = Tree::new();
    tree.add_path(&String::from("f"), true);
    tree.add_path(&String::from("f/под.txt"), true);
    let mut files = FileSource::new();
    files.add(String::from("f"), b"x".to_vec());
    let mut store = ObjectStore::new();
    let root = tree.write_recursively(&files, &mut store).unwrap();

    let mut plain = Tree::new();
    plain.add_path(&String::from("f"), true);
    let mut plain_store = ObjectStore::new();
    let plain_root = plain.write_recursively(&files, &mut plain_store).unwrap();
    assert_eq!(root.to_hex(), plain_root.to_hex());
}

#[test]
fn file_source_latest_contents_win() {
    let mut files = FileSource::new();
    files.add(String::from("p"), b"first".to_vec());
    files.add(String::from("p"), b"second".to_vec());
    assert_eq!(files.lookup(&String::from("p")).unwrap(), &b"second".to_vec());
    assert!(files.lookup(&String::from("q")).is_none());
}

#[test]
fn staged_names_may_be_multibyte() {
    let mut tree = Tree::new();
    tree.add_path(&String::from("π.txt"), true);
    let mut files = FileSource::new();
    files.add(String::from("π.txt"), b"pi\n".to_vec());
    let mut store = ObjectStore::new();
    let root = tree.write_recursively(&files, &mut store).unwrap();

    let mut manual_store = ObjectStore::new();
    let blob = write_object(&BlobObject::new(b"pi\n".to_vec()), &mut manual_store);
    let mut manual = TreeObject::new();
    manual.add(TreeEntry { mode: Mode(0o100644), name: String::from("π.txt"), hash: blob });
    let manual_root = write_object(&manual, &mut manual_store);
    assert_eq!(root.to_hex(), manual_root.to_hex());

    // The entry's size counts the name's bytes: π takes two.
    let root_bytes = store.read(&root).unwrap();
    assert!(root_bytes.starts_with(b"tree 34\x00100644 \xcf\x80.txt\x00"));
}

