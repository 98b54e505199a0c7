use memfs::fs::{FileKind, Fs, Node, BLOCK_SIZE, DIR_PERM, FILE_PERM, OWNER_GID, OWNER_UID};
use memfs::paths::split_path;

fn comps(parts: &[&str]) -> Vec<String> {
    parts.iter().map(|p| p.to_string()).collect()
}

fn data_of(fs: &Fs, k: usize) -> String {
    match fs.get_node(k) {
        Some(Node::File(f)) => f.data().clone(),
        _ => panic!("expected a file at slot {k}"),
    }
}

#[test]
fn new_tree_has_a_root_directory() {
    let fs = Fs::new();
    assert_eq!(fs.root(), 0);
    assert_eq!(fs.node_count(), 1);
    let root = fs.get_node(0).unwrap();
    assert!(root.is_dir());
    let a = root.get_attr();
    assert_eq!(a.ino, 1);
    assert_eq!(a.kind, FileKind::Directory);
    assert_eq!(a.perm, DIR_PERM);
    assert_eq!(a.nlink, 2);
    assert_eq!(a.uid, OWNER_UID);
    assert_eq!(a.gid, OWNER_GID);
    assert_eq!(a.blksize, BLOCK_SIZE);
}

#[test]
fn created_paths_resolve_to_the_created_nodes() {
    let mut fs = Fs::new();
    let root = fs.root();
    let d1 = fs.new_dir(root, "dir1").unwrap();
    let f1 = fs.new_file(d1, "f1", "HELLO").unwrap();

    let got = fs.walk(comps(&["dir1", "f1"])).unwrap();
    assert_eq!(got, f1);
    let node = fs.get_node(got).unwrap();
    assert!(node.is_file());
    assert_eq!(data_of(&fs, got), "HELLO");

    // `..` pops back to the parent recorded by this very traversal
    let again = fs.walk(comps(&["dir1", "..", "dir1", "f1"])).unwrap();
    assert_eq!(again, f1);

    assert_eq!(fs.walk(comps(&["bogus"])), None);
    // f1 is not a directory, so nothing resolves under it
    assert_eq!(fs.walk(comps(&["dir1", "f1", "bogus"])), None);
}

#[test]
fn file_attributes_are_the_fixed_ones() {
    let mut fs = Fs::new();
    let root = fs.root();
    let f = fs.new_file(root, "f", "x").unwrap();
    let a = fs.get_node(f).unwrap().get_attr();
    assert_eq!(a.ino, 2);
    assert_eq!(a.kind, FileKind::RegularFile);
    assert_eq!(a.perm, FILE_PERM);
    assert_eq!(a.nlink, 1);
}

#[test]
fn inodes_increment_and_are_never_reused() {
    let mut fs = Fs::new();
    let root = fs.root();
    let d1 = fs.new_dir(root, "d1").unwrap();
    let f1 = fs.new_file(d1, "f", "a").unwrap();
    let f2 = fs.new_file(d1, "f", "b").unwrap();
    let inos: Vec<u64> = [root, d1, f1, f2]
        .iter()
        .map(|k| fs.get_node(*k).unwrap().get_attr().ino)
        .collect();
    assert_eq!(inos, vec![1, 2, 3, 4]);
}

#[test]
fn dot_and_dotdot_resolution() {
    let mut fs = Fs::new();
    let root = fs.root();
    let d1 = fs.new_dir(root, "dir1").unwrap();
    // `.` from any directory handle returns that handle
    assert_eq!(fs.resolve(d1, &comps(&["."])), Some(d1));
    // `..` with no recorded parents does not ascend above the start
    assert_eq!(fs.resolve(d1, &comps(&[".."])), Some(d1));
    assert_eq!(fs.resolve(root, &comps(&["dir1", ".."])), Some(root));
}

#[test]
fn resolution_from_a_file_or_bad_handle_fails() {
    let mut fs = Fs::new();
    let root = fs.root();
    let f = fs.new_file(root, "f", "x").unwrap();
    // even `.` demands a directory
    assert_eq!(fs.resolve(f, &comps(&["."])), None);
    assert_eq!(fs.resolve(f, &comps(&["y"])), None);
    // a handle this tree never handed out resolves to nothing
    assert_eq!(fs.resolve(999, &comps(&["y"])), None);
    assert!(fs.get_node(999).is_none());
    // but empty segments are discarded before the directory check
    assert_eq!(fs.resolve(f, &comps(&[""])), Some(f));
}

#[test]
fn empty_paths_resolve_to_the_start() {
    let mut fs = Fs::new();
    let root = fs.root();
    assert_eq!(fs.walk(Vec::new()), Some(root));
    assert_eq!(fs.walk(comps(&["", ""])), Some(root));
}

#[test]
fn slash_variants_are_path_equivalent() {
    let mut fs = Fs::new();
    let root = fs.root();
    let d1 = fs.new_dir(root, "dir1").unwrap();
    let f1 = fs.new_file(d1, "f1", "HELLO").unwrap();

    assert_eq!(split_path("/dir1/f1"), comps(&["dir1", "f1"]));
    assert_eq!(split_path("dir1/f1"), comps(&["dir1", "f1"]));
    assert_eq!(split_path("//dir1////f1/"), comps(&["dir1", "f1"]));
    assert_eq!(split_path(""), Vec::<String>::new());
    assert_eq!(split_path("///"), Vec::<String>::new());

    for p in ["/dir1/f1", "dir1/f1", "//dir1////f1/"] {
        assert_eq!(fs.walk(split_path(p)), Some(f1));
    }
}

#[test]
fn overwriting_a_name_detaches_but_preserves_the_old_child() {
    let mut fs = Fs::new();
    let root = fs.root();
    let d1 = fs.new_dir(root, "dir1").unwrap();
    let old = fs.new_file(d1, "f", "HELLO").unwrap();
    let old_attr = *fs.get_node(old).unwrap().get_attr();

    let newer = fs.new_file(d1, "f", "WORLD").unwrap();
    assert_ne!(old, newer);

    // the name now leads to the new child
    assert_eq!(fs.walk(comps(&["dir1", "f"])), Some(newer));
    assert_eq!(data_of(&fs, newer), "WORLD");

    // the old handle is still valid: same attributes, same payload
    let kept = fs.get_node(old).unwrap();
    assert_eq!(*kept.get_attr(), old_attr);
    assert_eq!(data_of(&fs, old), "HELLO");
}

#[test]
fn creation_under_a_file_fails_and_changes_nothing() {
    let mut fs = Fs::new();
    let root = fs.root();
    let f = fs.new_file(root, "f", "x").unwrap();
    let count = fs.node_count();
    assert_eq!(fs.new_file(f, "sub", "y"), None);
    assert_eq!(fs.new_dir(f, "sub"), None);
    assert_eq!(fs.new_dir(999, "sub"), None);
    assert_eq!(fs.node_count(), count);
}

#[test]
fn directory_entries_record_insertion_order() {
    let mut fs = Fs::new();
    let root = fs.root();
    let a = fs.new_file(root, "a", "1").unwrap();
    let b = fs.new_dir(root, "b").unwrap();
    match fs.get_node(root).unwrap() {
        Node::Dir(d) => {
            let entries = d.entries();
            assert_eq!(entries.len(), 2);
            assert_eq!(entries[0], ("a".to_string(), a));
            assert_eq!(entries[1], ("b".to_string(), b));
        },
        Node::File(_) => panic!("root must be a directory"),
    }
}

#[test]
fn dotdot_never_ascends_above_the_start() {
    let mut fs = Fs::new();
    let root = fs.root();
    fs.new_dir(root, "dir1").unwrap();
    // extra `..` beyond the recorded parents stay at the traversal's start
    assert_eq!(fs.walk(comps(&["dir1", "..", "..", "..", "dir1"])), fs.walk(comps(&["dir1"])));
}

#[test]
fn split_path_keeps_dot_segments() {
    assert_eq!(split_path("/a/./b/.."), comps(&["a", ".", "b", ".."]));
}
