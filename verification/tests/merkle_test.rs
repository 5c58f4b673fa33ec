use dataspringflow_rs::merkle::{leaf_hash, path_text, EntryKind, FileEntry, FileMerkleTree, LeafContent};

/// The entries a walk of a tree holding `files` (relative paths and contents) yields: the
/// root, each directory on the way, and each file, with their leaf hashes.
fn walked(files: &[(&str, &[u8])]) -> Vec<FileEntry> {
    let mut dirs: Vec<Vec<Vec<u8>>> = vec![vec![]];
    let mut entries = Vec::new();
    for (path, content) in files {
        let comps: Vec<Vec<u8>> = path.split('/').map(|c| c.as_bytes().to_vec()).collect();
        for k in 1..comps.len() {
            let d = comps[..k].to_vec();
            if !dirs.contains(&d) {
                dirs.push(d);
            }
        }
        let mut data = path_text(&comps);
        data.extend_from_slice(content);
        entries.push(FileEntry { rel_path: comps, kind: EntryKind::File, hash: *blake3::hash(&data).as_bytes() });
    }
    for d in dirs {
        let h = leaf_hash(&d, &LeafContent::Dir);
        entries.push(FileEntry { rel_path: d, kind: EntryKind::Dir, hash: h });
    }
    entries
}

fn hash_tree(files: &[(&str, &[u8])]) -> [u8; 32] {
    let mut tree = FileMerkleTree { root_path: "/tmp/tree".to_string(), entries: walked(files) };
    tree.reduce_into_file_tree_form()
}

#[test]
fn empty_tree_hashes_to_stable_value() {
    // A walk of an empty directory yields its root entry alone.
    let hash1 = hash_tree(&[]);
    let hash2 = hash_tree(&[]);
    assert_eq!(hash1, hash2);
}

#[test]
fn no_entries_hash_to_the_empty_tree_value() {
    let mut tree = FileMerkleTree { root_path: "/tmp/empty".to_string(), entries: vec![] };
    assert_eq!(tree.reduce_into_file_tree_form(), *blake3::hash(b"empty_tree").as_bytes());
}

#[test]
fn single_file_tree_hash_is_stable() {
    let h1 = hash_tree(&[("hello.txt", b"hello world")]);
    let h2 = hash_tree(&[("hello.txt", b"hello world")]);
    assert_eq!(h1, h2);
}

#[test]
fn same_content_but_different_path_produces_different_hash() {
    let h1 = hash_tree(&[("a.txt", b"same content")]);
    let h2 = hash_tree(&[("nested/b.txt", b"same content")]);
    assert_ne!(h1, h2);
}

#[test]
fn file_order_does_not_change_root_hash() {
    let h1 = hash_tree(&[("a.txt", b"A"), ("b.txt", b"B"), ("dir/c.txt", b"C")]);
    let h2 = hash_tree(&[("dir/c.txt", b"C"), ("b.txt", b"B"), ("a.txt", b"A")]);
    assert_eq!(h1, h2);
}

#[test]
fn nested_directory_tree_hashes_stably() {
    let files: &[(&str, &[u8])] = &[("root.txt", b"root"), ("sub/a.txt", b"a"), ("sub/deeper/b.txt", b"b")];
    assert_eq!(hash_tree(files), hash_tree(files));
}

#[test]
fn directory_and_file_structure_affects_hash() {
    let h1 = hash_tree(&[("x/y.txt", b"content")]);
    let h2 = hash_tree(&[("x.txt", b"content"), ("x", b"other")]);
    assert_ne!(h1, h2);
}

#[test]
fn root_of_single_file_tree_is_hash_of_its_record() {
    // The root directory's hash is the digest of its one child's record:
    // name, hash, then 0 for a file.
    let entries = walked(&[("hello.txt", b"hello world")]);
    let file_hash = entries[0].hash;
    let mut record = b"hello.txt".to_vec();
    record.extend_from_slice(&file_hash);
    record.push(0);
    let expected = *blake3::hash(&record).as_bytes();
    assert_eq!(hash_tree(&[("hello.txt", b"hello world")]), expected);
}

#[test]
fn reduce_orders_entries_deepest_first() {
    let mut tree = FileMerkleTree { root_path: "/tmp/tree".to_string(), entries: walked(&[("a.txt", b"A"), ("sub/deeper/b.txt", b"b")]) };
    tree.reduce_into_file_tree_form();
    let depths: Vec<usize> = tree.entries.iter().map(|e| e.rel_path.len()).collect();
    let mut sorted = depths.clone();
    sorted.sort_by(|a, b| b.cmp(a));
    assert_eq!(depths, sorted);
}

#[test]
fn path_text_joins_with_slashes() {
    let comps = vec![b"sub".to_vec(), b"a\\b.txt".to_vec()];
    assert_eq!(path_text(&comps), b"sub/a/b.txt".to_vec());
    assert_eq!(path_text(&vec![]), Vec::<u8>::new());
}

#[test]
fn leaf_hash_of_directory() {
    let comps = vec![b"sub".to_vec()];
    let expected = *blake3::hash(b"sub[DIR]sub").as_bytes();
    assert_eq!(leaf_hash(&comps, &LeafContent::Dir), expected);
    let expected = *blake3::hash(b"sub[UNKNOWN_TARGET]").as_bytes();
    assert_eq!(leaf_hash(&comps, &LeafContent::UnknownTarget), expected);
}

#[test]
fn empty_directory_inside_tree_contributes_consistently() {
    let mut entries = walked(&[("a.txt", b"A")]);
    let empty = vec![b"empty_dir".to_vec()];
    let h = leaf_hash(&empty, &LeafContent::Dir);
    entries.push(FileEntry { rel_path: empty, kind: EntryKind::Dir, hash: h });
    let mut t1 = FileMerkleTree { root_path: "/tmp/t".to_string(), entries };
    let with_empty = t1.reduce_into_file_tree_form();
    assert_ne!(with_empty, hash_tree(&[("a.txt", b"A")]));
}
