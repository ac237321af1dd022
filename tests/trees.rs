use oxygit::error::ObjectError;
use oxygit::kind::Kind;
use oxygit::reader::load_object;
use oxygit::store::id_to_hex;
use oxygit::tree::{
    build_tree, entry_before, is_reserved_name, parse_tree, serialize_entries, snapshot_tree,
    sort_entries, tree_body, Child, ListedEntry, Mode, TreeEntry,
};
use oxygit::writer::compute_id;

fn entry(mode: Mode, name: &str, fill: u8) -> TreeEntry {
    TreeEntry { mode, name: name.as_bytes().to_vec(), id: [fill; 20] }
}

fn names(entries: &[TreeEntry]) -> Vec<String> {
    entries.iter().map(|e| String::from_utf8(e.name.clone()).unwrap()).collect()
}

fn record(mode: &str, name: &str, id: [u8; 20]) -> Vec<u8> {
    let mut v = mode.as_bytes().to_vec();
    v.push(b' ');
    v.extend(name.as_bytes());
    v.push(0);
    v.extend(id);
    v
}

#[test]
fn file_prefix_sorts_first_and_directory_after() {
    let listing = vec![
        entry(Mode::Directory, "food", 3),
        entry(Mode::Regular, "foo.txt", 2),
        entry(Mode::Regular, "foo", 1),
    ];
    let sorted = sort_entries(listing);
    assert_eq!(names(&sorted), vec!["foo", "foo.txt", "food"]);
}

#[test]
fn directory_compares_with_a_high_trailing_byte() {
    let dir = entry(Mode::Directory, "foo", 1);
    let dotted = entry(Mode::Regular, "foo.", 2);
    let file = entry(Mode::Regular, "foo", 3);
    let longer = entry(Mode::Regular, "foo.txt", 4);
    assert!(entry_before(&dotted, &dir));
    assert!(!entry_before(&dir, &dotted));
    assert!(entry_before(&file, &longer));
    assert!(entry_before(&longer, &dir));
    assert!(!entry_before(&dir, &dir));
    let digit = entry(Mode::Regular, "foo0", 5);
    assert!(entry_before(&digit, &dir));
    let high = entry(Mode::Regular, "foo\u{ff}", 6);
    assert!(entry_before(&dir, &entry(Mode::Directory, "fop", 7)));
    assert!(!entry_before(&high, &high));
}

#[test]
fn tree_body_is_independent_of_listing_order() {
    let make = |order: &[usize]| {
        let all = [
            entry(Mode::Regular, "foo", 1),
            entry(Mode::Regular, "foo.txt", 2),
            entry(Mode::Directory, "food", 3),
            entry(Mode::Executable, "run.sh", 4),
            entry(Mode::Symlink, "link", 5),
        ];
        order.iter().map(|&i| all[i].clone()).collect::<Vec<_>>()
    };
    let a = tree_body(make(&[0, 1, 2, 3, 4])).unwrap();
    let b = tree_body(make(&[4, 3, 2, 1, 0])).unwrap();
    let c = tree_body(make(&[2, 0, 4, 1, 3])).unwrap();
    assert_eq!(a, b);
    assert_eq!(a, c);
    let mut expected = Vec::new();
    expected.extend(record("100644", "foo", [1; 20]));
    expected.extend(record("100644", "foo.txt", [2; 20]));
    expected.extend(record("40000", "food", [3; 20]));
    expected.extend(record("120000", "link", [5; 20]));
    expected.extend(record("100755", "run.sh", [4; 20]));
    assert_eq!(a, expected);
}

#[test]
fn empty_entry_list_has_no_tree() {
    assert_eq!(tree_body(Vec::new()), None);
    assert_eq!(build_tree(Vec::new()), None);
}

#[test]
fn directory_of_empty_directories_has_no_tree() {
    let listing = vec![
        ListedEntry { name: b"a".to_vec(), child: Child::Subtree { id: None } },
        ListedEntry { name: b"b".to_vec(), child: Child::Subtree { id: None } },
    ];
    assert_eq!(snapshot_tree(listing), None);
}

#[test]
fn empty_subdirectory_is_left_out_of_its_parent() {
    let listing = vec![
        ListedEntry { name: b"empty".to_vec(), child: Child::Subtree { id: None } },
        ListedEntry { name: b"file".to_vec(), child: Child::Blob { mode: Mode::Regular, id: [9; 20] } },
        ListedEntry { name: b"sub".to_vec(), child: Child::Subtree { id: Some([8; 20]) } },
    ];
    let (bytes, id) = snapshot_tree(listing).unwrap();
    let mut body = record("100644", "file", [9; 20]);
    body.extend(record("40000", "sub", [8; 20]));
    assert_eq!(id, compute_id(Kind::Tree, &body));
    assert!(!bytes.is_empty());
}

#[test]
fn tree_of_one_hello_file_has_the_git_id() {
    let blob = compute_id(Kind::Blob, b"hello\n");
    let listing = vec![ListedEntry {
        name: b"hello.txt".to_vec(),
        child: Child::Blob { mode: Mode::Regular, id: blob },
    }];
    let (_, id) = snapshot_tree(listing).unwrap();
    let body = record("100644", "hello.txt", blob);
    assert_eq!(id, compute_id(Kind::Tree, &body));
    assert_eq!(id_to_hex(&id).len(), 40);
}

#[test]
fn serialized_tree_parses_back() {
    let entries = vec![
        entry(Mode::Regular, "a b", 1),
        entry(Mode::Directory, "dir", 2),
        entry(Mode::Symlink, "l", 3),
    ];
    let body = serialize_entries(&entries);
    let back = parse_tree(&body).unwrap();
    assert_eq!(back, entries);
    assert_eq!(parse_tree(b"").unwrap(), Vec::<TreeEntry>::new());
}

#[test]
fn malformed_tree_bodies_are_corrupt() {
    let good = record("100644", "x", [1; 20]);
    assert_eq!(parse_tree(&good[..good.len() - 1]).unwrap_err(), ObjectError::CorruptObject);
    assert_eq!(parse_tree(&record("100664", "x", [1; 20])).unwrap_err(), ObjectError::CorruptObject);
    assert_eq!(parse_tree(b"100644x\0aaaaaaaaaaaaaaaaaaaa").unwrap_err(), ObjectError::CorruptObject);
    assert_eq!(parse_tree(b"100644 x").unwrap_err(), ObjectError::CorruptObject);
}

#[test]
fn modes_from_metadata() {
    assert_eq!(Mode::from_metadata(true, false, 0o755), Mode::Directory);
    assert_eq!(Mode::from_metadata(false, true, 0o777), Mode::Symlink);
    assert_eq!(Mode::from_metadata(false, false, 0o100755), Mode::Executable);
    assert_eq!(Mode::from_metadata(false, false, 0o100744), Mode::Executable);
    assert_eq!(Mode::from_metadata(false, false, 0o100644), Mode::Regular);
    assert_eq!(Mode::Directory.token(), b"40000".to_vec());
    assert_eq!(Mode::from_token(b"100755"), Some(Mode::Executable));
    assert_eq!(Mode::from_token(b"040000"), None);
}

#[test]
fn reserved_names() {
    assert!(is_reserved_name(b".git"));
    assert!(is_reserved_name(b"target"));
    assert!(!is_reserved_name(b".gitignore"));
    assert!(!is_reserved_name(b"src"));
}

#[test]
fn reserved_subdirectories_are_left_out() {
    let listing = vec![
        ListedEntry { name: b".git".to_vec(), child: Child::Subtree { id: Some([1; 20]) } },
        ListedEntry { name: b"target".to_vec(), child: Child::Subtree { id: Some([2; 20]) } },
        ListedEntry { name: b"a".to_vec(), child: Child::Blob { mode: Mode::Regular, id: [3; 20] } },
    ];
    let (_, id) = snapshot_tree(listing).unwrap();
    assert_eq!(id, compute_id(Kind::Tree, &record("100644", "a", [3; 20])));
    let only_reserved = vec![ListedEntry {
        name: b".git".to_vec(),
        child: Child::Subtree { id: Some([1; 20]) },
    }];
    assert_eq!(snapshot_tree(only_reserved), None);
}

#[test]
fn a_file_with_a_reserved_name_is_kept() {
    let listing = vec![ListedEntry {
        name: b"target".to_vec(),
        child: Child::Blob { mode: Mode::Regular, id: [4; 20] },
    }];
    let (_, id) = snapshot_tree(listing).unwrap();
    assert_eq!(id, compute_id(Kind::Tree, &record("100644", "target", [4; 20])));
}

#[test]
fn stored_tree_bytes_decode_to_the_tree() {
    let listing = vec![
        ListedEntry { name: b"z".to_vec(), child: Child::Blob { mode: Mode::Executable, id: [5; 20] } },
        ListedEntry { name: b"d".to_vec(), child: Child::Subtree { id: Some([6; 20]) } },
    ];
    let (bytes, _) = snapshot_tree(listing).unwrap();
    let mut body = record("40000", "d", [6; 20]);
    body.extend(record("100755", "z", [5; 20]));
    assert_eq!(load_object(&bytes).unwrap(), (Kind::Tree, body));
}
