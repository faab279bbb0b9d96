use neptungen::path::FsPath;
use neptungen::sha1dir::{
    begin, build_checksums, create_hashes, ChecksumsBuilder, HashError, Node, TreeEntry,
};
use neptungen::snapshot::{digest_eq, xor_digest, Digest, DigestMap};

fn hex(d: &Digest) -> String {
    d.iter().map(|b| format!("{:02x}", b)).collect()
}

fn file(path: &str, content: &str) -> TreeEntry {
    TreeEntry { path: FsPath::new(path), node: Node::File(content.as_bytes().to_vec()) }
}

fn dir(path: &str) -> TreeEntry {
    TreeEntry { path: FsPath::new(path), node: Node::Dir }
}

fn digest_of(map: &DigestMap, path: &str) -> String {
    hex(&map.get(&FsPath::new(path)).unwrap())
}

fn small_tree(a: &str) -> Vec<TreeEntry> {
    vec![file("./a.html", a), dir("./dir"), file("./dir/b.html", "hello")]
}

#[test]
fn header_holds_kind_length_and_path() {
    let h = begin(&FsPath::new("./a.html"), b'f');
    let mut expected = vec![b'f', 8, 0, 0, 0];
    expected.extend_from_slice(b"./a.html");
    assert_eq!(h, expected);
}

#[test]
fn header_length_is_little_endian() {
    let name = "x".repeat(300);
    let h = begin(&FsPath::new(&name), b'd');
    assert_eq!(&h[..5], &[b'd', 44, 1, 0, 0]);
    assert_eq!(h.len(), 5 + 300);
}

#[test]
fn file_digest_is_sha1_of_header_and_content() {
    let map = create_hashes(&vec![file("./a.html", "v1")]);
    assert_eq!(map.len(), 1);
    assert_eq!(digest_of(&map, "./a.html"), "3d15477bacfc2193a4852bf983f31a5efedd4550");
}

#[test]
fn empty_file_digest_is_sha1_of_header() {
    let map = create_hashes(&vec![file("./e", "")]);
    assert_eq!(digest_of(&map, "./e"), "b4cbcb5b8ed9e550175e811041fcf9a06333fe35");
}

#[test]
fn symlink_digest_covers_target() {
    let link = TreeEntry { path: FsPath::new("./link"), node: Node::Symlink(b"a.html".to_vec()) };
    let map = create_hashes(&vec![link]);
    assert_eq!(digest_of(&map, "./link"), "5313563bf4c7c9c734e7b498398304b227276571");
}

#[test]
fn directory_digest_combines_what_is_below() {
    let map = create_hashes(&small_tree("v1"));
    assert_eq!(map.len(), 3);
    assert_eq!(digest_of(&map, "./a.html"), "3d15477bacfc2193a4852bf983f31a5efedd4550");
    assert_eq!(digest_of(&map, "./dir/b.html"), "89830ef274baca0c3f03124c7e5d2135073f2cd0");
    assert_eq!(digest_of(&map, "./dir"), "fdd054af0d0292c1c162fa7b44245611cb735462");
}

#[test]
fn empty_directory_digest_is_its_header_alone() {
    let map = create_hashes(&vec![dir("./dir")]);
    assert_eq!(digest_of(&map, "./dir"), "74535a5d79b858cdfe61e8373a797724cc4c78b2");
}

#[test]
fn tree_root_is_never_a_key() {
    let map = create_hashes(&vec![dir("."), file("./a.html", "v1")]);
    assert_eq!(map.len(), 1);
    assert!(map.get(&FsPath::new(".")).is_none());
}

#[test]
fn order_of_entries_does_not_matter() {
    let forward = create_hashes(&small_tree("v1"));
    let backward =
        create_hashes(&vec![file("./dir/b.html", "hello"), dir("./dir"), file("./a.html", "v1")]);
    assert_eq!(forward.len(), backward.len());
    for i in 0..forward.len() {
        assert!(forward.path(i).same(backward.path(i)));
        assert!(digest_eq(&forward.digest(i), &backward.digest(i)));
    }
}

#[test]
fn map_is_in_path_order() {
    let map = create_hashes(&vec![
        file("./z", "1"),
        file("./dir/b", "2"),
        dir("./dir"),
        file("./a", "3"),
    ]);
    let keys: Vec<Vec<u8>> = (0..map.len()).map(|i| map.path(i).to_bytes()).collect();
    assert_eq!(keys, vec![b"./a".to_vec(), b"./dir".to_vec(), b"./dir/b".to_vec(), b"./z".to_vec()]);
}

#[test]
fn subtree_without_change_keeps_directory_digest() {
    let before = create_hashes(&small_tree("v1"));
    let after = create_hashes(&small_tree("v2"));
    assert_eq!(digest_of(&before, "./dir"), digest_of(&after, "./dir"));
    assert_eq!(digest_of(&after, "./a.html"), "19f3472766888ef8b9d03dd1fe1c0e7890798f91");
}

#[test]
fn changed_leaf_changes_every_directory_above() {
    let before = create_hashes(&vec![dir("./d"), dir("./d/e"), file("./d/e/f", "one")]);
    let after = create_hashes(&vec![dir("./d"), dir("./d/e"), file("./d/e/f", "onf")]);
    for key in ["./d", "./d/e", "./d/e/f"] {
        assert_ne!(digest_of(&before, key), digest_of(&after, key));
    }
}

#[test]
fn unreadable_entries_are_recorded_and_skipped() {
    let tree = vec![
        file("./a.html", "v1"),
        TreeEntry { path: FsPath::new("./pipe"), node: Node::Unsupported },
        TreeEntry { path: FsPath::new("./locked"), node: Node::Unreadable("denied".to_string()) },
    ];
    let checksums = build_checksums(&tree);
    assert_eq!(checksums.bytes_map().len(), 1);
    let errors = checksums.errors();
    assert_eq!(errors.len(), 2);
    assert!(errors[0].path.same(&FsPath::new("./pipe")));
    assert!(errors[0].cause.is_none());
    assert!(errors[1].path.same(&FsPath::new("./locked")));
    assert_eq!(errors[1].cause.as_deref(), Some("denied"));
}

#[test]
fn directories_are_remembered() {
    let checksums = build_checksums(&small_tree("v1"));
    assert!(checksums.is_dir(&FsPath::new("./dir")));
    assert!(!checksums.is_dir(&FsPath::new("./a.html")));
    assert!(!checksums.is_dir(&FsPath::new("./missing")));
}

#[test]
fn builder_put_reaches_every_directory_above() {
    let mut builder = ChecksumsBuilder::new();
    let d: Digest = [7u8; 20];
    builder.put(&FsPath::new("./x/y/z"), &d);
    builder.put(&FsPath::new("./x/w"), &d);
    let c = builder.into();
    let map = c.bytes_map();
    assert_eq!(map.len(), 4);
    assert_eq!(map.get(&FsPath::new("./x")).unwrap(), [0u8; 20]);
    assert_eq!(map.get(&FsPath::new("./x/y")).unwrap(), d);
    assert_eq!(map.get(&FsPath::new("./x/y/z")).unwrap(), d);
    assert_eq!(map.get(&FsPath::new("./x/w")).unwrap(), d);
}

#[test]
fn builder_put_of_absolute_path_stops_at_the_root() {
    let mut builder = ChecksumsBuilder::new();
    let d: Digest = [1u8; 20];
    builder.put(&FsPath::new("/a/b"), &d);
    let c = builder.into();
    let keys: Vec<Vec<u8>> =
        (0..c.bytes_map().len()).map(|i| c.bytes_map().path(i).to_bytes()).collect();
    assert_eq!(keys, vec![b"/".to_vec(), b"/a".to_vec(), b"/a/b".to_vec()]);
}

#[test]
fn builder_records_errors() {
    let mut builder = ChecksumsBuilder::new();
    builder.report_error(HashError { path: FsPath::new("./x"), cause: Some("gone".to_string()) });
    let c = builder.into();
    assert_eq!(c.errors().len(), 1);
    assert_eq!(c.bytes_map().len(), 0);
}

#[test]
fn xor_combines_bytewise() {
    let a: Digest = [0xf0; 20];
    let mut b: Digest = [0x0f; 20];
    b[3] = 0xf0;
    let x = xor_digest(&a, &b);
    let mut expected: Digest = [0xff; 20];
    expected[3] = 0;
    assert_eq!(x, expected);
    assert!(digest_eq(&xor_digest(&x, &b), &a));
}

#[test]
fn checksums_as_text() {
    let tree = vec![
        file("./a.html", "v1"),
        TreeEntry { path: FsPath::new("./pipe"), node: Node::Unsupported },
        TreeEntry { path: FsPath::new("./locked"), node: Node::Unreadable("denied".to_string()) },
    ];
    let text = String::from_utf8(build_checksums(&tree).to_text()).unwrap();
    assert_eq!(
        text,
        "./a.html 3d15477bacfc2193a4852bf983f31a5efedd4550\n\
         Following errors occurred: \n./pipe: \n./locked: denied\n"
    );
    let clean = String::from_utf8(build_checksums(&small_tree("v1")).to_text()).unwrap();
    assert_eq!(clean.lines().count(), 3);
    assert!(!clean.contains("errors"));
    let mut builder = ChecksumsBuilder::new();
    builder.put(&FsPath::new("./x"), &[0xab; 20]);
    assert_eq!(
        String::from_utf8(builder.to_text()).unwrap(),
        format!("./x {}\n", "ab".repeat(20))
    );
}
