use neptungen::path::{
    bytes_eq, bytes_less, comp_as_str, last_path_comp_as_str, FsPath, PathError,
};

fn comps(p: &FsPath) -> Vec<String> {
    (0..p.len()).map(|i| String::from_utf8(p.comp(i).to_vec()).unwrap()).collect()
}

#[test]
fn test_comp_as_str() {
    let p = FsPath::new("/a");
    assert_eq!(comp_as_str(p.comp(p.len() - 1)).unwrap(), "a");
}

#[test]
fn test_last_path_comp_as_str() {
    let p = FsPath::new("/a/b");
    assert_eq!(last_path_comp_as_str(&p).unwrap(), "b");
}

#[test]
fn comp_as_str_decodes_utf8() {
    assert_eq!(comp_as_str("gr\u{fc}n".as_bytes()).unwrap(), "gr\u{fc}n");
}

#[test]
fn comp_as_str_refuses_invalid_utf8() {
    match comp_as_str(&[0x66, 0xff, 0x6f]) {
        Err(PathError::NotUnicode(bytes)) => assert_eq!(bytes, vec![0x66, 0xff, 0x6f]),
        other => panic!("unexpected: {:?}", other),
    }
}

#[test]
fn last_component_of_empty_path_is_missing() {
    let p = FsPath::new("");
    assert!(matches!(last_path_comp_as_str(&p), Err(PathError::NoLastComponent)));
    assert_eq!(
        PathError::NoLastComponent.message(),
        "Invalid last path component"
    );
}

#[test]
fn parse_absolute_path() {
    assert_eq!(comps(&FsPath::new("/www/site")), vec!["/", "www", "site"]);
}

#[test]
fn parse_relative_path_keeps_leading_dot() {
    assert_eq!(comps(&FsPath::new("./dir/b.html")), vec![".", "dir", "b.html"]);
}

#[test]
fn parse_skips_empty_and_inner_dot_components() {
    assert_eq!(comps(&FsPath::new("a//b/./c/")), vec!["a", "b", "c"]);
    assert_eq!(comps(&FsPath::new("/./a")), vec!["/", "a"]);
    assert_eq!(comps(&FsPath::new("a/../b")), vec!["a", "..", "b"]);
}

#[test]
fn parse_empty_text_gives_empty_path() {
    assert_eq!(FsPath::new("").len(), 0);
    assert_eq!(FsPath::empty().len(), 0);
}

#[test]
fn text_of_path_joins_components() {
    assert_eq!(FsPath::new("/www/site").to_bytes(), b"/www/site".to_vec());
    assert_eq!(FsPath::new("./dir/b.html").to_bytes(), b"./dir/b.html".to_vec());
    assert_eq!(FsPath::new("a//b/").to_bytes(), b"a/b".to_vec());
    assert_eq!(FsPath::new("/").to_bytes(), b"/".to_vec());
    assert_eq!(FsPath::new("").to_bytes(), b"".to_vec());
}

#[test]
fn push_adds_one_component() {
    let mut p = FsPath::new("www");
    p.push(b"site");
    assert_eq!(comps(&p), vec!["www", "site"]);
    p.push(b"");
    p.push(b".");
    assert_eq!(comps(&p), vec!["www", "site"]);
    let mut q = FsPath::empty();
    q.push(b".");
    assert_eq!(comps(&q), vec!["."]);
}

#[test]
fn pop_removes_last_component() {
    let mut p = FsPath::new("/a/b");
    assert!(p.pop());
    assert_eq!(comps(&p), vec!["/", "a"]);
    assert!(p.pop());
    assert_eq!(comps(&p), vec!["/"]);
    assert!(!p.pop());
    assert_eq!(comps(&p), vec!["/"]);
    let mut e = FsPath::empty();
    assert!(!e.pop());
    let mut r = FsPath::new("./a");
    assert!(r.pop());
    assert_eq!(comps(&r), vec!["."]);
    assert!(r.pop());
    assert_eq!(r.len(), 0);
}

#[test]
fn starts_with_compares_whole_components() {
    let dir = FsPath::new("./dir");
    assert!(FsPath::new("./dir/b.html").starts_with(&dir));
    assert!(FsPath::new("./dir").starts_with(&dir));
    assert!(!FsPath::new("./dir2/b.html").starts_with(&dir));
    assert!(!FsPath::new("./di").starts_with(&dir));
    assert!(FsPath::new("./dir").starts_with(&FsPath::empty()));
}

#[test]
fn same_and_duplicate() {
    let p = FsPath::new("./a/b");
    assert!(p.same(&p.duplicate()));
    assert!(!p.same(&FsPath::new("./a")));
    assert!(!p.same(&FsPath::new("./a/c")));
}

#[test]
fn order_is_by_components() {
    // the text "a.b" sorts before "a/b", the path "a/b" before "a.b"
    assert!(FsPath::new("a/b").less(&FsPath::new("a.b")));
    assert!(!FsPath::new("a.b").less(&FsPath::new("a/b")));
    assert!(FsPath::new("./dir").less(&FsPath::new("./dir/b.html")));
    assert!(FsPath::new("./a.html").less(&FsPath::new("./dir")));
    assert!(!FsPath::new("./dir").less(&FsPath::new("./dir")));
    assert!(FsPath::new("").less(&FsPath::new("a")));
}

#[test]
fn everything_below_a_directory_follows_it_without_a_gap() {
    let dir = FsPath::new("./d");
    let inside = FsPath::new("./d/z");
    let between = FsPath::new("./d/a");
    assert!(dir.less(&between) && between.less(&inside));
    assert!(between.starts_with(&dir));
    let outside = FsPath::new("./d.txt");
    assert!(inside.less(&outside));
}

#[test]
fn bytes_compare() {
    assert!(bytes_eq(b"abc", b"abc"));
    assert!(!bytes_eq(b"abc", b"abd"));
    assert!(!bytes_eq(b"abc", b"ab"));
    assert!(bytes_less(b"ab", b"abc"));
    assert!(bytes_less(b"abc", b"abd"));
    assert!(!bytes_less(b"abd", b"abc"));
    assert!(!bytes_less(b"abc", b"abc"));
    assert!(bytes_less(b"", b"a"));
}

#[test]
fn from_components_keeps_them_as_they_stand() {
    let p = FsPath::from_components(vec![b".".to_vec(), b"a".to_vec()]);
    assert!(p.same(&FsPath::new("./a")));
}
