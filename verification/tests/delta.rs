use neptungen::delta::{delta, Mutation};
use neptungen::path::FsPath;
use neptungen::sha1dir::{build_checksums, Checksums, Node, TreeEntry};
use neptungen::snapshot::DigestMap;

fn file(path: &str, content: &str) -> TreeEntry {
    TreeEntry { path: FsPath::new(path), node: Node::File(content.as_bytes().to_vec()) }
}

fn dir(path: &str) -> TreeEntry {
    TreeEntry { path: FsPath::new(path), node: Node::Dir }
}

fn tree(entries: Vec<TreeEntry>) -> Checksums {
    build_checksums(&entries)
}

fn prior(entries: Vec<TreeEntry>) -> DigestMap {
    build_checksums(&entries).into_map()
}

fn show(plan: &[Mutation]) -> Vec<String> {
    plan.iter()
        .map(|m| match m {
            Mutation::Create { path, is_dir, nested } => format!(
                "create{}{} {}",
                if *is_dir { " dir" } else { "" },
                if *nested { " nested" } else { "" },
                String::from_utf8(path.to_bytes()).unwrap()
            ),
            Mutation::Update { path, is_dir } => format!(
                "update{} {}",
                if *is_dir { " dir" } else { "" },
                String::from_utf8(path.to_bytes()).unwrap()
            ),
            Mutation::Delete { path } => {
                format!("delete {}", String::from_utf8(path.to_bytes()).unwrap())
            }
        })
        .collect()
}

#[test]
fn unchanged_tree_gives_empty_delta() {
    let entries = || vec![file("./a.html", "v1"), dir("./dir"), file("./dir/b.html", "x")];
    assert!(delta(&tree(entries()), &prior(entries())).is_empty());
}

#[test]
fn empty_prior_creates_everything() {
    let plan = delta(
        &tree(vec![file("./a.html", "v1"), dir("./dir"), file("./dir/b.html", "x")]),
        &DigestMap::new(),
    );
    assert_eq!(
        show(&plan),
        vec!["create ./a.html", "create dir ./dir", "create nested ./dir/b.html"]
    );
}

#[test]
fn changed_file_is_updated_and_unchanged_directory_skipped() {
    let plan = delta(
        &tree(vec![file("./a.html", "v2"), dir("./dir"), file("./dir/b.html", "x")]),
        &prior(vec![file("./a.html", "v1"), dir("./dir"), file("./dir/b.html", "x")]),
    );
    assert_eq!(show(&plan), vec!["update ./a.html"]);
}

#[test]
fn changed_file_below_directory_updates_both() {
    let plan = delta(
        &tree(vec![file("./a.html", "v1"), dir("./dir"), file("./dir/b.html", "y")]),
        &prior(vec![file("./a.html", "v1"), dir("./dir"), file("./dir/b.html", "x")]),
    );
    assert_eq!(show(&plan), vec!["update dir ./dir", "update ./dir/b.html"]);
}

#[test]
fn deleted_file_is_deleted_and_its_directory_updated() {
    let plan = delta(
        &tree(vec![file("./a.html", "v1"), dir("./dir")]),
        &prior(vec![file("./a.html", "v1"), dir("./dir"), file("./dir/b.html", "x")]),
    );
    assert_eq!(show(&plan), vec!["update dir ./dir", "delete ./dir/b.html"]);
}

#[test]
fn deleted_directory_goes_after_what_it_held() {
    let plan = delta(
        &tree(vec![file("./a.html", "v1")]),
        &prior(vec![
            file("./a.html", "v1"),
            dir("./dir"),
            file("./dir/b.html", "x"),
            dir("./dir/sub"),
            file("./dir/sub/c.html", "y"),
            file("./z.html", "z"),
        ]),
    );
    assert_eq!(
        show(&plan),
        vec![
            "delete ./z.html",
            "delete ./dir/sub/c.html",
            "delete ./dir/sub",
            "delete ./dir/b.html",
            "delete ./dir"
        ]
    );
}

#[test]
fn rename_is_delete_and_create() {
    let plan = delta(
        &tree(vec![dir("./dir"), file("./dir/new.html", "same")]),
        &prior(vec![dir("./dir"), file("./dir/old.html", "same")]),
    );
    assert_eq!(
        show(&plan),
        vec!["update dir ./dir", "create ./dir/new.html", "delete ./dir/old.html"]
    );
}

#[test]
fn new_directory_stands_for_what_is_below() {
    let plan = delta(
        &tree(vec![
            dir("./new"),
            file("./new/a", "1"),
            dir("./new/sub"),
            file("./new/sub/b", "2"),
            file("./other", "3"),
        ]),
        &prior(vec![file("./other", "0")]),
    );
    assert_eq!(
        show(&plan),
        vec![
            "create dir ./new",
            "create nested ./new/a",
            "create dir nested ./new/sub",
            "create nested ./new/sub/b",
            "update ./other"
        ]
    );
}

#[test]
fn directory_replaced_by_file_is_an_update_of_the_path() {
    let plan = delta(
        &tree(vec![file("./x", "now a file")]),
        &prior(vec![dir("./x"), file("./x/inner", "1")]),
    );
    assert_eq!(show(&plan), vec!["update ./x", "delete ./x/inner"]);
}

#[test]
fn file_replaced_by_directory_is_an_update_of_the_path() {
    let plan = delta(
        &tree(vec![dir("./x"), file("./x/inner", "1")]),
        &prior(vec![file("./x", "was a file")]),
    );
    assert_eq!(show(&plan), vec!["update dir ./x", "create ./x/inner"]);
}

#[test]
fn path_below_new_directory_that_the_earlier_map_holds_is_created_and_deleted() {
    // the earlier map holds a path below a directory that it does not hold
    let mut earlier = DigestMap::new();
    assert!(earlier.append(FsPath::new("./new/a"), [5u8; 20]));
    let plan = delta(&tree(vec![dir("./new"), file("./new/a", "1")]), &earlier);
    assert_eq!(
        show(&plan),
        vec!["create dir ./new", "create nested ./new/a", "delete ./new/a"]
    );
}
