use neptungen::config::Config;
use neptungen::filter::{
    contains_markdown_file, is_image, is_markdown, is_modified_markdown, is_not_hidden,
};
use neptungen::render::{
    is_file_modified, menu_cmd, prepare_site_structure, remove_number_prefix, root_dir,
    strip_number_prefix, thumb_file_name, MenuCmd, NavDir,
};

#[test]
fn remove_numbered_prefix_default_config() {
    let conf = Config::default();
    assert_eq!(remove_number_prefix("name", &conf), "name");
    assert_eq!(remove_number_prefix("foo_name", &conf), "foo_name");
    assert_eq!(remove_number_prefix("foo_1_name", &conf), "foo_1_name");
    assert_eq!(remove_number_prefix("1_", &conf), "1_");
    assert_eq!(remove_number_prefix("_name", &conf), "_name");
    assert_eq!(remove_number_prefix("1_name", &conf), "name");
    assert_eq!(remove_number_prefix("12_name", &conf), "name");
    assert_eq!(remove_number_prefix("123_name", &conf), "name");
}

#[test]
fn remove_numbered_prefix_explicit_true() {
    let conf = Config { remove_numbered_prefix: Some(true), ..Default::default() };
    assert_eq!(remove_number_prefix("name", &conf), "name");
    assert_eq!(remove_number_prefix("foo_name", &conf), "foo_name");
    assert_eq!(remove_number_prefix("foo_1_name", &conf), "foo_1_name");
    assert_eq!(remove_number_prefix("1_", &conf), "1_");
    assert_eq!(remove_number_prefix("_name", &conf), "_name");
    assert_eq!(remove_number_prefix("1_name", &conf), "name");
    assert_eq!(remove_number_prefix("12_name", &conf), "name");
    assert_eq!(remove_number_prefix("123_name", &conf), "name");
}

#[test]
fn remove_numbered_prefix_explicit_false() {
    let conf = Config { remove_numbered_prefix: Some(false), ..Default::default() };
    assert_eq!(remove_number_prefix("name", &conf), "name");
    assert_eq!(remove_number_prefix("foo_name", &conf), "foo_name");
    assert_eq!(remove_number_prefix("foo_1_name", &conf), "foo_1_name");
    assert_eq!(remove_number_prefix("1_", &conf), "1_");
    assert_eq!(remove_number_prefix("_name", &conf), "_name");
    assert_eq!(remove_number_prefix("1_name", &conf), "1_name");
    assert_eq!(remove_number_prefix("12_name", &conf), "12_name");
    assert_eq!(remove_number_prefix("123_name", &conf), "123_name");
}

#[test]
fn number_prefix_keeps_later_underscores() {
    let conf = Config::default();
    assert_eq!(remove_number_prefix("01_my_page", &conf), "my_page");
    assert_eq!(remove_number_prefix("7_\u{e4}bc", &conf), "\u{e4}bc");
}

#[test]
fn strip_follows_the_given_answer() {
    let conf = Config::default();
    assert_eq!(strip_number_prefix("1_name", &conf, true), "name");
    assert_eq!(strip_number_prefix("1_name", &conf, false), "1_name");
    assert_eq!(strip_number_prefix("name", &conf, true), "name");
    assert_eq!(strip_number_prefix("a_", &conf, true), "");
    let off = Config { remove_numbered_prefix: Some(false), ..Default::default() };
    assert_eq!(strip_number_prefix("1_name", &off, true), "1_name");
}

#[test]
fn markdown_names() {
    assert!(is_markdown("page.md"));
    assert!(is_markdown("page.MD"));
    assert!(is_markdown("a.b.Md"));
    assert!(!is_markdown("page.mdx"));
    assert!(!is_markdown("page.m"));
    assert!(!is_markdown("md"));
    assert!(!is_markdown(".md"));
    assert!(!is_markdown("page.md."));
    assert!(!is_markdown(".."));
    assert!(!is_markdown(""));
    assert!(is_markdown("..md"));
}

#[test]
fn image_names() {
    assert!(is_image("a.jpg"));
    assert!(is_image("a.PNG"));
    assert!(is_image("a.Gif"));
    assert!(!is_image("a.jpeg"));
    assert!(!is_image("jpg"));
    assert!(!is_image(".png"));
}

#[test]
fn hidden_names() {
    assert!(is_not_hidden("page"));
    assert!(is_not_hidden(""));
    assert!(!is_not_hidden(".git"));
    assert!(!is_not_hidden("_output"));
    assert!(is_not_hidden("a_b.c"));
}

#[test]
fn modified_markdown() {
    assert!(is_modified_markdown("a.md", Some(11), 10));
    assert!(!is_modified_markdown("a.md", Some(10), 10));
    assert!(!is_modified_markdown("a.md", Some(9), 10));
    assert!(is_modified_markdown("a.md", None, 10));
    assert!(!is_modified_markdown("a.txt", Some(11), 10));
    assert!(!is_modified_markdown("a.txt", None, 10));
}

#[test]
fn menu_commands() {
    assert_eq!(menu_cmd(true, 3, 1), (MenuCmd::CloseOpenLevel, 1));
    assert_eq!(menu_cmd(true, 1, 1), (MenuCmd::OpenLevel, 0));
    assert_eq!(menu_cmd(true, 1, 2), (MenuCmd::OpenLevel, 0));
    assert_eq!(menu_cmd(false, 2, 1), (MenuCmd::CloseLevel, 0));
    assert_eq!(menu_cmd(false, 4, 1), (MenuCmd::CloseLevel, 2));
    assert_eq!(menu_cmd(false, 1, 1), (MenuCmd::Unchanged, 0));
    assert_eq!(menu_cmd(false, 1, 2), (MenuCmd::Unchanged, 0));
}

#[test]
fn menu_command_names() {
    assert_eq!(MenuCmd::OpenLevel.name(), "OpenLevel");
    assert_eq!(MenuCmd::CloseLevel.name(), "CloseLevel");
    assert_eq!(MenuCmd::CloseOpenLevel.name(), "CloseOpenLevel");
    assert_eq!(MenuCmd::Unchanged.name(), "None");
}

fn nav_dir(name: &str, url: &str, depth: usize, sub: bool) -> NavDir {
    NavDir { file_name: name.to_string(), url: url.to_string(), depth, has_markdown_subdir: sub }
}

#[test]
fn site_structure() {
    let dirs = vec![
        nav_dir("1_Posts", "1_Posts", 1, true),
        nav_dir("a", "1_Posts/a", 2, false),
        nav_dir("b", "1_Posts/b", 2, false),
        nav_dir("2_About", "2_About", 1, false),
    ];
    let menu = prepare_site_structure(&dirs, &Config::default());
    let seen: Vec<(&str, &str, MenuCmd, usize)> =
        menu.iter().map(|e| (e.name.as_str(), e.url.as_str(), e.menu_cmd, e.level_depth)).collect();
    assert_eq!(
        seen,
        vec![
            ("Posts", "1_Posts/index.html", MenuCmd::OpenLevel, 0),
            ("a", "1_Posts/a/index.html", MenuCmd::Unchanged, 0),
            ("b", "1_Posts/b/index.html", MenuCmd::Unchanged, 0),
            ("About", "2_About/index.html", MenuCmd::CloseLevel, 0),
        ]
    );
}

#[test]
fn site_structure_closes_open_levels_at_the_end() {
    let dirs = vec![nav_dir("top", "top", 1, true), nav_dir("deep", "top/x/deep", 3, false)];
    let menu = prepare_site_structure(&dirs, &Config::default());
    assert_eq!(menu.len(), 3);
    assert_eq!((menu[2].name.as_str(), menu[2].url.as_str()), ("", ""));
    assert_eq!((menu[2].menu_cmd, menu[2].level_depth), (MenuCmd::CloseLevel, 2));
    assert!(prepare_site_structure(&Vec::new(), &Config::default()).is_empty());
}

#[test]
fn way_back_to_the_root() {
    assert_eq!(root_dir("./", 1), "./");
    assert_eq!(root_dir("./", 0), "./");
    assert_eq!(root_dir("./", 3), "./../../");
    assert_eq!(root_dir("", 2), "../");
}

#[test]
fn copies_out_of_date() {
    assert!(!is_file_modified(Some(5), Some(5)));
    assert!(is_file_modified(Some(5), Some(6)));
    assert!(is_file_modified(None, Some(6)));
    assert!(is_file_modified(Some(5), None));
    assert!(is_file_modified(None, None));
}

#[test]
fn thumbnail_names() {
    assert_eq!(thumb_file_name("cat"), "cat_thumb.png");
}

#[test]
fn markdown_among_names() {
    let names = |v: &[&str]| v.iter().map(|s| s.to_string()).collect::<Vec<_>>();
    assert!(contains_markdown_file(&names(&["a.txt", "b.MD"])));
    assert!(!contains_markdown_file(&names(&["a.txt", "md"])));
    assert!(!contains_markdown_file(&names(&[])));
}
