//! The rules of the site's structure: names, menus and relative links.
//!
//! The pages themselves are rendered elsewhere. Here stands what is decided
//! on the way: how a directory is named in the menu, which menu levels its
//! entry opens and closes, how a page finds back to the root of the site,
//! and whether a copy is out of date.

use crate::config::{join_text, joined, Config};
use regex::Regex;
use vstd::prelude::*;
use vstd::string::StrSliceExecFns;
use vstd::string::StringExecFns;

verus! {

/// The pattern of a name with a number in front: digits, an underscore and
/// at least one more character.
pub const NUMBER_PREFIX_PATTERN: &'static str = "^[0-9]+_.+$";

/// The name of the page that stands for a directory.
pub const INDEX_FILE_NAME: &'static str = "index.html";

/// What an entry of the menu does to the levels of the menu.
#[derive(Debug, Clone, Copy, Hash, PartialEq, Eq, PartialOrd, Ord, Structural)]
pub enum MenuCmd {
    OpenLevel,
    CloseLevel,
    CloseOpenLevel,
    /// The entry leaves the levels as they are. The templates know this
    /// command as `None`.
    Unchanged,
}

impl MenuCmd {
    /// The command's name, as the templates know it.
    pub fn name(&self) -> (text: &'static str)
        ensures
            text@ == (match *self {
                MenuCmd::OpenLevel => "OpenLevel"@,
                MenuCmd::CloseLevel => "CloseLevel"@,
                MenuCmd::CloseOpenLevel => "CloseOpenLevel"@,
                MenuCmd::Unchanged => "None"@,
            }),
    {
        match self {
            MenuCmd::OpenLevel => "OpenLevel",
            MenuCmd::CloseLevel => "CloseLevel",
            MenuCmd::CloseOpenLevel => "CloseOpenLevel",
            MenuCmd::Unchanged => "None",
        }
    }
}

/// Whether the regular expression `pattern` matches in `text`. Text that is
/// no regular expression matches nothing.
pub uninterp spec fn regex_is_match(pattern: Seq<char>, text: Seq<char>) -> bool;

/// Asks `regex::Regex::is_match` whether the regular expression `pattern`
/// matches in `text`; a pattern that `regex::Regex::new` refuses matches
/// nothing.
#[verifier::external_body]
fn pattern_matches(pattern: &str, text: &str) -> (found: bool)
    ensures
        found == regex_is_match(pattern@, text@),
{
    match Regex::new(pattern) {
        Ok(re) => re.is_match(text),
        Err(_) => false,
    }
}

/// `k` is the position of the first `c` in `s`.
pub open spec fn is_first(s: Seq<char>, c: char, k: int) -> bool {
    &&& 0 <= k < s.len()
    &&& s[k] == c
    &&& forall|j: int| 0 <= j < k ==> s[j] != c
}

/// What follows the first `c` in `s`; all of `s` where it holds no `c`.
pub open spec fn after_first(s: Seq<char>, c: char) -> Seq<char> {
    if exists|k: int| is_first(s, c, k) {
        s.skip((choose|k: int| is_first(s, c, k)) + 1)
    } else {
        s
    }
}

/// Whether the settings ask for numbers in front of names to be removed:
/// they do unless they say otherwise.
pub open spec fn removes_prefix(conf: Config) -> bool {
    match conf.remove_numbered_prefix {
        Some(b) => b,
        None => true,
    }
}

/// The name as the menu shows it, after a check of the name against the
/// pattern of numbered names gave `numbered`: where the settings ask for it,
/// a numbered name loses what stands up to its first underscore.
pub fn strip_number_prefix<'a>(name: &'a str, conf: &Config, numbered: bool) -> (shown: &'a str)
    ensures
        shown@ == (if removes_prefix(*conf) && numbered {
            after_first(name@, '_')
        } else {
            name@
        }),
{
    let enabled = match conf.remove_numbered_prefix {
        Some(b) => b,
        None => true,
    };
    if !(enabled && numbered) {
        return name;
    }
    let n = name.unicode_len();
    let mut i: usize = 0;
    while i < n
        invariant
            i <= n,
            n == name@.len(),
            removes_prefix(*conf) && numbered,
            forall|j: int| 0 <= j < i ==> name@[j] != '_',
        decreases n - i,
    {
        if name.get_char(i) == '_' {
            proof {
                assert(is_first(name@, '_', i as int));
                let k = choose|k: int| is_first(name@, '_', k);
                assert(k == i) by {
                    if k < i {
                        assert(name@[k] != '_');
                    }
                    if k > i {
                        assert(name@[i as int] != '_');
                    }
                }
            }
            let tail = name.substring_char(i + 1, n);
            assert(tail@ =~= name@.skip(i + 1));
            return tail;
        }
        i += 1;
    }
    assert forall|k: int| !is_first(name@, '_', k) by {}
    name
}

/// The name as the menu shows it: where the settings ask for it, a name
/// that starts with a number and an underscore loses both.
pub fn remove_number_prefix<'a>(name: &'a str, conf: &Config) -> (shown: &'a str)
    ensures
        shown@ == (if removes_prefix(*conf) && regex_is_match(NUMBER_PREFIX_PATTERN@, name@) {
            after_first(name@, '_')
        } else {
            name@
        }),
{
    strip_number_prefix(name, conf, pattern_matches(NUMBER_PREFIX_PATTERN, name))
}

/// What the menu entry of a directory at the depth `depth` does to the
/// levels of the menu, and how many levels it closes besides: it closes
/// levels where the entry before it lay deeper, and opens one where the
/// directory holds directories with pages.
pub open spec fn menu_step(has_subdir: bool, prev_depth: nat, depth: nat) -> (MenuCmd, nat) {
    if prev_depth > depth {
        (
            if has_subdir {
                MenuCmd::CloseOpenLevel
            } else {
                MenuCmd::CloseLevel
            },
            (prev_depth - depth - 1) as nat,
        )
    } else if has_subdir {
        (MenuCmd::OpenLevel, 0)
    } else {
        (MenuCmd::Unchanged, 0)
    }
}

/// What the menu entry of a directory does to the levels of the menu.
pub fn menu_cmd(has_subdir: bool, prev_depth: usize, depth: usize) -> (r: (MenuCmd, usize))
    ensures
        (r.0, r.1 as nat) == menu_step(has_subdir, prev_depth as nat, depth as nat),
{
    match (has_subdir, prev_depth > depth) {
        (true, true) => (MenuCmd::CloseOpenLevel, prev_depth - depth - 1),
        (true, false) => (MenuCmd::OpenLevel, 0),
        (false, true) => (MenuCmd::CloseLevel, prev_depth - depth - 1),
        _ => (MenuCmd::Unchanged, 0),
    }
}

/// A directory with pages, as the walk of the project found it.
#[derive(Debug)]
pub struct NavDir {
    /// The name of the directory.
    pub file_name: String,
    /// The path of the directory, seen from the project's root.
    pub url: String,
    /// How deep the directory lies below the project's root, which has the
    /// depth 0.
    pub depth: usize,
    /// Whether the directory holds directories with pages.
    pub has_markdown_subdir: bool,
}

/// One entry of the menu.
#[derive(Debug)]
pub struct NavEntry {
    pub name: String,
    pub url: String,
    pub menu_cmd: MenuCmd,
    pub level_depth: usize,
}

/// One entry of the menu as a plain value.
pub struct NavItem {
    pub name: Seq<char>,
    pub url: Seq<char>,
    pub menu_cmd: MenuCmd,
    pub level_depth: nat,
}

impl View for NavEntry {
    type V = NavItem;

    open spec fn view(&self) -> NavItem {
        NavItem {
            name: self.name@,
            url: self.url@,
            menu_cmd: self.menu_cmd,
            level_depth: self.level_depth as nat,
        }
    }
}

/// The entries of a menu as plain values.
pub open spec fn nav_items(v: Seq<NavEntry>) -> Seq<NavItem> {
    Seq::new(v.len(), |i: int| v[i]@)
}

/// The depth of the directory before the one at position `i`; the first
/// directory follows the depth 1.
pub open spec fn depth_before(dirs: Seq<NavDir>, i: int) -> nat {
    if i == 0 {
        1
    } else {
        dirs[i - 1].depth as nat
    }
}

/// The menu entry of the directory at position `i`.
pub open spec fn nav_item(dirs: Seq<NavDir>, conf: Config, i: int) -> NavItem {
    let step = menu_step(dirs[i].has_markdown_subdir, depth_before(dirs, i), dirs[i].depth as nat);
    NavItem {
        name: if removes_prefix(conf) && regex_is_match(
            NUMBER_PREFIX_PATTERN@,
            dirs[i].file_name@,
        ) {
            after_first(dirs[i].file_name@, '_')
        } else {
            dirs[i].file_name@
        },
        url: joined(dirs[i].url@, INDEX_FILE_NAME@),
        menu_cmd: step.0,
        level_depth: step.1,
    }
}

/// The entry that closes the levels left open behind the last directory.
pub open spec fn closing_item(depth: nat) -> NavItem {
    NavItem {
        name: Seq::empty(),
        url: Seq::empty(),
        menu_cmd: MenuCmd::CloseLevel,
        level_depth: (depth - 1) as nat,
    }
}

/// The menu of the directories `dirs`: an entry for each, and one more that
/// closes the levels left open where the last directory lies below the
/// first level.
pub open spec fn nav_menu(dirs: Seq<NavDir>, conf: Config) -> Seq<NavItem> {
    let entries = Seq::new(dirs.len(), |i: int| nav_item(dirs, conf, i));
    if depth_before(dirs, dirs.len() as int) > 1 {
        entries.push(closing_item(depth_before(dirs, dirs.len() as int)))
    } else {
        entries
    }
}

/// The menu of the site: one entry for each directory with pages, in the
/// order of `dirs`, each with the name that the menu shows, the link to its
/// page and what it does to the levels of the menu.
pub fn prepare_site_structure(dirs: &Vec<NavDir>, conf: &Config) -> (nav_entries: Vec<NavEntry>)
    ensures
        nav_items(nav_entries@) == nav_menu(dirs@, *conf),
{
    let mut nav_entries: Vec<NavEntry> = Vec::new();
    let mut prev_depth: usize = 1;
    let mut i: usize = 0;
    while i < dirs.len()
        invariant
            i <= dirs.len(),
            prev_depth as nat == depth_before(dirs@, i as int),
            nav_items(nav_entries@) == Seq::new(i as nat, |j: int| nav_item(dirs@, *conf, j)),
        decreases dirs.len() - i,
    {
        let entry = &dirs[i];
        let name = String::from_str(remove_number_prefix(entry.file_name.as_str(), conf));
        let url = join_text(entry.url.as_str(), INDEX_FILE_NAME);
        let (menu_cmd, level_depth) = menu_cmd(entry.has_markdown_subdir, prev_depth, entry.depth);
        let ghost before = nav_items(nav_entries@);
        let nav_entry = NavEntry { name, url, menu_cmd, level_depth };
        assert(nav_entry@ == nav_item(dirs@, *conf, i as int));
        nav_entries.push(nav_entry);
        assert(nav_items(nav_entries@) =~= before.push(nav_item(dirs@, *conf, i as int)));
        assert(nav_items(nav_entries@) =~= Seq::new(
            (i + 1) as nat,
            |j: int| nav_item(dirs@, *conf, j),
        ));
        prev_depth = entry.depth;
        i += 1;
    }
    if prev_depth > 1 {
        let ghost before = nav_items(nav_entries@);
        let closing = NavEntry {
            name: String::new(),
            url: String::new(),
            menu_cmd: MenuCmd::CloseLevel,
            level_depth: prev_depth - 1,
        };
        assert(closing@ == closing_item(prev_depth as nat));
        nav_entries.push(closing);
        assert(nav_items(nav_entries@) =~= before.push(closing_item(prev_depth as nat)));
    }
    nav_entries
}

/// `n` times the step up to the parent directory.
pub open spec fn steps_up(n: nat) -> Seq<char>
    decreases n,
{
    if n == 0 {
        Seq::empty()
    } else {
        steps_up((n - 1) as nat) + "../"@
    }
}

/// The way from a page at the depth `depth` back to the root of the site:
/// `start` and one step up for each level below the first.
pub fn root_dir(start: &str, depth: usize) -> (way: String)
    ensures
        way@ == start@ + steps_up(
            if depth > 1 {
                (depth - 1) as nat
            } else {
                0
            },
        ),
{
    let mut way = String::from_str(start);
    let mut i: usize = 1;
    assert(way@ =~= start@ + steps_up(0));
    while i < depth
        invariant
            1 <= i,
            i <= depth || i == 1,
            way@ == start@ + steps_up((i - 1) as nat),
        decreases depth - i,
    {
        way.append("../");
        assert(way@ =~= start@ + steps_up(i as nat));
        i += 1;
    }
    way
}

/// Whether the copy of a file is out of date: the two were not modified at
/// the same time, or one of the times is not known.
pub fn is_file_modified(src_modified: Option<u128>, trg_modified: Option<u128>) -> (modified: bool)
    ensures
        modified == (match (src_modified, trg_modified) {
            (Some(s), Some(t)) => s != t,
            _ => true,
        }),
{
    match (src_modified, trg_modified) {
        (Some(s), Some(t)) => s != t,
        _ => true,
    }
}

/// The name of the thumbnail of the image whose name without extension is
/// `stem`.
pub fn thumb_file_name(stem: &str) -> (name: String)
    ensures
        name@ == stem@ + "_thumb.png"@,
{
    let mut name = String::from_str(stem);
    name.append("_thumb.png");
    name
}

} // verus!
