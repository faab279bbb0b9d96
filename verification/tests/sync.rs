use neptungen::config::{Config, FtpProtocol, SyncSettings};
use neptungen::delta::Mutation;
use neptungen::ftp::{Operations, TransferError};
use neptungen::manifest::{deserialize, serialize};
use neptungen::path::FsPath;
use neptungen::sha1dir::{build_checksums, Node, TreeEntry};
use neptungen::sync::{ConfigError, LocalFiles, SyncError, Synchronizer};
use std::cell::RefCell;
use std::collections::{BTreeMap, BTreeSet};
use std::rc::Rc;

fn text(p: &FsPath) -> String {
    String::from_utf8(p.to_bytes()).unwrap()
}

#[derive(Default)]
struct World {
    local: BTreeMap<String, Vec<u8>>,
    remote_dirs: BTreeSet<String>,
    remote_files: BTreeMap<String, Vec<u8>>,
    calls: Vec<String>,
    fail_put_of: Option<String>,
}

#[derive(Clone)]
struct Remote(Rc<RefCell<World>>);

#[derive(Clone)]
struct Local(Rc<RefCell<World>>);

fn refuse(path: &FsPath, cause: &str) -> Result<(), TransferError> {
    Err(TransferError { path: path.duplicate(), cause: cause.to_string() })
}

impl Operations for Remote {
    fn get(&mut self, path: &FsPath, local_path: &FsPath) -> Result<(), TransferError> {
        let mut w = self.0.borrow_mut();
        w.calls.push(format!("get {}", text(path)));
        match w.remote_files.get(&text(path)).cloned() {
            Some(data) => {
                w.local.insert(text(local_path), data);
                Ok(())
            }
            None => refuse(path, "no such file"),
        }
    }
    fn put(&mut self, path: &FsPath, local_path: &FsPath) -> Result<(), TransferError> {
        let mut w = self.0.borrow_mut();
        w.calls.push(format!("put {}", text(path)));
        if w.fail_put_of.as_deref() == Some(text(path).as_str()) {
            return refuse(path, "refused");
        }
        if w.remote_dirs.contains(&text(path)) {
            return refuse(path, "is a directory");
        }
        match w.local.get(&text(local_path)).cloned() {
            Some(data) => {
                w.remote_files.insert(text(path), data);
                Ok(())
            }
            None => refuse(path, "no local file"),
        }
    }
    fn del(&mut self, path: &FsPath) -> Result<(), TransferError> {
        let mut w = self.0.borrow_mut();
        w.calls.push(format!("del {}", text(path)));
        match w.remote_files.remove(&text(path)) {
            Some(_) => Ok(()),
            None => refuse(path, "no such file"),
        }
    }
    fn cwd(&mut self, path: &FsPath) -> Result<(), TransferError> {
        let mut w = self.0.borrow_mut();
        w.calls.push(format!("cwd {}", text(path)));
        if w.remote_dirs.contains(&text(path)) {
            Ok(())
        } else {
            refuse(path, "no such directory")
        }
    }
    fn rmdir(&mut self, path: &FsPath) -> Result<(), TransferError> {
        let mut w = self.0.borrow_mut();
        w.calls.push(format!("rmdir {}", text(path)));
        let below = format!("{}/", text(path));
        let used = w.remote_files.keys().any(|k| k.starts_with(&below))
            || w.remote_dirs.iter().any(|k| k.starts_with(&below));
        if used || !w.remote_dirs.remove(&text(path)) {
            refuse(path, "cannot remove")
        } else {
            Ok(())
        }
    }
    fn mkdir(&mut self, path: &FsPath) -> Result<(), TransferError> {
        let mut w = self.0.borrow_mut();
        w.calls.push(format!("mkdir {}", text(path)));
        if w.remote_files.contains_key(&text(path)) || !w.remote_dirs.insert(text(path)) {
            refuse(path, "exists")
        } else {
            Ok(())
        }
    }
    fn cwdroot(&mut self) -> Result<(), TransferError> {
        self.0.borrow_mut().calls.push("cwdroot".to_string());
        Ok(())
    }
}

impl LocalFiles for Local {
    fn write(&mut self, path: &FsPath, data: &[u8]) -> Result<(), String> {
        self.0.borrow_mut().local.insert(text(path), data.to_vec());
        Ok(())
    }
    fn read(&mut self, path: &FsPath) -> Result<Vec<u8>, String> {
        self.0.borrow().local.get(&text(path)).cloned().ok_or_else(|| "missing".to_string())
    }
    fn remove(&mut self, path: &FsPath) -> Result<(), String> {
        self.0.borrow_mut().local.remove(&text(path)).map(|_| ()).ok_or_else(|| "missing".to_string())
    }
}

struct NoDisk;

impl LocalFiles for NoDisk {
    fn write(&mut self, _path: &FsPath, _data: &[u8]) -> Result<(), String> {
        Err("read-only".to_string())
    }
    fn read(&mut self, _path: &FsPath) -> Result<Vec<u8>, String> {
        Err("read-only".to_string())
    }
    fn remove(&mut self, _path: &FsPath) -> Result<(), String> {
        Err("read-only".to_string())
    }
}

fn conf(target: Option<&str>) -> Config {
    Config {
        output_dir: Some("/out".to_string()),
        sync_settings: Some(SyncSettings {
            ftp_server: "example.org".to_string(),
            ftp_port: None,
            ftp_protocol: None,
            ftp_user: "me".to_string(),
            ftp_target_dir: target.map(|t| t.to_string()),
            ftp_overwrite: None,
        }),
        ..Default::default()
    }
}

fn setup(target: Option<&str>) -> (Rc<RefCell<World>>, Synchronizer<Remote>, Local) {
    let world = Rc::new(RefCell::new(World::default()));
    let sync = Synchronizer::new(&conf(target), Remote(world.clone())).unwrap();
    (world.clone(), sync, Local(world))
}

fn file(path: &str, content: &str) -> TreeEntry {
    TreeEntry { path: FsPath::new(path), node: Node::File(content.as_bytes().to_vec()) }
}

fn dir(path: &str) -> TreeEntry {
    TreeEntry { path: FsPath::new(path), node: Node::Dir }
}

/// Puts the files of the tree where the remote store reads them from.
fn store_locally(world: &Rc<RefCell<World>>, tree: &[TreeEntry]) {
    let mut w = world.borrow_mut();
    w.local.retain(|k, _| k == "/out/checksums.crc");
    for e in tree {
        if let Node::File(content) = &e.node {
            let rel = text(&e.path);
            w.local.insert(format!("/out/{}", &rel[2..]), content.clone());
        }
    }
}

fn calls(world: &Rc<RefCell<World>>) -> Vec<String> {
    std::mem::take(&mut world.borrow_mut().calls)
}

fn puts(calls: &[String]) -> Vec<&str> {
    calls.iter().filter(|c| c.starts_with("put ")).map(|c| c.as_str()).collect()
}

fn changes(calls: &[String]) -> Vec<&str> {
    calls
        .iter()
        .filter(|c| {
            ["put ", "del ", "rmdir ", "mkdir "].iter().any(|p| c.starts_with(p))
                && !c.ends_with("checksums.crc")
        })
        .map(|c| c.as_str())
        .collect()
}

#[test]
fn new_refuses_incomplete_settings() {
    let world = Rc::new(RefCell::new(World::default()));
    let none = Config::default();
    assert_eq!(
        Synchronizer::new(&none, Remote(world.clone())).err(),
        Some(ConfigError::NoOutputDir)
    );
    let half = Config { output_dir: Some("/out".to_string()), ..Default::default() };
    assert_eq!(
        Synchronizer::new(&half, Remote(world.clone())).err(),
        Some(ConfigError::NoSyncSettings)
    );
    assert_eq!(ConfigError::NoOutputDir.message(), "check 'config.toml' output_dir is invalid");
    assert_eq!(ConfigError::NoSyncSettings.message(), "'config.toml' sync settings not found");
}

#[test]
fn connection_defaults() {
    let c = Synchronizer::<Remote>::connection(&conf(None)).unwrap();
    assert_eq!((c.server.as_str(), c.user.as_str(), c.port), ("example.org", "me", 21));
    assert_eq!(c.protocol, FtpProtocol::Ftp);
    let mut secure = conf(None);
    secure.sync_settings.as_mut().unwrap().ftp_protocol = Some(FtpProtocol::Sftp);
    assert_eq!(Synchronizer::<Remote>::connection(&secure).unwrap().port, 22);
    secure.sync_settings.as_mut().unwrap().ftp_port = Some(2222);
    assert_eq!(Synchronizer::<Remote>::connection(&secure).unwrap().port, 2222);
    assert_eq!(
        Synchronizer::<Remote>::connection(&Config::default()).err(),
        Some(ConfigError::NoSyncSettings)
    );
}

#[test]
fn target_directory_is_made_component_by_component() {
    let (world, mut sync, _) = setup(Some("/www/site"));
    let reached = sync.ftp_goto_target_dir().unwrap();
    assert_eq!(text(&reached), "www/site");
    assert_eq!(
        calls(&world),
        vec!["cwdroot", "cwd www", "mkdir www", "cwd www", "cwd www/site", "mkdir www/site", "cwd www/site"]
    );
    sync.ftp_goto_target_dir().unwrap();
    assert_eq!(calls(&world), vec!["cwdroot", "cwd www", "cwd www/site"]);
}

#[test]
fn default_target_is_the_root() {
    let (world, mut sync, _) = setup(None);
    assert_eq!(sync.ftp_goto_target_dir().unwrap().len(), 0);
    assert_eq!(calls(&world), vec!["cwdroot"]);
}

#[test]
fn create_and_goto_dir_makes_missing_directories() {
    let (world, mut sync, _) = setup(Some("/www"));
    let reached = sync.ftp_create_and_goto_dir(&FsPath::new("./a/b")).unwrap();
    assert_eq!(text(&reached), "www/a/b");
    assert!(world.borrow().remote_dirs.contains("www/a/b"));
    // a local path below the output directory names the same remote directory
    calls(&world);
    let again = sync.ftp_create_and_goto_dir(&FsPath::new("/out/a/b")).unwrap();
    assert_eq!(text(&again), "www/a/b");
    assert_eq!(calls(&world), vec!["cwdroot", "cwd www", "cwd www/a", "cwd www/a/b"]);
}

#[test]
fn goto_dir_does_not_make_directories() {
    let (world, mut sync, _) = setup(None);
    assert!(sync.ftp_goto_dir(&FsPath::new("./a")).is_err());
    assert_eq!(calls(&world), vec!["cwdroot", "cwd a"]);
    assert!(!sync.ftp_is_dir(&FsPath::new("./a")));
    world.borrow_mut().remote_dirs.insert("a".to_string());
    assert!(sync.ftp_is_dir(&FsPath::new("./a")));
}

#[test]
fn goto_parent_dir_needs_a_parent() {
    let (world, mut sync, _) = setup(None);
    assert!(matches!(sync.ftp_goto_parent_dir(&FsPath::new("")), Err(SyncError::Path(_))));
    assert!(matches!(sync.ftp_goto_parent_dir(&FsPath::new("/")), Err(SyncError::Path(_))));
    assert!(calls(&world).is_empty());
    assert_eq!(sync.ftp_goto_parent_dir(&FsPath::new("./a")).unwrap().len(), 0);
    assert_eq!(calls(&world), vec!["cwdroot"]);
}

#[test]
fn component_that_is_not_unicode_ends_the_way() {
    let (world, mut sync, _) = setup(None);
    let odd = FsPath::from_components(vec![b".".to_vec(), b"ok".to_vec(), vec![0xff]]);
    assert!(matches!(sync.ftp_create_and_goto_dir(&odd), Err(SyncError::Path(_))));
    assert_eq!(calls(&world), vec!["cwdroot", "cwd ok", "mkdir ok", "cwd ok"]);
    assert!(matches!(sync.ftp_push_file(&odd), Err(SyncError::Path(_))));
    assert!(calls(&world).is_empty());
}

#[test]
fn push_file_stores_below_the_target() {
    let (world, mut sync, _) = setup(Some("/www"));
    world.borrow_mut().local.insert("/out/dir/b.html".to_string(), b"x".to_vec());
    sync.ftp_push_file(&FsPath::new("./dir/b.html")).unwrap();
    assert_eq!(world.borrow().remote_files.get("www/dir/b.html"), Some(&b"x".to_vec()));
    assert_eq!(
        calls(&world),
        vec![
            "cwdroot", "cwd www", "mkdir www", "cwd www", "cwd www/dir", "mkdir www/dir",
            "cwd www/dir", "put www/dir/b.html"
        ]
    );
}

#[test]
fn remove_file_and_dir() {
    let (world, mut sync, _) = setup(None);
    world.borrow_mut().remote_dirs.insert("d".to_string());
    world.borrow_mut().remote_files.insert("d/f".to_string(), vec![]);
    assert!(sync.ftp_remove_dir(&FsPath::new("./d")).is_err());
    sync.ftp_remove_file(&FsPath::new("./d/f")).unwrap();
    sync.ftp_remove_dir(&FsPath::new("./d")).unwrap();
    assert_eq!(
        calls(&world),
        vec!["cwdroot", "rmdir d", "cwdroot", "cwd d", "del d/f", "cwdroot", "rmdir d"]
    );
    assert!(world.borrow().remote_dirs.is_empty() && world.borrow().remote_files.is_empty());
}

#[test]
fn three_runs() {
    let (world, mut sync, mut local) = setup(Some("/www"));

    // run 1: nothing on the remote side, so the whole tree is pushed
    let tree = vec![file("./a.html", "v1"), dir("./dir"), file("./dir/b.html", "b")];
    store_locally(&world, &tree);
    sync.execute(&tree, &mut local).unwrap();
    let first = calls(&world);
    assert_eq!(
        puts(&first),
        vec!["put www/a.html", "put www/dir/b.html", "put www/checksums.crc"]
    );
    assert_eq!(world.borrow().remote_files.len(), 3);
    assert!(!world.borrow().local.contains_key("/out/checksums_old.crc"));
    assert!(matches!(sync.fallback_cause(), Some(SyncError::Transfer(_))));

    // run 2: one file changed
    let tree = vec![file("./a.html", "v2"), dir("./dir"), file("./dir/b.html", "b")];
    store_locally(&world, &tree);
    sync.execute(&tree, &mut local).unwrap();
    let second = calls(&world);
    assert_eq!(changes(&second), vec!["put www/a.html"]);
    assert!(!second.iter().any(|c| c.contains("www/dir")));
    assert!(sync.fallback_cause().is_none());
    assert_eq!(world.borrow().remote_files.get("www/a.html"), Some(&b"v2".to_vec()));

    // run 3: a file is gone, its directory stays
    let tree = vec![file("./a.html", "v2"), dir("./dir")];
    store_locally(&world, &tree);
    sync.execute(&tree, &mut local).unwrap();
    assert_eq!(changes(&calls(&world)), vec!["del www/dir/b.html"]);
    assert!(world.borrow().remote_dirs.contains("www/dir"));

    // run 4: the directory is gone as well
    let tree = vec![file("./a.html", "v2")];
    store_locally(&world, &tree);
    sync.execute(&tree, &mut local).unwrap();
    assert_eq!(changes(&calls(&world)), vec!["rmdir www/dir"]);
    assert!(!world.borrow().remote_dirs.contains("www/dir"));
}

#[test]
fn directory_is_removed_after_what_it_held() {
    let (world, mut sync, mut local) = setup(None);
    let tree = vec![file("./a.html", "v1"), dir("./dir"), file("./dir/b.html", "b")];
    store_locally(&world, &tree);
    sync.execute(&tree, &mut local).unwrap();
    calls(&world);
    let tree = vec![file("./a.html", "v1")];
    store_locally(&world, &tree);
    sync.execute(&tree, &mut local).unwrap();
    assert_eq!(changes(&calls(&world)), vec!["del dir/b.html", "rmdir dir"]);
}

#[test]
fn second_run_on_unchanged_tree_changes_nothing() {
    let (world, mut sync, mut local) = setup(Some("/www"));
    let tree = vec![file("./a.html", "v1"), dir("./dir"), file("./dir/b.html", "b")];
    store_locally(&world, &tree);
    sync.execute(&tree, &mut local).unwrap();
    calls(&world);
    sync.execute(&tree, &mut local).unwrap();
    let second = calls(&world);
    assert!(changes(&second).is_empty());
    assert_eq!(
        second,
        vec![
            "cwdroot", "cwd www", "get www/checksums.crc", "cwdroot", "cwd www",
            "put www/checksums.crc"
        ]
    );
}

#[test]
fn transfer_delta_against_own_manifest_makes_no_call() {
    let (world, mut sync, _) = setup(Some("/www"));
    let checksums = build_checksums(&vec![file("./a.html", "v1"), dir("./dir")]);
    let manifest = serialize(checksums.bytes_map());
    sync.transfer_delta(&checksums, &manifest).unwrap();
    assert!(calls(&world).is_empty());
}

#[test]
fn transfer_delta_refuses_what_is_no_manifest() {
    let (world, mut sync, _) = setup(None);
    let checksums = build_checksums(&vec![file("./a.html", "v1")]);
    assert!(matches!(sync.transfer_delta(&checksums, &[1, 2, 3]), Err(SyncError::Manifest(_))));
    assert!(calls(&world).is_empty());
}

#[test]
fn unreadable_manifest_falls_back_to_full_push() {
    let (world, mut sync, mut local) = setup(None);
    world.borrow_mut().remote_files.insert("checksums.crc".to_string(), b"garbage".to_vec());
    let tree = vec![file("./a.html", "v1")];
    store_locally(&world, &tree);
    sync.execute(&tree, &mut local).unwrap();
    assert_eq!(puts(&calls(&world)), vec!["put a.html", "put checksums.crc"]);
    assert!(matches!(sync.fallback_cause(), Some(SyncError::Manifest(_))));
    let manifest = world.borrow().remote_files.get("checksums.crc").cloned().unwrap();
    assert_eq!(deserialize(&manifest).unwrap().len(), 1);
}

#[test]
fn failed_delta_falls_back_to_full_push() {
    let (world, mut sync, mut local) = setup(None);
    let tree = vec![file("./a.html", "v1"), file("./b.html", "v1")];
    store_locally(&world, &tree);
    sync.execute(&tree, &mut local).unwrap();
    calls(&world);
    // the new file cannot be read, so that its transfer fails both times
    let tree = vec![file("./a.html", "v1"), file("./b.html", "v2"), file("./c.html", "new")];
    store_locally(&world, &tree);
    world.borrow_mut().local.remove("/out/c.html");
    assert!(sync.execute(&tree, &mut local).is_err());
    let seen = calls(&world);
    // the delta got as far as c.html, then the full push began with a.html
    assert_eq!(puts(&seen), vec!["put b.html", "put c.html", "put a.html", "put b.html", "put c.html"]);
}

#[test]
fn failed_full_push_fails_the_run_before_the_manifest() {
    let (world, mut sync, mut local) = setup(None);
    let tree = vec![file("./a.html", "v1")];
    store_locally(&world, &tree);
    world.borrow_mut().fail_put_of = Some("a.html".to_string());
    assert!(matches!(sync.execute(&tree, &mut local), Err(SyncError::Transfer(_))));
    assert!(!calls(&world).iter().any(|c| c == "put checksums.crc"));
}

#[test]
fn manifest_that_cannot_be_written_ends_the_run_before_any_call() {
    let world = Rc::new(RefCell::new(World::default()));
    let mut sync = Synchronizer::new(&conf(None), Remote(world.clone())).unwrap();
    let r = sync.execute(&vec![file("./a.html", "v1")], &mut NoDisk);
    assert!(matches!(r, Err(SyncError::Local(_))));
    assert!(calls(&world).is_empty());
}

#[test]
fn create_removes_what_stands_in_its_place() {
    // the remote side holds a directory where the tree has a new file
    let (world, mut sync, _) = setup(None);
    world.borrow_mut().remote_dirs.insert("x".to_string());
    world.borrow_mut().local.insert("/out/x".to_string(), b"file".to_vec());
    let m = Mutation::Create { path: FsPath::new("./x"), is_dir: false, nested: false };
    sync.apply(&m).unwrap();
    assert_eq!(calls(&world), vec!["cwdroot", "del x", "cwdroot", "rmdir x", "cwdroot", "put x"]);
    assert_eq!(world.borrow().remote_files.get("x"), Some(&b"file".to_vec()));
    assert!(world.borrow().remote_dirs.is_empty());
}

#[test]
fn create_goes_on_where_nothing_stands_in_its_place() {
    let (world, mut sync, _) = setup(None);
    let m = Mutation::Create { path: FsPath::new("./d"), is_dir: true, nested: false };
    sync.apply(&m).unwrap();
    assert_eq!(
        calls(&world),
        vec!["cwdroot", "del d", "cwdroot", "rmdir d", "cwdroot", "cwd d", "mkdir d", "cwd d"]
    );
}

#[test]
fn create_removes_a_file_where_the_tree_has_a_directory() {
    let (world, mut sync, _) = setup(None);
    world.borrow_mut().remote_files.insert("d".to_string(), vec![1]);
    let m = Mutation::Create { path: FsPath::new("./d"), is_dir: true, nested: false };
    sync.apply(&m).unwrap();
    assert_eq!(calls(&world), vec!["cwdroot", "del d", "cwdroot", "cwd d", "mkdir d", "cwd d"]);
    assert!(world.borrow().remote_dirs.contains("d"));
}

#[test]
fn nested_create_does_not_look_for_leftovers() {
    let (world, mut sync, _) = setup(None);
    let m = Mutation::Create { path: FsPath::new("./d"), is_dir: true, nested: true };
    sync.apply(&m).unwrap();
    assert_eq!(calls(&world), vec!["cwdroot", "cwd d", "mkdir d", "cwd d"]);
}

#[test]
fn delete_probes_the_kind() {
    let (world, mut sync, _) = setup(None);
    world.borrow_mut().remote_dirs.insert("d".to_string());
    world.borrow_mut().remote_files.insert("f".to_string(), vec![]);
    sync.apply(&Mutation::Delete { path: FsPath::new("./d") }).unwrap();
    assert_eq!(calls(&world), vec!["cwdroot", "cwd d", "cwdroot", "rmdir d"]);
    sync.apply(&Mutation::Delete { path: FsPath::new("./f") }).unwrap();
    assert_eq!(calls(&world), vec!["cwdroot", "cwd f", "cwdroot", "del f"]);
}

#[test]
fn apply_all_stops_at_the_first_failure() {
    let (world, mut sync, _) = setup(None);
    let plan = vec![
        Mutation::Delete { path: FsPath::new("./gone") },
        Mutation::Update { path: FsPath::new("./d"), is_dir: true },
    ];
    assert!(sync.apply_all(&plan).is_err());
    assert_eq!(calls(&world), vec!["cwdroot", "cwd gone", "cwdroot", "del gone"]);
}

#[test]
fn push_all_files_pushes_in_path_order() {
    let (world, mut sync, _) = setup(None);
    let tree = vec![file("./z", "1"), dir("./d"), file("./d/f", "2")];
    store_locally(&world, &tree);
    sync.push_all_files(&build_checksums(&tree)).unwrap();
    assert_eq!(changes(&calls(&world)), vec!["mkdir d", "put d/f", "put z"]);
}

#[test]
fn retrieve_checksums_file_names_the_local_copy() {
    let (world, mut sync, _) = setup(Some("/www"));
    world.borrow_mut().remote_dirs.insert("www".to_string());
    assert!(sync.retrieve_checksums_file().is_err());
    world.borrow_mut().remote_files.insert("www/checksums.crc".to_string(), vec![7]);
    let copy = sync.retrieve_checksums_file().unwrap();
    assert_eq!(text(&copy), "/out/checksums_old.crc");
    assert_eq!(world.borrow().local.get("/out/checksums_old.crc"), Some(&vec![7]));
    let _ = sync.into_stream();
}

#[test]
fn transfer_error_carries_path_and_cause() {
    let (world, mut sync, _) = setup(Some("/www"));
    world.borrow_mut().remote_dirs.insert("www".to_string());
    world.borrow_mut().fail_put_of = Some("www/a.html".to_string());
    match sync.ftp_push_file(&FsPath::new("./a.html")) {
        Err(SyncError::Transfer(e)) => {
            assert_eq!(text(&e.path), "www/a.html");
            assert_eq!(e.cause, "refused");
        }
        other => panic!("unexpected: {:?}", other),
    }
    match sync.ftp_goto_dir(&FsPath::new("./missing/deeper")) {
        Err(SyncError::Transfer(e)) => {
            assert_eq!(text(&e.path), "www/missing");
            assert_eq!(e.cause, "no such directory");
        }
        other => panic!("unexpected: {:?}", other),
    }
}
