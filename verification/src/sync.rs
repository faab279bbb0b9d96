//! The synchronizer: brings the remote side up to date.
//!
//! A run builds the digest map of the tree and writes the manifest, then
//! tries to transfer the delta against the manifest that the last run left
//! on the remote side. Where that fails for any reason it pushes the whole
//! tree instead. In the end it pushes the new manifest, whichever way the
//! tree went, so that the next run finds what this one did.
//!
//! Every remote path is reached from the directory that the session starts
//! in: through the target directory, then through the components of the
//! path, one directory at a time.

use crate::config::{Config, FtpProtocol};
use crate::delta::{delta, delta_spec, intents, lemma_delta_of_same_is_empty, Intent, Mutation};
use crate::ftp::{
    all, failure_view, lemma_all_fails, lemma_all_step, lemma_extends_transitive,
    lemma_ran_choose, lemma_ran_or_else, lemma_ran_then, lemma_run_prefix_of_or_else,
    lemma_run_prefix_of_then, lemma_run_stable, ran, refusal, run, Operations, RemoteCall,
    RemoteOp, Script, TransferError,
};
use crate::manifest::{
    deserialize, enc_entries, lemma_manifest_round_trip, parse_manifest, serialize, storable,
    ManifestError, CRC_FILE_NAME, OLD_CRC_FILE_NAME,
};
use crate::path::{
    comp_as_str, cur_dir_comp, has_parent, parse_path, root_comp, with_comp, FsPath, PathError,
    DOT, SEPARATOR,
};
use crate::sha1dir::{build_checksums, dir_paths, failures, tree_entries, Checksums, TreeEntry};
use crate::snapshot::{sorted, EntryView};
use vstd::prelude::*;
use vstd::utf8::{encode_utf8, valid_utf8};

verus! {

/// The port of the plain protocol where the settings name none.
pub const DEFAULT_FTP_PORT: u32 = 21;

/// The port of the secure protocol where the settings name none.
pub const DEFAULT_SFTP_PORT: u32 = 22;

/// Why the settings do not allow a synchronisation.
#[derive(PartialEq, Eq, Clone, Copy, Debug, Structural)]
pub enum ConfigError {
    /// The settings name no output directory.
    NoOutputDir,
    /// The settings hold nothing about the synchronisation.
    NoSyncSettings,
}

impl ConfigError {
    /// The error in words.
    pub fn message(&self) -> (text: &'static str)
        ensures
            text@ == (match *self {
                ConfigError::NoOutputDir => "check 'config.toml' output_dir is invalid"@,
                ConfigError::NoSyncSettings => "'config.toml' sync settings not found"@,
            }),
    {
        match self {
            ConfigError::NoOutputDir => "check 'config.toml' output_dir is invalid",
            ConfigError::NoSyncSettings => "'config.toml' sync settings not found",
        }
    }
}

/// Why a step of the synchronisation failed.
#[derive(Debug)]
pub enum SyncError {
    /// A remote operation failed.
    Transfer(TransferError),
    /// A path cannot be named on the remote side.
    Path(PathError),
    /// The manifest of the last run is missing or cannot be read.
    Manifest(ManifestError),
    /// A local file could not be read or written; the cause is given.
    Local(String),
}

/// The failure comes from the remote side or from a path: it is none of the
/// manifest and none of a local file.
pub open spec fn remote_failure(e: SyncError) -> bool {
    e is Transfer || e is Path
}

/// Where `r` is the failure of a remote operation, it is the failure that
/// the last call of `log` reported.
pub open spec fn surfaced<T>(r: Result<T, SyncError>, log: Seq<RemoteCall>) -> bool {
    r matches Err(SyncError::Transfer(e)) ==> log.len() > 0 && log.last().failure == Some(
        failure_view(e),
    )
}

/// What is needed to open the session with the remote store.
#[derive(Debug)]
pub struct Connection {
    pub server: String,
    pub port: u32,
    pub user: String,
    pub protocol: FtpProtocol,
}

/// The local files that a run reads and writes besides the tree itself.
pub trait LocalFiles {
    /// Writes `data` as the file `path`, replacing what was there.
    fn write(&mut self, path: &FsPath, data: &[u8]) -> Result<(), String>;

    /// The content of the file `path`.
    fn read(&mut self, path: &FsPath) -> Result<Vec<u8>, String>;

    /// Removes the file `path`.
    fn remove(&mut self, path: &FsPath) -> Result<(), String>;
}

/// One call that was made on the local files, with its outcome.
pub enum LocalCall {
    /// `data` was to be written as the file `path`.
    Write { path: Seq<Seq<u8>>, data: Seq<u8>, ok: bool },
    /// The file `path` was to be read, and the bytes `found` were read, or
    /// nothing.
    Read { path: Seq<Seq<u8>>, found: Option<Seq<u8>> },
    /// The file `path` was to be removed.
    Remove { path: Seq<Seq<u8>>, ok: bool },
}

/// The bytes that an attempt to read gave, if it gave any.
pub open spec fn bytes_read<E>(r: Result<Vec<u8>, E>) -> Option<Seq<u8>> {
    match r {
        Ok(bytes) => Some(bytes@),
        Err(_) => None,
    }
}

/// What reading the fetched manifest gave, as the local calls `calls` of an
/// attempt tell it: the bytes that the first call read, if it read any.
pub open spec fn read_result(calls: Seq<LocalCall>) -> Option<Seq<u8>> {
    if calls.len() > 0 && calls[0] is Read {
        calls[0]->found
    } else {
        None
    }
}

/// The components of the target directory that are entered one by one: all
/// but the root.
pub open spec fn target_comps(target: Seq<Seq<u8>>) -> Seq<Seq<u8>> {
    if target.len() > 0 && target[0] == root_comp() {
        target.skip(1)
    } else {
        target
    }
}

/// The components of a path of the tree that are entered below the target
/// directory: those behind the leading `.`, or behind the first `offset`
/// components, which are the output directory's.
pub open spec fn rel_comps(p: Seq<Seq<u8>>, offset: nat) -> Seq<Seq<u8>> {
    if p.len() > 0 && p[0] == cur_dir_comp() {
        p.skip(1)
    } else if offset <= p.len() {
        p.skip(offset as int)
    } else {
        Seq::empty()
    }
}

/// The path `base` with the first `n` components of `comps` added.
pub open spec fn pushed(base: Seq<Seq<u8>>, comps: Seq<Seq<u8>>, n: nat) -> Seq<Seq<u8>>
    decreases n,
{
    if n == 0 {
        base
    } else {
        with_comp(pushed(base, comps, (n - 1) as nat), comps[n - 1])
    }
}

/// The path `base` with all of `comps` added.
pub open spec fn pushed_all(base: Seq<Seq<u8>>, comps: Seq<Seq<u8>>) -> Seq<Seq<u8>> {
    pushed(base, comps, comps.len())
}

/// Entering the directory `p`, which is made where it cannot be entered.
pub open spec fn enter(p: Seq<Seq<u8>>) -> Script {
    Script::OrElse(
        Box::new(Script::Call(RemoteOp::Cwd { path: p })),
        Box::new(
            Script::Then(
                Box::new(Script::Call(RemoteOp::Mkdir { path: p })),
                Box::new(Script::Call(RemoteOp::Cwd { path: p })),
            ),
        ),
    )
}

/// The step that the component at position `j` of `comps` stands for on the
/// way down from `base`: its directory is entered, and made first where
/// `create` says so and it cannot be entered. A component that is not valid
/// UTF-8 has no name on the remote side, and the way ends there.
pub open spec fn walk_step(base: Seq<Seq<u8>>, comps: Seq<Seq<u8>>, create: bool, j: int) -> Script {
    if !valid_utf8(comps[j]) {
        Script::Fail
    } else if create {
        enter(pushed(base, comps, (j + 1) as nat))
    } else {
        Script::Call(RemoteOp::Cwd { path: pushed(base, comps, (j + 1) as nat) })
    }
}

/// The steps of the way down from `base` through `comps`.
pub open spec fn walk_steps(base: Seq<Seq<u8>>, comps: Seq<Seq<u8>>, create: bool) -> Seq<Script> {
    Seq::new(comps.len(), |j: int| walk_step(base, comps, create, j))
}

/// The way down from `base` through `comps`, one directory at a time.
pub open spec fn walk(base: Seq<Seq<u8>>, comps: Seq<Seq<u8>>, create: bool) -> Script {
    all(walk_steps(base, comps, create))
}

/// What the remote paths of a run are built from.
pub struct Site {
    /// The target directory on the remote side.
    pub target: Seq<Seq<u8>>,
    /// The directory of the local tree.
    pub output: Seq<Seq<u8>>,
    /// The number of leading components that a local path has from the
    /// directory of the tree.
    pub offset: nat,
}

impl Site {
    /// The remote path of the target directory.
    pub open spec fn target_path(self) -> Seq<Seq<u8>> {
        pushed_all(Seq::empty(), target_comps(self.target))
    }

    /// The remote path that the path `p` of the tree has.
    pub open spec fn remote_of(self, p: Seq<Seq<u8>>) -> Seq<Seq<u8>> {
        pushed_all(self.target_path(), rel_comps(p, self.offset))
    }

    /// The local path that the path `p` of the tree has.
    pub open spec fn local_of(self, p: Seq<Seq<u8>>) -> Seq<Seq<u8>> {
        pushed_all(self.output, rel_comps(p, self.offset))
    }

    /// From where the session started into the target directory, which is
    /// made on the way where it is missing.
    pub open spec fn goto_target(self) -> Script {
        Script::Then(
            Box::new(Script::Call(RemoteOp::CwdRoot)),
            Box::new(walk(Seq::empty(), target_comps(self.target), true)),
        )
    }

    /// Into the remote directory of `dir`, which is made on the way where it
    /// is missing.
    pub open spec fn create_and_goto(self, dir: Seq<Seq<u8>>) -> Script {
        Script::Then(
            Box::new(self.goto_target()),
            Box::new(walk(self.target_path(), rel_comps(dir, self.offset), true)),
        )
    }

    /// Into the remote directory of `src`, which has to be there.
    pub open spec fn goto_dir(self, src: Seq<Seq<u8>>) -> Script {
        Script::Then(
            Box::new(self.goto_target()),
            Box::new(walk(self.target_path(), rel_comps(src, self.offset), false)),
        )
    }

    /// Into the remote directory that holds `src`. A path without a parent
    /// is held by none.
    pub open spec fn goto_parent(self, src: Seq<Seq<u8>>) -> Script {
        if has_parent(src) {
            self.goto_dir(src.drop_last())
        } else {
            Script::Fail
        }
    }

    /// The remote path of `p` as it is named from the directory that holds
    /// it.
    pub open spec fn remote_in_parent(self, p: Seq<Seq<u8>>) -> Seq<Seq<u8>> {
        with_comp(self.remote_of(p.drop_last()), p.last())
    }

    /// Removing the remote directory of `dir`.
    pub open spec fn remove_dir(self, dir: Seq<Seq<u8>>) -> Script {
        Script::Then(
            Box::new(self.goto_parent(dir)),
            Box::new(
                if valid_utf8(dir.last()) {
                    Script::Call(RemoteOp::Rmdir { path: self.remote_in_parent(dir) })
                } else {
                    Script::Fail
                },
            ),
        )
    }

    /// Removing the remote file of `file`.
    pub open spec fn remove_file(self, file: Seq<Seq<u8>>) -> Script {
        Script::Then(
            Box::new(self.goto_parent(file)),
            Box::new(
                if valid_utf8(file.last()) {
                    Script::Call(RemoteOp::Del { path: self.remote_in_parent(file) })
                } else {
                    Script::Fail
                },
            ),
        )
    }

    /// Pushing the file `file`: its remote directory is entered, and made
    /// where it is missing, then the file is stored. A path without a parent
    /// or with a last component that is not valid UTF-8 names no file.
    pub open spec fn push_file(self, file: Seq<Seq<u8>>) -> Script {
        if has_parent(file) && valid_utf8(file.last()) {
            Script::Then(
                Box::new(self.create_and_goto(file.drop_last())),
                Box::new(
                    Script::Call(
                        RemoteOp::Put {
                            remote: self.remote_in_parent(file),
                            local: self.local_of(file),
                        },
                    ),
                ),
            )
        } else {
            Script::Fail
        }
    }

    /// Fetching the manifest that the last run left in the target directory.
    pub open spec fn retrieve(self) -> Script {
        Script::Then(
            Box::new(self.goto_target()),
            Box::new(
                Script::Call(
                    RemoteOp::Get {
                        remote: with_comp(self.target_path(), encode_utf8(CRC_FILE_NAME@)),
                        local: self.fetched_copy_path(),
                    },
                ),
            ),
        )
    }

    /// Making sure that the path is there: a directory is entered, and made
    /// where it is missing; a file is pushed.
    pub open spec fn ensure(self, path: Seq<Seq<u8>>, is_dir: bool) -> Script {
        if is_dir {
            self.create_and_goto(path)
        } else {
            self.push_file(path)
        }
    }

    /// What one mutation asks of the remote side. Before a path is created
    /// that no new directory above it accounts for, what may stand in its
    /// place is removed, a file or else a directory, and it does not matter
    /// whether there was anything. What is deleted is removed as a
    /// directory where it can be entered, else as a file.
    pub open spec fn apply(self, m: Intent) -> Script {
        match m {
            Intent::Create { path, is_dir, nested } => if nested {
                self.ensure(path, is_dir)
            } else {
                Script::Then(
                    Box::new(
                        Script::Attempt(
                            Box::new(
                                Script::OrElse(
                                    Box::new(self.remove_file(path)),
                                    Box::new(self.remove_dir(path)),
                                ),
                            ),
                        ),
                    ),
                    Box::new(self.ensure(path, is_dir)),
                )
            },
            Intent::Update { path, is_dir } => self.ensure(path, is_dir),
            Intent::Delete { path } => Script::Choose(
                Box::new(self.goto_dir(path)),
                Box::new(self.remove_dir(path)),
                Box::new(self.remove_file(path)),
            ),
        }
    }

    /// The scripts of a list of mutations.
    pub open spec fn apply_each(self, ms: Seq<Intent>) -> Seq<Script> {
        Seq::new(ms.len(), |i: int| self.apply(ms[i]))
    }

    /// What a list of mutations asks of the remote side: each in its turn,
    /// up to the first that fails.
    pub open spec fn apply_all(self, ms: Seq<Intent>) -> Script {
        all(self.apply_each(ms))
    }

    /// Transferring the delta between the tree with the entries `cur` and
    /// the directories `dirs` and the manifest `prior` of the last run.
    /// Bytes that are no manifest leave nothing to compare with.
    pub open spec fn transfer_delta(
        self,
        cur: Seq<EntryView>,
        dirs: Seq<Seq<Seq<u8>>>,
        prior: Seq<u8>,
    ) -> Script {
        match parse_manifest(prior) {
            Ok(entries) => self.apply_all(delta_spec(cur, dirs, entries)),
            Err(_) => Script::Fail,
        }
    }

    /// The delta path end to end: the manifest of the last run is fetched,
    /// then read, which gave `prior` or failed, and the delta against it is
    /// transferred.
    pub open spec fn push_delta(
        self,
        cur: Seq<EntryView>,
        dirs: Seq<Seq<Seq<u8>>>,
        prior: Option<Seq<u8>>,
    ) -> Script {
        Script::Then(
            Box::new(self.retrieve()),
            Box::new(
                match prior {
                    Some(bytes) => self.transfer_delta(cur, dirs, bytes),
                    None => Script::Fail,
                },
            ),
        )
    }

    /// The scripts of a full push: one for each path of the tree.
    pub open spec fn push_each(self, cur: Seq<EntryView>, dirs: Seq<Seq<Seq<u8>>>) -> Seq<Script> {
        Seq::new(cur.len(), |i: int| self.ensure(cur[i].0, dirs.contains(cur[i].0)))
    }

    /// The full push: every path of the tree is made sure of, in the order
    /// of the paths.
    pub open spec fn push_all(self, cur: Seq<EntryView>, dirs: Seq<Seq<Seq<u8>>>) -> Script {
        all(self.push_each(cur, dirs))
    }

    /// The local path of the manifest.
    pub open spec fn manifest_path(self) -> Seq<Seq<u8>> {
        with_comp(self.output, encode_utf8(CRC_FILE_NAME@))
    }

    /// The local path of the copy of the manifest that the last run left on
    /// the remote side.
    pub open spec fn fetched_copy_path(self) -> Seq<Seq<u8>> {
        with_comp(self.output, encode_utf8(OLD_CRC_FILE_NAME@))
    }

    /// The delta path, and the full push where that fails.
    pub open spec fn delta_or_all(
        self,
        cur: Seq<EntryView>,
        dirs: Seq<Seq<Seq<u8>>>,
        prior: Option<Seq<u8>>,
    ) -> Script {
        Script::OrElse(
            Box::new(self.push_delta(cur, dirs, prior)),
            Box::new(self.push_all(cur, dirs)),
        )
    }

    /// A whole run: the delta path, the full push where that fails, and in
    /// the end the new manifest.
    pub open spec fn execute(
        self,
        cur: Seq<EntryView>,
        dirs: Seq<Seq<Seq<u8>>>,
        prior: Option<Seq<u8>>,
    ) -> Script {
        Script::Then(
            Box::new(self.delta_or_all(cur, dirs, prior)),
            Box::new(self.push_file(self.manifest_path())),
        )
    }
}

/// What an attempt at the delta does with local files, given how fetching
/// the manifest went: where the manifest was fetched, the fetched copy is
/// read and then removed; where it was not, no local file is touched.
pub open spec fn fetched_copy_handled(
    site: Site,
    fetched: Option<(int, bool)>,
    calls: Seq<LocalCall>,
) -> bool {
    if fetched matches Some((_, true)) {
        &&& calls.len() == 2
        &&& calls[0] matches LocalCall::Read { path, .. } && path == site.fetched_copy_path()
        &&& calls[1] matches LocalCall::Remove { path, .. } && path == site.fetched_copy_path()
    } else {
        calls.len() == 0
    }
}

/// Why an attempt at the delta failed, given how fetching the manifest went
/// and what reading the fetched copy gave: a manifest that was fetched but
/// could not be read is a local failure, bytes that are no manifest are the
/// manifest's, and everything else comes from the remote side.
pub open spec fn delta_failure(e: SyncError, fetched: Option<(int, bool)>, prior: Option<Seq<u8>>) -> bool {
    if fetched matches Some((_, true)) {
        match prior {
            None => e is Local,
            Some(bytes) => match parse_manifest(bytes) {
                Err(why) => e == SyncError::Manifest(why),
                Ok(_) => remote_failure(e),
            },
        }
    } else {
        remote_failure(e)
    }
}

/// What a run remembers of its attempt at the delta, given how the attempt
/// ran, how fetching the manifest went and what reading the fetched copy
/// gave: nothing where the attempt succeeded, and else why it failed.
pub open spec fn fell_back(
    cause: Option<SyncError>,
    attempt: Option<(int, bool)>,
    fetched: Option<(int, bool)>,
    prior: Option<Seq<u8>>,
) -> bool {
    match cause {
        None => attempt matches Some((_, true)),
        Some(e) => !(attempt matches Some((_, true))) && delta_failure(e, fetched, prior),
    }
}

/// Brings a remote file store up to date with a local tree.
pub struct Synchronizer<R: Operations> {
    server: String,
    ftp_target_dir: FsPath,
    output_path: FsPath,
    output_path_offset: usize,
    ftp_stream: R,
    fallback: Option<SyncError>,
    log: Ghost<Seq<RemoteCall>>,
    local_log: Ghost<Seq<LocalCall>>,
}

impl<R: Operations> Synchronizer<R> {
    /// The remote calls made so far, each with its outcome.
    pub closed spec fn log(&self) -> Seq<RemoteCall> {
        self.log@
    }

    /// The calls made on local files so far, each with its outcome.
    pub closed spec fn local(&self) -> Seq<LocalCall> {
        self.local_log@
    }

    /// The target directory on the remote side.
    pub closed spec fn target(&self) -> Seq<Seq<u8>> {
        self.ftp_target_dir@
    }

    /// The directory of the local tree.
    pub closed spec fn output(&self) -> Seq<Seq<u8>> {
        self.output_path@
    }

    /// The number of components of the directory of the local tree.
    pub closed spec fn offset(&self) -> nat {
        self.output_path_offset as nat
    }

    /// The name of the server.
    pub closed spec fn server_name(&self) -> Seq<char> {
        self.server@
    }

    /// What the remote paths of this run are built from.
    pub open spec fn site(&self) -> Site {
        Site { target: self.target(), output: self.output(), offset: self.offset() }
    }

    /// The settings are the same.
    pub open spec fn same_settings(&self, was: &Self) -> bool {
        &&& self.site() == was.site()
        &&& self.server_name() == was.server_name()
    }

    /// Why the last run gave up the delta and pushed the whole tree, if it
    /// did.
    pub closed spec fn fallen_back(&self) -> Option<SyncError> {
        self.fallback
    }

    /// The settings are the same and no call was made on local files: only
    /// the log of remote calls may have grown.
    pub open spec fn only_remote(&self, was: &Self) -> bool {
        &&& self.same_settings(was)
        &&& self.local() == was.local()
        &&& self.fallen_back() == was.fallen_back()
    }

    /// What the settings say about the connection: the server, the user, the
    /// protocol (the plain one where none is named) and the port (the
    /// protocol's own where none is named).
    pub fn connection(conf: &Config) -> (r: Result<Connection, ConfigError>)
        ensures
            match conf.sync_settings {
                None => r == Err::<Connection, ConfigError>(ConfigError::NoSyncSettings),
                Some(s) => r matches Ok(c) && c.server@ == s.ftp_server@ && c.user@ == s.ftp_user@
                    && c.protocol == (match s.ftp_protocol {
                    Some(p) => p,
                    None => FtpProtocol::Ftp,
                }) && c.port == (match s.ftp_port {
                    Some(p) => p,
                    None => if c.protocol == FtpProtocol::Ftp {
                        DEFAULT_FTP_PORT
                    } else {
                        DEFAULT_SFTP_PORT
                    },
                }),
            },
    {
        match &conf.sync_settings {
            None => Err(ConfigError::NoSyncSettings),
            Some(s) => {
                let protocol = match s.ftp_protocol {
                    Some(p) => p,
                    None => FtpProtocol::Ftp,
                };
                let port = match s.ftp_port {
                    Some(p) => p,
                    None => match protocol {
                        FtpProtocol::Ftp => DEFAULT_FTP_PORT,
                        FtpProtocol::Sftp => DEFAULT_SFTP_PORT,
                    },
                };
                Ok(
                    Connection {
                        server: s.ftp_server.clone(),
                        port,
                        user: s.ftp_user.clone(),
                        protocol,
                    },
                )
            },
        }
    }

    /// A synchronizer for the settings `conf` that works through the open
    /// session `ftp_stream`. The settings must name an output directory and
    /// hold the settings of the synchronisation; the target directory is the
    /// root where they name none.
    pub fn new(conf: &Config, ftp_stream: R) -> (r: Result<Self, ConfigError>)
        ensures
            match (conf.output_dir, conf.sync_settings) {
                (None, _) => r matches Err(e) && e == ConfigError::NoOutputDir,
                (Some(_), None) => r matches Err(e) && e == ConfigError::NoSyncSettings,
                (Some(out), Some(s)) => r matches Ok(sync) && sync.log() == Seq::<
                    RemoteCall,
                >::empty() && sync.local() == Seq::<LocalCall>::empty() && sync.fallen_back()
                    is None && sync.output() == parse_path(encode_utf8(out@))
                    && sync.offset() == sync.output().len() && sync.server_name() == s.ftp_server@
                    && sync.target() == parse_path(
                    match s.ftp_target_dir {
                        Some(dir) => encode_utf8(dir@),
                        None => encode_utf8("/"@),
                    },
                ),
            },
    {
        let output_path = match &conf.output_dir {
            Some(dir) => FsPath::new(dir.as_str()),
            None => {
                return Err(ConfigError::NoOutputDir);
            },
        };
        let sync_settings = match &conf.sync_settings {
            Some(s) => s,
            None => {
                return Err(ConfigError::NoSyncSettings);
            },
        };
        let ftp_target_dir = match &sync_settings.ftp_target_dir {
            Some(dir) => FsPath::new(dir.as_str()),
            None => FsPath::new("/"),
        };
        Ok(
            Synchronizer {
                server: sync_settings.ftp_server.clone(),
                ftp_target_dir,
                output_path_offset: output_path.len(),
                output_path,
                ftp_stream,
                fallback: None,
                log: Ghost(Seq::empty()),
                local_log: Ghost(Seq::empty()),
            },
        )
    }

    /// The session with the remote store.
    pub closed spec fn stream(&self) -> R {
        self.ftp_stream
    }

    /// Why the last run gave up the delta and pushed the whole tree, if it
    /// did.
    pub fn fallback_cause(&self) -> (cause: Option<&SyncError>)
        ensures
            cause is Some == self.fallen_back() is Some,
            cause matches Some(e) ==> Some(*e) == self.fallen_back(),
    {
        self.fallback.as_ref()
    }

    /// Gives the session back.
    pub fn into_stream(self) -> (stream: R)
        ensures
            stream == self.stream(),
    {
        self.ftp_stream
    }

    /// Makes one remote call and notes it with its outcome.
    fn perform(&mut self, request: Request<'_>) -> (r: Result<(), SyncError>)
        ensures
            final(self).only_remote(old(self)),
            final(self).log().len() == old(self).log().len() + 1,
            final(self).log().drop_last() == old(self).log(),
            final(self).log().last().op == request@,
            final(self).log().last().ok == r is Ok,
            ran(old(self).log(), final(self).log(), Script::Call(request@), r is Ok),
            r matches Err(e) ==> e is Transfer,
            surfaced(r, final(self).log()),
    {
        let r = match request {
            Request::Get { remote, local } => self.ftp_stream.get(remote, local),
            Request::Put { remote, local } => self.ftp_stream.put(remote, local),
            Request::Del { path } => self.ftp_stream.del(path),
            Request::Cwd { path } => self.ftp_stream.cwd(path),
            Request::Rmdir { path } => self.ftp_stream.rmdir(path),
            Request::Mkdir { path } => self.ftp_stream.mkdir(path),
            Request::CwdRoot => self.ftp_stream.cwdroot(),
        };
        proof {
            self.log@ = self.log@.push(
                RemoteCall { op: request@, ok: r is Ok, failure: refusal(r) },
            );
            assert(self.log@.take(old(self).log@.len() as int) =~= old(self).log@);
            assert(self.log@.drop_last() =~= old(self).log@);
        }
        match r {
            Ok(()) => Ok(()),
            Err(e) => Err(SyncError::Transfer(e)),
        }
    }

    /// Enters the remote directory `to_dir`, and makes it first where it
    /// cannot be entered.
    fn enter_dir(&mut self, to_dir: &FsPath) -> (r: Result<(), SyncError>)
        ensures
            final(self).only_remote(old(self)),
            ran(old(self).log(), final(self).log(), enter(to_dir@), r is Ok),
            r matches Err(e) ==> e is Transfer,
            surfaced(r, final(self).log()),
    {
        let ghost l0 = self.log();
        let ghost cwd = Script::Call(RemoteOp::Cwd { path: to_dir@ });
        let ghost mkdir = Script::Call(RemoteOp::Mkdir { path: to_dir@ });
        if self.perform(Request::Cwd { path: to_dir }).is_ok() {
            return Ok(());
        }
        let ghost l1 = self.log();
        let made = self.perform(Request::Mkdir { path: to_dir });
        let ghost l2 = self.log();
        if made.is_err() {
            proof {
                lemma_ran_or_else(l0, l1, l2, cwd, Script::Then(Box::new(mkdir), Box::new(cwd)), false);
            }
            return made;
        }
        let entered = self.perform(Request::Cwd { path: to_dir });
        proof {
            lemma_ran_then(l1, l2, self.log(), mkdir, cwd, entered is Ok);
            lemma_ran_or_else(
                l0,
                l1,
                self.log(),
                cwd,
                Script::Then(Box::new(mkdir), Box::new(cwd)),
                entered is Ok,
            );
        }
        entered
    }

    /// Goes down from the remote directory `to_dir` through the components
    /// of `src` behind the first `skip`, one directory at a time, and leaves
    /// in `to_dir` the path of the directory reached. With `create` a
    /// directory that cannot be entered is made.
    fn walk_down(&mut self, to_dir: &mut FsPath, src: &FsPath, skip: usize, create: bool) -> (r:
        Result<(), SyncError>)
        requires
            skip <= src@.len(),
        ensures
            final(self).only_remote(old(self)),
            ran(
                old(self).log(),
                final(self).log(),
                walk(old(to_dir)@, src@.skip(skip as int), create),
                r is Ok,
            ),
            r is Ok ==> final(to_dir)@ == pushed_all(old(to_dir)@, src@.skip(skip as int)),
            r matches Err(e) ==> remote_failure(e),
            surfaced(r, final(self).log()),
    {
        let ghost base = to_dir@;
        let ghost comps = src@.skip(skip as int);
        let ghost l0 = self.log();
        let ghost steps = walk_steps(base, comps, create);
        let mut i: usize = skip;
        assert(l0.take(l0.len() as int) =~= l0);
        while i < src.len()
            invariant
                skip <= i <= src@.len(),
                self.only_remote(old(self)),
                l0 == old(self).log(),
                base == old(to_dir)@,
                comps == src@.skip(skip as int),
                steps == walk_steps(base, comps, create),
                to_dir@ == pushed(base, comps, (i - skip) as nat),
                ran(l0, self.log(), all(steps.take(i - skip)), true),
            decreases src@.len() - i,
        {
            let ghost j = i - skip;
            let ghost l1 = self.log();
            let comp = src.comp(i);
            assert(comps[j] == src@[i as int]);
            match comp_as_str(comp) {
                Err(e) => {
                    proof {
                        assert(l1.take(l1.len() as int) =~= l1);
                        lemma_all_step(steps, j, l0, l1, l1, false);
                        lemma_all_fails(steps, j + 1, l1, l0.len() as int);
                    }
                    return Err(SyncError::Path(e));
                },
                Ok(_) => {},
            }
            to_dir.push(comp);
            let r = if create {
                self.enter_dir(to_dir)
            } else {
                self.perform(Request::Cwd { path: to_dir })
            };
            proof {
                lemma_all_step(steps, j, l0, l1, self.log(), r is Ok);
            }
            if r.is_err() {
                proof {
                    lemma_all_fails(steps, j + 1, self.log(), l0.len() as int);
                }
                return r;
            }
            i += 1;
        }
        assert(steps.take(i - skip) =~= steps);
        Ok(())
    }

    /// The number of leading components of `p` that are not entered below
    /// the target directory.
    fn rel_skip(&self, p: &FsPath) -> (k: usize)
        ensures
            k <= p@.len(),
            p@.skip(k as int) == rel_comps(p@, self.offset()),
    {
        if p.len() > 0 && is_cur_dir(p.comp(0)) {
            1
        } else if self.output_path_offset <= p.len() {
            self.output_path_offset
        } else {
            assert(p@.skip(p@.len() as int) =~= Seq::<Seq<u8>>::empty());
            p.len()
        }
    }

    /// Goes from where the session started into the target directory, which
    /// is made on the way where it is missing. Gives the remote path of the
    /// target directory.
    pub fn ftp_goto_target_dir(&mut self) -> (r: Result<FsPath, SyncError>)
        ensures
            final(self).only_remote(old(self)),
            ran(old(self).log(), final(self).log(), old(self).site().goto_target(), r is Ok),
            r matches Ok(p) ==> p@ == old(self).site().target_path(),
            r matches Err(e) ==> remote_failure(e),
            surfaced(r, final(self).log()),
    {
        let ghost l0 = self.log();
        let ghost first = Script::Call(RemoteOp::CwdRoot);
        let ghost rest = walk(Seq::empty(), target_comps(self.target()), true);
        let r = self.perform(Request::CwdRoot);
        if let Err(e) = r {
            return Err(e);
        }
        let ghost l1 = self.log();
        let target = self.ftp_target_dir.duplicate();
        let skip: usize = if target.len() > 0 && is_root(target.comp(0)) {
            1
        } else {
            assert(target@.skip(0) =~= target@);
            0
        };
        let mut to_dir = FsPath::empty();
        let r = self.walk_down(&mut to_dir, &target, skip, true);
        proof {
            lemma_ran_then(l0, l1, self.log(), first, rest, r is Ok);
        }
        match r {
            Ok(()) => Ok(to_dir),
            Err(e) => Err(e),
        }
    }

    /// Goes into the remote directory of `dir`, from where the session
    /// started; a directory that is missing on the way is made. Gives the
    /// remote path of the directory.
    pub fn ftp_create_and_goto_dir(&mut self, dir: &FsPath) -> (r: Result<FsPath, SyncError>)
        ensures
            final(self).only_remote(old(self)),
            ran(old(self).log(), final(self).log(), old(self).site().create_and_goto(dir@), r is Ok),
            r matches Ok(p) ==> p@ == old(self).site().remote_of(dir@),
            r matches Err(e) ==> remote_failure(e),
            surfaced(r, final(self).log()),
    {
        self.goto(dir, true)
    }

    /// Goes into the remote directory of `src`, from where the session
    /// started; the directory has to be there. Gives its remote path.
    pub fn ftp_goto_dir(&mut self, src: &FsPath) -> (r: Result<FsPath, SyncError>)
        ensures
            final(self).only_remote(old(self)),
            ran(old(self).log(), final(self).log(), old(self).site().goto_dir(src@), r is Ok),
            r matches Ok(p) ==> p@ == old(self).site().remote_of(src@),
            r matches Err(e) ==> remote_failure(e),
            surfaced(r, final(self).log()),
    {
        self.goto(src, false)
    }

    /// Goes into the target directory and from there down to the remote
    /// directory of `dir`.
    fn goto(&mut self, dir: &FsPath, create: bool) -> (r: Result<FsPath, SyncError>)
        ensures
            final(self).only_remote(old(self)),
            ran(
                old(self).log(),
                final(self).log(),
                Script::Then(
                    Box::new(old(self).site().goto_target()),
                    Box::new(
                        walk(
                            old(self).site().target_path(),
                            rel_comps(dir@, old(self).offset()),
                            create,
                        ),
                    ),
                ),
                r is Ok,
            ),
            r matches Ok(p) ==> p@ == old(self).site().remote_of(dir@),
            r matches Err(e) ==> remote_failure(e),
            surfaced(r, final(self).log()),
    {
        let ghost l0 = self.log();
        let ghost site = self.site();
        let mut to_dir = match self.ftp_goto_target_dir() {
            Ok(p) => p,
            Err(e) => {
                return Err(e);
            },
        };
        let ghost l1 = self.log();
        let skip = self.rel_skip(dir);
        let r = self.walk_down(&mut to_dir, dir, skip, create);
        proof {
            lemma_ran_then(
                l0,
                l1,
                self.log(),
                site.goto_target(),
                walk(site.target_path(), rel_comps(dir@, site.offset), create),
                r is Ok,
            );
        }
        match r {
            Ok(()) => Ok(to_dir),
            Err(e) => Err(e),
        }
    }

    /// Goes into the remote directory that holds `src`. Gives its remote
    /// path.
    pub fn ftp_goto_parent_dir(&mut self, src: &FsPath) -> (r: Result<FsPath, SyncError>)
        ensures
            final(self).only_remote(old(self)),
            ran(old(self).log(), final(self).log(), old(self).site().goto_parent(src@), r is Ok),
            r matches Ok(p) ==> p@ == old(self).site().remote_of(src@.drop_last()),
            r matches Err(e) ==> remote_failure(e),
            surfaced(r, final(self).log()),
    {
        let mut parent_dir = src.duplicate();
        if !parent_dir.pop() {
            assert(self.log().take(self.log().len() as int) =~= self.log());
            return Err(SyncError::Path(PathError::NoLastComponent));
        }
        self.ftp_goto_dir(&parent_dir)
    }

    /// Goes into the directory that holds `path` and makes the call that
    /// removes `path` there: `rmdir` for a directory, `del` for a file.
    fn remove(&mut self, path: &FsPath, as_dir: bool) -> (r: Result<(), SyncError>)
        ensures
            final(self).only_remote(old(self)),
            ran(
                old(self).log(),
                final(self).log(),
                if as_dir {
                    old(self).site().remove_dir(path@)
                } else {
                    old(self).site().remove_file(path@)
                },
                r is Ok,
            ),
            r matches Err(e) ==> remote_failure(e),
            surfaced(r, final(self).log()),
    {
        let ghost l0 = self.log();
        let ghost site = self.site();
        let mut src_dir = match self.ftp_goto_parent_dir(path) {
            Ok(p) => p,
            Err(e) => {
                return Err(e);
            },
        };
        let ghost l1 = self.log();
        let ghost last = if valid_utf8(path@.last()) {
            if as_dir {
                Script::Call(RemoteOp::Rmdir { path: site.remote_in_parent(path@) })
            } else {
                Script::Call(RemoteOp::Del { path: site.remote_in_parent(path@) })
            }
        } else {
            Script::Fail
        };
        let n = path.len();
        let r = match comp_as_str(path.comp(n - 1)) {
            Err(e) => {
                assert(l1.take(l1.len() as int) =~= l1);
                Err(SyncError::Path(e))
            },
            Ok(_) => {
                src_dir.push(path.comp(n - 1));
                if as_dir {
                    self.perform(Request::Rmdir { path: &src_dir })
                } else {
                    self.perform(Request::Del { path: &src_dir })
                }
            },
        };
        proof {
            lemma_ran_then(l0, l1, self.log(), site.goto_parent(path@), last, r is Ok);
        }
        r
    }

    /// Removes the remote directory of `dir`.
    pub fn ftp_remove_dir(&mut self, dir: &FsPath) -> (r: Result<(), SyncError>)
        ensures
            final(self).only_remote(old(self)),
            ran(old(self).log(), final(self).log(), old(self).site().remove_dir(dir@), r is Ok),
            r matches Err(e) ==> remote_failure(e),
            surfaced(r, final(self).log()),
    {
        self.remove(dir, true)
    }

    /// Removes the remote file of `file`.
    pub fn ftp_remove_file(&mut self, file: &FsPath) -> (r: Result<(), SyncError>)
        ensures
            final(self).only_remote(old(self)),
            ran(old(self).log(), final(self).log(), old(self).site().remove_file(file@), r is Ok),
            r matches Err(e) ==> remote_failure(e),
            surfaced(r, final(self).log()),
    {
        self.remove(file, false)
    }

    /// Whether the remote side has `path` as a directory: whether it can be
    /// entered.
    pub fn ftp_is_dir(&mut self, path: &FsPath) -> (dir: bool)
        ensures
            final(self).only_remote(old(self)),
            ran(old(self).log(), final(self).log(), old(self).site().goto_dir(path@), dir),
    {
        self.ftp_goto_dir(path).is_ok()
    }

    /// The local path of the path `file` of the tree.
    fn local_path(&self, file: &FsPath) -> (local: FsPath)
        ensures
            local@ == self.site().local_of(file@),
    {
        let skip = self.rel_skip(file);
        let mut local = self.output_path.duplicate();
        let ghost comps = file@.skip(skip as int);
        let mut i: usize = skip;
        while i < file.len()
            invariant
                skip <= i <= file@.len(),
                comps == file@.skip(skip as int),
                local@ == pushed(self.output(), comps, (i - skip) as nat),
            decreases file@.len() - i,
        {
            assert(comps[i - skip] == file@[i as int]);
            local.push(file.comp(i));
            i += 1;
        }
        local
    }

    /// Pushes the file `file`: goes into its remote directory, which is made
    /// where it is missing, and stores the file there.
    pub fn ftp_push_file(&mut self, file: &FsPath) -> (r: Result<(), SyncError>)
        ensures
            final(self).only_remote(old(self)),
            ran(old(self).log(), final(self).log(), old(self).site().push_file(file@), r is Ok),
            r matches Err(e) ==> remote_failure(e),
            surfaced(r, final(self).log()),
    {
        let ghost l0 = self.log();
        let ghost site = self.site();
        assert(l0.take(l0.len() as int) =~= l0);
        let mut parent = file.duplicate();
        if !parent.pop() {
            return Err(SyncError::Path(PathError::NoLastComponent));
        }
        let n = file.len();
        if let Err(e) = comp_as_str(file.comp(n - 1)) {
            return Err(SyncError::Path(e));
        }
        let mut to_dir = match self.ftp_create_and_goto_dir(&parent) {
            Ok(p) => p,
            Err(e) => {
                return Err(e);
            },
        };
        let ghost l1 = self.log();
        to_dir.push(file.comp(n - 1));
        let local = self.local_path(file);
        let r = self.perform(Request::Put { remote: &to_dir, local: &local });
        proof {
            lemma_ran_then(
                l0,
                l1,
                self.log(),
                site.create_and_goto(file@.drop_last()),
                Script::Call(
                    RemoteOp::Put { remote: site.remote_in_parent(file@), local: site.local_of(file@) },
                ),
                r is Ok,
            );
        }
        r
    }

    /// Fetches the manifest that the last run left in the target directory
    /// into a local file beside the tree's own. Gives the path of that file.
    pub fn retrieve_checksums_file(&mut self) -> (r: Result<FsPath, SyncError>)
        ensures
            final(self).only_remote(old(self)),
            ran(old(self).log(), final(self).log(), old(self).site().retrieve(), r is Ok),
            r matches Ok(p) ==> p@ == old(self).site().fetched_copy_path(),
            r matches Err(e) ==> remote_failure(e),
            surfaced(r, final(self).log()),
    {
        let ghost l0 = self.log();
        let ghost site = self.site();
        let mut hash_file_path = match self.ftp_goto_target_dir() {
            Ok(p) => p,
            Err(e) => {
                return Err(e);
            },
        };
        let ghost l1 = self.log();
        hash_file_path.push(CRC_FILE_NAME.as_bytes());
        let mut old_hash_file_path = self.output_path.duplicate();
        old_hash_file_path.push(OLD_CRC_FILE_NAME.as_bytes());
        let r = self.perform(Request::Get { remote: &hash_file_path, local: &old_hash_file_path });
        proof {
            lemma_ran_then(
                l0,
                l1,
                self.log(),
                site.goto_target(),
                Script::Call(
                    RemoteOp::Get {
                        remote: with_comp(site.target_path(), encode_utf8(CRC_FILE_NAME@)),
                        local: with_comp(site.output, encode_utf8(OLD_CRC_FILE_NAME@)),
                    },
                ),
                r is Ok,
            );
        }
        match r {
            Ok(()) => Ok(old_hash_file_path),
            Err(e) => Err(e),
        }
    }

    /// Makes sure that `path` is there on the remote side: a directory is
    /// entered, and made where it is missing; a file is pushed.
    fn ensure(&mut self, path: &FsPath, is_dir: bool) -> (r: Result<(), SyncError>)
        ensures
            final(self).only_remote(old(self)),
            ran(old(self).log(), final(self).log(), old(self).site().ensure(path@, is_dir), r is Ok),
            r matches Err(e) ==> remote_failure(e),
            surfaced(r, final(self).log()),
    {
        if is_dir {
            match self.ftp_create_and_goto_dir(path) {
                Ok(_) => Ok(()),
                Err(e) => Err(e),
            }
        } else {
            self.ftp_push_file(path)
        }
    }

    /// Removes what may stand on the remote side in the place of `path`, a
    /// file or else a directory. Whether there was anything to remove does
    /// not matter.
    fn clear_place(&mut self, path: &FsPath)
        ensures
            final(self).only_remote(old(self)),
            ran(
                old(self).log(),
                final(self).log(),
                Script::Attempt(
                    Box::new(
                        Script::OrElse(
                            Box::new(old(self).site().remove_file(path@)),
                            Box::new(old(self).site().remove_dir(path@)),
                        ),
                    ),
                ),
                true,
            ),
    {
        let ghost l0 = self.log();
        let ghost site = self.site();
        let ghost either = Script::OrElse(
            Box::new(site.remove_file(path@)),
            Box::new(site.remove_dir(path@)),
        );
        if self.ftp_remove_file(path).is_err() {
            let ghost l1 = self.log();
            let removed = self.ftp_remove_dir(path);
            proof {
                lemma_ran_or_else(
                    l0,
                    l1,
                    self.log(),
                    site.remove_file(path@),
                    site.remove_dir(path@),
                    removed is Ok,
                );
                assert(ran(l0, self.log(), either, removed is Ok));
            }
        } else {
            assert(ran(l0, self.log(), either, true));
        }
        assert(ran(l0, self.log(), Script::Attempt(Box::new(either)), true));
    }

    /// Does on the remote side what the mutation `m` asks for.
    pub fn apply(&mut self, m: &Mutation) -> (r: Result<(), SyncError>)
        ensures
            final(self).only_remote(old(self)),
            ran(old(self).log(), final(self).log(), old(self).site().apply(m@), r is Ok),
            r matches Err(e) ==> remote_failure(e),
            surfaced(r, final(self).log()),
    {
        let ghost l0 = self.log();
        let ghost site = self.site();
        match m {
            Mutation::Create { path, is_dir, nested } => {
                if *nested {
                    self.ensure(path, *is_dir)
                } else {
                    self.clear_place(path);
                    let ghost l1 = self.log();
                    let r = self.ensure(path, *is_dir);
                    proof {
                        lemma_ran_then(
                            l0,
                            l1,
                            self.log(),
                            Script::Attempt(
                                Box::new(
                                    Script::OrElse(
                                        Box::new(site.remove_file(path@)),
                                        Box::new(site.remove_dir(path@)),
                                    ),
                                ),
                            ),
                            site.ensure(path@, *is_dir),
                            r is Ok,
                        );
                    }
                    r
                }
            },
            Mutation::Update { path, is_dir } => self.ensure(path, *is_dir),
            Mutation::Delete { path } => {
                let as_dir = self.ftp_is_dir(path);
                let ghost l1 = self.log();
                let r = self.remove(path, as_dir);
                proof {
                    lemma_ran_choose(
                        l0,
                        l1,
                        self.log(),
                        site.goto_dir(path@),
                        site.remove_dir(path@),
                        site.remove_file(path@),
                        as_dir,
                        r is Ok,
                    );
                }
                r
            },
        }
    }

    /// Does on the remote side what the mutations of `plan` ask for, each in
    /// its turn. The first that fails ends the attempt.
    pub fn apply_all(&mut self, plan: &Vec<Mutation>) -> (r: Result<(), SyncError>)
        ensures
            final(self).only_remote(old(self)),
            ran(
                old(self).log(),
                final(self).log(),
                old(self).site().apply_all(intents(plan@)),
                r is Ok,
            ),
            r matches Err(e) ==> remote_failure(e),
            surfaced(r, final(self).log()),
    {
        let ghost l0 = self.log();
        let ghost site = self.site();
        let ghost steps = site.apply_each(intents(plan@));
        let mut i: usize = 0;
        assert(l0.take(l0.len() as int) =~= l0);
        while i < plan.len()
            invariant
                i <= plan@.len(),
                self.only_remote(old(self)),
                l0 == old(self).log(),
                site == old(self).site(),
                steps == site.apply_each(intents(plan@)),
                ran(l0, self.log(), all(steps.take(i as int)), true),
            decreases plan@.len() - i,
        {
            let ghost l1 = self.log();
            let r = self.apply(&plan[i]);
            proof {
                assert(steps[i as int] == site.apply(plan@[i as int]@));
                lemma_all_step(steps, i as int, l0, l1, self.log(), r is Ok);
            }
            if r.is_err() {
                proof {
                    lemma_all_fails(steps, i + 1, self.log(), l0.len() as int);
                }
                return r;
            }
            i += 1;
        }
        assert(steps.take(i as int) =~= steps);
        Ok(())
    }

    /// Transfers the delta between the tree whose digests are `checksums`
    /// and the manifest `prior` of the last run: what is new or changed is
    /// created or updated, what is gone is deleted. The first remote
    /// operation that fails ends the attempt, and so do bytes that are no
    /// manifest.
    pub fn transfer_delta(&mut self, checksums: &Checksums, prior: &[u8]) -> (r: Result<
        (),
        SyncError,
    >)
        requires
            checksums.wf(),
        ensures
            final(self).only_remote(old(self)),
            ran(
                old(self).log(),
                final(self).log(),
                old(self).site().transfer_delta(checksums.entries(), checksums.dirs(), prior@),
                r is Ok,
            ),
            match parse_manifest(prior@) {
                Err(why) => r matches Err(e) && e == SyncError::Manifest(why),
                Ok(_) => r matches Err(e) ==> remote_failure(e),
            },
            surfaced(r, final(self).log()),
    {
        match deserialize(prior) {
            Err(e) => {
                assert(self.log().take(self.log().len() as int) =~= self.log());
                Err(SyncError::Manifest(e))
            },
            Ok(old_checksums) => {
                let plan = delta(checksums, &old_checksums);
                self.apply_all(&plan)
            },
        }
    }

    /// Pushes the whole tree whose digests are `checksums`: every directory
    /// is entered, and made where it is missing, and every file is stored,
    /// in the order of the paths.
    pub fn push_all_files(&mut self, checksums: &Checksums) -> (r: Result<(), SyncError>)
        ensures
            final(self).only_remote(old(self)),
            ran(
                old(self).log(),
                final(self).log(),
                old(self).site().push_all(checksums.entries(), checksums.dirs()),
                r is Ok,
            ),
            r matches Err(e) ==> remote_failure(e),
            surfaced(r, final(self).log()),
    {
        let ghost l0 = self.log();
        let ghost site = self.site();
        let ghost steps = site.push_each(checksums.entries(), checksums.dirs());
        let map = checksums.bytes_map();
        let mut i: usize = 0;
        assert(l0.take(l0.len() as int) =~= l0);
        while i < map.len()
            invariant
                i <= map@.len(),
                map@ == checksums.entries(),
                self.only_remote(old(self)),
                l0 == old(self).log(),
                site == old(self).site(),
                steps == site.push_each(checksums.entries(), checksums.dirs()),
                ran(l0, self.log(), all(steps.take(i as int)), true),
            decreases map@.len() - i,
        {
            let ghost l1 = self.log();
            let path = map.path(i);
            let is_dir = checksums.is_dir(path);
            let r = self.ensure(path, is_dir);
            proof {
                lemma_all_step(steps, i as int, l0, l1, self.log(), r is Ok);
            }
            if r.is_err() {
                proof {
                    lemma_all_fails(steps, i + 1, self.log(), l0.len() as int);
                }
                return r;
            }
            i += 1;
        }
        assert(steps.take(i as int) =~= steps);
        Ok(())
    }

    /// Writes `data` as the local file `path` and notes the call.
    fn local_write<L: LocalFiles>(&mut self, local: &mut L, path: &FsPath, data: &[u8]) -> (r:
        Result<(), SyncError>)
        ensures
            final(self).same_settings(old(self)),
            final(self).log() == old(self).log(),
            final(self).local() == old(self).local().push(
                LocalCall::Write { path: path@, data: data@, ok: r is Ok },
            ),
            final(self).fallen_back() == old(self).fallen_back(),
            r matches Err(e) ==> e is Local,
    {
        let r = local.write(path, data);
        proof {
            self.local_log@ = self.local_log@.push(
                LocalCall::Write { path: path@, data: data@, ok: r is Ok },
            );
        }
        match r {
            Ok(()) => Ok(()),
            Err(cause) => Err(SyncError::Local(cause)),
        }
    }

    /// Reads the local file `path` and notes the call.
    fn local_read<L: LocalFiles>(&mut self, local: &mut L, path: &FsPath) -> (r: Result<
        Vec<u8>,
        SyncError,
    >)
        ensures
            final(self).same_settings(old(self)),
            final(self).log() == old(self).log(),
            final(self).local() == old(self).local().push(
                LocalCall::Read { path: path@, found: bytes_read(r) },
            ),
            final(self).fallen_back() == old(self).fallen_back(),
            r matches Err(e) ==> e is Local,
    {
        let r = local.read(path);
        proof {
            self.local_log@ = self.local_log@.push(
                LocalCall::Read { path: path@, found: bytes_read(r) },
            );
        }
        match r {
            Ok(bytes) => Ok(bytes),
            Err(cause) => Err(SyncError::Local(cause)),
        }
    }

    /// Removes the local file `path` and notes the call. Whether the file
    /// could be removed is for the log alone.
    fn local_remove<L: LocalFiles>(&mut self, local: &mut L, path: &FsPath)
        ensures
            final(self).same_settings(old(self)),
            final(self).log() == old(self).log(),
            final(self).local().len() == old(self).local().len() + 1,
            final(self).local().drop_last() == old(self).local(),
            final(self).local().last() matches LocalCall::Remove { path: p, .. } && p == path@,
            final(self).fallen_back() == old(self).fallen_back(),
    {
        let r = local.remove(path);
        proof {
            self.local_log@ = self.local_log@.push(LocalCall::Remove { path: path@, ok: r is Ok });
            assert(self.local_log@.drop_last() =~= old(self).local_log@);
        }
    }

    /// Reads the fetched copy of the manifest at `path` through `local` and
    /// removes it. Whether it could be removed is for the log alone.
    fn read_fetched_copy<L: LocalFiles>(&mut self, local: &mut L, path: &FsPath) -> (r: Result<
        Vec<u8>,
        SyncError,
    >)
        ensures
            final(self).same_settings(old(self)),
            final(self).log() == old(self).log(),
            final(self).local().len() == old(self).local().len() + 2,
            final(self).local().take(old(self).local().len() as int) == old(self).local(),
            final(self).local()[old(self).local().len() as int] == (LocalCall::Read {
                path: path@,
                found: bytes_read(r),
            }),
            final(self).local()[old(self).local().len() as int + 1] matches LocalCall::Remove { path: p, .. }
                && p == path@,
            final(self).fallen_back() == old(self).fallen_back(),
            r matches Err(e) ==> e is Local,
    {
        let ghost f0 = self.local();
        let data = self.local_read(local, path);
        let ghost f1 = self.local();
        self.local_remove(local, path);
        proof {
            let f2 = self.local();
            assert(f2.drop_last() == f1);
            assert(f2.take(f0.len() as int) =~= f1.take(f0.len() as int));
            assert(f1.take(f0.len() as int) =~= f0);
            assert(f2[f0.len() as int] == f2.drop_last()[f0.len() as int]);
            assert(f2[f0.len() as int + 1] == f2.last());
        }
        data
    }

    /// The delta path end to end: fetches the manifest of the last run,
    /// reads it through `local`, removes the fetched copy and transfers the
    /// delta against what was read. A manifest that cannot be fetched or
    /// read ends the attempt. The local files are touched only where the
    /// manifest was fetched: then the fetched copy is read and removed.
    #[verifier::rlimit(40)]
    pub fn push_delta<L: LocalFiles>(&mut self, checksums: &Checksums, local: &mut L) -> (r:
        Result<(), SyncError>)
        requires
            checksums.wf(),
        ensures
            final(self).same_settings(old(self)),
            final(self).fallen_back() == old(self).fallen_back(),
            old(self).local().len() <= final(self).local().len(),
            final(self).local().take(old(self).local().len() as int) == old(self).local(),
            fetched_copy_handled(
                old(self).site(),
                run(old(self).site().retrieve(), final(self).log(), old(self).log().len() as int),
                final(self).local().skip(old(self).local().len() as int),
            ),
            ran(
                old(self).log(),
                final(self).log(),
                old(self).site().push_delta(
                    checksums.entries(),
                    checksums.dirs(),
                    read_result(final(self).local().skip(old(self).local().len() as int)),
                ),
                r is Ok,
            ),
            r matches Err(e) ==> delta_failure(
                e,
                run(old(self).site().retrieve(), final(self).log(), old(self).log().len() as int),
                read_result(final(self).local().skip(old(self).local().len() as int)),
            ),
            surfaced(r, final(self).log()),
    {
        let ghost l0 = self.log();
        let ghost f0 = self.local();
        let ghost site = self.site();
        let ghost cur = checksums.entries();
        let ghost dirs = checksums.dirs();
        let fetched = self.retrieve_checksums_file();
        let ghost l1 = self.log();
        let old_hash_file_path = match fetched {
            Ok(p) => p,
            Err(e) => {
                proof {
                    assert(f0.take(f0.len() as int) =~= f0);
                    assert(f0.skip(f0.len() as int) =~= Seq::<LocalCall>::empty());
                    assert(read_result(Seq::<LocalCall>::empty()) is None);
                    assert(ran(l0, l1, site.push_delta(cur, dirs, None), false));
                }
                return Err(e);
            },
        };
        let data = self.read_fetched_copy(local, &old_hash_file_path);
        let ghost added = self.local().skip(f0.len() as int);
        let ghost prior = bytes_read(data);
        proof {
            assert(added.len() == 2);
            assert(added[0] == self.local()[f0.len() as int]);
            assert(added[1] == self.local()[f0.len() as int + 1]);
            assert(read_result(added) == prior);
            assert(run(site.retrieve(), l1, l0.len() as int) == Some((l1.len() as int, true)));
        }
        match data {
            Err(e) => {
                proof {
                    assert(l1.take(l1.len() as int) =~= l1);
                    lemma_ran_then(l0, l1, l1, site.retrieve(), Script::Fail, false);
                }
                Err(e)
            },
            Ok(bytes) => {
                let r = self.transfer_delta(checksums, bytes.as_slice());
                proof {
                    lemma_ran_then(
                        l0,
                        l1,
                        self.log(),
                        site.retrieve(),
                        site.transfer_delta(cur, dirs, bytes@),
                        r is Ok,
                    );
                    lemma_run_stable(site.retrieve(), l1, l0.len() as int, self.log());
                }
                r
            },
        }
    }

    /// Builds the digest map of the tree with the entries `tree` and writes
    /// its manifest through `local` into the directory of the tree.
    pub fn create_checksums_file<L: LocalFiles>(
        &mut self,
        tree: &Vec<TreeEntry>,
        local: &mut L,
    ) -> (r: Result<Checksums, SyncError>)
        ensures
            final(self).same_settings(old(self)),
            final(self).fallen_back() == old(self).fallen_back(),
            final(self).log() == old(self).log(),
            final(self).local() == old(self).local().push(
                LocalCall::Write {
                    path: old(self).site().manifest_path(),
                    data: enc_entries(tree_entries(tree@)),
                    ok: r is Ok,
                },
            ),
            r matches Ok(c) ==> c.wf() && c.entries() == tree_entries(tree@) && c.dirs()
                == dir_paths(tree@) && c.failures() == failures(tree@),
            r matches Err(e) ==> e is Local,
    {
        let mut hash_file_path = self.output_path.duplicate();
        hash_file_path.push(CRC_FILE_NAME.as_bytes());
        let checksums = build_checksums(tree);
        let bytes = serialize(checksums.bytes_map());
        match self.local_write(local, &hash_file_path, bytes.as_slice()) {
            Ok(()) => Ok(checksums),
            Err(e) => Err(e),
        }
    }

    /// Tries the delta path and pushes the whole tree where that fails.
    #[verifier::rlimit(40)]
    fn delta_or_all<L: LocalFiles>(&mut self, checksums: &Checksums, local: &mut L) -> (r: Result<
        (),
        SyncError,
    >)
        requires
            checksums.wf(),
        ensures
            final(self).same_settings(old(self)),
            old(self).local().len() <= final(self).local().len(),
            final(self).local().take(old(self).local().len() as int) == old(self).local(),
            fetched_copy_handled(
                old(self).site(),
                run(old(self).site().retrieve(), final(self).log(), old(self).log().len() as int),
                final(self).local().skip(old(self).local().len() as int),
            ),
            run(old(self).site().retrieve(), final(self).log(), old(self).log().len() as int)
                is Some,
            fell_back(
                final(self).fallen_back(),
                run(
                    old(self).site().push_delta(
                        checksums.entries(),
                        checksums.dirs(),
                        read_result(final(self).local().skip(old(self).local().len() as int)),
                    ),
                    final(self).log(),
                    old(self).log().len() as int,
                ),
                run(old(self).site().retrieve(), final(self).log(), old(self).log().len() as int),
                read_result(final(self).local().skip(old(self).local().len() as int)),
            ),
            ran(
                old(self).log(),
                final(self).log(),
                old(self).site().delta_or_all(
                    checksums.entries(),
                    checksums.dirs(),
                    read_result(final(self).local().skip(old(self).local().len() as int)),
                ),
                r is Ok,
            ),
            r matches Err(e) ==> remote_failure(e),
            surfaced(r, final(self).log()),
    {
        let ghost l0 = self.log();
        let ghost f0 = self.local();
        let ghost site = self.site();
        let ghost cur = checksums.entries();
        let ghost dirs = checksums.dirs();
        let first = self.push_delta(checksums, local);
        let ghost l1 = self.log();
        let ghost prior = read_result(self.local().skip(f0.len() as int));
        proof {
            // the fetch is the first part of the attempt
            lemma_run_prefix_of_then(
                site.retrieve(),
                match prior {
                    Some(bytes) => site.transfer_delta(cur, dirs, bytes),
                    None => Script::Fail,
                },
                l1,
                l0.len() as int,
            );
        }
        match first {
            Ok(()) => {
                self.fallback = None;
                return Ok(());
            },
            Err(e) => {
                self.fallback = Some(e);
            },
        }
        let pushed = self.push_all_files(checksums);
        proof {
            lemma_ran_or_else(
                l0,
                l1,
                self.log(),
                site.push_delta(cur, dirs, prior),
                site.push_all(cur, dirs),
                pushed is Ok,
            );
            lemma_run_stable(site.retrieve(), l1, l0.len() as int, self.log());
            lemma_run_stable(site.push_delta(cur, dirs, prior), l1, l0.len() as int, self.log());
        }
        pushed
    }

    /// Brings the remote side up to date with the tree whose digests are
    /// `checksums` and whose manifest is written: tries the delta path,
    /// pushes the whole tree where that fails, and in the end pushes the
    /// manifest. A failure of the full push or of the manifest's push is the
    /// run's.
    #[verifier::rlimit(40)]
    pub fn execute_with<L: LocalFiles>(&mut self, checksums: &Checksums, local: &mut L) -> (r:
        Result<(), SyncError>)
        requires
            checksums.wf(),
        ensures
            final(self).same_settings(old(self)),
            old(self).local().len() <= final(self).local().len(),
            final(self).local().take(old(self).local().len() as int) == old(self).local(),
            fetched_copy_handled(
                old(self).site(),
                run(old(self).site().retrieve(), final(self).log(), old(self).log().len() as int),
                final(self).local().skip(old(self).local().len() as int),
            ),
            fell_back(
                final(self).fallen_back(),
                run(
                    old(self).site().push_delta(
                        checksums.entries(),
                        checksums.dirs(),
                        read_result(final(self).local().skip(old(self).local().len() as int)),
                    ),
                    final(self).log(),
                    old(self).log().len() as int,
                ),
                run(old(self).site().retrieve(), final(self).log(), old(self).log().len() as int),
                read_result(final(self).local().skip(old(self).local().len() as int)),
            ),
            ran(
                old(self).log(),
                final(self).log(),
                old(self).site().execute(
                    checksums.entries(),
                    checksums.dirs(),
                    read_result(final(self).local().skip(old(self).local().len() as int)),
                ),
                r is Ok,
            ),
            r matches Err(e) ==> remote_failure(e),
            surfaced(r, final(self).log()),
    {
        let ghost l0 = self.log();
        let ghost site = self.site();
        let first = self.delta_or_all(checksums, local);
        if first.is_err() {
            return first;
        }
        let ghost l1 = self.log();
        let ghost either = site.delta_or_all(
            checksums.entries(),
            checksums.dirs(),
            read_result(self.local().skip(old(self).local().len() as int)),
        );
        let mut crc_file_path = self.output_path.duplicate();
        crc_file_path.push(CRC_FILE_NAME.as_bytes());
        let r = self.ftp_push_file(&crc_file_path);
        proof {
            lemma_ran_then(l0, l1, self.log(), either, site.push_file(site.manifest_path()), r is Ok);
            lemma_run_stable(site.retrieve(), l1, l0.len() as int, self.log());
            lemma_run_prefix_of_or_else(
                site.push_delta(
                    checksums.entries(),
                    checksums.dirs(),
                    read_result(self.local().skip(old(self).local().len() as int)),
                ),
                site.push_all(checksums.entries(), checksums.dirs()),
                l1,
                l0.len() as int,
            );
            lemma_run_stable(
                site.push_delta(
                    checksums.entries(),
                    checksums.dirs(),
                    read_result(self.local().skip(old(self).local().len() as int)),
                ),
                l1,
                l0.len() as int,
                self.log(),
            );
        }
        r
    }

    /// A whole run for the tree with the entries `tree`: builds the digest
    /// map and writes the manifest through `local`, tries the delta path,
    /// pushes the whole tree where that fails, and in the end pushes the new
    /// manifest. Where the manifest cannot be written the run ends before
    /// any remote call.
    #[verifier::rlimit(40)]
    pub fn execute<L: LocalFiles>(&mut self, tree: &Vec<TreeEntry>, local: &mut L) -> (r: Result<
        (),
        SyncError,
    >)
        ensures
            final(self).same_settings(old(self)),
            old(self).local().len() < final(self).local().len(),
            final(self).local().take(old(self).local().len() as int) == old(self).local(),
            final(self).local()[old(self).local().len() as int] matches LocalCall::Write {
                path,
                data,
                ok,
            } && path == old(self).site().manifest_path() && data == enc_entries(
                tree_entries(tree@),
            ) && (if ok {
                &&& fetched_copy_handled(
                    old(self).site(),
                    run(
                        old(self).site().retrieve(),
                        final(self).log(),
                        old(self).log().len() as int,
                    ),
                    final(self).local().skip(old(self).local().len() as int + 1),
                )
                &&& ran(
                    old(self).log(),
                    final(self).log(),
                    old(self).site().execute(
                        tree_entries(tree@),
                        dir_paths(tree@),
                        read_result(final(self).local().skip(old(self).local().len() as int + 1)),
                    ),
                    r is Ok,
                )
                &&& r matches Err(e) ==> remote_failure(e)
                &&& surfaced(r, final(self).log())
                &&& fell_back(
                    final(self).fallen_back(),
                    run(
                        old(self).site().push_delta(
                            tree_entries(tree@),
                            dir_paths(tree@),
                            read_result(final(self).local().skip(old(self).local().len() as int + 1)),
                        ),
                        final(self).log(),
                        old(self).log().len() as int,
                    ),
                    run(
                        old(self).site().retrieve(),
                        final(self).log(),
                        old(self).log().len() as int,
                    ),
                    read_result(final(self).local().skip(old(self).local().len() as int + 1)),
                )
            } else {
                &&& final(self).fallen_back() == old(self).fallen_back()
                &&& r matches Err(e) && e is Local
                &&& final(self).log() == old(self).log()
                &&& final(self).local().len() == old(self).local().len() + 1
            }),
    {
        let ghost f0 = self.local();
        let checksums = match self.create_checksums_file(tree, local) {
            Ok(c) => c,
            Err(e) => {
                assert(self.local().take(f0.len() as int) =~= f0);
                return Err(e);
            },
        };
        let ghost f1 = self.local();
        let r = self.execute_with(&checksums, local);
        proof {
            assert(self.local().take(f0.len() as int) =~= self.local().take(f1.len() as int).take(
                f0.len() as int,
            ));
            assert(f1.take(f0.len() as int) =~= f0);
            assert(self.local()[f0.len() as int] == self.local().take(f1.len() as int)[f0.len() as int]);
        }
        r
    }
}

/// One remote call to make.
enum Request<'a> {
    Get { remote: &'a FsPath, local: &'a FsPath },
    Put { remote: &'a FsPath, local: &'a FsPath },
    Del { path: &'a FsPath },
    Cwd { path: &'a FsPath },
    Rmdir { path: &'a FsPath },
    Mkdir { path: &'a FsPath },
    CwdRoot,
}

impl<'a> View for Request<'a> {
    type V = RemoteOp;

    closed spec fn view(&self) -> RemoteOp {
        match *self {
            Request::Get { remote, local } => RemoteOp::Get { remote: remote@, local: local@ },
            Request::Put { remote, local } => RemoteOp::Put { remote: remote@, local: local@ },
            Request::Del { path } => RemoteOp::Del { path: path@ },
            Request::Cwd { path } => RemoteOp::Cwd { path: path@ },
            Request::Rmdir { path } => RemoteOp::Rmdir { path: path@ },
            Request::Mkdir { path } => RemoteOp::Mkdir { path: path@ },
            Request::CwdRoot => RemoteOp::CwdRoot,
        }
    }
}

/// Whether the component is the root.
fn is_root(comp: &[u8]) -> (root: bool)
    ensures
        root == (comp@ == root_comp()),
{
    let root = comp.len() == 1 && comp[0] == SEPARATOR;
    proof {
        if root {
            assert(comp@ =~= root_comp());
        }
        assert(root_comp().len() == 1 && root_comp()[0] == SEPARATOR);
    }
    root
}

/// Whether the component is the current directory.
fn is_cur_dir(comp: &[u8]) -> (cur: bool)
    ensures
        cur == (comp@ == cur_dir_comp()),
{
    let cur = comp.len() == 1 && comp[0] == DOT;
    proof {
        if cur {
            assert(comp@ =~= cur_dir_comp());
        }
        assert(cur_dir_comp().len() == 1 && cur_dir_comp()[0] == DOT);
    }
    cur
}

/// Idempotence: against the manifest of the same tree the delta asks for
/// nothing, so that transferring it makes no remote call.
pub proof fn lemma_unchanged_tree_makes_no_call(
    site: Site,
    cur: Seq<EntryView>,
    dirs: Seq<Seq<Seq<u8>>>,
)
    requires
        sorted(cur),
        storable(cur),
    ensures
        site.transfer_delta(cur, dirs, enc_entries(cur)) == all(Seq::<Script>::empty()),
        forall|log: Seq<RemoteCall>, at: int|
            run(site.transfer_delta(cur, dirs, enc_entries(cur)), log, at) == Some((at, true)),
{
    lemma_manifest_round_trip(cur);
    lemma_delta_of_same_is_empty(cur, dirs);
    assert(site.apply_each(Seq::<Intent>::empty()) =~= Seq::<Script>::empty());
}

/// Best effort: what stands in the place of a new path is removed where it
/// can be, a file or else a directory, and whether the removal finds
/// anything does not end the run: it goes on to make sure of the path.
pub proof fn lemma_create_goes_on_after_clearing(
    site: Site,
    path: Seq<Seq<u8>>,
    is_dir: bool,
    log: Seq<RemoteCall>,
    at: int,
)
    ensures
        run(site.apply(Intent::Create { path, is_dir, nested: false }), log, at) == (match run(
            Script::OrElse(Box::new(site.remove_file(path)), Box::new(site.remove_dir(path))),
            log,
            at,
        ) {
            Some((mid, _)) => run(site.ensure(path, is_dir), log, mid),
            None => None,
        }),
{
    let clearing = Script::OrElse(
        Box::new(site.remove_file(path)),
        Box::new(site.remove_dir(path)),
    );
    assert(run(Script::Attempt(Box::new(clearing)), log, at) == (match run(clearing, log, at) {
        Some((end, _)) => Some((end, true)),
        None => None,
    }));
}

/// Idempotence of a run: where the remote side holds the manifest of the
/// very tree, a run fetches it and then does nothing but push the manifest
/// again.
pub proof fn lemma_run_on_unchanged_tree(
    site: Site,
    cur: Seq<EntryView>,
    dirs: Seq<Seq<Seq<u8>>>,
    log: Seq<RemoteCall>,
    at: int,
)
    requires
        sorted(cur),
        storable(cur),
        run(site.retrieve(), log, at) matches Some((_, true)),
    ensures
        run(site.execute(cur, dirs, Some(enc_entries(cur))), log, at) == run(
            site.push_file(site.manifest_path()),
            log,
            (run(site.retrieve(), log, at)->0).0,
        ),
{
    let mid = (run(site.retrieve(), log, at)->0).0;
    let prior = Some(enc_entries(cur));
    lemma_unchanged_tree_makes_no_call(site, cur, dirs);
    assert(run(site.transfer_delta(cur, dirs, enc_entries(cur)), log, mid) == Some((mid, true)));
    assert(run(site.push_delta(cur, dirs, prior), log, at) == Some((mid, true)));
    assert(run(site.delta_or_all(cur, dirs, prior), log, at) == Some((mid, true)));
}

} // verus!
