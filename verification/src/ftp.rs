//! Remote operations, and what a run of them looks like.
//!
//! A remote file store offers seven operations. Two kinds of store stand
//! behind them, one that is addressed a directory at a time and one that
//! takes whole paths; the synchronizer uses either through the same seven
//! calls. What the synchronizer asks of a store is stated as a script: which
//! calls are made, in which order, and how the outcome of one call decides
//! the next.

use crate::path::FsPath;
use vstd::prelude::*;

verus! {

/// A remote operation that failed: the path it was tried on, and the cause.
#[derive(Debug)]
pub struct TransferError {
    pub path: FsPath,
    pub cause: String,
}

/// The operations of a remote file store. A call that fails says so; there
/// are no retries at this level.
pub trait Operations {
    /// Fetches the remote file `path` into the local file `local_path`.
    fn get(&mut self, path: &FsPath, local_path: &FsPath) -> Result<(), TransferError>;

    /// Stores the local file `local_path` as the remote file `path`.
    fn put(&mut self, path: &FsPath, local_path: &FsPath) -> Result<(), TransferError>;

    /// Removes the remote file `path`.
    fn del(&mut self, path: &FsPath) -> Result<(), TransferError>;

    /// Enters the remote directory `path`.
    fn cwd(&mut self, path: &FsPath) -> Result<(), TransferError>;

    /// Removes the remote directory `path`.
    fn rmdir(&mut self, path: &FsPath) -> Result<(), TransferError>;

    /// Makes the remote directory `path`.
    fn mkdir(&mut self, path: &FsPath) -> Result<(), TransferError>;

    /// Goes back to the directory that the session started in.
    fn cwdroot(&mut self) -> Result<(), TransferError>;
}

/// One remote operation with its arguments, as a plain value.
pub enum RemoteOp {
    Get { remote: Seq<Seq<u8>>, local: Seq<Seq<u8>> },
    Put { remote: Seq<Seq<u8>>, local: Seq<Seq<u8>> },
    Del { path: Seq<Seq<u8>> },
    Cwd { path: Seq<Seq<u8>> },
    Rmdir { path: Seq<Seq<u8>> },
    Mkdir { path: Seq<Seq<u8>> },
    CwdRoot,
}

/// A failure of a remote operation as a plain value: the path and the
/// cause.
pub type Failure = (Seq<Seq<u8>>, Seq<char>);

/// The failure that `e` reports.
pub open spec fn failure_view(e: TransferError) -> Failure {
    (e.path@, e.cause@)
}

/// What a call gave as a plain value: nothing for a call that the store
/// did, and the failure for a call that it refused.
pub open spec fn refusal(r: Result<(), TransferError>) -> Option<Failure> {
    match r {
        Ok(_) => None,
        Err(e) => Some(failure_view(e)),
    }
}

/// One call that was made: the operation, whether the store did it, and
/// the failure that it reported where it did not.
pub struct RemoteCall {
    pub op: RemoteOp,
    pub ok: bool,
    pub failure: Option<Failure>,
}

/// A script of remote operations.
pub enum Script {
    /// Makes no call and succeeds.
    Skip,
    /// Makes no call and fails.
    Fail,
    /// Makes one call, and succeeds where the call does.
    Call(RemoteOp),
    /// Runs the first script and, where that succeeds, the second.
    Then(Box<Script>, Box<Script>),
    /// Runs the first script and, where that fails, the second.
    OrElse(Box<Script>, Box<Script>),
    /// Runs the script and succeeds whether it does or not.
    Attempt(Box<Script>),
    /// Runs the first script, then the second where the first succeeded and
    /// the third where it failed.
    Choose(Box<Script>, Box<Script>, Box<Script>),
}

/// Reads the calls of `log` from position `at` on as a run of the script
/// `s`: the position behind the run and whether the script succeeded, or
/// nothing where the calls are not a run of `s`.
pub open spec fn run(s: Script, log: Seq<RemoteCall>, at: int) -> Option<(int, bool)>
    decreases s,
{
    match s {
        Script::Skip => Some((at, true)),
        Script::Fail => Some((at, false)),
        Script::Call(op) => if 0 <= at < log.len() && log[at].op == op {
            Some((at + 1, log[at].ok))
        } else {
            None
        },
        Script::Then(a, b) => match run(*a, log, at) {
            Some((mid, true)) => run(*b, log, mid),
            other => other,
        },
        Script::OrElse(a, b) => match run(*a, log, at) {
            Some((mid, false)) => run(*b, log, mid),
            other => other,
        },
        Script::Attempt(a) => match run(*a, log, at) {
            Some((end, _)) => Some((end, true)),
            None => None,
        },
        Script::Choose(c, a, b) => match run(*c, log, at) {
            Some((mid, true)) => run(*a, log, mid),
            Some((mid, false)) => run(*b, log, mid),
            None => None,
        },
    }
}

/// `a` is the beginning of `b`.
pub open spec fn extends(a: Seq<RemoteCall>, b: Seq<RemoteCall>) -> bool {
    a.len() <= b.len() && b.take(a.len() as int) == a
}

/// The calls made between the log `before` and the log `after` are a run of
/// the script `s`, and `ok` says whether it succeeded.
pub open spec fn ran(before: Seq<RemoteCall>, after: Seq<RemoteCall>, s: Script, ok: bool) -> bool {
    extends(before, after) && run(s, after, before.len() as int) == Some((after.len() as int, ok))
}

/// The scripts of `ss` one after the other, up to the first that fails.
pub open spec fn all(ss: Seq<Script>) -> Script
    decreases ss.len(),
{
    if ss.len() == 0 {
        Script::Skip
    } else {
        Script::Then(Box::new(all(ss.drop_last())), Box::new(ss.last()))
    }
}

/// A run ends within the log, behind where it began, and stays the same run
/// when more calls follow.
pub proof fn lemma_run_stable(s: Script, log: Seq<RemoteCall>, at: int, more: Seq<RemoteCall>)
    requires
        0 <= at <= log.len(),
        run(s, log, at) is Some,
        extends(log, more),
    ensures
        at <= (run(s, log, at)->0).0 <= log.len(),
        run(s, more, at) == run(s, log, at),
    decreases s,
{
    match s {
        Script::Skip => {},
        Script::Fail => {},
        Script::Call(op) => {
            assert(more.take(log.len() as int)[at] == log[at]);
        },
        Script::Then(a, b) => {
            lemma_run_stable(*a, log, at, more);
            if let Some((mid, true)) = run(*a, log, at) {
                lemma_run_stable(*b, log, mid, more);
            }
        },
        Script::OrElse(a, b) => {
            lemma_run_stable(*a, log, at, more);
            if let Some((mid, false)) = run(*a, log, at) {
                lemma_run_stable(*b, log, mid, more);
            }
        },
        Script::Attempt(a) => {
            lemma_run_stable(*a, log, at, more);
        },
        Script::Choose(c, a, b) => {
            lemma_run_stable(*c, log, at, more);
            match run(*c, log, at) {
                Some((mid, true)) => {
                    lemma_run_stable(*a, log, mid, more);
                },
                Some((mid, false)) => {
                    lemma_run_stable(*b, log, mid, more);
                },
                None => {},
            }
        },
    }
}

/// Extending is transitive.
pub proof fn lemma_extends_transitive(a: Seq<RemoteCall>, b: Seq<RemoteCall>, c: Seq<RemoteCall>)
    requires
        extends(a, b),
        extends(b, c),
    ensures
        extends(a, c),
{
    assert(c.take(a.len() as int) =~= c.take(b.len() as int).take(a.len() as int));
}

/// A run that succeeded, followed by a run of a second script, is a run of
/// the two in sequence.
pub proof fn lemma_ran_then(
    l0: Seq<RemoteCall>,
    l1: Seq<RemoteCall>,
    l2: Seq<RemoteCall>,
    a: Script,
    b: Script,
    ok: bool,
)
    requires
        ran(l0, l1, a, true),
        ran(l1, l2, b, ok),
    ensures
        ran(l0, l2, Script::Then(Box::new(a), Box::new(b)), ok),
{
    lemma_extends_transitive(l0, l1, l2);
    lemma_run_stable(a, l1, l0.len() as int, l2);
}

/// A run that failed, followed by a run of a second script, is a run of the
/// first with the second to fall back on.
pub proof fn lemma_ran_or_else(
    l0: Seq<RemoteCall>,
    l1: Seq<RemoteCall>,
    l2: Seq<RemoteCall>,
    a: Script,
    b: Script,
    ok: bool,
)
    requires
        ran(l0, l1, a, false),
        ran(l1, l2, b, ok),
    ensures
        ran(l0, l2, Script::OrElse(Box::new(a), Box::new(b)), ok),
{
    lemma_extends_transitive(l0, l1, l2);
    lemma_run_stable(a, l1, l0.len() as int, l2);
}

/// A run of a test, followed by a run of the script that its outcome picks,
/// is a run of the choice.
pub proof fn lemma_ran_choose(
    l0: Seq<RemoteCall>,
    l1: Seq<RemoteCall>,
    l2: Seq<RemoteCall>,
    c: Script,
    a: Script,
    b: Script,
    picked: bool,
    ok: bool,
)
    requires
        ran(l0, l1, c, picked),
        ran(
            l1,
            l2,
            if picked {
                a
            } else {
                b
            },
            ok,
        ),
    ensures
        ran(l0, l2, Script::Choose(Box::new(c), Box::new(a), Box::new(b)), ok),
{
    lemma_extends_transitive(l0, l1, l2);
    lemma_run_stable(c, l1, l0.len() as int, l2);
}

/// Where the first `k` scripts of a list fail, so does the whole list, with
/// the same calls.
pub proof fn lemma_all_fails(ss: Seq<Script>, k: int, log: Seq<RemoteCall>, at: int)
    requires
        0 <= k <= ss.len(),
        run(all(ss.take(k)), log, at) matches Some((_, false)),
    ensures
        run(all(ss), log, at) == run(all(ss.take(k)), log, at),
    decreases ss.len() - k,
{
    if k == ss.len() {
        assert(ss.take(k) =~= ss);
    } else {
        let next = ss.take(k + 1);
        assert(next.drop_last() =~= ss.take(k));
        lemma_all_fails(ss, k + 1, log, at);
    }
}

/// One more script behind a list that succeeded: a run of the longer list.
pub proof fn lemma_all_step(
    ss: Seq<Script>,
    k: int,
    l0: Seq<RemoteCall>,
    l1: Seq<RemoteCall>,
    l2: Seq<RemoteCall>,
    ok: bool,
)
    requires
        0 <= k < ss.len(),
        ran(l0, l1, all(ss.take(k)), true),
        ran(l1, l2, ss[k], ok),
    ensures
        ran(l0, l2, all(ss.take(k + 1)), ok),
{
    let next = ss.take(k + 1);
    assert(next.drop_last() =~= ss.take(k));
    assert(next.last() == ss[k]);
    lemma_ran_then(l0, l1, l2, all(ss.take(k)), ss[k], ok);
}

/// Where two scripts ran in sequence, the first alone ran as well.
pub proof fn lemma_run_prefix_of_then(a: Script, b: Script, log: Seq<RemoteCall>, at: int)
    requires
        run(Script::Then(Box::new(a), Box::new(b)), log, at) is Some,
    ensures
        run(a, log, at) is Some,
{
}

/// Where a script ran with another to fall back on, the script alone ran as
/// well.
pub proof fn lemma_run_prefix_of_or_else(a: Script, b: Script, log: Seq<RemoteCall>, at: int)
    requires
        run(Script::OrElse(Box::new(a), Box::new(b)), log, at) is Some,
    ensures
        run(a, log, at) is Some,
{
}

} // verus!
