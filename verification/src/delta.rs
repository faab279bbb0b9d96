//! The delta engine: what has to happen on the remote side.
//!
//! The digest map of the tree is compared with the map that the last run
//! left on the remote side. One pass over the tree's map, in the order of
//! paths, classes every path as unchanged, created or updated; the paths of
//! the earlier map that the pass did not meet are deleted. A directory whose
//! digest is unchanged stands for everything below it, and so does a
//! directory that is new.

use crate::path::{is_prefix, path_lt, FsPath};
use crate::sha1dir::Checksums;
use crate::snapshot::{
    digest_eq, has_key, index_of, lemma_lookup_at, lemma_sorted_unique, lookup, sorted, DigestMap,
    EntryView,
};
use vstd::prelude::*;

verus! {

/// One thing to do on the remote side.
#[derive(Debug)]
pub enum Mutation {
    /// The path is new. For a directory this means that it has to exist.
    /// `nested` says that the path lies below a directory that is new itself.
    Create { path: FsPath, is_dir: bool, nested: bool },
    /// The path's digest differs. For a directory this means that it has to
    /// exist.
    Update { path: FsPath, is_dir: bool },
    /// The path is gone from the tree.
    Delete { path: FsPath },
}

/// A mutation as a plain value.
pub enum Intent {
    Create { path: Seq<Seq<u8>>, is_dir: bool, nested: bool },
    Update { path: Seq<Seq<u8>>, is_dir: bool },
    Delete { path: Seq<Seq<u8>> },
}

impl View for Mutation {
    type V = Intent;

    open spec fn view(&self) -> Intent {
        match *self {
            Mutation::Create { path, is_dir, nested } => Intent::Create {
                path: path@,
                is_dir,
                nested,
            },
            Mutation::Update { path, is_dir } => Intent::Update { path: path@, is_dir },
            Mutation::Delete { path } => Intent::Delete { path: path@ },
        }
    }
}

/// The mutations of a list as plain values.
pub open spec fn intents(v: Seq<Mutation>) -> Seq<Intent> {
    Seq::new(v.len(), |i: int| v[i]@)
}

/// The directory that stands for the paths below it while the pass goes on.
pub enum Anchor {
    /// No directory does.
    Nothing,
    /// A directory whose digest is unchanged: what lies below is unchanged.
    Unchanged(Seq<Seq<u8>>),
    /// A directory that is new: what lies below is new.
    Created(Seq<Seq<u8>>),
}

/// How a path of the tree compares with the earlier map.
pub enum Change {
    Unchanged,
    Updated,
    /// New; `nested` says that a new directory above it decided so.
    Created { nested: bool },
}

/// The class of the path `p` with the digest `d`, met while `anchor` stands,
/// and the anchor that stands afterwards.
pub open spec fn step(
    anchor: Anchor,
    p: Seq<Seq<u8>>,
    d: Seq<u8>,
    is_dir: bool,
    prior: Seq<EntryView>,
) -> (Anchor, Change) {
    if anchor matches Anchor::Created(a) && is_prefix(a, p) {
        (anchor, Change::Created { nested: true })
    } else if anchor matches Anchor::Unchanged(a) && is_prefix(a, p) {
        (anchor, Change::Unchanged)
    } else {
        match lookup(prior, p) {
            Some(old) => if old == d {
                (
                    if is_dir {
                        Anchor::Unchanged(p)
                    } else {
                        Anchor::Nothing
                    },
                    Change::Unchanged,
                )
            } else {
                (Anchor::Nothing, Change::Updated)
            },
            None => (
                if is_dir {
                    Anchor::Created(p)
                } else {
                    Anchor::Nothing
                },
                Change::Created { nested: false },
            ),
        }
    }
}

/// The anchor that stands after the first `n` paths of the tree.
pub open spec fn anchor_after(
    cur: Seq<EntryView>,
    dirs: Seq<Seq<Seq<u8>>>,
    prior: Seq<EntryView>,
    n: nat,
) -> Anchor
    decreases n,
{
    if n == 0 {
        Anchor::Nothing
    } else {
        let i = n - 1;
        step(anchor_after(cur, dirs, prior, i as nat), cur[i].0, cur[i].1, dirs.contains(cur[i].0), prior).0
    }
}

/// The class of the tree's path at position `i`.
pub open spec fn change_at(
    cur: Seq<EntryView>,
    dirs: Seq<Seq<Seq<u8>>>,
    prior: Seq<EntryView>,
    i: int,
) -> Change {
    step(anchor_after(cur, dirs, prior, i as nat), cur[i].0, cur[i].1, dirs.contains(cur[i].0), prior).1
}

/// What the first `n` paths of the tree ask for: a create or an update for
/// each path that is not unchanged, in the order of the paths.
pub open spec fn forward(
    cur: Seq<EntryView>,
    dirs: Seq<Seq<Seq<u8>>>,
    prior: Seq<EntryView>,
    n: nat,
) -> Seq<Intent>
    decreases n,
{
    if n == 0 {
        Seq::empty()
    } else {
        let i = n - 1;
        let before = forward(cur, dirs, prior, i as nat);
        let is_dir = dirs.contains(cur[i].0);
        match change_at(cur, dirs, prior, i) {
            Change::Unchanged => before,
            Change::Updated => before.push(Intent::Update { path: cur[i].0, is_dir }),
            Change::Created { nested } => before.push(
                Intent::Create { path: cur[i].0, is_dir, nested },
            ),
        }
    }
}

/// Whether the pass met the path `k` of the earlier map among the first `n`
/// paths of the tree and compared it or took it as unchanged. A path that
/// the pass took as new without comparing is not met.
pub open spec fn met(
    cur: Seq<EntryView>,
    dirs: Seq<Seq<Seq<u8>>>,
    prior: Seq<EntryView>,
    n: nat,
    k: Seq<Seq<u8>>,
) -> bool {
    exists|i: int|
        0 <= i < n && i < cur.len() && (#[trigger] cur[i]).0 == k && change_at(cur, dirs, prior, i)
            != (Change::Created { nested: true })
}

/// For each path of the earlier map, whether the pass over the whole tree
/// met it.
pub open spec fn met_flags(
    cur: Seq<EntryView>,
    dirs: Seq<Seq<Seq<u8>>>,
    prior: Seq<EntryView>,
) -> Seq<bool> {
    Seq::new(prior.len(), |j: int| met(cur, dirs, prior, cur.len(), prior[j].0))
}

/// The deletes for the first `n` paths of the earlier map: one for each path
/// that was not met, the later path first, so that what lies in a directory
/// goes before the directory.
pub open spec fn leftovers(prior: Seq<EntryView>, flags: Seq<bool>, n: nat) -> Seq<Intent>
    decreases n,
{
    if n == 0 {
        Seq::empty()
    } else {
        let j = n - 1;
        let rest = leftovers(prior, flags, j as nat);
        if flags[j] {
            rest
        } else {
            seq![Intent::Delete { path: prior[j].0 }] + rest
        }
    }
}

/// The deletes that the delta ends with.
pub open spec fn deletes(
    cur: Seq<EntryView>,
    dirs: Seq<Seq<Seq<u8>>>,
    prior: Seq<EntryView>,
) -> Seq<Intent> {
    leftovers(prior, met_flags(cur, dirs, prior), prior.len())
}

/// The delta between the tree and the earlier map: the creates and updates
/// in the order of the paths, then the deletes.
pub open spec fn delta_spec(cur: Seq<EntryView>, dirs: Seq<Seq<Seq<u8>>>, prior: Seq<EntryView>) -> Seq<
    Intent,
> {
    forward(cur, dirs, prior, cur.len()) + deletes(cur, dirs, prior)
}

/// What one more path of the tree does to the paths that the pass has met.
pub proof fn lemma_met_step(
    cur: Seq<EntryView>,
    dirs: Seq<Seq<Seq<u8>>>,
    prior: Seq<EntryView>,
    n: nat,
    k: Seq<Seq<u8>>,
)
    requires
        n < cur.len(),
    ensures
        met(cur, dirs, prior, n + 1, k) == (met(cur, dirs, prior, n, k) || (cur[n as int].0 == k
            && change_at(cur, dirs, prior, n as int) != (Change::Created { nested: true }))),
{
    if met(cur, dirs, prior, n + 1, k) {
        let i = choose|i: int|
            0 <= i < n + 1 && i < cur.len() && (#[trigger] cur[i]).0 == k && change_at(
                cur,
                dirs,
                prior,
                i,
            ) != (Change::Created { nested: true });
        if i < n {
            assert(met(cur, dirs, prior, n, k));
        }
    }
    if met(cur, dirs, prior, n, k) {
        let i = choose|i: int|
            0 <= i < n && i < cur.len() && (#[trigger] cur[i]).0 == k && change_at(
                cur,
                dirs,
                prior,
                i,
            ) != (Change::Created { nested: true });
        assert(met(cur, dirs, prior, n + 1, k));
    }
    if cur[n as int].0 == k && change_at(cur, dirs, prior, n as int) != (Change::Created {
        nested: true,
    }) {
        assert(met(cur, dirs, prior, n + 1, k));
    }
}

/// The anchor that the pass holds: none, or the directory at position `at`
/// of the tree's map, unchanged or new.
#[derive(Clone, Copy, Debug, PartialEq, Eq, Structural)]
enum Held {
    Nothing,
    Unchanged { at: usize },
    Created { at: usize },
}

/// The anchor that `held` stands for.
spec fn anchor_of(held: Held, cur: Seq<EntryView>) -> Anchor {
    match held {
        Held::Nothing => Anchor::Nothing,
        Held::Unchanged { at } => Anchor::Unchanged(cur[at as int].0),
        Held::Created { at } => Anchor::Created(cur[at as int].0),
    }
}

/// `n` times `false`.
fn all_false(n: usize) -> (v: Vec<bool>)
    ensures
        v@.len() == n,
        forall|i: int| 0 <= i < n ==> !v@[i],
{
    let mut v: Vec<bool> = Vec::new();
    let mut i: usize = 0;
    while i < n
        invariant
            i <= n,
            v@.len() == i,
            forall|j: int| 0 <= j < i ==> !v@[j],
        decreases n - i,
    {
        v.push(false);
        i += 1;
    }
    v
}

/// Adds to `plan` a delete for each path of `prior` whose flag is not set,
/// the later path first.
fn push_deletes(plan: &mut Vec<Mutation>, prior: &DigestMap, flags: &Vec<bool>)
    requires
        flags@.len() == prior@.len(),
    ensures
        intents(final(plan)@) == intents(old(plan)@) + leftovers(prior@, flags@, prior@.len()),
{
    let mut j: usize = prior.len();
    let ghost first = intents(plan@);
    let ghost mut gone: Seq<Intent> = Seq::empty();
    assert(first + gone =~= first);
    assert(gone + leftovers(prior@, flags@, prior@.len()) =~= leftovers(
        prior@,
        flags@,
        prior@.len(),
    ));
    while j > 0
        invariant
            j <= prior@.len(),
            flags@.len() == prior@.len(),
            intents(plan@) == first + gone,
            gone + leftovers(prior@, flags@, j as nat) == leftovers(prior@, flags@, prior@.len()),
        decreases j,
    {
        j -= 1;
        let ghost rest = leftovers(prior@, flags@, j as nat);
        if !flags[j] {
            let ghost before = intents(plan@);
            plan.push(Mutation::Delete { path: prior.path(j).duplicate() });
            proof {
                let item = Intent::Delete { path: prior@[j as int].0 };
                assert(intents(plan@) =~= before.push(item));
                assert(gone.push(item) + rest =~= gone + (seq![item] + rest));
                assert(before.push(item) =~= first + gone.push(item));
                gone = gone.push(item);
            }
        }
    }
    assert(gone + Seq::<Intent>::empty() =~= gone);
}

/// The delta between the tree whose digests are `current` and the map
/// `prior` that the last run left behind: what to create and update, in the
/// order of the paths, and then what to delete, what lies in a directory
/// before the directory itself.
pub fn delta(current: &Checksums, prior: &DigestMap) -> (plan: Vec<Mutation>)
    requires
        current.wf(),
        prior.wf(),
    ensures
        intents(plan@) == delta_spec(current.entries(), current.dirs(), prior@),
{
    let map = current.bytes_map();
    let ghost cur = current.entries();
    let ghost dirs = current.dirs();
    let ghost was = prior@;
    let mut plan: Vec<Mutation> = Vec::new();
    let mut removed = all_false(prior.len());
    let mut held = Held::Nothing;
    let mut i: usize = 0;
    assert(intents(plan@) =~= forward(cur, dirs, was, 0));
    while i < map.len()
        invariant
            i <= map@.len(),
            map@ == cur,
            cur == current.entries(),
            dirs == current.dirs(),
            was == prior@,
            prior.wf(),
            sorted(cur),
            match held {
                Held::Nothing => true,
                Held::Unchanged { at } => at < i,
                Held::Created { at } => at < i,
            },
            anchor_after(cur, dirs, was, i as nat) == anchor_of(held, cur),
            intents(plan@) == forward(cur, dirs, was, i as nat),
            removed@.len() == was.len(),
            forall|j: int|
                0 <= j < was.len() ==> removed@[j] == met(cur, dirs, was, i as nat, #[trigger] was[j].0),
        decreases map@.len() - i,
    {
        let path = map.path(i);
        let digest = map.digest(i);
        let is_dir = current.is_dir(path);
        let ghost before = intents(plan@);
        let below = match held {
            Held::Nothing => false,
            Held::Unchanged { at } => path.starts_with(map.path(at)),
            Held::Created { at } => path.starts_with(map.path(at)),
        };
        let mut consumed: Option<usize> = None;
        match (held, below) {
            (Held::Created { .. }, true) => {
                plan.push(Mutation::Create { path: path.duplicate(), is_dir, nested: true });
            },
            (Held::Unchanged { .. }, true) => {
                let (at, found) = prior.search(path);
                if found {
                    consumed = Some(at);
                }
            },
            _ => {
                let (at, found) = prior.search(path);
                if found {
                    proof {
                        lemma_lookup_at(was, at as int);
                    }
                    consumed = Some(at);
                    if digest_eq(&prior.digest(at), &digest) {
                        held = if is_dir {
                            Held::Unchanged { at: i }
                        } else {
                            Held::Nothing
                        };
                    } else {
                        held = Held::Nothing;
                        plan.push(Mutation::Update { path: path.duplicate(), is_dir });
                    }
                } else {
                    held = if is_dir {
                        Held::Created { at: i }
                    } else {
                        Held::Nothing
                    };
                    plan.push(Mutation::Create { path: path.duplicate(), is_dir, nested: false });
                }
            },
        }
        match consumed {
            Some(at) => {
                removed.set(at, true);
            },
            None => {},
        }
        proof {
            let change = change_at(cur, dirs, was, i as int);
            assert(intents(plan@) =~= forward(cur, dirs, was, (i + 1) as nat)) by {
                if change != Change::Unchanged {
                    assert(intents(plan@) =~= before.push(plan@.last()@));
                }
            }
            assert forall|j: int| 0 <= j < was.len() implies removed@[j] == met(
                cur,
                dirs,
                was,
                (i + 1) as nat,
                #[trigger] was[j].0,
            ) by {
                lemma_met_step(cur, dirs, was, i as nat, was[j].0);
                if cur[i as int].0 == was[j].0 {
                    assert(has_key(was, cur[i as int].0));
                    match consumed {
                        Some(at) => {
                            lemma_sorted_unique(was, j, at as int);
                        },
                        None => {},
                    }
                } else {
                    match consumed {
                        Some(at) => {
                            assert(at != j);
                        },
                        None => {},
                    }
                }
            }
        }
        i += 1;
    }
    assert(removed@ =~= met_flags(cur, dirs, was));
    push_deletes(&mut plan, prior, &removed);
    plan
}

/// Against the map of the same tree the pass finds every path unchanged.
proof fn lemma_same_unchanged(cur: Seq<EntryView>, dirs: Seq<Seq<Seq<u8>>>, n: nat)
    requires
        sorted(cur),
        n <= cur.len(),
    ensures
        !(anchor_after(cur, dirs, cur, n) is Created),
        forward(cur, dirs, cur, n) == Seq::<Intent>::empty(),
        forall|i: int| 0 <= i < n ==> change_at(cur, dirs, cur, i) == Change::Unchanged,
    decreases n,
{
    if n > 0 {
        let i = (n - 1) as nat;
        lemma_same_unchanged(cur, dirs, i);
        lemma_lookup_at(cur, i as int);
    }
}

/// Where every flag is set, nothing is left over to delete.
proof fn lemma_leftovers_none(prior: Seq<EntryView>, flags: Seq<bool>, n: nat)
    requires
        n <= flags.len(),
        forall|j: int| 0 <= j < n ==> flags[j],
    ensures
        leftovers(prior, flags, n) == Seq::<Intent>::empty(),
    decreases n,
{
    if n > 0 {
        lemma_leftovers_none(prior, flags, (n - 1) as nat);
    }
}

/// Idempotence: the delta between a tree and the map of the same tree is
/// empty. A run against a remote side that is up to date issues no mutation.
pub proof fn lemma_delta_of_same_is_empty(cur: Seq<EntryView>, dirs: Seq<Seq<Seq<u8>>>)
    requires
        sorted(cur),
    ensures
        delta_spec(cur, dirs, cur) == Seq::<Intent>::empty(),
{
    lemma_same_unchanged(cur, dirs, cur.len());
    let flags = met_flags(cur, dirs, cur);
    assert forall|j: int| 0 <= j < cur.len() implies flags[j] by {
        assert(cur[j].0 == cur[j].0 && change_at(cur, dirs, cur, j) != (Change::Created {
            nested: true,
        }));
    }
    lemma_leftovers_none(cur, flags, cur.len());
    assert(forward(cur, dirs, cur, cur.len()) + deletes(cur, dirs, cur) =~= Seq::<Intent>::empty());
}

/// A directory holds as unchanged anchor only where the earlier map has its
/// very digest.
proof fn lemma_anchor_unchanged(
    cur: Seq<EntryView>,
    dirs: Seq<Seq<Seq<u8>>>,
    prior: Seq<EntryView>,
    n: nat,
)
    requires
        n <= cur.len(),
    ensures
        anchor_after(cur, dirs, prior, n) matches Anchor::Unchanged(x) ==> exists|i: int|
            0 <= i < n && (#[trigger] cur[i]).0 == x && lookup(prior, x) == Some(cur[i].1),
    decreases n,
{
    if n > 0 {
        let i = (n - 1) as nat;
        lemma_anchor_unchanged(cur, dirs, prior, i);
        if let Anchor::Unchanged(x) = anchor_after(cur, dirs, prior, n) {
            if anchor_after(cur, dirs, prior, i) == Anchor::Unchanged(x) {
                let w = choose|w: int|
                    0 <= w < i && (#[trigger] cur[w]).0 == x && lookup(prior, x) == Some(cur[w].1);
                assert(0 <= w < n && cur[w].0 == x && lookup(prior, x) == Some(cur[w].1));
            } else {
                assert(cur[i as int].0 == x && lookup(prior, x) == Some(cur[i as int].1));
            }
        }
    }
}

/// What the pass asks for at a position stays in the list as the pass goes
/// on, and an update or a create in the list comes from a position of its
/// path.
proof fn lemma_forward_items(
    cur: Seq<EntryView>,
    dirs: Seq<Seq<Seq<u8>>>,
    prior: Seq<EntryView>,
    n: nat,
)
    requires
        n <= cur.len(),
    ensures
        forall|i: int|
            0 <= i < n ==> (match #[trigger] change_at(cur, dirs, prior, i) {
                Change::Unchanged => true,
                Change::Updated => forward(cur, dirs, prior, n).contains(
                    Intent::Update { path: cur[i].0, is_dir: dirs.contains(cur[i].0) },
                ),
                Change::Created { nested } => forward(cur, dirs, prior, n).contains(
                    Intent::Create { path: cur[i].0, is_dir: dirs.contains(cur[i].0), nested },
                ),
            }),
        forall|x: int|
            0 <= x < forward(cur, dirs, prior, n).len() ==> (match #[trigger] forward(
                cur,
                dirs,
                prior,
                n,
            )[x] {
                Intent::Update { path, is_dir } => exists|i: int|
                    0 <= i < n && (#[trigger] cur[i]).0 == path && change_at(cur, dirs, prior, i)
                        == Change::Updated,
                Intent::Create { path, is_dir, nested } => exists|i: int|
                    0 <= i < n && (#[trigger] cur[i]).0 == path && change_at(cur, dirs, prior, i)
                        == (Change::Created { nested }),
                Intent::Delete { path } => false,
            }),
    decreases n,
{
    if n > 0 {
        let m = (n - 1) as nat;
        lemma_forward_items(cur, dirs, prior, m);
        let before = forward(cur, dirs, prior, m);
        let now = forward(cur, dirs, prior, n);
        assert forall|i: int| 0 <= i < n implies (match #[trigger] change_at(cur, dirs, prior, i) {
            Change::Unchanged => true,
            Change::Updated => now.contains(
                Intent::Update { path: cur[i].0, is_dir: dirs.contains(cur[i].0) },
            ),
            Change::Created { nested } => now.contains(
                Intent::Create { path: cur[i].0, is_dir: dirs.contains(cur[i].0), nested },
            ),
        }) by {
            if i < m {
                match change_at(cur, dirs, prior, i) {
                    Change::Unchanged => {},
                    Change::Updated => {
                        let item = Intent::Update {
                            path: cur[i].0,
                            is_dir: dirs.contains(cur[i].0),
                        };
                        let x = choose|x: int| 0 <= x < before.len() && before[x] == item;
                        assert(now[x] == item);
                    },
                    Change::Created { nested } => {
                        let item = Intent::Create {
                            path: cur[i].0,
                            is_dir: dirs.contains(cur[i].0),
                            nested,
                        };
                        let x = choose|x: int| 0 <= x < before.len() && before[x] == item;
                        assert(now[x] == item);
                    },
                }
            } else {
                if now.len() > before.len() {
                    assert(now[before.len() as int] == now.last());
                }
            }
        }
        assert forall|x: int| 0 <= x < now.len() implies (match #[trigger] now[x] {
            Intent::Update { path, is_dir } => exists|i: int|
                0 <= i < n && (#[trigger] cur[i]).0 == path && change_at(cur, dirs, prior, i)
                    == Change::Updated,
            Intent::Create { path, is_dir, nested } => exists|i: int|
                0 <= i < n && (#[trigger] cur[i]).0 == path && change_at(cur, dirs, prior, i)
                    == (Change::Created { nested }),
            Intent::Delete { path } => false,
        }) by {
            if x < before.len() {
                assert(now[x] == before[x]);
                match before[x] {
                    Intent::Update { path, is_dir } => {
                        let i = choose|i: int|
                            0 <= i < m && (#[trigger] cur[i]).0 == path && change_at(
                                cur,
                                dirs,
                                prior,
                                i,
                            ) == Change::Updated;
                        assert(0 <= i < n && cur[i].0 == path);
                    },
                    Intent::Create { path, is_dir, nested } => {
                        let i = choose|i: int|
                            0 <= i < m && (#[trigger] cur[i]).0 == path && change_at(
                                cur,
                                dirs,
                                prior,
                                i,
                            ) == (Change::Created { nested });
                        assert(0 <= i < n && cur[i].0 == path);
                    },
                    Intent::Delete { path } => {},
                }
            } else {
                assert(cur[m as int].0 == cur[m as int].0);
            }
        }
    }
}

/// The leftovers hold a delete for each path whose flag is not set, and
/// nothing but deletes of such paths.
proof fn lemma_leftovers_items(prior: Seq<EntryView>, flags: Seq<bool>, n: nat)
    requires
        n <= prior.len(),
        n <= flags.len(),
    ensures
        forall|j: int|
            0 <= j < n && !flags[j] ==> leftovers(prior, flags, n).contains(
                Intent::Delete { path: (#[trigger] prior[j]).0 },
            ),
        forall|x: int|
            0 <= x < leftovers(prior, flags, n).len() ==> (#[trigger] leftovers(
                prior,
                flags,
                n,
            )[x]) is Delete,
    decreases n,
{
    if n > 0 {
        let m = (n - 1) as nat;
        lemma_leftovers_items(prior, flags, m);
        let rest = leftovers(prior, flags, m);
        let now = leftovers(prior, flags, n);
        assert forall|j: int| 0 <= j < n && !flags[j] implies now.contains(
            Intent::Delete { path: (#[trigger] prior[j]).0 },
        ) by {
            let item = Intent::Delete { path: prior[j].0 };
            if j < m {
                let x = choose|x: int| 0 <= x < rest.len() && rest[x] == item;
                if flags[m as int] {
                    assert(now[x] == item);
                } else {
                    assert(now[x + 1] == item);
                }
            } else {
                assert(now[0] == item);
            }
        }
        assert forall|x: int| 0 <= x < now.len() implies (#[trigger] now[x]) is Delete by {
            if !flags[m as int] && x > 0 {
                assert(now[x] == rest[x - 1]);
            }
        }
    }
}

/// What the delta updates is in both maps, with different digests.
pub proof fn lemma_update_means_changed(
    cur: Seq<EntryView>,
    dirs: Seq<Seq<Seq<u8>>>,
    prior: Seq<EntryView>,
    p: Seq<Seq<u8>>,
    is_dir: bool,
)
    requires
        sorted(cur),
        delta_spec(cur, dirs, prior).contains(Intent::Update { path: p, is_dir }),
    ensures
        has_key(cur, p),
        has_key(prior, p),
        lookup(prior, p) != lookup(cur, p),
{
    let n = cur.len();
    let f = forward(cur, dirs, prior, n);
    let del = deletes(cur, dirs, prior);
    let all = delta_spec(cur, dirs, prior);
    let item = Intent::Update { path: p, is_dir };
    let x = choose|x: int| 0 <= x < all.len() && all[x] == item;
    if x < f.len() {
        assert(f[x] == item);
        lemma_forward_items(cur, dirs, prior, n);
        let i = choose|i: int|
            0 <= i < n && (#[trigger] cur[i]).0 == p && change_at(cur, dirs, prior, i)
                == Change::Updated;
        lemma_lookup_at(cur, i);
    } else {
        lemma_leftovers_items(prior, met_flags(cur, dirs, prior), prior.len());
        assert(del[x - f.len()] == item);
    }
}

/// What is gone from the tree is deleted.
pub proof fn lemma_gone_is_deleted(
    cur: Seq<EntryView>,
    dirs: Seq<Seq<Seq<u8>>>,
    prior: Seq<EntryView>,
    a: Seq<Seq<u8>>,
)
    requires
        has_key(prior, a),
        !has_key(cur, a),
    ensures
        delta_spec(cur, dirs, prior).contains(Intent::Delete { path: a }),
{
    let n = cur.len();
    let f = forward(cur, dirs, prior, n);
    let flags = met_flags(cur, dirs, prior);
    let del = leftovers(prior, flags, prior.len());
    let all = delta_spec(cur, dirs, prior);
    let ja = index_of(prior, a);
    assert(!flags[ja]) by {
        if met(cur, dirs, prior, n, a) {
            let i = choose|i: int|
                0 <= i < n && i < cur.len() && (#[trigger] cur[i]).0 == a && change_at(
                    cur,
                    dirs,
                    prior,
                    i,
                ) != (Change::Created { nested: true });
            assert(has_key(cur, a));
        }
    }
    lemma_leftovers_items(prior, flags, prior.len());
    let gone = Intent::Delete { path: a };
    assert(del.contains(gone));
    let xa = choose|x: int| 0 <= x < del.len() && del[x] == gone;
    assert(all[f.len() + xa] == gone);
}

/// What is new in the tree is created, unless a directory above it has the
/// digest that the earlier map holds for it.
pub proof fn lemma_new_is_created(
    cur: Seq<EntryView>,
    dirs: Seq<Seq<Seq<u8>>>,
    prior: Seq<EntryView>,
    b: Seq<Seq<u8>>,
)
    requires
        has_key(cur, b),
        !has_key(prior, b),
        forall|i: int|
            0 <= i < cur.len() && is_prefix((#[trigger] cur[i]).0, b) ==> lookup(prior, cur[i].0)
                != Some(cur[i].1),
    ensures
        delta_spec(cur, dirs, prior).contains(
            Intent::Create { path: b, is_dir: dirs.contains(b), nested: false },
        ) || delta_spec(cur, dirs, prior).contains(
            Intent::Create { path: b, is_dir: dirs.contains(b), nested: true },
        ),
{
    let n = cur.len();
    let f = forward(cur, dirs, prior, n);
    let all = delta_spec(cur, dirs, prior);
    let ib = index_of(cur, b);
    lemma_anchor_unchanged(cur, dirs, prior, ib as nat);
    let change = change_at(cur, dirs, prior, ib);
    assert(change is Created) by {
        if let Anchor::Unchanged(x) = anchor_after(cur, dirs, prior, ib as nat) {
            if is_prefix(x, b) {
                let w = choose|w: int|
                    0 <= w < ib && (#[trigger] cur[w]).0 == x && lookup(prior, x) == Some(cur[w].1);
                assert(false);
            }
        }
    }
    let nested = change->nested;
    let made = Intent::Create { path: b, is_dir: dirs.contains(b), nested };
    assert(f.contains(made)) by {
        lemma_forward_items(cur, dirs, prior, n);
        assert(change_at(cur, dirs, prior, ib) == (Change::Created { nested }));
    }
    let xb = choose|x: int| 0 <= x < f.len() && f[x] == made;
    assert(all[xb] == made);
}

/// Rename classification: where the path `a` is gone from the tree and the
/// path `b` is new in it, the delta deletes `a` and creates `b`, and updates
/// neither, whatever the two hold: paths are compared by name alone. This
/// holds where no directory above `b` has the digest that the earlier map
/// holds for it.
pub proof fn lemma_rename_is_delete_and_create(
    cur: Seq<EntryView>,
    dirs: Seq<Seq<Seq<u8>>>,
    prior: Seq<EntryView>,
    a: Seq<Seq<u8>>,
    b: Seq<Seq<u8>>,
)
    requires
        sorted(cur),
        has_key(prior, a),
        !has_key(cur, a),
        has_key(cur, b),
        !has_key(prior, b),
        forall|i: int|
            0 <= i < cur.len() && is_prefix((#[trigger] cur[i]).0, b) ==> lookup(prior, cur[i].0)
                != Some(cur[i].1),
    ensures
        delta_spec(cur, dirs, prior).contains(Intent::Delete { path: a }),
        delta_spec(cur, dirs, prior).contains(
            Intent::Create { path: b, is_dir: dirs.contains(b), nested: false },
        ) || delta_spec(cur, dirs, prior).contains(
            Intent::Create { path: b, is_dir: dirs.contains(b), nested: true },
        ),
        !delta_spec(cur, dirs, prior).contains(Intent::Update { path: a, is_dir: false }),
        !delta_spec(cur, dirs, prior).contains(Intent::Update { path: a, is_dir: true }),
        !delta_spec(cur, dirs, prior).contains(Intent::Update { path: b, is_dir: false }),
        !delta_spec(cur, dirs, prior).contains(Intent::Update { path: b, is_dir: true }),
{
    lemma_gone_is_deleted(cur, dirs, prior, a);
    lemma_new_is_created(cur, dirs, prior, b);
    let all = delta_spec(cur, dirs, prior);
    if all.contains(Intent::Update { path: a, is_dir: false }) {
        lemma_update_means_changed(cur, dirs, prior, a, false);
    }
    if all.contains(Intent::Update { path: a, is_dir: true }) {
        lemma_update_means_changed(cur, dirs, prior, a, true);
    }
    if all.contains(Intent::Update { path: b, is_dir: false }) {
        lemma_update_means_changed(cur, dirs, prior, b, false);
    }
    if all.contains(Intent::Update { path: b, is_dir: true }) {
        lemma_update_means_changed(cur, dirs, prior, b, true);
    }
}

/// The path that a mutation is about.
pub open spec fn path_of(m: Intent) -> Seq<Seq<u8>> {
    match m {
        Intent::Create { path, .. } => path,
        Intent::Update { path, .. } => path,
        Intent::Delete { path } => path,
    }
}

/// The leftovers are about paths of the earlier map, each path later in the
/// list coming before the one in front of it.
proof fn lemma_leftovers_descend(prior: Seq<EntryView>, flags: Seq<bool>, n: nat)
    requires
        sorted(prior),
        n <= prior.len(),
        n <= flags.len(),
    ensures
        forall|x: int|
            0 <= x < leftovers(prior, flags, n).len() ==> exists|j: int|
                0 <= j < n && path_of(#[trigger] leftovers(prior, flags, n)[x]) == (
                #[trigger] prior[j]).0,
        forall|x: int, y: int|
            0 <= x < y < leftovers(prior, flags, n).len() ==> path_lt(
                path_of(#[trigger] leftovers(prior, flags, n)[y]),
                path_of(#[trigger] leftovers(prior, flags, n)[x]),
            ),
    decreases n,
{
    if n > 0 {
        let m = (n - 1) as nat;
        lemma_leftovers_descend(prior, flags, m);
        let rest = leftovers(prior, flags, m);
        let now = leftovers(prior, flags, n);
        assert forall|x: int| 0 <= x < now.len() implies exists|j: int|
            0 <= j < n && path_of(#[trigger] now[x]) == (#[trigger] prior[j]).0 by {
            if flags[m as int] {
                let j = choose|j: int| 0 <= j < m && path_of(rest[x]) == (#[trigger] prior[j]).0;
                assert(0 <= j < n && path_of(now[x]) == prior[j].0);
            } else if x == 0 {
                assert(path_of(now[0]) == prior[m as int].0);
            } else {
                assert(now[x] == rest[x - 1]);
                let j = choose|j: int|
                    0 <= j < m && path_of(rest[x - 1]) == (#[trigger] prior[j]).0;
                assert(0 <= j < n && path_of(now[x]) == prior[j].0);
            }
        }
        assert forall|x: int, y: int| 0 <= x < y < now.len() implies path_lt(
            path_of(#[trigger] now[y]),
            path_of(#[trigger] now[x]),
        ) by {
            if flags[m as int] {
            } else {
                assert(now[y] == rest[y - 1]);
                if x == 0 {
                    let j = choose|j: int|
                        0 <= j < m && path_of(rest[y - 1]) == (#[trigger] prior[j]).0;
                    assert(path_lt(prior[j].0, prior[m as int].0));
                } else {
                    assert(now[x] == rest[x - 1]);
                }
            }
        }
    }
}

/// Containment in reverse: where the delta deletes a directory and
/// something below it, the delete of what lies below comes first.
pub proof fn lemma_directory_is_deleted_last(
    cur: Seq<EntryView>,
    dirs: Seq<Seq<Seq<u8>>>,
    prior: Seq<EntryView>,
    x: int,
    y: int,
)
    requires
        sorted(prior),
        0 <= x < deletes(cur, dirs, prior).len(),
        0 <= y < deletes(cur, dirs, prior).len(),
        is_prefix(path_of(deletes(cur, dirs, prior)[x]), path_of(deletes(cur, dirs, prior)[y])),
        x != y,
    ensures
        y < x,
{
    let list = deletes(cur, dirs, prior);
    lemma_leftovers_descend(prior, met_flags(cur, dirs, prior), prior.len());
    let a = path_of(list[x]);
    let b = path_of(list[y]);
    if x < y {
        assert(path_lt(b, a));
        if a == b {
            crate::path::lemma_path_lt_irreflexive(a);
        } else {
            crate::path::lemma_prefix_lt(a, b);
            crate::path::lemma_path_lt_transitive(a, b, a);
            crate::path::lemma_path_lt_irreflexive(a);
        }
    }
}

/// What the pass asks for is about paths of the tree, each path later in
/// the list coming after the one in front of it.
proof fn lemma_forward_ascends(
    cur: Seq<EntryView>,
    dirs: Seq<Seq<Seq<u8>>>,
    prior: Seq<EntryView>,
    n: nat,
)
    requires
        sorted(cur),
        n <= cur.len(),
    ensures
        forall|x: int|
            0 <= x < forward(cur, dirs, prior, n).len() ==> exists|i: int|
                0 <= i < n && path_of(#[trigger] forward(cur, dirs, prior, n)[x]) == (
                #[trigger] cur[i]).0,
        forall|x: int, y: int|
            0 <= x < y < forward(cur, dirs, prior, n).len() ==> path_lt(
                path_of(#[trigger] forward(cur, dirs, prior, n)[x]),
                path_of(#[trigger] forward(cur, dirs, prior, n)[y]),
            ),
    decreases n,
{
    if n > 0 {
        let m = (n - 1) as nat;
        lemma_forward_ascends(cur, dirs, prior, m);
        let before = forward(cur, dirs, prior, m);
        let now = forward(cur, dirs, prior, n);
        assert forall|x: int| 0 <= x < now.len() implies exists|i: int|
            0 <= i < n && path_of(#[trigger] now[x]) == (#[trigger] cur[i]).0 by {
            if x < before.len() {
                assert(now[x] == before[x]);
                let i = choose|i: int| 0 <= i < m && path_of(before[x]) == (#[trigger] cur[i]).0;
                assert(0 <= i < n && path_of(now[x]) == cur[i].0);
            } else {
                assert(path_of(now[x]) == cur[m as int].0);
            }
        }
        assert forall|x: int, y: int| 0 <= x < y < now.len() implies path_lt(
            path_of(#[trigger] now[x]),
            path_of(#[trigger] now[y]),
        ) by {
            assert(now[x] == before[x]);
            if y < before.len() {
                assert(now[y] == before[y]);
            } else {
                let i = choose|i: int| 0 <= i < m && path_of(before[x]) == (#[trigger] cur[i]).0;
                assert(path_lt(cur[i].0, cur[m as int].0));
                assert(path_of(now[y]) == cur[m as int].0);
            }
        }
    }
}

/// Containment: where the delta creates or updates a directory and
/// something below it, the directory comes first.
pub proof fn lemma_directory_is_made_first(
    cur: Seq<EntryView>,
    dirs: Seq<Seq<Seq<u8>>>,
    prior: Seq<EntryView>,
    x: int,
    y: int,
)
    requires
        sorted(cur),
        0 <= x < forward(cur, dirs, prior, cur.len()).len(),
        0 <= y < forward(cur, dirs, prior, cur.len()).len(),
        is_prefix(
            path_of(forward(cur, dirs, prior, cur.len())[x]),
            path_of(forward(cur, dirs, prior, cur.len())[y]),
        ),
        x != y,
    ensures
        x < y,
{
    let list = forward(cur, dirs, prior, cur.len());
    lemma_forward_ascends(cur, dirs, prior, cur.len());
    let a = path_of(list[x]);
    let b = path_of(list[y]);
    if y < x {
        assert(path_lt(b, a));
        if a == b {
            crate::path::lemma_path_lt_irreflexive(a);
        } else {
            crate::path::lemma_prefix_lt(a, b);
            crate::path::lemma_path_lt_transitive(a, b, a);
            crate::path::lemma_path_lt_irreflexive(a);
        }
    }
}

/// The path of the directory that an anchor names.
pub open spec fn anchor_path(anchor: Anchor) -> Seq<Seq<u8>> {
    match anchor {
        Anchor::Nothing => Seq::empty(),
        Anchor::Unchanged(p) => p,
        Anchor::Created(p) => p,
    }
}

/// An anchor stands as long as the paths lie below its directory: behind a
/// directory the paths below it come in a row.
proof fn lemma_anchor_persists(
    cur: Seq<EntryView>,
    dirs: Seq<Seq<Seq<u8>>>,
    prior: Seq<EntryView>,
    a: int,
    i: int,
)
    requires
        sorted(cur),
        0 <= a < i < cur.len(),
        !(anchor_after(cur, dirs, prior, (a + 1) as nat) is Nothing),
        is_prefix(anchor_path(anchor_after(cur, dirs, prior, (a + 1) as nat)), cur[a].0),
        is_prefix(anchor_path(anchor_after(cur, dirs, prior, (a + 1) as nat)), cur[i].0),
    ensures
        anchor_after(cur, dirs, prior, (i + 1) as nat) == anchor_after(
            cur,
            dirs,
            prior,
            (a + 1) as nat,
        ),
        change_at(cur, dirs, prior, i) == (if anchor_after(cur, dirs, prior, (a + 1) as nat)
            is Unchanged {
            Change::Unchanged
        } else {
            Change::Created { nested: true }
        }),
    decreases i - a,
{
    let anchor = anchor_after(cur, dirs, prior, (a + 1) as nat);
    let x = anchor_path(anchor);
    if i > a + 1 {
        let j = i - 1;
        assert(path_lt(cur[a].0, cur[j].0));
        assert(path_lt(cur[j].0, cur[i].0));
        if x == cur[a].0 {
        } else {
            crate::path::lemma_prefix_lt(x, cur[a].0);
            crate::path::lemma_path_lt_transitive(x, cur[a].0, cur[j].0);
        }
        crate::path::lemma_subtree_contiguous(x, cur[j].0, cur[i].0);
        lemma_anchor_persists(cur, dirs, prior, a, j);
    }
}

/// `a` lies below whatever `b` lies below.
proof fn lemma_prefix_transitive(a: Seq<Seq<u8>>, b: Seq<Seq<u8>>, c: Seq<Seq<u8>>)
    requires
        is_prefix(a, b),
        is_prefix(b, c),
    ensures
        is_prefix(a, c),
{
    assert(c.take(a.len() as int) =~= c.take(b.len() as int).take(a.len() as int));
}

/// Subtree skip: where a directory is found unchanged, every path below it
/// is taken as unchanged, and the delta asks for nothing there.
pub proof fn lemma_unchanged_directory_stands_for_subtree(
    cur: Seq<EntryView>,
    dirs: Seq<Seq<Seq<u8>>>,
    prior: Seq<EntryView>,
    a: int,
    i: int,
)
    requires
        sorted(cur),
        0 <= a < i < cur.len(),
        dirs.contains(cur[a].0),
        change_at(cur, dirs, prior, a) == Change::Unchanged,
        is_prefix(cur[a].0, cur[i].0),
    ensures
        change_at(cur, dirs, prior, i) == Change::Unchanged,
{
    let anchor = anchor_after(cur, dirs, prior, (a + 1) as nat);
    assert(anchor is Unchanged && is_prefix(anchor_path(anchor), cur[a].0)) by {
        assert(cur[a].0.take(cur[a].0.len() as int) =~= cur[a].0);
    }
    lemma_prefix_transitive(anchor_path(anchor), cur[a].0, cur[i].0);
    lemma_anchor_persists(cur, dirs, prior, a, i);
}

/// Where a directory is new, every path below it is created without a look
/// at the earlier map.
pub proof fn lemma_new_directory_stands_for_subtree(
    cur: Seq<EntryView>,
    dirs: Seq<Seq<Seq<u8>>>,
    prior: Seq<EntryView>,
    a: int,
    i: int,
)
    requires
        sorted(cur),
        0 <= a < i < cur.len(),
        dirs.contains(cur[a].0),
        change_at(cur, dirs, prior, a) is Created,
        is_prefix(cur[a].0, cur[i].0),
    ensures
        change_at(cur, dirs, prior, i) == (Change::Created { nested: true }),
{
    let anchor = anchor_after(cur, dirs, prior, (a + 1) as nat);
    assert(anchor is Created && is_prefix(anchor_path(anchor), cur[a].0)) by {
        assert(cur[a].0.take(cur[a].0.len() as int) =~= cur[a].0);
    }
    lemma_prefix_transitive(anchor_path(anchor), cur[a].0, cur[i].0);
    lemma_anchor_persists(cur, dirs, prior, a, i);
}

} // verus!
