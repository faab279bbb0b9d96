//! The digest map: the state of a tree at one point in time.
//!
//! A digest map holds one 20-byte digest for each path of a tree. Its entries
//! are kept in the order of paths and no path occurs twice, so that a
//! directory is met before what lies below it.

use crate::path::{lemma_path_lt_irreflexive, lemma_path_lt_total, lemma_path_lt_transitive, path_lt, FsPath};
use vstd::prelude::*;

verus! {

/// The number of bytes of a digest.
pub const DIGEST_LEN: usize = 20;

/// A content fingerprint of one entry of a tree.
pub type Digest = [u8; 20];

/// One entry of a digest map as a plain value: the path and the digest.
pub type EntryView = (Seq<Seq<u8>>, Seq<u8>);

/// The digest made of zero bytes: combining with it changes nothing.
pub open spec fn zero_digest() -> Seq<u8> {
    Seq::new(DIGEST_LEN as nat, |i: int| 0u8)
}

/// The byte-wise exclusive or of two digests.
pub open spec fn xor_spec(a: Seq<u8>, b: Seq<u8>) -> Seq<u8> {
    Seq::new(DIGEST_LEN as nat, |i: int| a[i] ^ b[i])
}

/// The entries stand in the order of their paths, each path once.
pub open spec fn sorted(s: Seq<EntryView>) -> bool {
    forall|i: int, j: int| 0 <= i < j < s.len() ==> path_lt(#[trigger] s[i].0, #[trigger] s[j].0)
}

/// Some entry of `s` has the path `k`.
pub open spec fn has_key(s: Seq<EntryView>, k: Seq<Seq<u8>>) -> bool {
    exists|i: int| 0 <= i < s.len() && #[trigger] s[i].0 == k
}

/// The position of an entry of `s` with the path `k`.
pub open spec fn index_of(s: Seq<EntryView>, k: Seq<Seq<u8>>) -> int {
    choose|i: int| 0 <= i < s.len() && #[trigger] s[i].0 == k
}

/// The digest that `s` holds for the path `k`, if it holds one.
pub open spec fn lookup(s: Seq<EntryView>, k: Seq<Seq<u8>>) -> Option<Seq<u8>> {
    if has_key(s, k) {
        Some(s[index_of(s, k)].1)
    } else {
        None
    }
}

/// The entries as a mapping from paths to digests.
pub open spec fn as_map(s: Seq<EntryView>) -> Map<Seq<Seq<u8>>, Seq<u8>> {
    Map::new(|k: Seq<Seq<u8>>| has_key(s, k), |k: Seq<Seq<u8>>| s[index_of(s, k)].1)
}

/// In sorted entries a path stands at one position only.
pub proof fn lemma_sorted_unique(s: Seq<EntryView>, i: int, j: int)
    requires
        sorted(s),
        0 <= i < s.len(),
        0 <= j < s.len(),
        s[i].0 == s[j].0,
    ensures
        i == j,
{
    lemma_path_lt_irreflexive(s[i].0);
}

/// In sorted entries the digest of the path at position `i` is the one found
/// by looking the path up.
pub proof fn lemma_lookup_at(s: Seq<EntryView>, i: int)
    requires
        sorted(s),
        0 <= i < s.len(),
    ensures
        has_key(s, s[i].0),
        index_of(s, s[i].0) == i,
        lookup(s, s[i].0) == Some(s[i].1),
{
    lemma_sorted_unique(s, i, index_of(s, s[i].0));
}

/// Two sorted lists of entries that hold the same digests for the same paths
/// are the same list.
pub proof fn lemma_sorted_same_map(a: Seq<EntryView>, b: Seq<EntryView>)
    requires
        sorted(a),
        sorted(b),
        forall|k: Seq<Seq<u8>>| lookup(a, k) == lookup(b, k),
    ensures
        a == b,
    decreases a.len(),
{
    if a.len() == 0 {
        if b.len() > 0 {
            lemma_lookup_at(b, 0);
            assert(lookup(a, b[0].0) is None);
        }
        assert(a =~= b);
    } else {
        let n = a.len() - 1;
        lemma_lookup_at(a, n);
        assert(has_key(b, a[n].0));
        let j = index_of(b, a[n].0);
        // the last path of a is the greatest of b as well
        if j != b.len() - 1 {
            let m = b.len() - 1;
            lemma_lookup_at(b, m);
            assert(has_key(a, b[m].0));
            let i = index_of(a, b[m].0);
            assert(path_lt(b[j].0, b[m].0));
            if i < n {
                assert(path_lt(a[i].0, a[n].0));
                lemma_path_lt_transitive(a[i].0, a[n].0, b[m].0);
                lemma_path_lt_irreflexive(a[i].0);
            } else {
                lemma_path_lt_irreflexive(a[n].0);
            }
        }
        lemma_lookup_at(b, j);
        assert(a[n].1 == b[j].1);
        let a1 = a.drop_last();
        let b1 = b.drop_last();
        assert forall|k: Seq<Seq<u8>>| lookup(a1, k) == lookup(b1, k) by {
            if has_key(a1, k) {
                let i = index_of(a1, k);
                assert(a[i].0 == k);
                lemma_lookup_at(a, i);
                lemma_lookup_at(a1, i);
                assert(has_key(b, k));
                let i2 = index_of(b, k);
                if i2 == b.len() - 1 {
                    lemma_sorted_unique(a, i, n);
                }
                assert(b1[i2].0 == k);
                lemma_lookup_at(b1, i2);
                lemma_lookup_at(b, i2);
            } else if has_key(b1, k) {
                let i2 = index_of(b1, k);
                assert(b[i2].0 == k);
                lemma_lookup_at(b, i2);
                lemma_lookup_at(b1, i2);
                assert(has_key(a, k));
                let i = index_of(a, k);
                if i == n {
                    lemma_sorted_unique(b, i2, j);
                }
                assert(a1[i].0 == k);
            }
        }
        lemma_sorted_same_map(a1, b1);
        assert(a =~= a1.push(a[n]));
        assert(b =~= b1.push(b[j]));
    }
}

/// A mapping from paths to digests has one list of entries in order.
pub proof fn lemma_one_list_for_a_map(a: Seq<EntryView>, b: Seq<EntryView>)
    requires
        sorted(a),
        sorted(b),
        as_map(a) == as_map(b),
    ensures
        a == b,
{
    assert forall|k: Seq<Seq<u8>>| lookup(a, k) == lookup(b, k) by {
        assert(as_map(a).dom().contains(k) == has_key(a, k));
        assert(as_map(b).dom().contains(k) == has_key(b, k));
        if has_key(a, k) {
            assert(as_map(a)[k] == a[index_of(a, k)].1);
            assert(as_map(b)[k] == b[index_of(b, k)].1);
        }
    }
    lemma_sorted_same_map(a, b);
}

/// Combines two digests byte by byte with exclusive or.
pub fn xor_digest(a: &Digest, b: &Digest) -> (r: Digest)
    ensures
        r@ == xor_spec(a@, b@),
{
    let mut r: Digest = *a;
    let mut i: usize = 0;
    while i < DIGEST_LEN
        invariant
            i <= DIGEST_LEN,
            forall|j: int| 0 <= j < i ==> r@[j] == a@[j] ^ b@[j],
            forall|j: int| i <= j < DIGEST_LEN ==> r@[j] == a@[j],
        decreases DIGEST_LEN - i,
    {
        r[i] = a[i] ^ b[i];
        i += 1;
    }
    assert(r@ =~= xor_spec(a@, b@));
    r
}

/// Whether two digests are the same.
pub fn digest_eq(a: &Digest, b: &Digest) -> (same: bool)
    ensures
        same == (a@ == b@),
{
    let mut i: usize = 0;
    while i < DIGEST_LEN
        invariant
            i <= DIGEST_LEN,
            forall|j: int| 0 <= j < i ==> a@[j] == b@[j],
        decreases DIGEST_LEN - i,
    {
        if a[i] != b[i] {
            return false;
        }
        i += 1;
    }
    assert(a@ =~= b@);
    true
}

/// One entry of a digest map.
#[derive(Debug)]
struct DigestEntry {
    path: FsPath,
    digest: Digest,
}

/// An ordered mapping from the paths of a tree to their digests.
#[derive(Debug)]
pub struct DigestMap {
    entries: Vec<DigestEntry>,
}

impl View for DigestMap {
    type V = Seq<EntryView>;

    closed spec fn view(&self) -> Seq<EntryView> {
        Seq::new(self.entries@.len(), |i: int| (self.entries@[i].path@, self.entries@[i].digest@))
    }
}

impl DigestMap {
    /// The entries are in order and no path occurs twice.
    pub open spec fn wf(&self) -> bool {
        sorted(self@)
    }

    /// The map without entries.
    pub fn new() -> (map: DigestMap)
        ensures
            map@ == Seq::<EntryView>::empty(),
            map.wf(),
    {
        let map = DigestMap { entries: Vec::new() };
        assert(map@ =~= Seq::<EntryView>::empty());
        map
    }

    /// The number of entries.
    pub fn len(&self) -> (n: usize)
        ensures
            n == self@.len(),
    {
        self.entries.len()
    }

    /// The path of the entry at position `i`.
    pub fn path(&self, i: usize) -> (p: &FsPath)
        requires
            i < self@.len(),
        ensures
            p@ == self@[i as int].0,
    {
        &self.entries[i].path
    }

    /// The digest of the entry at position `i`.
    pub fn digest(&self, i: usize) -> (d: Digest)
        requires
            i < self@.len(),
        ensures
            d@ == self@[i as int].1,
    {
        self.entries[i].digest
    }

    /// Where `path` stands or would stand: the number of entries whose paths
    /// come before it, and whether the entry at that position holds it.
    pub fn search(&self, path: &FsPath) -> (at: (usize, bool))
        requires
            self.wf(),
        ensures
            at.0 <= self@.len(),
            forall|j: int| 0 <= j < at.0 ==> path_lt(#[trigger] self@[j].0, path@),
            at.1 ==> at.0 < self@.len() && self@[at.0 as int].0 == path@,
            !at.1 ==> forall|j: int| at.0 <= j < self@.len() ==> path_lt(path@, #[trigger] self@[j].0),
            at.1 == has_key(self@, path@),
    {
        let mut lo: usize = 0;
        let mut hi: usize = self.entries.len();
        while lo < hi
            invariant
                lo <= hi <= self@.len(),
                self.wf(),
                forall|j: int| 0 <= j < lo ==> path_lt(#[trigger] self@[j].0, path@),
                forall|j: int| hi <= j < self@.len() ==> !path_lt(#[trigger] self@[j].0, path@),
            decreases hi - lo,
        {
            let mid = lo + (hi - lo) / 2;
            if self.entries[mid].path.less(path) {
                assert forall|j: int| 0 <= j < mid + 1 implies path_lt(
                    #[trigger] self@[j].0,
                    path@,
                ) by {
                    if j < mid {
                        lemma_path_lt_transitive(self@[j].0, self@[mid as int].0, path@);
                    }
                }
                lo = mid + 1;
            } else {
                assert forall|j: int| mid <= j < self@.len() implies !path_lt(
                    #[trigger] self@[j].0,
                    path@,
                ) by {
                    if mid < j && path_lt(self@[j].0, path@) {
                        lemma_path_lt_transitive(self@[mid as int].0, self@[j].0, path@);
                    }
                }
                hi = mid;
            }
        }
        let found = lo < self.entries.len() && self.entries[lo].path.same(path);
        proof {
            if !found {
                assert forall|j: int| lo <= j < self@.len() implies path_lt(
                    path@,
                    #[trigger] self@[j].0,
                ) by {
                    lemma_path_lt_total(self@[lo as int].0, path@);
                    if lo < j {
                        lemma_path_lt_transitive(path@, self@[lo as int].0, self@[j].0);
                    }
                }
            }
            if has_key(self@, path@) {
                // an entry that holds the path stands neither before nor behind
                let i = index_of(self@, path@);
                lemma_path_lt_irreflexive(path@);
                assert(self@[i].0 == path@);
            }
        }
        (lo, found)
    }

    /// The digest held for `path`, if any.
    pub fn get(&self, path: &FsPath) -> (d: Option<Digest>)
        requires
            self.wf(),
        ensures
            d is Some == has_key(self@, path@),
            d matches Some(x) ==> lookup(self@, path@) == Some(x@),
            d is None ==> lookup(self@, path@) is None,
    {
        let (at, found) = self.search(path);
        if found {
            proof {
                lemma_lookup_at(self@, at as int);
            }
            Some(self.entries[at].digest)
        } else {
            None
        }
    }

    /// Combines `digest` into the entry of `path` with exclusive or, or makes
    /// it the entry's digest where the map holds none for the path.
    pub fn merge(&mut self, path: &FsPath, digest: &Digest)
        requires
            old(self).wf(),
        ensures
            final(self).wf(),
            as_map(final(self)@) == as_map(old(self)@).insert(
                path@,
                match lookup(old(self)@, path@) {
                    Some(d) => xor_spec(d, digest@),
                    None => digest@,
                },
            ),
    {
        let (at, found) = self.search(path);
        let ghost before = self@;
        if found {
            let d = xor_digest(&self.entries[at].digest, digest);
            let p = self.entries[at].path.duplicate();
            self.entries.set(at, DigestEntry { path: p, digest: d });
            proof {
                let after = self@;
                assert(after =~= before.update(at as int, (path@, d@)));
                lemma_lookup_at(before, at as int);
                assert forall|k: Seq<Seq<u8>>| has_key(after, k) == has_key(before, k) by {
                    if has_key(after, k) {
                        let i = index_of(after, k);
                        assert(before[i].0 == k);
                    }
                    if has_key(before, k) {
                        let i = index_of(before, k);
                        assert(after[i].0 == k);
                    }
                }
                assert forall|k: Seq<Seq<u8>>| has_key(after, k) implies #[trigger] as_map(
                    after,
                )[k] == as_map(before).insert(path@, d@)[k] by {
                    let i = index_of(after, k);
                    lemma_lookup_at(after, i);
                    assert(before[i].0 == k);
                    lemma_lookup_at(before, i);
                    if k == path@ {
                        lemma_sorted_unique(after, i, at as int);
                    }
                }
                assert(as_map(after) =~= as_map(before).insert(path@, d@));
            }
        } else {
            let p = path.duplicate();
            self.entries.insert(at, DigestEntry { path: p, digest: *digest });
            proof {
                let after = self@;
                assert(after =~= before.insert(at as int, (path@, digest@)));
                assert(sorted(after)) by {
                    assert forall|i: int, j: int| 0 <= i < j < after.len() implies path_lt(
                        #[trigger] after[i].0,
                        #[trigger] after[j].0,
                    ) by {
                        if j < at {
                            assert(after[i] == before[i] && after[j] == before[j]);
                        } else if j == at {
                            assert(after[i] == before[i]);
                        } else if i < at {
                            assert(after[i] == before[i] && after[j] == before[j - 1]);
                        } else if i == at {
                            assert(after[j] == before[j - 1]);
                        } else {
                            assert(after[i] == before[i - 1] && after[j] == before[j - 1]);
                        }
                    }
                }
                assert(after[at as int].0 == path@);
                assert forall|k: Seq<Seq<u8>>| has_key(after, k) == (k == path@ || has_key(
                    before,
                    k,
                )) by {
                    if has_key(after, k) {
                        let i = index_of(after, k);
                        if i < at {
                            assert(before[i].0 == k);
                        } else if i > at {
                            assert(before[i - 1].0 == k);
                        }
                    }
                    if has_key(before, k) {
                        let i = index_of(before, k);
                        if i < at {
                            assert(after[i].0 == k);
                        } else {
                            assert(after[i + 1].0 == k);
                        }
                    }
                }
                assert forall|k: Seq<Seq<u8>>| has_key(after, k) implies #[trigger] as_map(
                    after,
                )[k] == as_map(before).insert(path@, digest@)[k] by {
                    let i = index_of(after, k);
                    lemma_lookup_at(after, i);
                    if i < at {
                        assert(before[i].0 == k);
                        lemma_lookup_at(before, i);
                    } else if i > at {
                        assert(before[i - 1].0 == k);
                        lemma_lookup_at(before, i - 1);
                    }
                }
                assert(as_map(after) =~= as_map(before).insert(path@, digest@));
            }
        }
    }

    /// Adds an entry behind the others. This is how a map is filled from a
    /// list that is in order already; the entry is refused where its path does
    /// not come after the last one's.
    pub fn append(&mut self, path: FsPath, digest: Digest) -> (added: bool)
        requires
            old(self).wf(),
        ensures
            final(self).wf(),
            added == (old(self)@.len() == 0 || path_lt(old(self)@.last().0, path@)),
            final(self)@ == (if added {
                old(self)@.push((path@, digest@))
            } else {
                old(self)@
            }),
    {
        let n = self.entries.len();
        if n > 0 && !self.entries[n - 1].path.less(&path) {
            return false;
        }
        let ghost before = self@;
        let ghost k = path@;
        self.entries.push(DigestEntry { path, digest });
        proof {
            let after = self@;
            assert(after =~= before.push((k, digest@)));
            assert forall|i: int, j: int| 0 <= i < j < after.len() implies path_lt(
                #[trigger] after[i].0,
                #[trigger] after[j].0,
            ) by {
                if j < n {
                    assert(after[i] == before[i] && after[j] == before[j]);
                } else if i < n - 1 {
                    assert(after[i] == before[i]);
                    assert(path_lt(before[i].0, before[n - 1].0));
                    lemma_path_lt_transitive(before[i].0, before[n - 1].0, k);
                } else {
                    assert(after[i] == before[n - 1]);
                }
            }
        }
        true
    }
}

} // verus!
