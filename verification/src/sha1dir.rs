//! The hash builder: one digest for each entry of a tree.
//!
//! A file or a symbolic link is a leaf: its digest is the SHA-1 of a header
//! (kind, length of the path's text, the text) followed by its content. A
//! directory starts from the SHA-1 of its header alone. Every digest is then
//! combined, byte by byte with exclusive or, into each directory above its
//! entry, so that the digest held for a directory reflects everything below
//! it. It detects change; it is no commitment to the content.

use crate::path::{cur_dir_comp, has_parent, path_text, FsPath, DOT};
use crate::snapshot::{
    as_map, has_key, lemma_one_list_for_a_map, lookup, sorted, xor_spec, zero_digest, Digest,
    DigestMap, DIGEST_LEN,
};
use sha1::Digest as HashFunction;
use sha1::Sha1;
use vstd::prelude::*;
use vstd::utf8::encode_utf8;

verus! {

/// The kind byte of a file's header.
pub const KIND_FILE: u8 = 102;

/// The kind byte of a symbolic link's header.
pub const KIND_SYMLINK: u8 = 108;

/// The kind byte of a directory's header.
pub const KIND_DIR: u8 = 100;

/// The SHA-1 digest of a message.
pub uninterp spec fn sha1(data: Seq<u8>) -> Seq<u8>;

/// Computes the SHA-1 digest of `data` with `sha1::Sha1::digest`: the 20
/// bytes that SHA-1 assigns to the message.
#[verifier::external_body]
fn sha1_digest(data: &[u8]) -> (d: Digest)
    ensures
        d@ == sha1(data@),
{
    Sha1::digest(data).into()
}

/// The low 32 bits of `n` as four bytes, lowest first.
pub open spec fn le32(n: nat) -> Seq<u8> {
    seq![
        (n % 256) as u8,
        ((n / 256) % 256) as u8,
        ((n / 65536) % 256) as u8,
        ((n / 16777216) % 256) as u8,
    ]
}

/// The header that starts the hashed bytes of an entry: its kind, the length
/// of the path's text and the text.
pub open spec fn header(kind: u8, path: Seq<Seq<u8>>) -> Seq<u8> {
    seq![kind] + le32(path_text(path).len()) + path_text(path)
}

/// What the walk of a tree found at one path.
#[derive(Debug)]
pub enum Node {
    /// A regular file, with its content.
    File(Vec<u8>),
    /// A symbolic link, with the text of its target.
    Symlink(Vec<u8>),
    /// A directory.
    Dir,
    /// An entry that is neither file, link nor directory.
    Unsupported,
    /// An entry that could not be read, with the cause.
    Unreadable(String),
}

/// One entry of a tree as the walk hands it over.
#[derive(Debug)]
pub struct TreeEntry {
    pub path: FsPath,
    pub node: Node,
}

/// A problem with one entry that did not stop the run.
#[derive(Debug)]
pub struct HashError {
    pub path: FsPath,
    /// The cause as the walk reported it; none for an unsupported kind of
    /// entry.
    pub cause: Option<String>,
}

/// A recorded problem as a plain value: the path and the cause.
pub open spec fn failure_of(e: HashError) -> (Seq<Seq<u8>>, Option<Seq<char>>) {
    (
        e.path@,
        match e.cause {
            Some(c) => Some(c@),
            None => None,
        },
    )
}

/// The bytes that are hashed for an entry, where it has a digest.
pub open spec fn leaf_input(e: TreeEntry) -> Option<Seq<u8>> {
    match e.node {
        Node::File(content) => Some(header(KIND_FILE, e.path@) + content@),
        Node::Symlink(target) => Some(header(KIND_SYMLINK, e.path@) + target@),
        Node::Dir => Some(header(KIND_DIR, e.path@)),
        Node::Unsupported => None,
        Node::Unreadable(_) => None,
    }
}

/// The contribution of each entry that has a digest, in the order of the
/// entries: its path and the digest of its own bytes.
pub open spec fn puts(es: Seq<TreeEntry>) -> Seq<(Seq<Seq<u8>>, Seq<u8>)>
    decreases es.len(),
{
    if es.len() == 0 {
        Seq::empty()
    } else {
        let e = es.last();
        match leaf_input(e) {
            Some(bytes) => puts(es.drop_last()).push((e.path@, sha1(bytes))),
            None => puts(es.drop_last()),
        }
    }
}

/// The paths of the directories among the entries, in their order.
pub open spec fn dir_paths(es: Seq<TreeEntry>) -> Seq<Seq<Seq<u8>>>
    decreases es.len(),
{
    if es.len() == 0 {
        Seq::empty()
    } else if es.last().node is Dir {
        dir_paths(es.drop_last()).push(es.last().path@)
    } else {
        dir_paths(es.drop_last())
    }
}

/// The entries that have no digest, in their order: the path and the cause.
pub open spec fn failures(es: Seq<TreeEntry>) -> Seq<(Seq<Seq<u8>>, Option<Seq<char>>)>
    decreases es.len(),
{
    if es.len() == 0 {
        Seq::empty()
    } else {
        let e = es.last();
        match e.node {
            Node::Unsupported => failures(es.drop_last()).push((e.path@, None)),
            Node::Unreadable(cause) => failures(es.drop_last()).push((e.path@, Some(cause@))),
            _ => failures(es.drop_last()),
        }
    }
}

/// The tree's own root: the path `.`, which never gets an entry.
pub open spec fn tree_root() -> Seq<Seq<u8>> {
    seq![cur_dir_comp()]
}

/// Whether the digest of an entry at `p` is combined into the entry of `k`:
/// `k` is `p` or a directory above it, and not the tree's root.
pub open spec fn covers(k: Seq<Seq<u8>>, p: Seq<Seq<u8>>) -> bool
    decreases p.len(),
{
    if p == tree_root() {
        false
    } else if k == p {
        true
    } else if has_parent(p) {
        covers(k, p.drop_last())
    } else {
        false
    }
}

/// The digest that a tree with the contributions `ps` has at the path `k`:
/// all contributions that reach `k`, combined.
pub open spec fn tree_digest(ps: Seq<(Seq<Seq<u8>>, Seq<u8>)>, k: Seq<Seq<u8>>) -> Seq<u8>
    decreases ps.len(),
{
    if ps.len() == 0 {
        zero_digest()
    } else if covers(k, ps.last().0) {
        xor_spec(tree_digest(ps.drop_last(), k), ps.last().1)
    } else {
        tree_digest(ps.drop_last(), k)
    }
}

/// Whether a tree with the contributions `ps` has an entry for the path `k`.
pub open spec fn in_tree(ps: Seq<(Seq<Seq<u8>>, Seq<u8>)>, k: Seq<Seq<u8>>) -> bool {
    exists|i: int| 0 <= i < ps.len() && covers(k, #[trigger] ps[i].0)
}

/// The digest map of a tree with the contributions `ps`.
pub open spec fn tree_map(ps: Seq<(Seq<Seq<u8>>, Seq<u8>)>) -> Map<Seq<Seq<u8>>, Seq<u8>> {
    Map::new(|k: Seq<Seq<u8>>| in_tree(ps, k), |k: Seq<Seq<u8>>| tree_digest(ps, k))
}

/// The entries of the digest map of the tree whose entries are `es`: in the
/// order of their paths, with the digests that the tree has at them.
pub open spec fn tree_entries(es: Seq<TreeEntry>) -> Seq<(Seq<Seq<u8>>, Seq<u8>)> {
    choose|s: Seq<(Seq<Seq<u8>>, Seq<u8>)>| sorted(s) && as_map(s) == tree_map(puts(es))
}

/// Every contribution is a digest of 20 bytes.
pub open spec fn digests_sized(ps: Seq<(Seq<Seq<u8>>, Seq<u8>)>) -> bool {
    forall|i: int| 0 <= i < ps.len() ==> (#[trigger] ps[i]).1.len() == DIGEST_LEN
}

/// What one contribution does to a digest map: it is combined into the
/// entries of the paths it reaches, and becomes the entry where there was
/// none.
pub open spec fn put_result(
    m: Map<Seq<Seq<u8>>, Seq<u8>>,
    p: Seq<Seq<u8>>,
    d: Seq<u8>,
) -> Map<Seq<Seq<u8>>, Seq<u8>> {
    Map::new(
        |k: Seq<Seq<u8>>| m.dom().contains(k) || covers(k, p),
        |k: Seq<Seq<u8>>|
            if covers(k, p) {
                if m.dom().contains(k) {
                    xor_spec(m[k], d)
                } else {
                    d
                }
            } else {
                m[k]
            },
    )
}

/// A digest of a tree has 20 bytes.
pub proof fn lemma_tree_digest_len(ps: Seq<(Seq<Seq<u8>>, Seq<u8>)>, k: Seq<Seq<u8>>)
    ensures
        tree_digest(ps, k).len() == DIGEST_LEN,
    decreases ps.len(),
{
    if ps.len() > 0 {
        lemma_tree_digest_len(ps.drop_last(), k);
    }
}

/// Where no contribution reaches a path, the combined digest is still zero.
pub proof fn lemma_tree_digest_untouched(ps: Seq<(Seq<Seq<u8>>, Seq<u8>)>, k: Seq<Seq<u8>>)
    requires
        !in_tree(ps, k),
    ensures
        tree_digest(ps, k) == zero_digest(),
    decreases ps.len(),
{
    if ps.len() > 0 {
        let n = ps.len() - 1;
        assert(!covers(k, ps[n].0));
        assert forall|i: int| 0 <= i < n implies !covers(k, #[trigger] ps.drop_last()[i].0) by {
            assert(ps.drop_last()[i] == ps[i]);
        }
        lemma_tree_digest_untouched(ps.drop_last(), k);
    }
}

/// One more contribution changes the tree's digest map as `put_result` says.
pub proof fn lemma_tree_map_push(ps: Seq<(Seq<Seq<u8>>, Seq<u8>)>, p: Seq<Seq<u8>>, d: Seq<u8>)
    requires
        d.len() == DIGEST_LEN,
    ensures
        tree_map(ps.push((p, d))) == put_result(tree_map(ps), p, d),
{
    let qs = ps.push((p, d));
    assert(qs.drop_last() =~= ps);
    assert forall|k: Seq<Seq<u8>>| in_tree(qs, k) == (in_tree(ps, k) || covers(k, p)) by {
        if in_tree(qs, k) {
            let i = choose|i: int| 0 <= i < qs.len() && covers(k, #[trigger] qs[i].0);
            if i < ps.len() {
                assert(ps[i] == qs[i]);
            }
        }
        if in_tree(ps, k) {
            let i = choose|i: int| 0 <= i < ps.len() && covers(k, #[trigger] ps[i].0);
            assert(qs[i] == ps[i]);
        }
        if covers(k, p) {
            assert(qs[ps.len() as int].0 == p);
        }
    }
    assert forall|k: Seq<Seq<u8>>| in_tree(qs, k) implies tree_digest(qs, k) == put_result(
        tree_map(ps),
        p,
        d,
    )[k] by {
        if covers(k, p) {
            if !in_tree(ps, k) {
                lemma_tree_digest_untouched(ps, k);
                assert(xor_spec(zero_digest(), d) =~= d) by {
                    assert forall|i: int| 0 <= i < DIGEST_LEN implies (0u8 ^ d[i]) == d[i] by {
                        let x = d[i];
                        assert(0u8 ^ x == x) by (bit_vector);
                    }
                }
            }
        }
    }
    assert(tree_map(qs) =~= put_result(tree_map(ps), p, d));
}

/// The digest map while a contribution is on its way up from `full`: it has
/// been combined into the entries that it reaches, but for those that it
/// reaches from `p` while it is still `going`.
pub open spec fn put_progress(
    m: Map<Seq<Seq<u8>>, Seq<u8>>,
    full: Seq<Seq<u8>>,
    going: bool,
    p: Seq<Seq<u8>>,
    d: Seq<u8>,
) -> Map<Seq<Seq<u8>>, Seq<u8>> {
    Map::new(
        |k: Seq<Seq<u8>>| m.dom().contains(k) || (covers(k, full) && !(going && covers(k, p))),
        |k: Seq<Seq<u8>>|
            if covers(k, full) && !(going && covers(k, p)) {
                if m.dom().contains(k) {
                    xor_spec(m[k], d)
                } else {
                    d
                }
            } else {
                m[k]
            },
    )
}

/// What reaches a path reaches it from a path at least as long.
pub proof fn lemma_covers_len(k: Seq<Seq<u8>>, p: Seq<Seq<u8>>)
    requires
        covers(k, p),
    ensures
        k.len() <= p.len(),
        k != tree_root(),
    decreases p.len(),
{
    if k != p {
        lemma_covers_len(k, p.drop_last());
    }
}

/// The tree's own root is never a key of the tree's digest map.
pub proof fn lemma_root_is_no_key(ps: Seq<(Seq<Seq<u8>>, Seq<u8>)>)
    ensures
        !tree_map(ps).dom().contains(tree_root()),
{
    if in_tree(ps, tree_root()) {
        let i = choose|i: int| 0 <= i < ps.len() && covers(tree_root(), #[trigger] ps[i].0);
        lemma_covers_len(tree_root(), ps[i].0);
    }
}

/// The digests of a tree and the problems met while they were computed.
#[derive(Debug)]
pub struct Checksums {
    bytes_map: DigestMap,
    dirs: Vec<FsPath>,
    errors: Vec<HashError>,
}

impl Checksums {
    /// The entries of the digest map, in order.
    pub closed spec fn entries(&self) -> Seq<(Seq<Seq<u8>>, Seq<u8>)> {
        self.bytes_map@
    }

    /// The paths that were met as directories, in the order they were met.
    pub closed spec fn dirs(&self) -> Seq<Seq<Seq<u8>>> {
        Seq::new(self.dirs@.len(), |i: int| self.dirs@[i]@)
    }

    /// The entries that got no digest, in the order they were met.
    pub closed spec fn failures(&self) -> Seq<(Seq<Seq<u8>>, Option<Seq<char>>)> {
        Seq::new(self.errors@.len(), |i: int| failure_of(self.errors@[i]))
    }

    /// The digest map is in order.
    pub open spec fn wf(&self) -> bool {
        sorted(self.entries())
    }

    /// Nothing hashed yet.
    pub fn new() -> (c: Checksums)
        ensures
            c.wf(),
            c.entries() == Seq::<(Seq<Seq<u8>>, Seq<u8>)>::empty(),
            c.dirs() == Seq::<Seq<Seq<u8>>>::empty(),
            c.failures() == Seq::<(Seq<Seq<u8>>, Option<Seq<char>>)>::empty(),
    {
        let c = Checksums { bytes_map: DigestMap::new(), dirs: Vec::new(), errors: Vec::new() };
        assert(c.dirs() =~= Seq::<Seq<Seq<u8>>>::empty());
        assert(c.failures() =~= Seq::<(Seq<Seq<u8>>, Option<Seq<char>>)>::empty());
        c
    }

    /// The digest map.
    pub fn bytes_map(&self) -> (map: &DigestMap)
        ensures
            map@ == self.entries(),
    {
        &self.bytes_map
    }

    /// The digest map alone, the rest given up.
    pub fn into_map(self) -> (map: DigestMap)
        ensures
            map@ == self.entries(),
    {
        self.bytes_map
    }

    /// The problems that were met.
    pub fn errors(&self) -> (errors: &Vec<HashError>)
        ensures
            errors@.len() == self.failures().len(),
            forall|i: int|
                0 <= i < errors@.len() ==> failure_of(#[trigger] errors@[i]) == self.failures()[i],
    {
        &self.errors
    }

    /// Whether `path` was met as a directory.
    pub fn is_dir(&self, path: &FsPath) -> (dir: bool)
        ensures
            dir == self.dirs().contains(path@),
    {
        let mut i: usize = 0;
        while i < self.dirs.len()
            invariant
                i <= self.dirs.len(),
                forall|j: int| 0 <= j < i ==> self.dirs()[j] != path@,
            decreases self.dirs.len() - i,
        {
            if self.dirs[i].same(path) {
                assert(self.dirs()[i as int] == path@);
                return true;
            }
            i += 1;
        }
        false
    }
}

/// Collects the digests of a tree entry by entry.
#[derive(Debug)]
pub struct ChecksumsBuilder {
    data: Checksums,
}

impl View for ChecksumsBuilder {
    type V = Checksums;

    closed spec fn view(&self) -> Checksums {
        self.data
    }
}

impl ChecksumsBuilder {
    /// A builder that has seen nothing.
    pub fn new() -> (b: ChecksumsBuilder)
        ensures
            b@.wf(),
            b@.entries() == Seq::<(Seq<Seq<u8>>, Seq<u8>)>::empty(),
            b@.dirs() == Seq::<Seq<Seq<u8>>>::empty(),
            b@.failures() == Seq::<(Seq<Seq<u8>>, Option<Seq<char>>)>::empty(),
    {
        ChecksumsBuilder { data: Checksums::new() }
    }

    /// Combines the digest `hash` of the entry at `path` into the entry of
    /// `path` and of every directory above it, up to the tree's root, which
    /// gets none.
    pub fn put(&mut self, path: &FsPath, hash: &Digest)
        requires
            old(self)@.wf(),
        ensures
            final(self)@.wf(),
            as_map(final(self)@.entries()) == put_result(
                as_map(old(self)@.entries()),
                path@,
                hash@,
            ),
            final(self)@.dirs() == old(self)@.dirs(),
            final(self)@.failures() == old(self)@.failures(),
    {
        let ghost m0 = as_map(self.data.bytes_map@);
        let ghost full = path@;
        let ghost d = hash@;
        let mut p = path.duplicate();
        let mut going = true;
        while going
            invariant
                self@.wf(),
                d == hash@,
                self@.dirs() == old(self)@.dirs(),
                self@.failures() == old(self)@.failures(),
                going ==> forall|k: Seq<Seq<u8>>| covers(k, p@) ==> covers(k, full),
                as_map(self.data.bytes_map@) == put_progress(m0, full, going, p@, d),
            decreases
                    (if going {
                        p@.len() + 1
                    } else {
                        0
                    }),
        {
            let ghost now = as_map(self.data.bytes_map@);
            let ghost q = p@;
            if is_tree_root(&p) {
                going = false;
                assert(now =~= put_progress(m0, full, false, q, d));
            } else {
                proof {
                    assert(covers(q, q));
                    assert(now.dom().contains(q) == m0.dom().contains(q));
                    if now.dom().contains(q) {
                        assert(now[q] == m0[q]);
                    }
                    assert(lookup(self.data.bytes_map@, q) == (if m0.dom().contains(q) {
                        Some(m0[q])
                    } else {
                        None
                    }));
                }
                let ghost merged = match lookup(self.data.bytes_map@, q) {
                    Some(d0) => xor_spec(d0, d),
                    None => d,
                };
                self.data.bytes_map.merge(&p, hash);
                let parent = p.pop();
                if !parent {
                    going = false;
                }
                proof {
                    let rest = p@;
                    assert forall|k: Seq<Seq<u8>>| covers(k, q) == (k == q || (parent && covers(
                        k,
                        rest,
                    ))) by {}
                    if parent {
                        assert forall|k: Seq<Seq<u8>>| covers(k, rest) implies k != q by {
                            lemma_covers_len(k, rest);
                        }
                    }
                    let after = as_map(self.data.bytes_map@);
                    let goal = put_progress(m0, full, going, rest, d);
                    assert(covers(q, full));
                    assert forall|k: Seq<Seq<u8>>| after.dom().contains(k) == goal.dom().contains(
                        k,
                    ) by {
                        assert(now.dom().contains(k) == put_progress(
                            m0,
                            full,
                            true,
                            q,
                            d,
                        ).dom().contains(k));
                    }
                    assert forall|k: Seq<Seq<u8>>| after.dom().contains(k) implies after[k]
                        == goal[k] by {
                        if k != q {
                            assert(now.dom().contains(k));
                            assert(now[k] == put_progress(m0, full, true, q, d)[k]);
                            assert(covers(k, q) == (parent && covers(k, rest)));
                            assert(after[k] == now[k]);
                        } else {
                            assert(!(going && covers(q, rest)));
                            assert(after[k] == merged);
                        }
                    }
                    assert(after =~= goal);
                }
            }
        }
        assert(put_progress(m0, full, false, p@, d) =~= put_result(m0, full, d));
    }

    /// Notes that `path` was met as a directory.
    pub fn note_dir(&mut self, path: &FsPath)
        ensures
            final(self)@.entries() == old(self)@.entries(),
            final(self)@.dirs() == old(self)@.dirs().push(path@),
            final(self)@.failures() == old(self)@.failures(),
    {
        self.data.dirs.push(path.duplicate());
        assert(self@.dirs() =~= old(self)@.dirs().push(path@));
    }

    /// Records a problem with one entry; the run goes on.
    pub fn report_error(&mut self, error: HashError)
        ensures
            final(self)@.entries() == old(self)@.entries(),
            final(self)@.dirs() == old(self)@.dirs(),
            final(self)@.failures() == old(self)@.failures().push(failure_of(error)),
    {
        let ghost item = failure_of(error);
        self.data.errors.push(error);
        assert(self@.failures() =~= old(self)@.failures().push(item));
    }

    /// What was collected.
    pub fn into(self) -> (c: Checksums)
        ensures
            c == self@,
    {
        self.data
    }
}

/// Whether `p` is the tree's own root, the path `.`.
pub fn is_tree_root(p: &FsPath) -> (root: bool)
    ensures
        root == (p@ == tree_root()),
{
    if p.len() != 1 {
        return false;
    }
    let c = p.comp(0);
    let root = c.len() == 1 && c[0] == DOT;
    proof {
        if root {
            assert(c@ =~= cur_dir_comp());
            assert(p@ =~= tree_root());
        } else if p@ == tree_root() {
            assert(p@[0] == cur_dir_comp());
        }
    }
    root
}

/// The header of the entry at `path` of the kind `kind`.
pub fn begin(path: &FsPath, kind: u8) -> (bytes: Vec<u8>)
    ensures
        bytes@ == header(kind, path@),
{
    let text = path.to_bytes();
    let n = text.len();
    let mut bytes: Vec<u8> = Vec::new();
    bytes.push(kind);
    bytes.push((n % 256) as u8);
    bytes.push(((n / 256) % 256) as u8);
    bytes.push(((n / 65536) % 256) as u8);
    bytes.push(((n / 16777216) % 256) as u8);
    assert(bytes@ =~= seq![kind] + le32(n as nat));
    let mut i: usize = 0;
    while i < n
        invariant
            i <= n,
            n == text@.len(),
            bytes@ == seq![kind] + le32(n as nat) + text@.take(i as int),
        decreases n - i,
    {
        bytes.push(text[i]);
        assert(text@.take(i + 1) =~= text@.take(i as int).push(text@[i as int]));
        i += 1;
    }
    assert(text@.take(i as int) =~= text@);
    bytes
}

/// `head` followed by `tail`, hashed.
fn digest_of(head: Vec<u8>, tail: &[u8]) -> (d: Digest)
    ensures
        d@ == sha1(head@ + tail@),
{
    let mut bytes = head;
    let mut i: usize = 0;
    while i < tail.len()
        invariant
            i <= tail.len(),
            bytes@ == head@ + tail@.take(i as int),
        decreases tail.len() - i,
    {
        bytes.push(tail[i]);
        assert(tail@.take(i + 1) =~= tail@.take(i as int).push(tail@[i as int]));
        i += 1;
    }
    assert(tail@.take(i as int) =~= tail@);
    sha1_digest(bytes.as_slice())
}

/// Hashes the file at `path` with the content `content` and puts its digest.
pub fn file(checksums: &mut ChecksumsBuilder, path: &FsPath, content: &[u8])
    requires
        old(checksums)@.wf(),
    ensures
        final(checksums)@.wf(),
        as_map(final(checksums)@.entries()) == put_result(
            as_map(old(checksums)@.entries()),
            path@,
            sha1(header(KIND_FILE, path@) + content@),
        ),
        sha1(header(KIND_FILE, path@) + content@).len() == DIGEST_LEN,
        final(checksums)@.dirs() == old(checksums)@.dirs(),
        final(checksums)@.failures() == old(checksums)@.failures(),
{
    let d = digest_of(begin(path, KIND_FILE), content);
    checksums.put(path, &d);
}

/// Hashes the symbolic link at `path` that points to `target` and puts its
/// digest.
pub fn symlink(checksums: &mut ChecksumsBuilder, path: &FsPath, target: &[u8])
    requires
        old(checksums)@.wf(),
    ensures
        final(checksums)@.wf(),
        as_map(final(checksums)@.entries()) == put_result(
            as_map(old(checksums)@.entries()),
            path@,
            sha1(header(KIND_SYMLINK, path@) + target@),
        ),
        sha1(header(KIND_SYMLINK, path@) + target@).len() == DIGEST_LEN,
        final(checksums)@.dirs() == old(checksums)@.dirs(),
        final(checksums)@.failures() == old(checksums)@.failures(),
{
    let d = digest_of(begin(path, KIND_SYMLINK), target);
    checksums.put(path, &d);
}

/// Puts the digest of the directory at `path`, made of its header alone.
pub fn dir(checksums: &mut ChecksumsBuilder, path: &FsPath)
    requires
        old(checksums)@.wf(),
    ensures
        final(checksums)@.wf(),
        as_map(final(checksums)@.entries()) == put_result(
            as_map(old(checksums)@.entries()),
            path@,
            sha1(header(KIND_DIR, path@)),
        ),
        sha1(header(KIND_DIR, path@)).len() == DIGEST_LEN,
        final(checksums)@.dirs() == old(checksums)@.dirs().push(path@),
        final(checksums)@.failures() == old(checksums)@.failures(),
{
    let head = begin(path, KIND_DIR);
    let d = sha1_digest(head.as_slice());
    checksums.put(path, &d);
    checksums.note_dir(path);
}

/// Takes one entry of the tree into the builder: a file, a link or a
/// directory gets its digest, anything else is recorded as a problem.
pub fn entry(checksums: &mut ChecksumsBuilder, e: &TreeEntry)
    requires
        old(checksums)@.wf(),
    ensures
        final(checksums)@.wf(),
        as_map(final(checksums)@.entries()) == (match leaf_input(*e) {
            Some(bytes) => put_result(as_map(old(checksums)@.entries()), e.path@, sha1(bytes)),
            None => as_map(old(checksums)@.entries()),
        }),
        leaf_input(*e) matches Some(bytes) ==> sha1(bytes).len() == DIGEST_LEN,
        final(checksums)@.dirs() == (if e.node is Dir {
            old(checksums)@.dirs().push(e.path@)
        } else {
            old(checksums)@.dirs()
        }),
        final(checksums)@.failures() == (match e.node {
            Node::Unsupported => old(checksums)@.failures().push((e.path@, None)),
            Node::Unreadable(cause) => old(checksums)@.failures().push((e.path@, Some(cause@))),
            _ => old(checksums)@.failures(),
        }),
{
    match &e.node {
        Node::File(content) => file(checksums, &e.path, content.as_slice()),
        Node::Symlink(target) => symlink(checksums, &e.path, target.as_slice()),
        Node::Dir => dir(checksums, &e.path),
        Node::Unsupported => checksums.report_error(
            HashError { path: e.path.duplicate(), cause: None },
        ),
        Node::Unreadable(cause) => checksums.report_error(
            HashError { path: e.path.duplicate(), cause: Some(cause.clone()) },
        ),
    }
}

/// The digests of the tree whose entries are `tree`. The digest held for a
/// path combines the digests of all entries at or below it; the entries that
/// could not be hashed are listed and leave no trace in the map.
pub fn build_checksums(tree: &Vec<TreeEntry>) -> (c: Checksums)
    ensures
        c.wf(),
        as_map(c.entries()) == tree_map(puts(tree@)),
        c.entries() == tree_entries(tree@),
        !has_key(c.entries(), tree_root()),
        c.dirs() == dir_paths(tree@),
        c.failures() == failures(tree@),
{
    let mut builder = ChecksumsBuilder::new();
    let mut i: usize = 0;
    assert(as_map(builder@.entries()) =~= tree_map(puts(tree@.take(0))));
    while i < tree.len()
        invariant
            i <= tree.len(),
            builder@.wf(),
            as_map(builder@.entries()) == tree_map(puts(tree@.take(i as int))),
            builder@.dirs() == dir_paths(tree@.take(i as int)),
            builder@.failures() == failures(tree@.take(i as int)),
        decreases tree.len() - i,
    {
        entry(&mut builder, &tree[i]);
        proof {
            let next = tree@.take(i + 1);
            assert(next.drop_last() =~= tree@.take(i as int));
            assert(next.last() == tree@[i as int]);
            match leaf_input(tree@[i as int]) {
                Some(bytes) => {
                    lemma_tree_map_push(
                        puts(tree@.take(i as int)),
                        tree@[i as int].path@,
                        sha1(bytes),
                    );
                },
                None => {},
            }
        }
        i += 1;
    }
    assert(tree@.take(i as int) =~= tree@);
    proof {
        lemma_one_list_for_a_map(builder@.entries(), tree_entries(tree@));
        lemma_root_is_no_key(puts(tree@));
        assert(as_map(builder@.entries()).dom().contains(tree_root()) == has_key(
            builder@.entries(),
            tree_root(),
        ));
    }
    builder.into()
}

/// The digest map of the tree whose entries are `tree`.
pub fn create_hashes(tree: &Vec<TreeEntry>) -> (map: DigestMap)
    ensures
        map.wf(),
        as_map(map@) == tree_map(puts(tree@)),
        map@ == tree_entries(tree@),
        !has_key(map@, tree_root()),
{
    build_checksums(tree).into_map()
}

/// The contributions of `ps` that reach the path `k`, in their order.
pub open spec fn reaching(ps: Seq<(Seq<Seq<u8>>, Seq<u8>)>, k: Seq<Seq<u8>>) -> Seq<
    (Seq<Seq<u8>>, Seq<u8>),
>
    decreases ps.len(),
{
    if ps.len() == 0 {
        Seq::empty()
    } else if covers(k, ps.last().0) {
        reaching(ps.drop_last(), k).push(ps.last())
    } else {
        reaching(ps.drop_last(), k)
    }
}

/// The digest at a path is made of the contributions that reach it, and of
/// nothing else.
pub proof fn lemma_tree_digest_reaching(ps: Seq<(Seq<Seq<u8>>, Seq<u8>)>, k: Seq<Seq<u8>>)
    ensures
        tree_digest(ps, k) == tree_digest(reaching(ps, k), k),
    decreases ps.len(),
{
    if ps.len() > 0 {
        lemma_tree_digest_reaching(ps.drop_last(), k);
        if covers(k, ps.last().0) {
            let r = reaching(ps.drop_last(), k).push(ps.last());
            assert(r.drop_last() =~= reaching(ps.drop_last(), k));
        }
    }
}

/// Subtree invariance: where two trees hold the same entries at and below a
/// directory, the directory has the same digest in both, whatever else
/// differs between them.
pub proof fn lemma_subtree_invariance(
    a: Seq<(Seq<Seq<u8>>, Seq<u8>)>,
    b: Seq<(Seq<Seq<u8>>, Seq<u8>)>,
    dir: Seq<Seq<u8>>,
)
    requires
        reaching(a, dir) == reaching(b, dir),
    ensures
        tree_digest(a, dir) == tree_digest(b, dir),
{
    lemma_tree_digest_reaching(a, dir);
    lemma_tree_digest_reaching(b, dir);
}

/// Combining two different digests into the same digest gives different
/// results, and so does combining the same digest into two different ones.
pub proof fn lemma_xor_injective(x: Seq<u8>, y: Seq<u8>, d: Seq<u8>, e: Seq<u8>)
    requires
        x.len() == DIGEST_LEN,
        y.len() == DIGEST_LEN,
        d.len() == DIGEST_LEN,
        e.len() == DIGEST_LEN,
        (x == y) != (d == e),
    ensures
        xor_spec(x, d) != xor_spec(y, e),
{
    if x == y {
        assert(!(d =~= e));
        let i = choose|i: int| 0 <= i < DIGEST_LEN && d[i] != e[i];
        let (xi, di, ei) = (x[i], d[i], e[i]);
        assert(di != ei ==> (xi ^ di) != (xi ^ ei)) by (bit_vector);
        assert(xor_spec(x, d)[i] != xor_spec(y, e)[i]);
    } else {
        assert(!(x =~= y));
        let i = choose|i: int| 0 <= i < DIGEST_LEN && x[i] != y[i];
        let (xi, yi, di) = (x[i], y[i], d[i]);
        assert(xi != yi ==> (xi ^ di) != (yi ^ di)) by (bit_vector);
        assert(xor_spec(x, d)[i] != xor_spec(y, e)[i]);
    }
}

/// Change sensitivity: where two trees differ in the digest of one entry
/// alone, they differ in the digest of that entry's path and of every
/// directory above it.
pub proof fn lemma_change_sensitivity(
    a: Seq<(Seq<Seq<u8>>, Seq<u8>)>,
    b: Seq<(Seq<Seq<u8>>, Seq<u8>)>,
    i: int,
    k: Seq<Seq<u8>>,
)
    requires
        digests_sized(a),
        digests_sized(b),
        a.len() == b.len(),
        0 <= i < a.len(),
        forall|j: int| 0 <= j < a.len() && j != i ==> a[j] == b[j],
        a[i].0 == b[i].0,
        a[i].1 != b[i].1,
        covers(k, a[i].0),
    ensures
        tree_digest(a, k) != tree_digest(b, k),
    decreases a.len(),
{
    let n = a.len() - 1;
    let a1 = a.drop_last();
    let b1 = b.drop_last();
    lemma_tree_digest_len(a1, k);
    lemma_tree_digest_len(b1, k);
    if i == n {
        assert(a1 =~= b1);
        lemma_xor_injective(tree_digest(a1, k), tree_digest(b1, k), a[n].1, b[n].1);
    } else {
        lemma_change_sensitivity(a1, b1, i, k);
        assert(a[n] == b[n]);
        if covers(k, a[n].0) {
            lemma_xor_injective(tree_digest(a1, k), tree_digest(b1, k), a[n].1, b[n].1);
        }
    }
}

/// The digit of the number `n` below 16, in small letters.
pub open spec fn hex_digit(n: u8) -> u8 {
    if n < 10 {
        (48 + n) as u8
    } else {
        (87 + n) as u8
    }
}

/// The first `n` bytes of `d` as text, two digits each.
pub open spec fn hex_text(d: Seq<u8>, n: nat) -> Seq<u8>
    decreases n,
{
    if n == 0 {
        Seq::empty()
    } else {
        hex_text(d, (n - 1) as nat) + seq![hex_digit(d[n - 1] / 16), hex_digit(d[n - 1] % 16)]
    }
}

/// The line of one entry: the path, a blank, the digest in hex digits and a
/// line feed.
pub open spec fn entry_line(e: (Seq<Seq<u8>>, Seq<u8>)) -> Seq<u8> {
    path_text(e.0) + seq![32u8] + hex_text(e.1, DIGEST_LEN as nat) + seq![10u8]
}

/// The lines of the first `n` entries.
pub open spec fn entry_lines(es: Seq<(Seq<Seq<u8>>, Seq<u8>)>, n: nat) -> Seq<u8>
    decreases n,
{
    if n == 0 {
        Seq::empty()
    } else {
        entry_lines(es, (n - 1) as nat) + entry_line(es[n - 1])
    }
}

/// The line of one problem: the path, a colon, a blank, the cause where one
/// was reported, and a line feed.
pub open spec fn failure_line(f: (Seq<Seq<u8>>, Option<Seq<char>>)) -> Seq<u8> {
    path_text(f.0) + seq![58u8, 32u8] + (match f.1 {
        Some(cause) => encode_utf8(cause),
        None => Seq::empty(),
    }) + seq![10u8]
}

/// The lines of the first `n` problems.
pub open spec fn failure_lines(fs: Seq<(Seq<Seq<u8>>, Option<Seq<char>>)>, n: nat) -> Seq<u8>
    decreases n,
{
    if n == 0 {
        Seq::empty()
    } else {
        failure_lines(fs, (n - 1) as nat) + failure_line(fs[n - 1])
    }
}

/// The line that stands before the problems.
pub const ERRORS_HEADING: &'static str = "Following errors occurred: ";

/// The digests and problems as text: a line for each entry, and where there
/// are problems a heading and a line for each.
pub open spec fn checksums_text(
    es: Seq<(Seq<Seq<u8>>, Seq<u8>)>,
    fs: Seq<(Seq<Seq<u8>>, Option<Seq<char>>)>,
) -> Seq<u8> {
    entry_lines(es, es.len()) + (if fs.len() > 0 {
        encode_utf8(ERRORS_HEADING@) + seq![10u8] + failure_lines(fs, fs.len())
    } else {
        Seq::empty()
    })
}

/// The digit of the number `n` below 16.
fn digit(n: u8) -> (c: u8)
    requires
        n < 16,
    ensures
        c == hex_digit(n),
{
    if n < 10 {
        48 + n
    } else {
        87 + n
    }
}

/// Writes `bytes` behind `out`.
fn write_bytes(out: &mut Vec<u8>, bytes: &[u8])
    ensures
        final(out)@ == old(out)@ + bytes@,
{
    let mut i: usize = 0;
    while i < bytes.len()
        invariant
            i <= bytes.len(),
            out@ == old(out)@ + bytes@.take(i as int),
        decreases bytes.len() - i,
    {
        out.push(bytes[i]);
        assert(bytes@.take(i + 1) =~= bytes@.take(i as int).push(bytes@[i as int]));
        i += 1;
    }
    assert(bytes@.take(i as int) =~= bytes@);
}

impl Checksums {
    /// The digests and problems as text, for a reader: a line for each entry
    /// with its path and its digest in hex digits, then the problems.
    pub fn to_text(&self) -> (text: Vec<u8>)
        ensures
            text@ == checksums_text(self.entries(), self.failures()),
    {
        let mut out: Vec<u8> = Vec::new();
        let map = &self.bytes_map;
        let mut i: usize = 0;
        while i < map.len()
            invariant
                i <= map@.len(),
                map@ == self.entries(),
                out@ == entry_lines(map@, i as nat),
            decreases map@.len() - i,
        {
            let ghost before = out@;
            let path = map.path(i).to_bytes();
            write_bytes(&mut out, path.as_slice());
            out.push(32);
            let d = map.digest(i);
            let ghost start = out@;
            let mut j: usize = 0;
            while j < DIGEST_LEN
                invariant
                    j <= DIGEST_LEN,
                    out@ == start + hex_text(d@, j as nat),
                decreases DIGEST_LEN - j,
            {
                let b = d[j];
                out.push(digit(b / 16));
                out.push(digit(b % 16));
                assert(out@ =~= start + hex_text(d@, (j + 1) as nat));
                j += 1;
            }
            out.push(10);
            assert(out@ =~= before + entry_line(map@[i as int]));
            i += 1;
        }
        if self.errors.len() > 0 {
            let ghost lines = out@;
            write_bytes(&mut out, ERRORS_HEADING.as_bytes());
            out.push(10);
            let ghost head = out@;
            let mut k: usize = 0;
            while k < self.errors.len()
                invariant
                    k <= self.errors@.len(),
                    self.failures().len() == self.errors@.len(),
                    out@ == head + failure_lines(self.failures(), k as nat),
                decreases self.errors@.len() - k,
            {
                let ghost before = out@;
                let e = &self.errors[k];
                assert(self.failures()[k as int] == failure_of(*e));
                let path = e.path.to_bytes();
                write_bytes(&mut out, path.as_slice());
                out.push(58);
                out.push(32);
                match &e.cause {
                    Some(cause) => write_bytes(&mut out, cause.as_str().as_bytes()),
                    None => {},
                }
                out.push(10);
                assert(out@ =~= before + failure_line(self.failures()[k as int]));
                k += 1;
            }
            assert(out@ =~= lines + (encode_utf8(ERRORS_HEADING@) + seq![10u8] + failure_lines(
                self.failures(),
                self.failures().len(),
            )));
        } else {
            assert(out@ + Seq::<u8>::empty() =~= out@);
        }
        out
    }
}

impl ChecksumsBuilder {
    /// What was collected so far as text, for a reader.
    pub fn to_text(&self) -> (text: Vec<u8>)
        ensures
            text@ == checksums_text(self@.entries(), self@.failures()),
    {
        self.data.to_text()
    }
}

} // verus!
