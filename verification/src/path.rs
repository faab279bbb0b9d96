//! File-system paths as sequences of components.
//!
//! A path is held as the list of its components, each a run of bytes. The
//! root of an absolute path is the component `/`, the current directory `.`
//! and the parent directory `..`; every other component is a name. Paths are
//! ordered component by component, and components byte by byte, so that
//! everything below a directory follows it without a gap.

use vstd::prelude::*;
use vstd::slice::slice_to_vec;
use vstd::utf8::{decode_utf8, encode_utf8, valid_utf8};

verus! {

/// The byte that separates components in the text of a path.
pub const SEPARATOR: u8 = 47;

/// The byte of which the names `.` and `..` are made.
pub const DOT: u8 = 46;

/// The component that stands for the root of an absolute path.
pub open spec fn root_comp() -> Seq<u8> {
    seq![SEPARATOR]
}

/// The component that stands for the current directory.
pub open spec fn cur_dir_comp() -> Seq<u8> {
    seq![DOT]
}

/// The component that stands for the parent directory.
pub open spec fn parent_dir_comp() -> Seq<u8> {
    seq![DOT, DOT]
}

/// `comps` with the run of bytes `c` added as its next component: an empty
/// run adds nothing, and `.` counts only at the very start of a path.
pub open spec fn with_comp(comps: Seq<Seq<u8>>, c: Seq<u8>) -> Seq<Seq<u8>> {
    if c.len() == 0 || (c == cur_dir_comp() && comps.len() > 0) {
        comps
    } else {
        comps.push(c)
    }
}

/// The components found in the first `n` bytes of `s`, and the bytes read
/// since the last separator.
pub open spec fn scan(s: Seq<u8>, n: nat) -> (Seq<Seq<u8>>, Seq<u8>)
    decreases n,
{
    if n == 0 {
        (
            if s.len() > 0 && s[0] == SEPARATOR {
                seq![root_comp()]
            } else {
                Seq::empty()
            },
            Seq::empty(),
        )
    } else {
        let (done, cur) = scan(s, (n - 1) as nat);
        if s[n - 1] == SEPARATOR {
            (with_comp(done, cur), Seq::empty())
        } else {
            (done, cur.push(s[n - 1]))
        }
    }
}

/// The components of the path whose text is `s`.
pub open spec fn parse_path(s: Seq<u8>) -> Seq<Seq<u8>> {
    let (done, cur) = scan(s, s.len());
    with_comp(done, cur)
}

/// The text of a path: its components joined by the separator, the root not
/// followed by a second one.
pub open spec fn path_text(p: Seq<Seq<u8>>) -> Seq<u8>
    decreases p.len(),
{
    if p.len() == 0 {
        Seq::empty()
    } else if p.len() == 1 {
        p[0]
    } else if p.len() == 2 && p[0] == root_comp() {
        p[0] + p[1]
    } else {
        path_text(p.drop_last()) + seq![SEPARATOR] + p.last()
    }
}

/// `a` is `b` or a path that `b` lies below.
pub open spec fn is_prefix(a: Seq<Seq<u8>>, b: Seq<Seq<u8>>) -> bool {
    a.len() <= b.len() && b.take(a.len() as int) == a
}

/// `a` and `b` agree on their first `k` items, and there `a` ends or holds
/// the smaller item.
pub open spec fn lex_lt_at<T>(lt: spec_fn(T, T) -> bool, a: Seq<T>, b: Seq<T>, k: int) -> bool {
    &&& 0 <= k <= a.len()
    &&& k < b.len()
    &&& a.take(k) == b.take(k)
    &&& (k < a.len() ==> lt(a[k], b[k]))
}

/// `a` comes before `b` in the lexicographic order that `lt` gives rise to.
pub open spec fn lex_lt<T>(lt: spec_fn(T, T) -> bool, a: Seq<T>, b: Seq<T>) -> bool {
    exists|k: int| lex_lt_at(lt, a, b, k)
}

/// `lt` is a strict total order.
pub open spec fn strict_total<T>(lt: spec_fn(T, T) -> bool) -> bool {
    &&& forall|x: T| !#[trigger] lt(x, x)
    &&& forall|x: T, y: T, z: T| #[trigger] lt(x, y) && #[trigger] lt(y, z) ==> lt(x, z)
    &&& forall|x: T, y: T| #[trigger] lt(x, y) || lt(y, x) || x == y
}

/// The order of single bytes.
pub open spec fn byte_order() -> spec_fn(u8, u8) -> bool {
    |x: u8, y: u8| x < y
}

/// `a` comes before `b` in the lexicographic order of bytes.
pub open spec fn bytes_lt(a: Seq<u8>, b: Seq<u8>) -> bool {
    lex_lt(byte_order(), a, b)
}

/// The order of components.
pub open spec fn comp_order() -> spec_fn(Seq<u8>, Seq<u8>) -> bool {
    |x: Seq<u8>, y: Seq<u8>| bytes_lt(x, y)
}

/// `a` comes before `b` in the order of paths: component by component, and
/// within a component byte by byte.
pub open spec fn path_lt(a: Seq<Seq<u8>>, b: Seq<Seq<u8>>) -> bool {
    lex_lt(comp_order(), a, b)
}

/// Nothing comes before itself in a lexicographic order.
pub proof fn lemma_lex_irreflexive<T>(lt: spec_fn(T, T) -> bool, a: Seq<T>)
    requires
        strict_total(lt),
    ensures
        !lex_lt(lt, a, a),
{
}

/// A lexicographic order is transitive.
pub proof fn lemma_lex_transitive<T>(lt: spec_fn(T, T) -> bool, a: Seq<T>, b: Seq<T>, c: Seq<T>)
    requires
        strict_total(lt),
        lex_lt(lt, a, b),
        lex_lt(lt, b, c),
    ensures
        lex_lt(lt, a, c),
{
    let k1 = choose|k: int| lex_lt_at(lt, a, b, k);
    let k2 = choose|k: int| lex_lt_at(lt, b, c, k);
    let k = if k1 <= k2 { k1 } else { k2 };
    assert(a.take(k) =~= a.take(k1).take(k));
    assert(b.take(k) =~= b.take(k1).take(k));
    assert(b.take(k) =~= b.take(k2).take(k));
    assert(c.take(k) =~= c.take(k2).take(k));
    if k1 < k2 {
        assert(b.take(k2)[k1] == c.take(k2)[k1]);
    } else if k2 < k1 {
        assert(a.take(k1)[k2] == b.take(k1)[k2]);
    }
    assert(lex_lt_at(lt, a, c, k));
}

/// Of two sequences one comes before the other, or they are equal.
pub proof fn lemma_lex_total<T>(lt: spec_fn(T, T) -> bool, a: Seq<T>, b: Seq<T>)
    requires
        strict_total(lt),
    ensures
        lex_lt(lt, a, b) || lex_lt(lt, b, a) || a == b,
    decreases a.len(),
{
    if a.len() == 0 {
        if b.len() > 0 {
            assert(a.take(0) =~= b.take(0));
            assert(lex_lt_at(lt, a, b, 0));
        } else {
            assert(a =~= b);
        }
    } else if b.len() == 0 {
        assert(a.take(0) =~= b.take(0));
        assert(lex_lt_at(lt, b, a, 0));
    } else {
        let x = a.drop_last();
        let n = x.len() as int;
        lemma_lex_total(lt, x, b);
        if lex_lt(lt, x, b) {
            let k = choose|k: int| lex_lt_at(lt, x, b, k);
            if k < x.len() {
                assert(a.take(k) =~= x.take(k));
                assert(lex_lt_at(lt, a, b, k));
            } else {
                assert(x.take(k) =~= x);
                assert(a.take(n) =~= x);
                if lt(a[n], b[n]) {
                    assert(lex_lt_at(lt, a, b, n));
                } else if lt(b[n], a[n]) {
                    assert(lex_lt_at(lt, b, a, n));
                } else {
                    assert(a[n] == b[n]);
                    assert(a.take(n + 1) =~= a.take(n).push(a[n]));
                    assert(b.take(n + 1) =~= b.take(n).push(b[n]));
                    assert(a.take(n + 1) =~= a);
                    if b.len() == n + 1 {
                        assert(b.take(n + 1) =~= b);
                    } else {
                        assert(lex_lt_at(lt, a, b, n + 1));
                    }
                }
            }
        } else if lex_lt(lt, b, x) {
            let k = choose|k: int| lex_lt_at(lt, b, x, k);
            assert(a.take(k) =~= x.take(k));
            assert(lex_lt_at(lt, b, a, k));
        } else {
            assert(a.take(n) =~= b.take(n));
            assert(lex_lt_at(lt, b, a, n));
        }
    }
}

/// The order of bytes within a component is a strict total order.
pub proof fn lemma_comp_order_strict_total()
    ensures
        strict_total(byte_order()),
        strict_total(comp_order()),
{
    let lt = comp_order();
    assert(strict_total(byte_order()));
    assert forall|x: Seq<u8>| !#[trigger] lt(x, x) by {
        lemma_lex_irreflexive(byte_order(), x);
    }
    assert forall|x: Seq<u8>, y: Seq<u8>, z: Seq<u8>| #[trigger] lt(x, y) && #[trigger] lt(
        y,
        z,
    ) implies lt(x, z) by {
        lemma_lex_transitive(byte_order(), x, y, z);
    }
    assert forall|x: Seq<u8>, y: Seq<u8>| #[trigger] lt(x, y) || lt(y, x) || x == y by {
        lemma_lex_total(byte_order(), x, y);
    }
}

/// No path comes before itself.
pub proof fn lemma_path_lt_irreflexive(a: Seq<Seq<u8>>)
    ensures
        !path_lt(a, a),
{
    lemma_comp_order_strict_total();
    lemma_lex_irreflexive(comp_order(), a);
}

/// The order of paths is transitive.
pub proof fn lemma_path_lt_transitive(a: Seq<Seq<u8>>, b: Seq<Seq<u8>>, c: Seq<Seq<u8>>)
    requires
        path_lt(a, b),
        path_lt(b, c),
    ensures
        path_lt(a, c),
{
    lemma_comp_order_strict_total();
    lemma_lex_transitive(comp_order(), a, b, c);
}

/// Of two paths one comes before the other, or they are the same path.
pub proof fn lemma_path_lt_total(a: Seq<Seq<u8>>, b: Seq<Seq<u8>>)
    ensures
        path_lt(a, b) || path_lt(b, a) || a == b,
{
    lemma_comp_order_strict_total();
    lemma_lex_total(comp_order(), a, b);
}

/// A directory comes before everything below it.
pub proof fn lemma_prefix_lt(a: Seq<Seq<u8>>, b: Seq<Seq<u8>>)
    requires
        is_prefix(a, b),
        a != b,
    ensures
        path_lt(a, b),
{
    if a.len() == b.len() {
        assert(b.take(a.len() as int) =~= b);
    }
    assert(a.take(a.len() as int) =~= a);
    assert(lex_lt_at(comp_order(), a, b, a.len() as int));
}

/// What lies between a directory and something below it lies below it too.
pub proof fn lemma_subtree_contiguous(d: Seq<Seq<u8>>, x: Seq<Seq<u8>>, y: Seq<Seq<u8>>)
    requires
        is_prefix(d, y),
        path_lt(d, x),
        path_lt(x, y),
    ensures
        is_prefix(d, x),
{
    lemma_comp_order_strict_total();
    let lt = comp_order();
    let n = d.len() as int;
    let k1 = choose|k: int| lex_lt_at(lt, d, x, k);
    let k2 = choose|k: int| lex_lt_at(lt, x, y, k);
    assert(d.take(n) =~= d);
    if k1 < n {
        // d and x part ways at k1 with d[k1] < x[k1]; y holds d[k1] there
        assert(y.take(n)[k1] == d[k1]);
        if k2 <= k1 {
            assert(d.take(k1)[k2] == x.take(k1)[k2]) by {
                if k2 < k1 {
                }
            }
            if k2 < k1 {
                assert(y.take(n)[k2] == d[k2]);
                assert(x[k2] == d[k2]);
                assert(lt(x[k2], y[k2]));
                assert(false);
            } else {
                assert(lt(x[k1], y[k1]));
                assert(lt(d[k1], x[k1]));
                assert(false);
            }
        } else {
            assert(x.take(k2)[k1] == y.take(k2)[k1]);
            assert(false);
        }
    } else {
        assert(d.take(k1) =~= d);
        assert(x.take(k1) =~= x.take(n));
        assert(x.take(n) =~= d);
    }
}

/// The components of a list of byte vectors, each as the run of its bytes.
pub open spec fn comps_view(v: Seq<Vec<u8>>) -> Seq<Seq<u8>> {
    Seq::new(v.len(), |i: int| v[i]@)
}

/// Why a path could not be used.
#[derive(Debug)]
pub enum PathError {
    /// A component is not valid UTF-8; the component's bytes are given.
    NotUnicode(Vec<u8>),
    /// The path has no last component.
    NoLastComponent,
}

impl PathError {
    /// The error in words.
    pub fn message(&self) -> (text: &'static str)
        ensures
            text@ == (match *self {
                PathError::NotUnicode(_) => "Couldn't read name of path component"@,
                PathError::NoLastComponent => "Invalid last path component"@,
            }),
    {
        match self {
            PathError::NotUnicode(_) => "Couldn't read name of path component",
            PathError::NoLastComponent => "Invalid last path component",
        }
    }
}

/// Whether two runs of bytes are the same.
pub fn bytes_eq(a: &[u8], b: &[u8]) -> (same: bool)
    ensures
        same == (a@ == b@),
{
    if a.len() != b.len() {
        return false;
    }
    let mut i: usize = 0;
    while i < a.len()
        invariant
            i <= a.len(),
            a.len() == b.len(),
            a@.take(i as int) == b@.take(i as int),
        decreases a.len() - i,
    {
        if a[i] != b[i] {
            return false;
        }
        assert(a@.take(i + 1) =~= a@.take(i as int).push(a@[i as int]));
        assert(b@.take(i + 1) =~= b@.take(i as int).push(b@[i as int]));
        i += 1;
    }
    assert(a@.take(i as int) =~= a@);
    assert(b@.take(i as int) =~= b@);
    true
}

/// Whether `a` comes before `b` in the lexicographic order of bytes.
pub fn bytes_less(a: &[u8], b: &[u8]) -> (less: bool)
    ensures
        less == bytes_lt(a@, b@),
{
    let mut i: usize = 0;
    while i < a.len() && i < b.len()
        invariant
            i <= a.len(),
            i <= b.len(),
            a@.take(i as int) == b@.take(i as int),
        decreases a.len() - i,
    {
        if a[i] != b[i] {
            proof {
                lemma_comp_order_strict_total();
                if a[i as int] < b[i as int] {
                    assert(lex_lt_at(byte_order(), a@, b@, i as int));
                } else {
                    assert(lex_lt_at(byte_order(), b@, a@, i as int));
                    if bytes_lt(a@, b@) {
                        lemma_lex_transitive(byte_order(), a@, b@, a@);
                        lemma_lex_irreflexive(byte_order(), a@);
                    }
                }
            }
            return a[i] < b[i];
        }
        assert(a@.take(i + 1) =~= a@.take(i as int).push(a@[i as int]));
        assert(b@.take(i + 1) =~= b@.take(i as int).push(b@[i as int]));
        i += 1;
    }
    proof {
        lemma_comp_order_strict_total();
        if i < b.len() {
            assert(lex_lt_at(byte_order(), a@, b@, i as int));
        } else {
            assert(b@.take(i as int) =~= b@);
            if i < a.len() {
                assert(lex_lt_at(byte_order(), b@, a@, i as int));
                if bytes_lt(a@, b@) {
                    lemma_lex_transitive(byte_order(), a@, b@, a@);
                    lemma_lex_irreflexive(byte_order(), a@);
                }
            } else {
                assert(a@.take(i as int) =~= a@);
                lemma_lex_irreflexive(byte_order(), a@);
            }
        }
    }
    i < b.len()
}

/// Decodes bytes as UTF-8 with `String::from_utf8`: the text that the bytes
/// encode where they are valid UTF-8, and nothing where they are not.
#[verifier::external_body]
fn decode_text(bytes: Vec<u8>) -> (text: Option<String>)
    ensures
        text is Some <==> valid_utf8(bytes@),
        text is Some ==> text->0@ == decode_utf8(bytes@),
{
    String::from_utf8(bytes).ok()
}

/// The name of one component as text. A component that is not valid UTF-8
/// has no name that could be sent to a server.
pub fn comp_as_str(comp: &[u8]) -> (name: Result<String, PathError>)
    ensures
        name is Ok <==> valid_utf8(comp@),
        name matches Ok(text) ==> text@ == decode_utf8(comp@),
        name matches Err(e) ==> (e matches PathError::NotUnicode(bytes) && bytes@ == comp@),
{
    match decode_text(slice_to_vec(comp)) {
        Some(text) => Ok(text),
        None => Err(PathError::NotUnicode(slice_to_vec(comp))),
    }
}

/// A path of the local or the remote file system, held as its components.
#[derive(Debug)]
pub struct FsPath {
    comps: Vec<Vec<u8>>,
}

impl View for FsPath {
    type V = Seq<Seq<u8>>;

    closed spec fn view(&self) -> Seq<Seq<u8>> {
        comps_view(self.comps@)
    }
}

impl FsPath {
    /// The path without components.
    pub fn empty() -> (path: FsPath)
        ensures
            path@ == Seq::<Seq<u8>>::empty(),
    {
        let path = FsPath { comps: Vec::new() };
        assert(path@ =~= Seq::<Seq<u8>>::empty());
        path
    }

    /// The path made of the components `comps` as they stand.
    pub fn from_components(comps: Vec<Vec<u8>>) -> (path: FsPath)
        ensures
            path@ == comps_view(comps@),
    {
        FsPath { comps }
    }

    /// The path that the text `text` names.
    pub fn new(text: &str) -> (path: FsPath)
        ensures
            path@ == parse_path(encode_utf8(text@)),
    {
        FsPath::from_bytes(text.as_bytes())
    }

    /// The path that the bytes `text` name.
    pub fn from_bytes(text: &[u8]) -> (path: FsPath)
        ensures
            path@ == parse_path(text@),
    {
        let mut path = FsPath::empty();
        if text.len() > 0 && text[0] == SEPARATOR {
            let mut root: Vec<u8> = Vec::new();
            root.push(SEPARATOR);
            assert(root@ =~= root_comp());
            path.comps.push(root);
            assert(path@ =~= seq![root_comp()]);
        }
        let mut cur: Vec<u8> = Vec::new();
        let mut i: usize = 0;
        while i < text.len()
            invariant
                i <= text.len(),
                scan(text@, i as nat) == (path@, cur@),
            decreases text.len() - i,
        {
            if text[i] == SEPARATOR {
                path.push(cur.as_slice());
                cur = Vec::new();
            } else {
                cur.push(text[i]);
            }
            i += 1;
        }
        path.push(cur.as_slice());
        path
    }

    /// The number of components.
    pub fn len(&self) -> (n: usize)
        ensures
            n == self@.len(),
    {
        self.comps.len()
    }

    /// The component at position `i`.
    pub fn comp(&self, i: usize) -> (c: &[u8])
        requires
            i < self@.len(),
        ensures
            c@ == self@[i as int],
    {
        self.comps[i].as_slice()
    }

    /// Adds `name` as the next component. An empty name adds nothing, and
    /// neither does `.` behind other components.
    pub fn push(&mut self, name: &[u8])
        ensures
            final(self)@ == with_comp(old(self)@, name@),
    {
        if name.len() == 0 {
            return ;
        }
        if name.len() == 1 && name[0] == DOT && self.comps.len() > 0 {
            assert(name@ =~= cur_dir_comp());
            return ;
        }
        assert(name@ == cur_dir_comp() ==> self.comps.len() == 0) by {
            if name@ == cur_dir_comp() {
                assert(name@.len() == 1 && name@[0] == DOT);
            }
        }
        self.comps.push(slice_to_vec(name));
        assert(self@ =~= old(self)@.push(name@));
    }

    /// Removes the last component, unless the path is empty or only the root.
    /// Says whether a component was removed.
    pub fn pop(&mut self) -> (removed: bool)
        ensures
            removed == has_parent(old(self)@),
            final(self)@ == (if removed {
                old(self)@.drop_last()
            } else {
                old(self)@
            }),
    {
        let n = self.comps.len();
        if n == 0 {
            return false;
        }
        assert(root_comp().len() == 1 && root_comp()[0] == SEPARATOR);
        assert(seq![root_comp()].len() == 1 && seq![root_comp()][0] == root_comp());
        if n == 1 && self.comps[0].len() == 1 && self.comps[0][0] == SEPARATOR {
            assert(self@[0] =~= root_comp());
            assert(self@ =~= seq![root_comp()]);
            return false;
        }
        assert(has_parent(self@)) by {
            if self@ == seq![root_comp()] {
                assert(self@[0] == root_comp());
            }
        }
        self.comps.pop();
        assert(self@ =~= old(self)@.drop_last());
        true
    }

    /// The last component as text.
    pub fn last_name(&self) -> (name: Result<String, PathError>)
        ensures
            name is Ok <==> self@.len() > 0 && valid_utf8(self@.last()),
            name matches Ok(text) ==> text@ == decode_utf8(self@.last()),
            name matches Err(e) ==> (if self@.len() == 0 {
                e is NoLastComponent
            } else {
                e matches PathError::NotUnicode(bytes) && bytes@ == self@.last()
            }),
    {
        let n = self.comps.len();
        if n == 0 {
            return Err(PathError::NoLastComponent);
        }
        comp_as_str(self.comp(n - 1))
    }

    /// A copy of this path.
    pub fn duplicate(&self) -> (copy: FsPath)
        ensures
            copy@ == self@,
    {
        let mut copy = FsPath::empty();
        let mut i: usize = 0;
        while i < self.comps.len()
            invariant
                i <= self.comps.len(),
                copy@ == self@.take(i as int),
            decreases self.comps.len() - i,
        {
            let ghost before = copy@;
            copy.comps.push(slice_to_vec(self.comps[i].as_slice()));
            assert(copy@ =~= before.push(self@[i as int]));
            assert(copy@ =~= self@.take(i + 1));
            i += 1;
        }
        assert(self@.take(i as int) =~= self@);
        copy
    }

    /// The text of the path.
    pub fn to_bytes(&self) -> (text: Vec<u8>)
        ensures
            text@ == path_text(self@),
    {
        let mut text: Vec<u8> = Vec::new();
        let mut i: usize = 0;
        while i < self.comps.len()
            invariant
                i <= self.comps.len(),
                text@ == path_text(self@.take(i as int)),
            decreases self.comps.len() - i,
        {
            let ghost before = self@.take(i as int);
            let ghost after = self@.take(i + 1);
            assert(after.drop_last() =~= before);
            assert(after.last() == self@[i as int]);
            if i == 1 {
                assert(before[0] == self@[0]);
                assert(after[0] == self@[0]);
            }
            let rooted = i == 1 && self.comps[0].len() == 1 && self.comps[0][0] == SEPARATOR;
            assert(rooted <==> (i == 1 && self@[0] == root_comp())) by {
                if i == 1 {
                    if rooted {
                        assert(self@[0] =~= root_comp());
                    } else if self@[0] == root_comp() {
                        assert(self.comps@[0]@.len() == 1 && self.comps@[0]@[0] == SEPARATOR);
                    }
                }
            }
            if i > 0 && !rooted {
                text.push(SEPARATOR);
            }
            let c = self.comps[i].as_slice();
            let mut j: usize = 0;
            let ghost start = text@;
            while j < c.len()
                invariant
                    j <= c.len(),
                    text@ == start + c@.take(j as int),
                decreases c.len() - j,
            {
                text.push(c[j]);
                assert(c@.take(j + 1) =~= c@.take(j as int).push(c@[j as int]));
                j += 1;
            }
            assert(c@.take(j as int) =~= c@);
            assert(text@ =~= path_text(after)) by {
                if i == 0 {
                    assert(start =~= Seq::<u8>::empty());
                    assert(start + c@ =~= c@);
                } else if rooted {
                    assert(before.len() == 1);
                    assert(path_text(before) == before[0]);
                } else {
                }
            }
            i += 1;
        }
        assert(self@.take(i as int) =~= self@);
        text
    }

    /// Whether this path is `base` or lies below it.
    pub fn starts_with(&self, base: &FsPath) -> (below: bool)
        ensures
            below == is_prefix(base@, self@),
    {
        if base.comps.len() > self.comps.len() {
            return false;
        }
        let mut i: usize = 0;
        while i < base.comps.len()
            invariant
                i <= base.comps.len(),
                base.comps.len() <= self.comps.len(),
                self@.take(i as int) == base@.take(i as int),
            decreases base.comps.len() - i,
        {
            if !bytes_eq(self.comps[i].as_slice(), base.comps[i].as_slice()) {
                assert(self@.take(base@.len() as int)[i as int] != base@[i as int]);
                return false;
            }
            assert(self@.take(i + 1) =~= self@.take(i as int).push(self@[i as int]));
            assert(base@.take(i + 1) =~= base@.take(i as int).push(base@[i as int]));
            i += 1;
        }
        assert(base@.take(i as int) =~= base@);
        true
    }

    /// Whether the two paths are the same.
    pub fn same(&self, other: &FsPath) -> (same: bool)
        ensures
            same == (self@ == other@),
    {
        if self.comps.len() != other.comps.len() {
            assert(self@.len() != other@.len());
            return false;
        }
        assert(self@.take(other@.len() as int) =~= self@);
        self.starts_with(other)
    }

    /// Whether this path comes before `other` in the order of paths.
    pub fn less(&self, other: &FsPath) -> (less: bool)
        ensures
            less == path_lt(self@, other@),
    {
        let a = &self.comps;
        let b = &other.comps;
        let mut i: usize = 0;
        while i < a.len() && i < b.len()
            invariant
                i <= a.len(),
                i <= b.len(),
                a == &self.comps,
                b == &other.comps,
                self@.take(i as int) == other@.take(i as int),
            decreases a.len() - i,
        {
            if !bytes_eq(a[i].as_slice(), b[i].as_slice()) {
                let less = bytes_less(a[i].as_slice(), b[i].as_slice());
                proof {
                    lemma_comp_order_strict_total();
                    lemma_bytes_lt_total_pair(self@[i as int], other@[i as int]);
                    if less {
                        assert(lex_lt_at(comp_order(), self@, other@, i as int));
                    } else {
                        assert(lex_lt_at(comp_order(), other@, self@, i as int));
                        if path_lt(self@, other@) {
                            lemma_path_lt_transitive(self@, other@, self@);
                            lemma_path_lt_irreflexive(self@);
                        }
                    }
                }
                return less;
            }
            assert(self@.take(i + 1) =~= self@.take(i as int).push(self@[i as int]));
            assert(other@.take(i + 1) =~= other@.take(i as int).push(other@[i as int]));
            i += 1;
        }
        proof {
            if i < b.len() {
                assert(lex_lt_at(comp_order(), self@, other@, i as int));
            } else {
                assert(other@.take(i as int) =~= other@);
                if i < a.len() {
                    assert(lex_lt_at(comp_order(), other@, self@, i as int));
                    if path_lt(self@, other@) {
                        lemma_path_lt_transitive(self@, other@, self@);
                        lemma_path_lt_irreflexive(self@);
                    }
                } else {
                    assert(self@.take(i as int) =~= self@);
                    lemma_path_lt_irreflexive(self@);
                }
            }
        }
        i < b.len()
    }
}

/// Whether a path has a parent: it is neither empty nor only the root.
pub open spec fn has_parent(p: Seq<Seq<u8>>) -> bool {
    p.len() > 0 && p != seq![root_comp()]
}

/// Of two components one comes before the other, or they are equal.
pub proof fn lemma_bytes_lt_total_pair(a: Seq<u8>, b: Seq<u8>)
    ensures
        bytes_lt(a, b) || bytes_lt(b, a) || a == b,
{
    lemma_comp_order_strict_total();
    lemma_lex_total(byte_order(), a, b);
}

/// The last component of `path` as text.
pub fn last_path_comp_as_str(path: &FsPath) -> (name: Result<String, PathError>)
    ensures
        name is Ok <==> path@.len() > 0 && valid_utf8(path@.last()),
        name matches Ok(text) ==> text@ == decode_utf8(path@.last()),
        name matches Err(e) ==> (if path@.len() == 0 {
            e is NoLastComponent
        } else {
            e matches PathError::NotUnicode(bytes) && bytes@ == path@.last()
        }),
{
    path.last_name()
}

/// A run of bytes that can stand as one component: it is not empty and
/// holds no separator.
pub open spec fn is_name(c: Seq<u8>) -> bool {
    c.len() > 0 && forall|i: int| 0 <= i < c.len() ==> c[i] != SEPARATOR
}

/// A path as its text names it: the root stands in front only, and so does
/// the current directory; every other component is a name.
pub open spec fn normal(p: Seq<Seq<u8>>) -> bool {
    forall|i: int|
        0 <= i < p.len() ==> (if i == 0 {
            p[0] == root_comp() || is_name(p[0])
        } else {
            is_name(#[trigger] p[i]) && p[i] != cur_dir_comp()
        })
}

/// Reading the text of a path does not look at what follows.
proof fn lemma_scan_prefix(s: Seq<u8>, t: Seq<u8>, n: nat)
    requires
        0 < s.len() <= t.len(),
        t.take(s.len() as int) == s,
        n <= s.len(),
    ensures
        scan(t, n) == scan(s, n),
    decreases n,
{
    assert(t.take(s.len() as int)[0] == t[0]);
    if n > 0 {
        lemma_scan_prefix(s, t, (n - 1) as nat);
        assert(t.take(s.len() as int)[n - 1] == t[n - 1]);
    }
}

/// Reading on through bytes that hold no separator gathers them.
proof fn lemma_scan_name(t: Seq<u8>, start: nat, k: nat)
    requires
        0 < start,
        start + k <= t.len(),
        forall|i: int| start <= i < start + k ==> t[i] != SEPARATOR,
    ensures
        scan(t, start + k) == (
            scan(t, start).0,
            scan(t, start).1 + t.subrange(start as int, (start + k) as int),
        ),
    decreases k,
{
    if k == 0 {
        assert(scan(t, start).1 + t.subrange(start as int, start as int) =~= scan(t, start).1);
    } else {
        lemma_scan_name(t, start, (k - 1) as nat);
        assert(scan(t, start).1 + t.subrange(start as int, (start + k) as int) =~= (scan(t, start).1
            + t.subrange(start as int, start + k - 1)).push(t[start + k - 1]));
    }
}

/// Reading a name from the start of a text gathers it.
proof fn lemma_scan_first_name(t: Seq<u8>, k: nat)
    requires
        0 < k <= t.len(),
        forall|i: int| 0 <= i < k ==> t[i] != SEPARATOR,
    ensures
        scan(t, k) == (Seq::<Seq<u8>>::empty(), t.take(k as int)),
    decreases k,
{
    if k == 1 {
        assert(scan(t, 0) == (Seq::<Seq<u8>>::empty(), Seq::<u8>::empty()));
        assert(t.take(1) =~= Seq::<u8>::empty().push(t[0]));
    } else {
        lemma_scan_first_name(t, (k - 1) as nat);
        assert(t.take(k as int) =~= t.take(k - 1).push(t[k - 1]));
    }
}

/// The text of a normal path that ends in a name is read up to that name:
/// the components before it are found, and the name is gathered.
proof fn lemma_scan_text(p: Seq<Seq<u8>>)
    requires
        normal(p),
        p.len() > 0,
        is_name(p.last()),
    ensures
        path_text(p).len() > 0,
        scan(path_text(p), path_text(p).len()) == (p.drop_last(), p.last()),
    decreases p.len(),
{
    let t = path_text(p);
    let c = p.last();
    if p.len() == 1 {
        assert(t == c);
        lemma_scan_first_name(t, t.len());
        assert(t.take(t.len() as int) =~= t);
        assert(p.drop_last() =~= Seq::<Seq<u8>>::empty());
    } else if p.len() == 2 && p[0] == root_comp() {
        assert(t =~= root_comp() + c);
        assert(t[0] == SEPARATOR);
        assert(scan(t, 0) == (seq![root_comp()], Seq::<u8>::empty()));
        assert(scan(t, 1) == (seq![root_comp()], Seq::<u8>::empty()));
        assert forall|i: int| 1 <= i < 1 + c.len() implies t[i] != SEPARATOR by {
            assert(t[i] == c[i - 1]);
        }
        lemma_scan_name(t, 1, c.len());
        assert(t.subrange(1, (1 + c.len()) as int) =~= c);
        assert(Seq::<u8>::empty() + c =~= c);
        assert(p.drop_last() =~= seq![root_comp()]);
    } else {
        let q = p.drop_last();
        let u = path_text(q);
        assert(t == u + seq![SEPARATOR] + c);
        assert(normal(q)) by {
            assert forall|i: int| 0 <= i < q.len() implies (if i == 0 {
                q[0] == root_comp() || is_name(q[0])
            } else {
                is_name(#[trigger] q[i]) && q[i] != cur_dir_comp()
            }) by {
                assert(q[i] == p[i]);
            }
        }
        assert(is_name(q.last())) by {
            assert(q.last() == p[p.len() - 2]);
            if q.len() == 1 {
                // a root alone in front of a name is the case above
                assert(p[0] != root_comp());
            }
        }
        lemma_scan_text(q);
        let n = u.len();
        assert(t.take(n as int) =~= u);
        lemma_scan_prefix(u, t, n);
        assert(t[n as int] == SEPARATOR);
        assert(with_comp(q.drop_last(), q.last()) =~= q) by {
            if q.len() > 1 {
                assert(q.last() == p[q.len() - 1]);
            } else {
                assert(q.drop_last().len() == 0);
            }
            assert(q.drop_last().push(q.last()) =~= q);
        }
        assert(scan(t, n + 1) == (q, Seq::<u8>::empty()));
        assert forall|i: int| n + 1 <= i < n + 1 + c.len() implies t[i] != SEPARATOR by {
            assert(t[i] == c[i - n - 1]);
        }
        lemma_scan_name(t, n + 1, c.len());
        assert(t.subrange((n + 1) as int, (n + 1 + c.len()) as int) =~= c);
        assert(Seq::<u8>::empty() + c =~= c);
    }
}

/// The text of a normal path names that path: nothing is lost between a
/// path and its text.
pub proof fn lemma_text_names_the_path(p: Seq<Seq<u8>>)
    requires
        normal(p),
    ensures
        parse_path(path_text(p)) == p,
{
    if p.len() == 0 {
        assert(parse_path(path_text(p)) =~= p);
    } else if p.len() == 1 && p[0] == root_comp() {
        let t = path_text(p);
        assert(t == root_comp());
        assert(scan(t, 0) == (seq![root_comp()], Seq::<u8>::empty()));
        assert(scan(t, 1) == (seq![root_comp()], Seq::<u8>::empty()));
        assert(parse_path(t) =~= p);
    } else {
        assert(is_name(p.last())) by {
            if p.len() > 1 {
                assert(is_name(p[p.len() - 1]));
            }
        }
        lemma_scan_text(p);
        assert(with_comp(p.drop_last(), p.last()) =~= p) by {
            if p.len() > 1 {
                assert(p[p.len() - 1] != cur_dir_comp());
            }
            assert(p.drop_last().push(p.last()) =~= p);
        }
    }
}

/// What reading a text has found is normal, and what it has gathered holds
/// no separator.
proof fn lemma_scan_normal(s: Seq<u8>, n: nat)
    requires
        n <= s.len(),
    ensures
        normal(scan(s, n).0),
        forall|i: int| 0 <= i < scan(s, n).1.len() ==> scan(s, n).1[i] != SEPARATOR,
    decreases n,
{
    if n > 0 {
        lemma_scan_normal(s, (n - 1) as nat);
        let (done, cur) = scan(s, (n - 1) as nat);
        if s[n - 1] == SEPARATOR {
            lemma_with_comp_normal(done, cur);
        }
    }
}

/// A normal path with gathered bytes added as its next component is normal.
proof fn lemma_with_comp_normal(done: Seq<Seq<u8>>, cur: Seq<u8>)
    requires
        normal(done),
        forall|i: int| 0 <= i < cur.len() ==> cur[i] != SEPARATOR,
    ensures
        normal(with_comp(done, cur)),
{
    let next = with_comp(done, cur);
    assert forall|i: int| 0 <= i < next.len() implies (if i == 0 {
        next[0] == root_comp() || is_name(next[0])
    } else {
        is_name(#[trigger] next[i]) && next[i] != cur_dir_comp()
    }) by {
        if i < done.len() {
            assert(next[i] == done[i]);
        }
    }
}

/// The path that a text names is normal.
pub proof fn lemma_parse_is_normal(s: Seq<u8>)
    ensures
        normal(parse_path(s)),
{
    lemma_scan_normal(s, s.len());
    let (done, cur) = scan(s, s.len());
    lemma_with_comp_normal(done, cur);
}

/// A path that was read from a text is read again from its own text.
pub proof fn lemma_parse_of_own_text(s: Seq<u8>)
    ensures
        parse_path(path_text(parse_path(s))) == parse_path(s),
{
    lemma_parse_is_normal(s);
    lemma_text_names_the_path(parse_path(s));
}

} // verus!
