//! The manifest: a digest map as bytes.
//!
//! The manifest is what a run leaves behind for the next one, locally and on
//! the remote side. It holds the entries of the map in their order. Each
//! entry is written as the 20 bytes of the digest, the number of components
//! of the path, and for each component its length and its bytes; every
//! number takes eight bytes, lowest first.

use crate::path::{comps_view, FsPath};
use crate::snapshot::{sorted, Digest, DigestMap, EntryView, DIGEST_LEN};
use vstd::prelude::*;

verus! {

/// The name of the manifest in the tree and in the remote target directory.
pub const CRC_FILE_NAME: &'static str = "checksums.crc";

/// The name under which the remote manifest is kept while it is compared.
pub const OLD_CRC_FILE_NAME: &'static str = "checksums_old.crc";

/// Why bytes are not a manifest.
#[derive(Debug, PartialEq, Eq, Clone, Copy, Structural)]
pub enum ManifestError {
    /// The bytes end in the middle of an entry.
    Truncated,
    /// The entries are not in the order of their paths, or a path occurs
    /// twice.
    NotInOrder,
}

/// A number as eight bytes, lowest first.
pub open spec fn enc_u64(n: u64) -> Seq<u8> {
    seq![
        (n & 0xff) as u8,
        ((n >> 8) & 0xff) as u8,
        ((n >> 16) & 0xff) as u8,
        ((n >> 24) & 0xff) as u8,
        ((n >> 32) & 0xff) as u8,
        ((n >> 40) & 0xff) as u8,
        ((n >> 48) & 0xff) as u8,
        ((n >> 56) & 0xff) as u8,
    ]
}

/// The number that the first eight bytes of `b` stand for.
pub open spec fn dec_u64(b: Seq<u8>) -> u64 {
    (b[0] as u64) | ((b[1] as u64) << 8) | ((b[2] as u64) << 16) | ((b[3] as u64) << 24) | ((
    b[4] as u64) << 32) | ((b[5] as u64) << 40) | ((b[6] as u64) << 48) | ((b[7] as u64) << 56)
}

/// One component as bytes: its length and its bytes.
pub open spec fn enc_comp(c: Seq<u8>) -> Seq<u8> {
    enc_u64(c.len() as u64) + c
}

/// The components of a path as bytes, one after the other.
pub open spec fn enc_comps(cs: Seq<Seq<u8>>) -> Seq<u8>
    decreases cs.len(),
{
    if cs.len() == 0 {
        Seq::empty()
    } else {
        enc_comp(cs[0]) + enc_comps(cs.skip(1))
    }
}

/// One entry as bytes: the digest, the number of components and the
/// components.
pub open spec fn enc_entry(e: EntryView) -> Seq<u8> {
    e.1 + enc_u64(e.0.len() as u64) + enc_comps(e.0)
}

/// The manifest of the entries `s`.
pub open spec fn enc_entries(s: Seq<EntryView>) -> Seq<u8>
    decreases s.len(),
{
    if s.len() == 0 {
        Seq::empty()
    } else {
        enc_entry(s[0]) + enc_entries(s.skip(1))
    }
}

/// The first `n` components that the bytes `b` hold, and the bytes behind
/// them; nothing where the bytes end too early.
pub open spec fn dec_comps(b: Seq<u8>, n: nat) -> Option<(Seq<Seq<u8>>, Seq<u8>)>
    decreases n,
{
    if n == 0 {
        Some((Seq::empty(), b))
    } else if b.len() < 8 || b.len() - 8 < dec_u64(b) {
        None
    } else {
        let len = dec_u64(b) as int;
        match dec_comps(b.skip(8 + len), (n - 1) as nat) {
            Some((rest, tail)) => Some((seq![b.subrange(8, 8 + len)] + rest, tail)),
            None => None,
        }
    }
}

/// The entry that the bytes `b` start with, and the bytes behind it.
pub open spec fn dec_entry(b: Seq<u8>) -> Option<(EntryView, Seq<u8>)> {
    if b.len() < DIGEST_LEN + 8 {
        None
    } else {
        match dec_comps(b.skip(DIGEST_LEN + 8), dec_u64(b.skip(DIGEST_LEN as int)) as nat) {
            Some((comps, tail)) => Some(((comps, b.take(DIGEST_LEN as int)), tail)),
            None => None,
        }
    }
}

/// The entries that the bytes `b` hold; nothing where they end in the middle
/// of an entry.
pub open spec fn dec_entries(b: Seq<u8>) -> Option<Seq<EntryView>>
    decreases b.len(),
{
    if b.len() == 0 {
        Some(Seq::empty())
    } else {
        match dec_entry(b) {
            Some((e, tail)) => if tail.len() < b.len() {
                match dec_entries(tail) {
                    Some(rest) => Some(seq![e] + rest),
                    None => None,
                }
            } else {
                None
            },
            None => None,
        }
    }
}

/// What reading the manifest `b` gives: the entries, or why there are none.
pub open spec fn parse_manifest(b: Seq<u8>) -> Result<Seq<EntryView>, ManifestError> {
    match dec_entries(b) {
        None => Err(ManifestError::Truncated),
        Some(s) => if sorted(s) {
            Ok(s)
        } else {
            Err(ManifestError::NotInOrder)
        },
    }
}

/// The entries are such as a digest map can hold: each digest has 20 bytes,
/// and every length fits in eight bytes.
pub open spec fn storable(s: Seq<EntryView>) -> bool {
    forall|i: int| 0 <= i < s.len() ==> storable_entry(#[trigger] s[i])
}

/// Eight bytes stand for the number they were made from.
pub proof fn lemma_u64_round_trip(n: u64)
    ensures
        enc_u64(n).len() == 8,
        dec_u64(enc_u64(n)) == n,
{
    let b = enc_u64(n);
    assert(((n & 0xff) as u8 as u64) | (((n >> 8) & 0xff) as u8 as u64) << 8 | (((n >> 16)
        & 0xff) as u8 as u64) << 16 | (((n >> 24) & 0xff) as u8 as u64) << 24 | (((n >> 32)
        & 0xff) as u8 as u64) << 32 | (((n >> 40) & 0xff) as u8 as u64) << 40 | (((n >> 48)
        & 0xff) as u8 as u64) << 48 | (((n >> 56) & 0xff) as u8 as u64) << 56 == n)
        by (bit_vector);
}

/// The components written out are read back as they were, and what stood
/// behind them is left over.
pub proof fn lemma_dec_comps_enc(cs: Seq<Seq<u8>>, tail: Seq<u8>)
    requires
        forall|j: int| 0 <= j < cs.len() ==> (#[trigger] cs[j]).len() <= u64::MAX,
    ensures
        dec_comps(enc_comps(cs) + tail, cs.len()) == Some((cs, tail)),
    decreases cs.len(),
{
    if cs.len() == 0 {
        assert(enc_comps(cs) + tail =~= tail);
        assert(cs =~= Seq::<Seq<u8>>::empty());
    } else {
        let c = cs[0];
        let rest = cs.skip(1);
        let b = enc_comps(cs) + tail;
        let n = c.len() as u64;
        lemma_u64_round_trip(n);
        assert(b.take(8) =~= enc_u64(n));
        assert(dec_u64(b) == dec_u64(enc_u64(n)));
        assert(b.skip(8 + c.len() as int) =~= enc_comps(rest) + tail);
        assert(b.subrange(8, 8 + c.len() as int) =~= c);
        assert forall|j: int| 0 <= j < rest.len() implies (#[trigger] rest[j]).len()
            <= u64::MAX by {
            assert(rest[j] == cs[j + 1]);
        }
        lemma_dec_comps_enc(rest, tail);
        assert(seq![c] + rest =~= cs);
    }
}

/// An entry written out is read back as it was, and what stood behind it is
/// left over.
pub proof fn lemma_dec_entry_enc(e: EntryView, tail: Seq<u8>)
    requires
        storable_entry(e),
    ensures
        dec_entry(enc_entry(e) + tail) == Some((e, tail)),
{
    let b = enc_entry(e) + tail;
    let n = e.0.len() as u64;
    lemma_u64_round_trip(n);
    assert(b.skip(DIGEST_LEN as int).take(8) =~= enc_u64(n));
    assert(dec_u64(b.skip(DIGEST_LEN as int)) == dec_u64(enc_u64(n)));
    assert(b.skip(DIGEST_LEN + 8) =~= enc_comps(e.0) + tail);
    assert(b.take(DIGEST_LEN as int) =~= e.1);
    lemma_dec_comps_enc(e.0, tail);
}

/// What is left of storable entries without the first is storable.
proof fn lemma_storable_rest(s: Seq<EntryView>)
    requires
        storable(s),
        s.len() > 0,
    ensures
        storable(s.skip(1)),
        storable_entry(s[0]),
{
    let rest = s.skip(1);
    assert forall|i: int| 0 <= i < rest.len() implies storable_entry(#[trigger] rest[i]) by {
        assert(rest[i] == s[i + 1]);
    }
}

/// Where bytes start with an entry and go on with a list of entries, they
/// hold the entry and the list.
proof fn lemma_dec_entries_step(b: Seq<u8>, e: EntryView, tail: Seq<u8>, rest: Seq<EntryView>)
    requires
        dec_entry(b) == Some((e, tail)),
        tail.len() < b.len(),
        dec_entries(tail) == Some(rest),
    ensures
        dec_entries(b) == Some(seq![e] + rest),
{
}

/// The entries written out are read back as they were.
pub proof fn lemma_dec_entries_enc(s: Seq<EntryView>)
    requires
        storable(s),
    ensures
        dec_entries(enc_entries(s)) == Some(s),
    decreases s.len(),
{
    if s.len() == 0 {
        assert(s =~= Seq::<EntryView>::empty());
    } else {
        let e = s[0];
        let rest = s.skip(1);
        let tail = enc_entries(rest);
        let b = enc_entries(s);
        lemma_storable_rest(s);
        lemma_dec_entries_enc(rest);
        assert(dec_entry(b) == Some((e, tail))) by {
            lemma_dec_entry_enc(e, tail);
        }
        assert(tail.len() < b.len()) by {
            assert(e.1.len() == DIGEST_LEN);
            assert(b.len() == enc_entry(e).len() + tail.len());
        }
        lemma_dec_entries_step(b, e, tail, rest);
        assert(seq![e] + rest =~= s);
    }
}

/// Round trip: the manifest of a digest map reads back as the same entries,
/// with the same paths and digests in the same order.
pub proof fn lemma_manifest_round_trip(s: Seq<EntryView>)
    requires
        storable(s),
        sorted(s),
    ensures
        parse_manifest(enc_entries(s)) == Ok::<Seq<EntryView>, ManifestError>(s),
{
    lemma_dec_entries_enc(s);
}

/// Writes `n` behind `out` as eight bytes.
fn write_u64(out: &mut Vec<u8>, n: u64)
    ensures
        final(out)@ == old(out)@ + enc_u64(n),
{
    out.push((n & 0xff) as u8);
    out.push(((n >> 8) & 0xff) as u8);
    out.push(((n >> 16) & 0xff) as u8);
    out.push(((n >> 24) & 0xff) as u8);
    out.push(((n >> 32) & 0xff) as u8);
    out.push(((n >> 40) & 0xff) as u8);
    out.push(((n >> 48) & 0xff) as u8);
    out.push(((n >> 56) & 0xff) as u8);
    assert(out@ =~= old(out)@ + enc_u64(n));
}

/// Writes `bytes` behind `out`.
fn write_bytes(out: &mut Vec<u8>, bytes: &[u8])
    ensures
        final(out)@ == old(out)@ + bytes@,
{
    let mut i: usize = 0;
    while i < bytes.len()
        invariant
            i <= bytes.len(),
            out@ == old(out)@ + bytes@.take(i as int),
        decreases bytes.len() - i,
    {
        out.push(bytes[i]);
        assert(bytes@.take(i + 1) =~= bytes@.take(i as int).push(bytes@[i as int]));
        i += 1;
    }
    assert(bytes@.take(i as int) =~= bytes@);
}

/// Whether an entry is such as a digest map can hold.
pub open spec fn storable_entry(e: EntryView) -> bool {
    &&& e.1.len() == DIGEST_LEN
    &&& e.0.len() <= u64::MAX
    &&& forall|j: int| 0 <= j < e.0.len() ==> (#[trigger] e.0[j]).len() <= u64::MAX
}

/// The manifest of `map`. The entries of a map are such that the manifest
/// reads back as the same entries.
pub fn serialize(map: &DigestMap) -> (bytes: Vec<u8>)
    ensures
        bytes@ == enc_entries(map@),
        storable(map@),
{
    let mut out: Vec<u8> = Vec::new();
    let mut i: usize = 0;
    assert(map@.skip(0) =~= map@);
    while i < map.len()
        invariant
            i <= map@.len(),
            out@ + enc_entries(map@.skip(i as int)) == enc_entries(map@),
            forall|x: int| 0 <= x < i ==> storable_entry(#[trigger] map@[x]),
        decreases map@.len() - i,
    {
        let ghost before = out@;
        let ghost rest = map@.skip(i as int);
        assert(rest[0] == map@[i as int]);
        assert(rest.skip(1) =~= map@.skip(i + 1));
        let d = map.digest(i);
        write_bytes(&mut out, d.as_slice());
        let path = map.path(i);
        let n = path.len();
        write_u64(&mut out, n as u64);
        let ghost head = out@;
        let mut j: usize = 0;
        assert(path@.skip(0) =~= path@);
        while j < n
            invariant
                j <= n,
                n == path@.len(),
                out@ + enc_comps(path@.skip(j as int)) == head + enc_comps(path@),
                forall|y: int| 0 <= y < j ==> (#[trigger] path@[y]).len() <= u64::MAX,
            decreases n - j,
        {
            let ghost cs = path@.skip(j as int);
            assert(cs[0] == path@[j as int]);
            assert(cs.skip(1) =~= path@.skip(j + 1));
            let ghost o = out@;
            let c = path.comp(j);
            write_u64(&mut out, c.len() as u64);
            write_bytes(&mut out, c);
            assert(out@ + enc_comps(path@.skip(j + 1)) =~= o + enc_comps(cs));
            j += 1;
        }
        assert(enc_comps(path@.skip(j as int)) =~= Seq::<u8>::empty());
        assert(out@ =~= before + enc_entry(map@[i as int]));
        assert(out@ + enc_entries(map@.skip(i + 1)) =~= before + enc_entries(rest));
        assert(storable_entry(map@[i as int]));
        i += 1;
    }
    assert(enc_entries(map@.skip(i as int)) =~= Seq::<u8>::empty());
    assert(out@ + Seq::<u8>::empty() =~= out@);
    out
}

/// The number that the eight bytes of `b` from `pos` on stand for.
fn read_u64(b: &[u8], pos: usize) -> (n: u64)
    requires
        pos + 8 <= b@.len(),
    ensures
        n == dec_u64(b@.skip(pos as int)),
{
    (b[pos] as u64) | ((b[pos + 1] as u64) << 8) | ((b[pos + 2] as u64) << 16) | ((b[pos
        + 3] as u64) << 24) | ((b[pos + 4] as u64) << 32) | ((b[pos + 5] as u64) << 40) | ((b[pos
        + 6] as u64) << 48) | ((b[pos + 7] as u64) << 56)
}

/// The bytes of `b` from `from` up to `to`.
fn copy_range(b: &[u8], from: usize, to: usize) -> (out: Vec<u8>)
    requires
        from <= to <= b@.len(),
    ensures
        out@ == b@.subrange(from as int, to as int),
{
    let mut out: Vec<u8> = Vec::new();
    let mut i: usize = from;
    while i < to
        invariant
            from <= i <= to <= b@.len(),
            out@ == b@.subrange(from as int, i as int),
        decreases to - i,
    {
        out.push(b[i]);
        assert(b@.subrange(from as int, i + 1) =~= b@.subrange(from as int, i as int).push(
            b@[i as int],
        ));
        i += 1;
    }
    out
}

/// Reads `n` components from `b` at `pos`: the components and the position
/// behind them, or nothing where the bytes end too early.
fn read_comps(b: &[u8], pos: usize, n: u64) -> (r: Option<(Vec<Vec<u8>>, usize)>)
    requires
        pos <= b@.len(),
    ensures
        match dec_comps(b@.skip(pos as int), n as nat) {
            Some((cs, tail)) => r matches Some((v, end)) && comps_view(v@) == cs && pos <= end
                <= b@.len() && b@.skip(end as int) == tail,
            None => r is None,
        },
{
    let mut comps: Vec<Vec<u8>> = Vec::new();
    let mut at: usize = pos;
    let mut k: u64 = 0;
    let ghost whole = dec_comps(b@.skip(pos as int), n as nat);
    assert(comps_view(comps@) =~= Seq::<Seq<u8>>::empty());
    while k < n
        invariant
            k <= n,
            pos <= at <= b@.len(),
            whole == dec_comps(b@.skip(pos as int), n as nat),
            whole == (match dec_comps(b@.skip(at as int), (n - k) as nat) {
                Some((rest, tail)) => Some((comps_view(comps@) + rest, tail)),
                None => None,
            }),
        decreases n - k,
    {
        let ghost s = b@.skip(at as int);
        if b.len() - at < 8 {
            return None;
        }
        let len = read_u64(b, at);
        if len > (b.len() - at - 8) as u64 {
            return None;
        }
        let start = at + 8;
        let end = start + len as usize;
        let c = copy_range(b, start, end);
        proof {
            assert(s.subrange(8, 8 + len) =~= c@);
            assert(s.skip(8 + len) =~= b@.skip(end as int));
            let done = comps_view(comps@);
            match dec_comps(b@.skip(end as int), (n - k - 1) as nat) {
                Some((rest, tail)) => {
                    assert(done + (seq![c@] + rest) =~= done.push(c@) + rest);
                },
                None => {},
            }
        }
        let ghost done = comps_view(comps@);
        comps.push(c);
        assert(comps_view(comps@) =~= done.push(c@));
        at = end;
        k += 1;
    }
    assert(comps_view(comps@) + Seq::<Seq<u8>>::empty() =~= comps_view(comps@));
    Some((comps, at))
}

/// The digest that the first 20 bytes of `b` from `pos` on make.
fn read_digest(b: &[u8], pos: usize) -> (d: Digest)
    requires
        pos + DIGEST_LEN <= b@.len(),
    ensures
        d@ == b@.subrange(pos as int, pos + DIGEST_LEN),
{
    let mut d: Digest = [0u8, 0, 0, 0, 0, 0, 0, 0, 0, 0, 0, 0, 0, 0, 0, 0, 0, 0, 0, 0];
    let total = b.len();
    let mut i: usize = 0;
    while i < DIGEST_LEN
        invariant
            i <= DIGEST_LEN,
            pos + DIGEST_LEN <= b@.len() <= usize::MAX,
            forall|j: int| 0 <= j < i ==> d@[j] == b@[pos + j],
        decreases DIGEST_LEN - i,
    {
        d[i] = b[pos + i];
        i += 1;
    }
    assert(d@ =~= b@.subrange(pos as int, pos + DIGEST_LEN));
    d
}

/// Reads a manifest: the digest map that the bytes hold. Bytes that end in
/// the middle of an entry, or whose entries are not in the order of their
/// paths, are no manifest.
pub fn deserialize(bytes: &[u8]) -> (r: Result<DigestMap, ManifestError>)
    ensures
        match parse_manifest(bytes@) {
            Ok(s) => r matches Ok(map) && map@ == s && map.wf(),
            Err(e) => r == Err::<DigestMap, ManifestError>(e),
        },
{
    let mut paths: Vec<FsPath> = Vec::new();
    let mut digests: Vec<Digest> = Vec::new();
    let mut pos: usize = 0;
    let ghost whole = dec_entries(bytes@);
    let ghost mut done: Seq<EntryView> = Seq::empty();
    assert(bytes@.skip(0) =~= bytes@);
    while pos < bytes.len()
        invariant
            pos <= bytes@.len(),
            whole == dec_entries(bytes@),
            whole == (match dec_entries(bytes@.skip(pos as int)) {
                Some(rest) => Some(done + rest),
                None => None,
            }),
            paths@.len() == done.len(),
            digests@.len() == done.len(),
            forall|i: int|
                0 <= i < done.len() ==> (#[trigger] done[i]) == (paths@[i]@, digests@[i]@),
        decreases bytes@.len() - pos,
    {
        let ghost s = bytes@.skip(pos as int);
        if bytes.len() - pos < DIGEST_LEN + 8 {
            return Err(ManifestError::Truncated);
        }
        let d = read_digest(bytes, pos);
        assert(s.skip(DIGEST_LEN as int) =~= bytes@.skip(pos + DIGEST_LEN));
        let n = read_u64(bytes, pos + DIGEST_LEN);
        assert(s.skip(DIGEST_LEN + 8) =~= bytes@.skip(pos + DIGEST_LEN + 8));
        assert(s.take(DIGEST_LEN as int) =~= d@);
        match read_comps(bytes, pos + DIGEST_LEN + 8, n) {
            None => {
                return Err(ManifestError::Truncated);
            },
            Some((comps, end)) => {
                let path = FsPath::from_components(comps);
                proof {
                    let e = (path@, d@);
                    match dec_entries(bytes@.skip(end as int)) {
                        Some(rest) => {
                            assert(done + (seq![e] + rest) =~= done.push(e) + rest);
                        },
                        None => {},
                    }
                    done = done.push(e);
                }
                paths.push(path);
                digests.push(d);
                pos = end;
            },
        }
    }
    proof {
        assert(done + Seq::<EntryView>::empty() =~= done);
        assert(whole == Some(done));
    }
    let mut map = DigestMap::new();
    let mut i: usize = 0;
    while i < digests.len()
        invariant
            i <= digests@.len(),
            paths@.len() == done.len(),
            digests@.len() == done.len(),
            forall|j: int|
                0 <= j < done.len() ==> (#[trigger] done[j]) == (paths@[j]@, digests@[j]@),
            map.wf(),
            map@ == done.take(i as int),
            dec_entries(bytes@) == Some(done),
        decreases digests@.len() - i,
    {
        let path = paths[i].duplicate();
        let added = map.append(path, digests[i]);
        if !added {
            proof {
                let last = i - 1;
                assert(done.take(i as int).last() == done[last]);
                if sorted(done) {
                    assert(crate::path::path_lt(done[last].0, done[i as int].0));
                }
            }
            return Err(ManifestError::NotInOrder);
        }
        assert(map@ =~= done.take(i + 1));
        i += 1;
    }
    assert(done.take(i as int) =~= done);
    Ok(map)
}

} // verus!
