//! What the name of a file says about it.

use vstd::prelude::*;
use vstd::utf8::encode_utf8;

verus! {

/// The byte of the dot that sets off an extension.
pub const EXTENSION_DOT: u8 = 46;

/// The byte of the underscore.
pub const UNDERSCORE: u8 = 95;

/// `k` is the position of the last dot of `name`.
pub open spec fn is_last_dot(name: Seq<u8>, k: int) -> bool {
    &&& 0 <= k < name.len()
    &&& name[k] == EXTENSION_DOT
    &&& forall|j: int| k < j < name.len() ==> name[j] != EXTENSION_DOT
}

/// The extension of a file name: what follows its last dot. A name without
/// a dot has none, and neither has a name whose only dot is its first byte,
/// nor the name `..`.
pub open spec fn extension(name: Seq<u8>) -> Option<Seq<u8>> {
    if name == seq![EXTENSION_DOT, EXTENSION_DOT] {
        None
    } else if exists|k: int| 0 < k && is_last_dot(name, k) {
        Some(name.skip((choose|k: int| 0 < k && is_last_dot(name, k)) + 1))
    } else {
        None
    }
}

/// The byte with an ASCII capital made small.
pub open spec fn lower(b: u8) -> u8 {
    if 65 <= b <= 90 {
        (b + 32) as u8
    } else {
        b
    }
}

/// Whether `a` and `b` are the same but for the case of ASCII letters.
pub open spec fn same_ignoring_case(a: Seq<u8>, b: Seq<u8>) -> bool {
    a.len() == b.len() && forall|i: int| 0 <= i < a.len() ==> lower(a[i]) == lower(b[i])
}

/// Whether the file name has the extension `ext`, whatever the case of its
/// letters.
pub open spec fn has_extension(name: Seq<u8>, ext: Seq<u8>) -> bool {
    extension(name) matches Some(e) && same_ignoring_case(e, ext)
}

/// The position behind the last dot of `name` that sets off an extension,
/// if there is one.
fn extension_start(name: &[u8]) -> (start: Option<usize>)
    ensures
        match extension(name@) {
            Some(e) => start matches Some(s) && s <= name@.len() && e == name@.skip(s as int),
            None => start is None,
        },
{
    let n = name.len();
    if n == 2 && name[0] == EXTENSION_DOT && name[1] == EXTENSION_DOT {
        assert(name@ =~= seq![EXTENSION_DOT, EXTENSION_DOT]);
        return None;
    }
    assert(name@ != seq![EXTENSION_DOT, EXTENSION_DOT]) by {
        if name@ == seq![EXTENSION_DOT, EXTENSION_DOT] {
            assert(name@.len() == 2 && name@[0] == EXTENSION_DOT && name@[1] == EXTENSION_DOT);
        }
    }
    let mut i: usize = n;
    while i > 0
        invariant
            i <= n,
            n == name@.len(),
            name@ != seq![EXTENSION_DOT, EXTENSION_DOT],
            forall|j: int| i <= j < n ==> name@[j] != EXTENSION_DOT,
        decreases i,
    {
        i -= 1;
        if name[i] == EXTENSION_DOT {
            if i == 0 {
                assert forall|k: int| 0 < k implies !is_last_dot(name@, k) by {}
                return None;
            }
            proof {
                assert(is_last_dot(name@, i as int));
                let k = choose|k: int| 0 < k && is_last_dot(name@, k);
                assert(k == i) by {
                    if k < i {
                        assert(name@[i as int] != EXTENSION_DOT);
                    }
                    if k > i {
                        assert(name@[k] != EXTENSION_DOT);
                    }
                }
            }
            return Some(i + 1);
        }
    }
    assert forall|k: int| 0 < k implies !is_last_dot(name@, k) by {}
    None
}

/// The byte with an ASCII capital made small.
fn to_lower(b: u8) -> (l: u8)
    ensures
        l == lower(b),
{
    if 65 <= b && b <= 90 {
        b + 32
    } else {
        b
    }
}

/// Whether the bytes of `name` from `start` on are `ext`, whatever the case
/// of ASCII letters.
fn tail_is(name: &[u8], start: usize, ext: &[u8]) -> (same: bool)
    requires
        start <= name@.len(),
    ensures
        same == same_ignoring_case(name@.skip(start as int), ext@),
{
    let n = name.len();
    if n - start != ext.len() {
        return false;
    }
    let ghost tail = name@.skip(start as int);
    let mut i: usize = 0;
    while i < ext.len()
        invariant
            i <= ext@.len(),
            start + ext@.len() == n,
            n == name@.len(),
            tail == name@.skip(start as int),
            forall|j: int| 0 <= j < i ==> lower(tail[j]) == lower(ext@[j]),
        decreases ext@.len() - i,
    {
        if to_lower(name[start + i]) != to_lower(ext[i]) {
            assert(tail[i as int] == name@[start + i]);
            return false;
        }
        assert(tail[i as int] == name@[start + i]);
        i += 1;
    }
    true
}

/// Whether the bytes of a file name end in the extension `ext`.
fn name_has_extension(name: &[u8], ext: &[u8]) -> (has: bool)
    ensures
        has == has_extension(name@, ext@),
{
    match extension_start(name) {
        Some(start) => tail_is(name, start, ext),
        None => false,
    }
}

/// The extension `md` of markdown files.
pub open spec fn md() -> Seq<u8> {
    seq![109u8, 100]
}

/// The extension `jpg` of images.
pub open spec fn jpg() -> Seq<u8> {
    seq![106u8, 112, 103]
}

/// The extension `png` of images.
pub open spec fn png() -> Seq<u8> {
    seq![112u8, 110, 103]
}

/// The extension `gif` of images.
pub open spec fn gif() -> Seq<u8> {
    seq![103u8, 105, 102]
}

/// Whether the file name is that of a markdown file: its extension is `md`,
/// in small or capital letters.
pub fn is_markdown(name: &str) -> (markdown: bool)
    ensures
        markdown == has_extension(encode_utf8(name@), md()),
{
    let ext: [u8; 2] = [109, 100];
    assert(ext@ =~= md());
    name_has_extension(name.as_bytes(), ext.as_slice())
}

/// Whether the markdown file of the name `name` has to be built again: it
/// was modified after the last build, or the time of its modification is not
/// known.
pub fn is_modified_markdown(name: &str, modified: Option<u128>, last_build: u128) -> (build: bool)
    ensures
        build == (has_extension(encode_utf8(name@), md()) && (match modified {
            Some(at) => at > last_build,
            None => true,
        })),
{
    if !is_markdown(name) {
        return false;
    }
    match modified {
        Some(at) => at > last_build,
        None => true,
    }
}

/// Whether the entry of the name `name` is shown: its name starts neither
/// with a dot nor with an underscore.
pub fn is_not_hidden(name: &str) -> (shown: bool)
    ensures
        shown == (encode_utf8(name@).len() == 0 || (encode_utf8(name@)[0] != EXTENSION_DOT
            && encode_utf8(name@)[0] != UNDERSCORE)),
{
    let bytes = name.as_bytes();
    bytes.len() == 0 || (bytes[0] != EXTENSION_DOT && bytes[0] != UNDERSCORE)
}

/// Whether the file name is that of an image: its extension is `jpg`, `png`
/// or `gif`, in small or capital letters.
pub fn is_image(name: &str) -> (image: bool)
    ensures
        image == (has_extension(encode_utf8(name@), jpg()) || has_extension(
            encode_utf8(name@),
            png(),
        ) || has_extension(encode_utf8(name@), gif())),
{
    let j: [u8; 3] = [106, 112, 103];
    let p: [u8; 3] = [112, 110, 103];
    let g: [u8; 3] = [103, 105, 102];
    assert(j@ =~= jpg());
    assert(p@ =~= png());
    assert(g@ =~= gif());
    let bytes = name.as_bytes();
    name_has_extension(bytes, j.as_slice()) || name_has_extension(bytes, p.as_slice())
        || name_has_extension(bytes, g.as_slice())
}

/// Whether one of the file names is that of a markdown file.
pub fn contains_markdown_file(names: &Vec<String>) -> (found: bool)
    ensures
        found == exists|i: int|
            0 <= i < names@.len() && has_extension(encode_utf8(#[trigger] names@[i]@), md()),
{
    let mut i: usize = 0;
    while i < names.len()
        invariant
            i <= names@.len(),
            forall|j: int| 0 <= j < i ==> !has_extension(encode_utf8(#[trigger] names@[j]@), md()),
        decreases names@.len() - i,
    {
        if is_markdown(names[i].as_str()) {
            return true;
        }
        i += 1;
    }
    false
}

} // verus!
