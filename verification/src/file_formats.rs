//! Which files count as pictures: the extension of a file name and the list of
//! extensions that are let in.

use vstd::prelude::*;

verus! {

/// The lowercase form of an ASCII capital; any other character unchanged.
pub open spec fn ascii_lower(c: char) -> char {
    if 65 <= c as u32 <= 90 {
        ((c as u32) + 32) as char
    } else {
        c
    }
}

/// Whether two texts are the same but for the case of their ASCII letters.
pub open spec fn same_ignoring_ascii_case(a: Seq<char>, b: Seq<char>) -> bool {
    &&& a.len() == b.len()
    &&& forall|i: int| 0 <= i < a.len() ==> ascii_lower(#[trigger] a[i]) == ascii_lower(b[i])
}

/// `str::eq_ignore_ascii_case` of std: an ASCII case-insensitive match, the same as
/// comparing the two texts after `to_ascii_lowercase`.
pub assume_specification[ str::eq_ignore_ascii_case ](a: &str, b: &str) -> (same: bool)
    ensures
        same == same_ignoring_ascii_case(a@, b@),
;

/// The characters of each text of a list.
pub open spec fn texts(list: Seq<String>) -> Seq<Seq<char>> {
    Seq::new(list.len(), |i: int| list[i]@)
}

/// The extensions that are let in where the host names no others: common raster formats,
/// the formats of phones, and the raw formats of several camera makers.
pub open spec fn default_extensions() -> Seq<Seq<char>> {
    seq![
        "jpg"@,
        "jpeg"@,
        "png"@,
        "gif"@,
        "bmp"@,
        "tif"@,
        "tiff"@,
        "webp"@,
        "heic"@,
        "heif"@,
        "raw"@,
        "arw"@,
        "dng"@,
        "cr2"@,
        "nef"@,
        "pef"@,
        "rw2"@,
        "sr2"@,
    ]
}

/// The default list of extensions.
pub fn allowed_extensions() -> (list: Vec<String>)
    ensures
        texts(list@) == default_extensions(),
{
    let mut list: Vec<String> = Vec::new();
    list.push(String::from_str("jpg"));
    list.push(String::from_str("jpeg"));
    list.push(String::from_str("png"));
    list.push(String::from_str("gif"));
    list.push(String::from_str("bmp"));
    list.push(String::from_str("tif"));
    list.push(String::from_str("tiff"));
    list.push(String::from_str("webp"));
    list.push(String::from_str("heic"));
    list.push(String::from_str("heif"));
    list.push(String::from_str("raw"));
    list.push(String::from_str("arw"));
    list.push(String::from_str("dng"));
    list.push(String::from_str("cr2"));
    list.push(String::from_str("nef"));
    list.push(String::from_str("pef"));
    list.push(String::from_str("rw2"));
    list.push(String::from_str("sr2"));
    proof {
        assert(texts(list@) =~= default_extensions());
    }
    list
}

/// Whether `extension` is let in by `allowed`: it matches one of the listed extensions,
/// whatever the case of its ASCII letters.
pub open spec fn is_allowed(extension: Seq<char>, allowed: Seq<Seq<char>>) -> bool {
    exists|k: int| 0 <= k < allowed.len() && same_ignoring_ascii_case(#[trigger] allowed[k], extension)
}

/// Whether an extension is on the list, ignoring the case of ASCII letters.
pub fn is_allowed_extension(extension: &str, allowed: &Vec<String>) -> (found: bool)
    ensures
        found == is_allowed(extension@, texts(allowed@)),
{
    let mut k: usize = 0;
    while k < allowed.len()
        invariant
            k <= allowed.len(),
            forall|d: int| 0 <= d < k ==> !same_ignoring_ascii_case(#[trigger] texts(allowed@)[d], extension@),
        decreases allowed.len() - k,
    {
        if allowed[k].as_str().eq_ignore_ascii_case(extension) {
            assert(same_ignoring_ascii_case(texts(allowed@)[k as int], extension@));
            return true;
        }
        k += 1;
    }
    false
}

/// Where the last dot of a name stands; none if it has no dot.
pub open spec fn last_dot(name: Seq<char>) -> Option<int>
    decreases name.len(),
{
    if name.len() == 0 {
        None
    } else if name.last() == '.' {
        Some(name.len() - 1)
    } else {
        last_dot(name.drop_last())
    }
}

/// The extension of a file name: what follows its last dot. A name without a dot has
/// none, nor has a name whose only dot stands first, nor the name `..`.
pub open spec fn extension_of(name: Seq<char>) -> Option<Seq<char>> {
    match last_dot(name) {
        Some(at) => if at == 0 || (name.len() == 2 && name[0] == '.') {
            None
        } else {
            Some(name.skip(at + 1))
        },
        None => None,
    }
}

/// Cutting a name after a character that is no dot leaves the last dot where it is.
proof fn lemma_last_dot_before(name: Seq<char>, upto: int)
    requires
        0 <= upto <= name.len(),
        forall|j: int| upto <= j < name.len() ==> name[j] != '.',
    ensures
        last_dot(name) == last_dot(name.take(upto)),
    decreases name.len() - upto,
{
    if upto < name.len() {
        lemma_last_dot_before(name, upto + 1);
        assert(name.take(upto + 1).drop_last() =~= name.take(upto));
    } else {
        assert(name.take(upto) =~= name);
    }
}

/// The extension of a file name, without the dot.
pub fn file_extension(name: &str) -> (extension: Option<String>)
    ensures
        match extension {
            Some(text) => extension_of(name@) == Some(text@),
            None => extension_of(name@) is None,
        },
{
    let len = name.unicode_len();
    let mut at = len;
    while at > 0
        invariant
            at <= len,
            len == name@.len(),
            forall|j: int| at <= j < len ==> name@[j] != '.',
        decreases at,
    {
        if name.get_char(at - 1) == '.' {
            proof {
                lemma_last_dot_before(name@, at as int);
                assert(name@.take(at as int).last() == '.');
            }
            if at - 1 == 0 {
                return None;
            }
            if len == 2 && name.get_char(0) == '.' {
                return None;
            }
            let tail = name.substring_char(at, len);
            proof {
                assert(name@.subrange(at as int, len as int) =~= name@.skip(at as int));
            }
            return Some(String::from_str(tail));
        }
        at -= 1;
    }
    proof {
        lemma_last_dot_before(name@, 0);
    }
    None
}

} // verus!
