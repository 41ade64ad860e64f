//! Small executable string utilities with exact contracts over `Seq<char>`
//! views, used by the pools, the namespace and the archive server.

use vstd::prelude::*;
use vstd::string::StrSliceExecFns;
use vstd::string::StringExecFns;

verus! {

/// Character-wise equality of two string slices.
pub fn str_eq(a: &str, b: &str) -> (r: bool)
    ensures
        r == (a@ == b@),
{
    let la = a.unicode_len();
    let lb = b.unicode_len();
    if la != lb {
        return false;
    }
    let mut i: usize = 0;
    while i < la
        invariant
            0 <= i <= la,
            la == a@.len(),
            lb == b@.len(),
            la == lb,
            forall|j: int| 0 <= j < i ==> a@[j] == b@[j],
        decreases la - i,
    {
        if a.get_char(i) != b.get_char(i) {
            return false;
        }
        i = i + 1;
    }
    proof {
        assert(a@ =~= b@);
    }
    true
}

/// Whether `c` occurs in `s`.
pub fn contains_char(s: &str, c: char) -> (r: bool)
    ensures
        r == s@.contains(c),
{
    let l = s.unicode_len();
    let mut i: usize = 0;
    while i < l
        invariant
            0 <= i <= l,
            l == s@.len(),
            forall|j: int| 0 <= j < i ==> s@[j] != c,
        decreases l - i,
    {
        if s.get_char(i) == c {
            proof {
                assert(s@[i as int] == c);
            }
            return true;
        }
        i = i + 1;
    }
    proof {
        assert(!s@.contains(c));
    }
    false
}

/// Whether the view of `p` is a prefix of the view of `s`.
pub open spec fn spec_is_prefix(s: Seq<char>, p: Seq<char>) -> bool {
    p.len() <= s.len() && s.subrange(0, p.len() as int) == p
}

pub fn starts_with(s: &str, p: &str) -> (r: bool)
    ensures
        r == spec_is_prefix(s@, p@),
{
    let ls = s.unicode_len();
    let lp = p.unicode_len();
    if lp > ls {
        return false;
    }
    let mut i: usize = 0;
    while i < lp
        invariant
            0 <= i <= lp,
            ls == s@.len(),
            lp == p@.len(),
            lp <= ls,
            forall|j: int| 0 <= j < i ==> s@[j] == p@[j],
        decreases lp - i,
    {
        if s.get_char(i) != p.get_char(i) {
            proof {
                assert(s@.subrange(0, p@.len() as int)[i as int] != p@[i as int]);
            }
            return false;
        }
        i = i + 1;
    }
    proof {
        assert(s@.subrange(0, p@.len() as int) =~= p@);
    }
    true
}

/// The index just past the last occurrence of `c` in `s`, or `None`.
pub fn last_index_of(s: &str, c: char) -> (r: Option<usize>)
    ensures
        match r {
            Some(i) => i < s@.len() && s@[i as int] == c && (forall|j: int|
                i < j < s@.len() ==> s@[j] != c),
            None => forall|j: int| 0 <= j < s@.len() ==> s@[j] != c,
        },
{
    let l = s.unicode_len();
    let mut i: usize = l;
    while i > 0
        invariant
            0 <= i <= l,
            l == s@.len(),
            forall|j: int| i <= j < s@.len() ==> s@[j] != c,
        decreases i,
    {
        i = i - 1;
        if s.get_char(i) == c {
            return Some(i);
        }
    }
    None
}

/// Bytes below 128, read as characters.
pub open spec fn spec_ascii_chars(bytes: Seq<u8>) -> Seq<char> {
    bytes.map_values(|b: u8| b as char)
}

/// Whether every byte is ASCII.
pub open spec fn spec_all_ascii(bytes: Seq<u8>) -> bool {
    forall|i: int| 0 <= i < bytes.len() ==> bytes[i] < 128
}

/// Relies on `alloc::string::String::from_utf8`: a sequence of ASCII bytes
/// is valid UTF-8 and decodes to one character per byte.
#[verifier::external_body]
pub fn string_from_ascii(bytes: Vec<u8>) -> (r: String)
    requires
        spec_all_ascii(bytes@),
    ensures
        r@ == spec_ascii_chars(bytes@),
        r.is_ascii(),
{
    match String::from_utf8(bytes) {
        Ok(s) => s,
        Err(_) => String::new(),
    }
}

/// The sequence without its trailing slashes.
pub open spec fn spec_trim_slashes(p: Seq<char>) -> Seq<char>
    decreases p.len(),
{
    if p.len() > 0 && p.last() == '/' {
        spec_trim_slashes(p.drop_last())
    } else {
        p
    }
}

/// A copy of `s` with every trailing `/` removed.
pub fn trim_end_slashes(s: &str) -> (r: String)
    ensures
        r@ == spec_trim_slashes(s@),
{
    let mut k = s.unicode_len();
    proof {
        assert(s@.subrange(0, k as int) =~= s@);
    }
    while k > 0 && s.get_char(k - 1) == '/'
        invariant
            0 <= k <= s@.len(),
            spec_trim_slashes(s@) == spec_trim_slashes(s@.subrange(0, k as int)),
        decreases k,
    {
        proof {
            assert(s@.subrange(0, k as int).drop_last() =~= s@.subrange(0, k - 1));
            assert(s@.subrange(0, k as int).last() == '/');
        }
        k = k - 1;
    }
    proof {
        if k > 0 {
            assert(s@.subrange(0, k as int).last() != '/');
        }
        assert(spec_trim_slashes(s@.subrange(0, k as int)) == s@.subrange(0, k as int));
    }
    take_chars(s, k)
}

/// A copy of `s` shortened to its first `n` characters.
pub fn take_chars(s: &str, n: usize) -> (r: String)
    requires
        n <= s@.len(),
    ensures
        r@ == s@.subrange(0, n as int),
{
    let sub = s.substring_char(0, n);
    sub.to_owned()
}

} // verus!
