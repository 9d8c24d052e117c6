//! Byte-level text helpers shared by the record scanners.
//!
//! Names and identifiers in SA17 rows are ASCII byte runs. The contracts of
//! this crate describe a `String` or `&str` by its UTF-8 bytes.

use vstd::prelude::*;
use vstd::string::*;
use vstd::utf8::*;

verus! {

/// The UTF-8 bytes of a `String`.
pub open spec fn string_bytes(s: String) -> Seq<u8> {
    encode_utf8(s@)
}

/// The UTF-8 bytes of a `&str`.
pub open spec fn str_bytes(s: &str) -> Seq<u8> {
    s.spec_bytes()
}

/// Whether every byte is 7-bit ASCII.
pub open spec fn is_ascii_bytes(b: Seq<u8>) -> bool {
    forall|i: int| 0 <= i < b.len() ==> #[trigger] b[i] <= 0x7f
}

/// `std::str::from_utf8`: the bytes as a string slice when they are valid
/// UTF-8. The claim taken on trust is the documented one: the result is
/// `Ok` exactly for valid UTF-8, and the slice has the same bytes.
#[verifier::external_body]
fn utf8_to_str(b: &[u8]) -> (r: Option<&str>)
    ensures
        r is Some <==> valid_utf8(b@),
        r matches Some(s) ==> s.spec_bytes() == b@,
{
    std::str::from_utf8(b).ok()
}

proof fn lemma_ascii_valid_utf8(b: Seq<u8>)
    requires
        is_ascii_bytes(b),
    ensures
        valid_utf8(b),
{
    assert(b.subrange(0, 0) =~= Seq::<u8>::empty());
    assert(partial_valid_utf8(b, 0));
    assert forall|i: int| 0 <= 0 <= i < b.len() <= b.len() implies #[trigger] is_leading_byte_width_1(b[i]) by {
        assert(b[i] <= 0x7f);
    }
    partial_valid_utf8_extend_ascii_block(b, 0, b.len() as int);
    assert(b.subrange(0, b.len() as int) =~= b);
}

/// An owned string holding the given ASCII bytes.
pub fn ascii_to_string(b: &[u8]) -> (s: String)
    requires
        is_ascii_bytes(b@),
    ensures
        string_bytes(s) == b@,
{
    proof {
        lemma_ascii_valid_utf8(b@);
    }
    match utf8_to_str(b) {
        Some(st) => {
            let s = st.to_owned();
            s
        },
        None => {
            proof {
                assert(false);
            }
            String::new()
        },
    }
}

/// `str::strip_prefix` with a string pattern: the rest of `s` after
/// `prefix` when `s` starts with `prefix`, `None` otherwise. Taken on trust
/// as documented, over the UTF-8 bytes of both strings.
#[verifier::external_body]
pub(crate) fn strip_prefix_str<'a>(s: &'a str, prefix: &str) -> (r: Option<&'a str>)
    ensures
        r is Some <==> (prefix.spec_bytes().len() <= s.spec_bytes().len()
            && s.spec_bytes().subrange(0, prefix.spec_bytes().len() as int) == prefix.spec_bytes()),
        r matches Some(t) ==> t.spec_bytes() == s.spec_bytes().subrange(
            prefix.spec_bytes().len() as int,
            s.spec_bytes().len() as int,
        ),
{
    s.strip_prefix(prefix)
}

/// `str::strip_suffix` with a string pattern: the part of `s` before
/// `suffix` when `s` ends with `suffix`, `None` otherwise. Taken on trust
/// as documented, over the UTF-8 bytes of both strings.
#[verifier::external_body]
pub(crate) fn strip_suffix_str<'a>(s: &'a str, suffix: &str) -> (r: Option<&'a str>)
    ensures
        r is Some <==> ends_with_bytes(s.spec_bytes(), suffix.spec_bytes()),
        r matches Some(t) ==> t.spec_bytes() == s.spec_bytes().subrange(
            0,
            s.spec_bytes().len() - suffix.spec_bytes().len(),
        ),
{
    s.strip_suffix(suffix)
}

/// Whether `s` starts with `p`.
pub open spec fn starts_with_bytes(s: Seq<u8>, p: Seq<u8>) -> bool {
    p.len() <= s.len() && s.subrange(0, p.len() as int) == p
}

/// Whether `s` ends with `p`.
pub open spec fn ends_with_bytes(s: Seq<u8>, p: Seq<u8>) -> bool {
    p.len() <= s.len() && s.subrange(s.len() - p.len(), s.len() as int) == p
}

/// `s` without the prefix `p` when it starts with it, else `s`.
pub open spec fn without_prefix(s: Seq<u8>, p: Seq<u8>) -> Seq<u8> {
    if starts_with_bytes(s, p) {
        s.subrange(p.len() as int, s.len() as int)
    } else {
        s
    }
}

/// `s` without the suffix `p` when it ends with it, else `s`.
pub open spec fn without_suffix(s: Seq<u8>, p: Seq<u8>) -> Seq<u8> {
    if ends_with_bytes(s, p) {
        s.subrange(0, s.len() - p.len())
    } else {
        s
    }
}

/// The tail of `s` after the prefix `prefix`, or `s` itself when `s` does
/// not start with it.
pub fn strip_prefix_or_keep<'a>(s: &'a str, prefix: &str) -> (r: &'a str)
    ensures
        r.spec_bytes() == without_prefix(s.spec_bytes(), prefix.spec_bytes()),
{
    match strip_prefix_str(s, prefix) {
        Some(t) => t,
        None => s,
    }
}

/// The head of `s` before the suffix `suffix`, or `s` itself when `s` does
/// not end with it.
pub fn strip_suffix_or_keep<'a>(s: &'a str, suffix: &str) -> (r: &'a str)
    ensures
        r.spec_bytes() == without_suffix(s.spec_bytes(), suffix.spec_bytes()),
{
    match strip_suffix_str(s, suffix) {
        Some(t) => t,
        None => s,
    }
}

/// Whether the bytes of `s` end with `suffix`.
pub fn ends_with(s: &[u8], suffix: &[u8]) -> (b: bool)
    ensures
        b == ends_with_bytes(s@, suffix@),
{
    let n = s.len();
    let m = suffix.len();
    if m > n {
        return false;
    }
    let mut i: usize = 0;
    while i < m
        invariant
            n == s@.len(),
            m == suffix@.len(),
            m <= n,
            i <= m,
            forall|k: int| 0 <= k < i ==> s@[n - m + k] == suffix@[k],
        decreases m - i,
    {
        if s[n - m + i] != suffix[i] {
            assert(s@.subrange(n - m, n as int)[i as int] != suffix@[i as int]);
            return false;
        }
        i = i + 1;
    }
    assert(s@.subrange(n - m, n as int) =~= suffix@);
    true
}

/// Whether the bytes of `s` start with `prefix`.
pub fn starts_with(s: &[u8], prefix: &[u8]) -> (b: bool)
    ensures
        b == starts_with_bytes(s@, prefix@),
{
    let n = s.len();
    let m = prefix.len();
    if m > n {
        return false;
    }
    let mut i: usize = 0;
    while i < m
        invariant
            n == s@.len(),
            m == prefix@.len(),
            m <= n,
            i <= m,
            forall|k: int| 0 <= k < i ==> s@[k] == prefix@[k],
        decreases m - i,
    {
        if s[i] != prefix[i] {
            assert(s@.subrange(0, m as int)[i as int] != prefix@[i as int]);
            return false;
        }
        i = i + 1;
    }
    assert(s@.subrange(0, m as int) =~= prefix@);
    true
}

/// Whether `needle` occurs in `hay` (the empty needle always does).
pub open spec fn contains_bytes(hay: Seq<u8>, needle: Seq<u8>) -> bool {
    exists|p: int| 0 <= p && p + needle.len() <= hay.len() && #[trigger] hay.subrange(p, p + needle.len()) == needle
}

/// Whether `needle` occurs in `hay` (the empty needle always does).
pub fn contains(hay: &[u8], needle: &[u8]) -> (b: bool)
    ensures
        b == contains_bytes(hay@, needle@),
{
    let n = hay.len();
    let m = needle.len();
    if m > n {
        return false;
    }
    if m == 0 {
        assert(hay@.subrange(0, 0 + needle@.len() as int) =~= needle@);
        return true;
    }
    let mut p: usize = 0;
    while p <= n - m
        invariant
            n == hay@.len(),
            m == needle@.len(),
            1 <= m <= n,
            p <= n - m + 1,
            forall|q: int| 0 <= q < p ==> #[trigger] hay@.subrange(q, q + m) != needle@,
        decreases n - m + 1 - p,
    {
        if crate::bv_recovery::matches_at(hay, p, needle) {
            return true;
        }
        p = p + 1;
    }
    false
}

/// The ASCII lower-case of a byte.
pub open spec fn lower_byte(b: u8) -> u8 {
    if 0x41 <= b <= 0x5A {
        (b + 32) as u8
    } else {
        b
    }
}

/// The bytes with ASCII letters lower-cased.
pub open spec fn lower_bytes(s: Seq<u8>) -> Seq<u8> {
    s.map_values(|b: u8| lower_byte(b))
}

/// Lower-case the ASCII letters of `s`.
pub fn to_ascii_lower(s: &[u8]) -> (r: Vec<u8>)
    ensures
        r@ == lower_bytes(s@),
{
    let mut r: Vec<u8> = Vec::new();
    let mut i: usize = 0;
    while i < s.len()
        invariant
            i <= s@.len(),
            r@ == lower_bytes(s@.take(i as int)),
        decreases s@.len() - i,
    {
        let b = s[i];
        let l = if 0x41 <= b && b <= 0x5A {
            b + 32
        } else {
            b
        };
        r.push(l);
        proof {
            assert(lower_bytes(s@.take(i + 1)) =~= lower_bytes(s@.take(i as int)).push(lower_byte(b)));
        }
        i = i + 1;
    }
    assert(s@.take(i as int) =~= s@);
    r
}

} // verus!
