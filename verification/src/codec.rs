//! Small byte-level readers shared by the record scanners.

use vstd::prelude::*;
use crate::text::is_ascii_bytes;

verus! {

/// The little-endian `u32` stored at offset `i` of `s`.
pub open spec fn le_u32(s: Seq<u8>, i: int) -> u32 {
    (s[i] + s[i + 1] * 256 + s[i + 2] * 65536 + s[i + 3] * 16777216) as u32
}

/// Read the little-endian `u32` at offset `i`.
pub fn read_le_u32(s: &[u8], i: usize) -> (v: u32)
    requires
        i + 4 <= s@.len(),
    ensures
        v == le_u32(s@, i as int),
{
    let b0 = s[i] as u32;
    let b1 = s[i + 1] as u32;
    let b2 = s[i + 2] as u32;
    let b3 = s[i + 3] as u32;
    b0 + b1 * 256 + b2 * 65536 + b3 * 16777216
}

/// Whether the eight bytes at `off` read as a plausible SA17
/// `(date, counter)` pair: a date in `13000..20000` (roughly the years
/// 2016 to 2034) followed by a counter in `1..cmax`.
pub open spec fn plausible_date_counter(s: Seq<u8>, off: int, cmax: int) -> bool {
    &&& 13000 <= le_u32(s, off) < 20000
    &&& 0 < le_u32(s, off + 4) < cmax
}

/// The first plausible `(date, counter)` pair at an offset in `lo..hi`.
pub open spec fn first_date_counter(s: Seq<u8>, lo: int, hi: int, cmax: int) -> Option<(u32, u32)>
    decreases hi - lo,
{
    if lo >= hi {
        None
    } else if plausible_date_counter(s, lo, cmax) {
        Some((le_u32(s, lo), le_u32(s, lo + 4)))
    } else {
        first_date_counter(s, lo + 1, hi, cmax)
    }
}

/// Search the offsets `lo..hi` for the first plausible `(date, counter)`
/// pair.
pub fn find_date_counter_in(s: &[u8], lo: usize, hi: usize, cmax: u32) -> (r: Option<(u32, u32)>)
    requires
        hi + 7 <= s@.len(),
    ensures
        r == first_date_counter(s@, lo as int, hi as int, cmax as int),
    decreases hi - lo,
{
    let n = s.len();
    if lo >= hi || hi > n {
        return None;
    }
    let d = read_le_u32(s, lo);
    let c = read_le_u32(s, lo + 4);
    if 13000 <= d && d < 20000 && 0 < c && c < cmax {
        Some((d, c))
    } else {
        find_date_counter_in(s, lo + 1, hi, cmax)
    }
}

/// Whether `b` is an ASCII digit or letter.
pub open spec fn base62_byte(b: u8) -> bool {
    (0x30 <= b <= 0x39) || (0x41 <= b <= 0x5A) || (0x61 <= b <= 0x7A)
}

/// Whether every byte of `s` is an ASCII digit or letter.
pub open spec fn all_base62(s: Seq<u8>) -> bool {
    forall|i: int| 0 <= i < s.len() ==> #[trigger] base62_byte(s[i])
}

/// Whether `b` is a printable ASCII byte (`0x20..0x7F`).
pub open spec fn printable_byte(b: u8) -> bool {
    0x20 <= b < 0x7F
}

/// Whether every byte of `s` is printable ASCII.
pub open spec fn all_printable(s: Seq<u8>) -> bool {
    forall|i: int| 0 <= i < s.len() ==> #[trigger] printable_byte(s[i])
}

/// Whether `b` may appear in an identifier: an ASCII letter or digit, or `_`.
pub open spec fn ident_byte(b: u8) -> bool {
    base62_byte(b) || b == 0x5F
}

/// Whether `b` may start an identifier: an ASCII letter or `_`.
pub open spec fn ident_start_byte(b: u8) -> bool {
    (0x41 <= b <= 0x5A) || (0x61 <= b <= 0x7A) || b == 0x5F
}

/// Whether `s` is a non-empty identifier: it starts with a letter or `_`
/// and holds only letters, digits and `_`.
pub open spec fn is_identifier(s: Seq<u8>) -> bool {
    &&& s.len() > 0
    &&& ident_start_byte(s[0])
    &&& forall|i: int| 0 <= i < s.len() ==> #[trigger] ident_byte(s[i])
}

/// Check that every byte of `s` is an ASCII digit or letter.
pub fn all_base62_exec(s: &[u8]) -> (b: bool)
    ensures
        b == all_base62(s@),
{
    let mut i: usize = 0;
    while i < s.len()
        invariant
            i <= s@.len(),
            forall|k: int| 0 <= k < i ==> #[trigger] base62_byte(s@[k]),
        decreases s@.len() - i,
    {
        let c = s[i];
        if !((0x30 <= c && c <= 0x39) || (0x41 <= c && c <= 0x5A) || (0x61 <= c && c <= 0x7A)) {
            assert(!base62_byte(s@[i as int]));
            return false;
        }
        i = i + 1;
    }
    true
}

/// Check that every byte of `s` is printable ASCII.
pub fn all_printable_exec(s: &[u8]) -> (b: bool)
    ensures
        b == all_printable(s@),
{
    let mut i: usize = 0;
    while i < s.len()
        invariant
            i <= s@.len(),
            forall|k: int| 0 <= k < i ==> #[trigger] printable_byte(s@[k]),
        decreases s@.len() - i,
    {
        let c = s[i];
        if !(0x20 <= c && c < 0x7F) {
            assert(!printable_byte(s@[i as int]));
            return false;
        }
        i = i + 1;
    }
    true
}

/// Check that `s` is a non-empty identifier.
pub fn is_identifier_exec(s: &[u8]) -> (b: bool)
    ensures
        b == is_identifier(s@),
{
    if s.len() == 0 {
        return false;
    }
    let c0 = s[0];
    if !((0x41 <= c0 && c0 <= 0x5A) || (0x61 <= c0 && c0 <= 0x7A) || c0 == 0x5F) {
        return false;
    }
    let mut i: usize = 0;
    while i < s.len()
        invariant
            i <= s@.len(),
            forall|k: int| 0 <= k < i ==> #[trigger] ident_byte(s@[k]),
        decreases s@.len() - i,
    {
        let c = s[i];
        if !((0x30 <= c && c <= 0x39) || (0x41 <= c && c <= 0x5A) || (0x61 <= c && c <= 0x7A)
            || c == 0x5F) {
            assert(!ident_byte(s@[i as int]));
            return false;
        }
        i = i + 1;
    }
    true
}

/// Whether two byte strings are equal.
pub fn bytes_equal(a: &[u8], b: &[u8]) -> (r: bool)
    ensures
        r == (a@ == b@),
{
    let n = a.len();
    if n != b.len() {
        return false;
    }
    let mut i: usize = 0;
    while i < n
        invariant
            n == a@.len(),
            n == b@.len(),
            i <= n,
            forall|k: int| 0 <= k < i ==> a@[k] == b@[k],
        decreases n - i,
    {
        if a[i] != b[i] {
            return false;
        }
        i = i + 1;
    }
    assert(a@ =~= b@);
    true
}

/// Filtering a sequence extended by one element.
pub proof fn lemma_filter_push<A>(s: Seq<A>, x: A, pred: spec_fn(A) -> bool)
    ensures
        s.push(x).filter(pred) == if pred(x) {
            s.filter(pred).push(x)
        } else {
            s.filter(pred)
        },
{
    reveal(Seq::filter);
    assert(s.push(x).drop_last() =~= s);
}

/// Letters and digits are ASCII.
pub proof fn lemma_base62_ascii(s: Seq<u8>)
    requires
        all_base62(s),
    ensures
        is_ascii_bytes(s),
{
    assert forall|i: int| 0 <= i < s.len() implies #[trigger] s[i] <= 0x7f by {
        assert(base62_byte(s[i]));
    }
}

/// Printable bytes are ASCII.
pub proof fn lemma_printable_ascii(s: Seq<u8>)
    requires
        all_printable(s),
    ensures
        is_ascii_bytes(s),
{
    assert forall|i: int| 0 <= i < s.len() implies #[trigger] s[i] <= 0x7f by {
        assert(printable_byte(s[i]));
    }
}

/// Identifier bytes are ASCII.
pub proof fn lemma_identifier_ascii(s: Seq<u8>)
    requires
        is_identifier(s),
    ensures
        is_ascii_bytes(s),
{
    assert forall|i: int| 0 <= i < s.len() implies #[trigger] s[i] <= 0x7f by {
        assert(ident_byte(s[i]));
    }
}

} // verus!
