//! Structural fingerprints of pages, used to study pages that resist
//! decoding and to compare table root pages across company files.

use vstd::prelude::*;
use opensqlany::{ApModel, PageStore};
use crate::bv_recovery::{
    deobfuscate_with_bv, oracle_bv_e_page, recover_bv_brute, recover_bv_qb_data, spec_deobfuscate,
    spec_oracle_bv, spec_recover_bv_brute, spec_recover_bv_qb, PAGE, TRAILER_START,
};
use crate::sorting::{lemma_stable_sorted_len, stable_sort, stable_sorted, SortKey};
use crate::codec::{le_u32, lemma_filter_push, read_le_u32};
use crate::decode::{decode_page, decoding_of, BvOracle};
use crate::store::{
    is_extent, is_extent_page, model_deobfuscate, page_bytes, page_count, page_type_byte, page_type_code, store_pages,
    PAGE_TYPE_OFFSET,
};
use crate::systable::SysTableEntry;

verus! {

/// How many of the first `n` bytes of `s` equal `b`.
pub open spec fn byte_count(s: Seq<u8>, b: u8, n: int) -> nat
    decreases n,
{
    if n <= 0 {
        0
    } else {
        byte_count(s, b, n - 1) + if s[n - 1] == b {
            1nat
        } else {
            0nat
        }
    }
}

proof fn lemma_byte_count_bounded(s: Seq<u8>, b: u8, n: int)
    requires
        0 <= n,
    ensures
        byte_count(s, b, n) <= n,
    decreases n,
{
    if n > 0 {
        lemma_byte_count_bounded(s, b, n - 1);
    }
}

/// The number of occurrences of each byte value: entry `b` counts the
/// bytes equal to `b`.
pub fn byte_histogram(bytes: &[u8]) -> (h: Vec<usize>)
    ensures
        h@.len() == 256,
        forall|b: int| 0 <= b < 256 ==> #[trigger] h@[b] == byte_count(bytes@, b as u8, bytes@.len() as int),
{
    let mut h: Vec<usize> = Vec::new();
    let mut k: usize = 0;
    while k < 256
        invariant
            k <= 256,
            h@.len() == k,
            forall|b: int| 0 <= b < k ==> #[trigger] h@[b] == 0,
        decreases 256 - k,
    {
        h.push(0);
        k = k + 1;
    }
    let mut i: usize = 0;
    while i < bytes.len()
        invariant
            i <= bytes@.len(),
            h@.len() == 256,
            forall|b: int| 0 <= b < 256 ==> #[trigger] h@[b] == byte_count(bytes@, b as u8, i as int),
        decreases bytes@.len() - i,
    {
        let x = bytes[i];
        proof {
            lemma_byte_count_bounded(bytes@, x, i as int);
        }
        let c = h[x as usize];
        h.set(x as usize, c + 1);
        proof {
            assert forall|b: int| 0 <= b < 256 implies #[trigger] h@[b] == byte_count(bytes@, b as u8, i + 1) by {
                if b != x as int {
                    assert(b as u8 != x);
                }
            }
        }
        i = i + 1;
    }
    h
}

/// A byte value with its count, ordered by decreasing count.
impl SortKey for (u8, usize) {
    open spec fn key_le(&self, other: &Self) -> bool {
        self.1 >= other.1
    }

    proof fn lemma_key_le_total(a: &Self, b: &Self) {
    }

    proof fn lemma_key_le_transitive(a: &Self, b: &Self, c: &Self) {
    }

    fn key_le_exec(&self, other: &Self) -> (r: bool) {
        self.1 >= other.1
    }
}

/// Every byte value with its count, in byte order.
pub open spec fn byte_counts(s: Seq<u8>) -> Seq<(u8, usize)> {
    Seq::new(256, |b: int| (b as u8, byte_count(s, b as u8, s.len() as int) as usize))
}

/// The `k` most frequent byte values with their counts, most frequent
/// first; values with equal counts come in byte order.
pub fn top_bytes(bytes: &[u8], k: usize) -> (r: Vec<(u8, usize)>)
    ensures
        r@ == stable_sorted(byte_counts(bytes@)).take(if k < 256 {
            k as int
        } else {
            256
        }),
{
    let h = byte_histogram(bytes);
    let mut pairs: Vec<(u8, usize)> = Vec::new();
    let mut b: usize = 0;
    while b < 256
        invariant
            b <= 256,
            h@.len() == 256,
            forall|x: int| 0 <= x < 256 ==> #[trigger] h@[x] == byte_count(bytes@, x as u8, bytes@.len() as int),
            pairs@ == byte_counts(bytes@).take(b as int),
        decreases 256 - b,
    {
        pairs.push((b as u8, h[b]));
        proof {
            assert(pairs@ =~= byte_counts(bytes@).take(b + 1));
        }
        b = b + 1;
    }
    assert(pairs@ =~= byte_counts(bytes@));
    let mut sorted = stable_sort(pairs);
    assert(sorted@.len() == 256) by {
        lemma_stable_sorted_len(byte_counts(bytes@));
    }
    if k < 256 {
        sorted.truncate(k);
    }
    assert(sorted@ =~= stable_sorted(byte_counts(bytes@)).take(if k < 256 {
        k as int
    } else {
        256
    }));
    sorted
}

/// The length of the run of equal bytes that ends at index `i`.
pub open spec fn run_ending_at(s: Seq<u8>, i: int) -> nat
    decreases i,
{
    if i <= 0 {
        1
    } else if s[i] == s[i - 1] {
        run_ending_at(s, i - 1) + 1
    } else {
        1
    }
}

/// The longest run of equal bytes among the first `n` bytes.
pub open spec fn longest_run_in(s: Seq<u8>, n: int) -> nat
    decreases n,
{
    if n <= 0 {
        0
    } else {
        let p = longest_run_in(s, n - 1);
        let r = run_ending_at(s, n - 1);
        if r > p {
            r
        } else {
            p
        }
    }
}

proof fn lemma_run_bounded(s: Seq<u8>, i: int)
    requires
        0 <= i,
    ensures
        run_ending_at(s, i) <= i + 1,
    decreases i,
{
    if i > 0 {
        lemma_run_bounded(s, i - 1);
    }
}

/// The length of the longest run of identical bytes.
pub fn longest_run(bytes: &[u8]) -> (r: usize)
    ensures
        r == longest_run_in(bytes@, bytes@.len() as int),
{
    let mut best: usize = 0;
    let mut cur: usize = 0;
    let mut i: usize = 0;
    while i < bytes.len()
        invariant
            i <= bytes@.len(),
            best == longest_run_in(bytes@, i as int),
            i > 0 ==> cur == run_ending_at(bytes@, i - 1),
            cur <= i,
        decreases bytes@.len() - i,
    {
        proof {
            lemma_run_bounded(bytes@, i as int);
        }
        if i > 0 && bytes[i] == bytes[i - 1] {
            cur = cur + 1;
        } else {
            cur = 1;
        }
        if cur > best {
            best = cur;
        }
        i = i + 1;
    }
    best
}

/// The counts of every byte value in `s`, in byte order.
pub open spec fn count_table(s: Seq<u8>) -> Seq<usize> {
    Seq::new(256, |b: int| byte_count(s, b as u8, s.len() as int) as usize)
}

/// The index of the last maximum among the first `n` entries.
pub open spec fn last_max(c: Seq<usize>, n: int) -> int
    decreases n,
{
    if n <= 1 {
        0
    } else {
        let p = last_max(c, n - 1);
        if c[n - 1] >= c[p] {
            n - 1
        } else {
            p
        }
    }
}

proof fn lemma_last_max_range(c: Seq<usize>, n: int)
    requires
        1 <= n,
    ensures
        0 <= last_max(c, n) < n,
    decreases n,
{
    if n > 1 {
        lemma_last_max_range(c, n - 1);
    }
}

/// Whether a decoded page looks like plaintext: at least 5% of its body
/// bytes are zero, or its most frequent body byte (the highest such
/// value on a tie) is below `0x40` and makes up at least 20% of the body.
pub open spec fn looks_decoded_spec(plain: Seq<u8>) -> bool {
    let body = plain.take(TRAILER_START as int);
    let counts = count_table(body);
    let m = last_max(counts, 256);
    ||| byte_count(body, 0, body.len() as int) * 20 >= TRAILER_START
    ||| (m < 0x40 && counts[m] * 5 >= TRAILER_START)
}

/// Whether a decoded page looks like plaintext: at least 5% of its body
/// bytes are zero, or its most frequent body byte (the highest such
/// value on a tie) is below `0x40` and makes up at least 20% of the body.
pub fn looks_decoded(plain: &[u8]) -> (b: bool)
    requires
        plain@.len() >= TRAILER_START,
    ensures
        b == looks_decoded_spec(plain@),
{
    let body = &plain[0..TRAILER_START];
    assert(body@ =~= plain@.take(TRAILER_START as int));
    let h = byte_histogram(body);
    let ghost counts = count_table(body@);
    assert(h@ =~= counts);
    proof {
        lemma_byte_count_bounded(body@, 0, body@.len() as int);
    }
    if h[0] * 20 >= TRAILER_START {
        return true;
    }
    let mut m: usize = 0;
    let mut b: usize = 1;
    while b < 256
        invariant
            1 <= b <= 256,
            h@ == counts,
            counts.len() == 256,
            m == last_max(counts, b as int),
            m < b,
        decreases 256 - b,
    {
        if h[b] >= h[m] {
            m = b;
        }
        b = b + 1;
    }
    proof {
        lemma_byte_count_bounded(body@, m as u8, body@.len() as int);
    }
    m < 0x40 && h[m] * 5 >= TRAILER_START
}

/// The first decoding that looks like plaintext among those with the
/// `bv` of the anchor oracle, of the first-byte oracle, and of the
/// brute-force oracle, if any.
pub open spec fn oracle_decoding(raw: Seq<u8>, pn: u64) -> Option<Seq<u8>> {
    let anchored = match spec_recover_bv_qb(raw, pn) {
        Some(bv) => Some(spec_deobfuscate(raw, pn, bv)),
        None => None,
    };
    let first_byte = spec_deobfuscate(raw, pn, spec_oracle_bv(raw, pn));
    let brute = match spec_recover_bv_brute(raw, pn) {
        Some(bv) => Some(spec_deobfuscate(raw, pn, bv)),
        None => None,
    };
    if anchored is Some && looks_decoded_spec(anchored.unwrap()) {
        anchored
    } else if looks_decoded_spec(first_byte) {
        Some(first_byte)
    } else if brute is Some && looks_decoded_spec(brute.unwrap()) {
        brute
    } else {
        None
    }
}

/// Decode a raw page with the `bv` of the anchor oracle, then of the
/// first-byte oracle, then of the brute-force oracle, and return the
/// first decoding that looks like plaintext.
pub fn decode_with_oracles(pn: u64, raw: &[u8]) -> (r: Option<Vec<u8>>)
    requires
        raw@.len() == PAGE,
    ensures
        match oracle_decoding(raw@, pn) {
            Some(p) => r is Some && r.unwrap()@ == p,
            None => r is None,
        },
{
    match recover_bv_qb_data(pn, raw) {
        Some(bv) => {
            let p = deobfuscate_with_bv(raw, pn, bv);
            if looks_decoded(p.as_slice()) {
                return Some(p);
            }
        },
        None => {},
    }
    let bv = oracle_bv_e_page(pn, raw);
    let p = deobfuscate_with_bv(raw, pn, bv);
    if looks_decoded(p.as_slice()) {
        return Some(p);
    }
    match recover_bv_brute(pn, raw) {
        Some(bv) => {
            let p = deobfuscate_with_bv(raw, pn, bv);
            if looks_decoded(p.as_slice()) {
                return Some(p);
            }
        },
        None => {},
    }
    None
}

/// Decode a raw page with the oracles of [`decode_with_oracles`], and
/// else with the cipher model; return the decoding when it looks like
/// plaintext.
pub fn try_decode(store: &PageStore, model: &ApModel, pn: u64, raw: &[u8]) -> (r: Option<Vec<u8>>)
    requires
        raw@.len() == PAGE,
    ensures
        match oracle_decoding(raw@, pn) {
            Some(p) => r is Some && r.unwrap()@ == p,
            None => exists|bv: u8|
                {
                    &&& r is Some <==> looks_decoded_spec(#[trigger] spec_deobfuscate(raw@, pn, bv))
                    &&& r matches Some(p) ==> p@ == spec_deobfuscate(raw@, pn, bv)
                },
        },
{
    match decode_with_oracles(pn, raw) {
        Some(p) => Some(p),
        None => {
            let p = model_deobfuscate(model, raw, pn, store);
            let ghost bv = choose|bv: u8| p@ == spec_deobfuscate(raw@, pn, bv);
            assert(p@.len() == PAGE);
            if looks_decoded(p.as_slice()) {
                Some(p)
            } else {
                None
            }
        },
    }
}

/// The marker that follows a table-metadata record by 24 bytes.
pub const META_MARKER: [u8; 2] = [0xD5, 0x0B];

/// Distance from the start of a metadata record to its marker.
pub const META_MARKER_OFFSET: usize = 24;

/// Where the search for a metadata record ends: the body end, or the page
/// end when the page is shorter.
pub open spec fn meta_scan_end(plain: Seq<u8>) -> int {
    if plain.len() < TRAILER_START {
        plain.len() as int
    } else {
        TRAILER_START as int
    }
}

/// Whether the marker sits at `i` and the record 24 bytes before it
/// starts with the page number (its low 32 bits, little-endian).
pub open spec fn meta_at(plain: Seq<u8>, pn: u64, i: int) -> bool {
    &&& plain[i] == META_MARKER[0]
    &&& plain[i + 1] == META_MARKER[1]
    &&& le_u32(plain, i - META_MARKER_OFFSET) == pn as u32
}

/// The start of the first metadata record whose marker sits in `i..end`.
pub open spec fn first_meta(plain: Seq<u8>, pn: u64, i: int, end: int) -> Option<int>
    decreases end - i,
{
    if i + 2 > end {
        None
    } else if meta_at(plain, pn, i) {
        Some(i - META_MARKER_OFFSET)
    } else {
        first_meta(plain, pn, i + 1, end)
    }
}

/// The start of the first metadata record of page `pn` in a decoded page.
pub open spec fn meta_record(plain: Seq<u8>, pn: u64) -> Option<int> {
    if meta_scan_end(plain) < 26 {
        None
    } else {
        first_meta(plain, pn, META_MARKER_OFFSET as int, meta_scan_end(plain))
    }
}

/// Find the table-metadata record of page `pn`: the first `D5 0B` marker
/// in the body whose record, 24 bytes before it, starts with the page
/// number (its low 32 bits, little-endian). Returns the record's start.
pub fn find_meta(plain: &[u8], pn: u64) -> (r: Option<usize>)
    ensures
        match r {
            Some(so) => meta_record(plain@, pn) == Some(so as int) && so + 26 <= plain@.len(),
            None => meta_record(plain@, pn) is None,
        },
{
    let end = if plain.len() < TRAILER_START {
        plain.len()
    } else {
        TRAILER_START
    };
    if end < 26 {
        return None;
    }
    let target: u32 = #[verifier::truncate] (pn as u32);
    let mut i: usize = META_MARKER_OFFSET;
    while i + 2 <= end
        invariant
            end == meta_scan_end(plain@),
            26 <= end <= plain@.len(),
            META_MARKER_OFFSET <= i <= end,
            target == pn as u32,
            first_meta(plain@, pn, META_MARKER_OFFSET as int, end as int) == first_meta(plain@, pn, i as int, end as int),
        decreases end - i,
    {
        if plain[i] == META_MARKER[0] && plain[i + 1] == META_MARKER[1] {
            let so = i - META_MARKER_OFFSET;
            if read_le_u32(plain, so) == target {
                return Some(so);
            }
        }
        i = i + 1;
    }
    None
}

/// The little-endian `u16` at `i`.
pub open spec fn le_u16(s: Seq<u8>, i: int) -> u16 {
    (s[i] + s[i + 1] * 256) as u16
}

/// A fingerprint of a table's root page.
#[derive(Debug, Clone, Copy)]
pub struct PageProfile {
    /// Whether the metadata record was found.
    pub found: bool,
    /// The page-type byte of the trailer.
    pub page_type: u8,
    /// The `u16` at offset 6 of the metadata record.
    pub v06_07: u16,
    /// The `u16` at offset 12 of the metadata record.
    pub v12_13: u16,
    /// The byte at offset 14 of the metadata record.
    pub v14: u8,
    /// The `u16` at offset 34 of the metadata record.
    pub row_count: u16,
    /// The first 16 bytes of the decoded page.
    pub header16: [u8; 16],
}

/// The profile of a page that could not be read: all fields zero.
pub open spec fn blank_profile(p: PageProfile) -> bool {
    &&& !p.found
    &&& p.page_type == 0
    &&& p.v06_07 == 0
    &&& p.v12_13 == 0
    &&& p.v14 == 0
    &&& p.row_count == 0
    &&& p.header16@ == Seq::new(16, |i: int| 0u8)
}

/// `p` is the profile of decoded root page `plain` of page `root`, whose
/// trailer page-type byte classifies as `type_byte`.
pub open spec fn profile_of(p: PageProfile, plain: Seq<u8>, root: u32, type_byte: u8) -> bool {
    &&& p.page_type == type_byte
    &&& p.header16@ == plain.take(16)
    &&& match meta_record(plain, root as u64) {
        None => !p.found && p.v06_07 == 0 && p.v12_13 == 0 && p.v14 == 0 && p.row_count == 0,
        Some(so) => {
            &&& p.found
            &&& if so + 26 <= plain.len() {
                p.v06_07 == le_u16(plain, so + 6) && p.v12_13 == le_u16(plain, so + 12) && p.v14 == plain[so
                    + 14]
            } else {
                p.v06_07 == 0 && p.v12_13 == 0 && p.v14 == 0
            }
            &&& if so + 36 <= plain.len() {
                p.row_count == le_u16(plain, so + 34)
            } else {
                p.row_count == 0
            }
        },
    }
}

/// `p` is a profile that root page `root` of `pages` can yield: blank
/// for a missing page; otherwise the profile of a decoding of the page
/// that follows the anchor oracle.
pub open spec fn root_profile(pages: Seq<Seq<u8>>, root: u32, p: PageProfile) -> bool {
    if root >= pages.len() {
        blank_profile(p)
    } else {
        exists|plain: Seq<u8>|
            #[trigger] decoding_of(pages[root as int], root as u64, plain, spec_recover_bv_qb(pages[root as int], root as u64))
                && profile_of(p, plain, root, page_type_code(pages[root as int][PAGE_TYPE_OFFSET as int]))
    }
}

/// Profile the root page of a table: its page type, the first 16 bytes
/// of its decoding (with the anchor oracle's `bv`, else the cipher
/// model), and the fields of its metadata record when one is found.
pub fn profile_root(store: &PageStore, model: &ApModel, root: u32) -> (p: PageProfile)
    ensures
        root_profile(store_pages(*store), root, p),
{
    let raw = match page_bytes(store, root as u64) {
        Some(r) => r,
        None => {
            let p = PageProfile {
                found: false,
                page_type: 0,
                v06_07: 0,
                v12_13: 0,
                v14: 0,
                row_count: 0,
                header16: [0u8; 16],
            };
            assert(p.header16@ =~= Seq::new(16, |i: int| 0u8));
            return p;
        },
    };
    let page_type = page_type_byte(root as u64, raw);
    let plain = decode_page(store, model, root as u64, raw, BvOracle::Anchor);
    profile_decoded(plain.as_slice(), root, page_type)
}

/// The profile of decoded root page `plain` of page `root`, whose
/// trailer page-type byte classifies as `page_type`.
pub fn profile_decoded(plain: &[u8], root: u32, page_type: u8) -> (p: PageProfile)
    requires
        plain@.len() >= 16,
    ensures
        profile_of(p, plain@, root, page_type),
{
    let h = [
        plain[0],
        plain[1],
        plain[2],
        plain[3],
        plain[4],
        plain[5],
        plain[6],
        plain[7],
        plain[8],
        plain[9],
        plain[10],
        plain[11],
        plain[12],
        plain[13],
        plain[14],
        plain[15],
    ];
    assert(h@ =~= plain@.take(16));
    let mut p = PageProfile {
        found: false,
        page_type,
        v06_07: 0,
        v12_13: 0,
        v14: 0,
        row_count: 0,
        header16: h,
    };
    match find_meta(plain, root as u64) {
        Some(so) => {
            p.found = true;
            if plain.len() - so >= 26 {
                p.v06_07 = plain[so + 6] as u16 + (plain[so + 7] as u16) * 256;
                p.v12_13 = plain[so + 12] as u16 + (plain[so + 13] as u16) * 256;
                p.v14 = plain[so + 14];
            }
            if plain.len() - so >= 36 {
                p.row_count = plain[so + 34] as u16 + (plain[so + 35] as u16) * 256;
            }
        },
        None => {},
    }
    p
}

/// Whether a catalog row's root page is an extent page of the store.
pub open spec fn has_extent_root(pages: Seq<Seq<u8>>, e: SysTableEntry) -> bool {
    match e.data_root_page {
        Some(root) => root < pages.len() && is_extent(pages[root as int]),
        None => false,
    }
}

/// Profile the root page of every catalog row whose root is an extent
/// page: each such row's name, root page and profile, in catalog order.
pub fn profile_extent_roots(store: &PageStore, model: &ApModel, entries: &[SysTableEntry]) -> (r: Vec<
    (String, u32, PageProfile),
>)
    ensures
        ({
            let rooted = entries@.filter(|e: SysTableEntry| has_extent_root(store_pages(*store), e));
            &&& r@.len() == rooted.len()
            &&& forall|k: int|
                0 <= k < r@.len() ==> {
                    &&& (#[trigger] r@[k]).0 == rooted[k].name
                    &&& rooted[k].data_root_page == Some(r@[k].1)
                    &&& root_profile(store_pages(*store), r@[k].1, r@[k].2)
                }
        }),
{
    let ghost pages = store_pages(*store);
    let mut r: Vec<(String, u32, PageProfile)> = Vec::new();
    let mut i: usize = 0;
    proof {
        reveal(Seq::filter);
        assert(entries@.take(0) =~= Seq::<SysTableEntry>::empty());
    }
    while i < entries.len()
        invariant
            i <= entries@.len(),
            pages == store_pages(*store),
            ({
                let rooted = entries@.take(i as int).filter(|e: SysTableEntry| has_extent_root(pages, e));
                &&& r@.len() == rooted.len()
                &&& forall|k: int|
                    0 <= k < r@.len() ==> {
                        &&& (#[trigger] r@[k]).0 == rooted[k].name
                        &&& rooted[k].data_root_page == Some(r@[k].1)
                        &&& root_profile(pages, r@[k].1, r@[k].2)
                    }
            }),
        decreases entries@.len() - i,
    {
        let e = &entries[i];
        proof {
            assert(entries@.take(i + 1) =~= entries@.take(i as int).push(*e));
            lemma_filter_push(entries@.take(i as int), *e, |e: SysTableEntry| has_extent_root(pages, e));
        }
        match e.data_root_page {
            Some(root) => {
                match page_bytes(store, root as u64) {
                    Some(raw) => {
                        if is_extent_page(root as u64, raw) {
                            let prof = profile_root(store, model, root);
                            r.push((e.name.clone(), root, prof));
                        }
                    },
                    None => {},
                }
            },
            None => {},
        }
        i = i + 1;
    }
    assert(entries@.take(i as int) =~= entries@);
    r
}

/// The bucket of a run length: the largest of 0, 4, 8, 16, 32, 64, 128
/// and 256 that is at most the length (runs of 1 to 3 go to 0).
pub open spec fn run_bucket_of(len: int) -> u32 {
    if len <= 3 {
        0
    } else if len <= 7 {
        4
    } else if len <= 15 {
        8
    } else if len <= 31 {
        16
    } else if len <= 63 {
        32
    } else if len <= 127 {
        64
    } else if len <= 255 {
        128
    } else {
        256
    }
}

/// The bucket of a run length: the largest of 0, 4, 8, 16, 32, 64, 128
/// and 256 that is at most the length (runs of 1 to 3 go to 0).
pub fn run_bucket(len: usize) -> (b: u32)
    ensures
        b == run_bucket_of(len as int),
{
    if len <= 3 {
        0
    } else if len <= 7 {
        4
    } else if len <= 15 {
        8
    } else if len <= 31 {
        16
    } else if len <= 63 {
        32
    } else if len <= 127 {
        64
    } else if len <= 255 {
        128
    } else {
        256
    }
}

/// Whether at least 5% of the body bytes of a decoded page are zero.
pub open spec fn zero_rich(plain: Seq<u8>) -> bool {
    byte_count(plain.take(TRAILER_START as int), 0, TRAILER_START as int) * 20 >= TRAILER_START
}

/// Whether at least 5% of the body bytes of a decoded page are zero.
pub fn is_zero_rich(plain: &[u8]) -> (b: bool)
    requires
        plain@.len() >= TRAILER_START,
    ensures
        b == zero_rich(plain@),
{
    let body = &plain[0..TRAILER_START];
    assert(body@ =~= plain@.take(TRAILER_START as int));
    let h = byte_histogram(body);
    proof {
        lemma_byte_count_bounded(body@, 0, body@.len() as int);
    }
    h[0] * 20 >= TRAILER_START
}

/// The outcome of the decoding cascade on an extent page, given the
/// model's decoding `m`: `true` when some decoding looks like plaintext.
pub open spec fn cascade_decodes(raw: Seq<u8>, pn: u64, m: Seq<u8>) -> bool {
    oracle_decoding(raw, pn) is Some || looks_decoded_spec(m)
}

/// `failed` lists the extent pages among `1..n` on which the cascade
/// finds no plaintext, given the model's decoding `models[pn]` of each,
/// in page order.
pub open spec fn failed_pages_of(pages: Seq<Seq<u8>>, models: Seq<Seq<u8>>, n: int) -> Seq<u64>
    decreases n,
{
    if n <= 1 {
        Seq::empty()
    } else {
        let p = failed_pages_of(pages, models, n - 1);
        let pn = n - 1;
        if is_extent(pages[pn]) && !cascade_decodes(pages[pn], pn as u64, models[pn]) {
            p.push(pn as u64)
        } else {
            p
        }
    }
}

/// How many of the pages `1..n` are extent pages.
pub open spec fn extent_count(pages: Seq<Seq<u8>>, n: int) -> nat
    decreases n,
{
    if n <= 1 {
        0
    } else {
        extent_count(pages, n - 1) + if is_extent(pages[n - 1]) {
            1nat
        } else {
            0nat
        }
    }
}

/// `models[pn]` is a decoding of page `pn` with some `bv`, for every
/// extent page after the first.
pub open spec fn model_decodings(pages: Seq<Seq<u8>>, models: Seq<Seq<u8>>) -> bool {
    &&& models.len() == pages.len()
    &&& forall|pn: int|
        1 <= pn < pages.len() && is_extent(pages[pn]) ==> decoding_of(pages[pn], pn as u64, #[trigger] models[pn], None)
}

proof fn lemma_extent_count_bounded(pages: Seq<Seq<u8>>, n: int)
    requires
        1 <= n,
    ensures
        extent_count(pages, n) <= n - 1,
    decreases n,
{
    if n > 1 {
        lemma_extent_count_bounded(pages, n - 1);
    }
}

proof fn lemma_failed_pages_prefix(pages: Seq<Seq<u8>>, m1: Seq<Seq<u8>>, m2: Seq<Seq<u8>>, n: int)
    requires
        forall|q: int| 1 <= q < n ==> #[trigger] m1[q] == m2[q],
    ensures
        failed_pages_of(pages, m1, n) == failed_pages_of(pages, m2, n),
    decreases n,
{
    if n > 1 {
        lemma_failed_pages_prefix(pages, m1, m2, n - 1);
        assert(m1[n - 1] == m2[n - 1]);
    }
}

/// Whether the decoding cascade finds no plaintext on a page, with the
/// model's decoding of it.
fn cascade_fails(store: &PageStore, model: &ApModel, pn: u64, raw: &[u8]) -> (r: bool)
    requires
        raw@.len() == PAGE,
    ensures
        exists|bv: u8| r == !cascade_decodes(raw@, pn, #[trigger] spec_deobfuscate(raw@, pn, bv)),
{
    match decode_with_oracles(pn, raw) {
        Some(_) => {
            assert(!cascade_decodes(raw@, pn, spec_deobfuscate(raw@, pn, 0)) == false);
            false
        },
        None => {
            let m = model_deobfuscate(model, raw, pn, store);
            let ghost bv = choose|bv: u8| m@ == spec_deobfuscate(raw@, pn, bv);
            assert(m@.len() == PAGE);
            let looks = looks_decoded(m.as_slice());
            assert(!looks == !cascade_decodes(raw@, pn, spec_deobfuscate(raw@, pn, bv)));
            !looks
        },
    }
}

/// Count the extent pages after the first, and list those on which the
/// decoding cascade ([`try_decode`]) finds no plaintext, in page order.
pub fn undecodable_pages(store: &PageStore, model: &ApModel) -> (r: (u64, Vec<u64>))
    ensures
        ({
            let pages = store_pages(*store);
            let n = if pages.len() == 0 {
                1
            } else {
                pages.len() as int
            };
            &&& r.0 == extent_count(pages, n)
            &&& exists|models: Seq<Seq<u8>>|
                #[trigger] model_decodings(pages, models) && r.1@ == failed_pages_of(pages, models, n)
        }),
{
    let ghost pages = store_pages(*store);
    let n = page_count(store);
    let ghost mut models: Seq<Seq<u8>> = Seq::new(pages.len(), |i: int| spec_deobfuscate(pages[i], i as u64, 0));
    proof {
        assert forall|q: int| 1 <= q < pages.len() && is_extent(pages[q]) implies decoding_of(
            pages[q],
            q as u64,
            #[trigger] models[q],
            None,
        ) by {
            assert(models[q] == spec_deobfuscate(pages[q], q as u64, 0));
        }
    }
    let mut total: u64 = 0;
    let mut failed: Vec<u64> = Vec::new();
    if n == 0 {
        assert(model_decodings(pages, models));
        return (0, failed);
    }
    let mut pn: u64 = 1;
    while pn < n
        invariant
            n == pages.len(),
            pages == store_pages(*store),
            1 <= pn <= n,
            models.len() == pages.len(),
            forall|q: int|
                1 <= q < pages.len() && is_extent(pages[q]) ==> decoding_of(pages[q], q as u64, #[trigger] models[q], None),
            total == extent_count(pages, pn as int),
            failed@ == failed_pages_of(pages, models, pn as int),
        decreases n - pn,
    {
        let raw = page_bytes(store, pn).unwrap();
        proof {
            lemma_extent_count_bounded(pages, pn as int);
        }
        if is_extent_page(pn, raw) {
            total = total + 1;
            let fails = cascade_fails(store, model, pn, raw);
            proof {
                let bv = choose|bv: u8| fails == !cascade_decodes(raw@, pn, #[trigger] spec_deobfuscate(raw@, pn, bv));
                let old_models = models;
                models = models.update(pn as int, spec_deobfuscate(raw@, pn, bv));
                lemma_failed_pages_prefix(pages, old_models, models, pn as int);
                assert forall|q: int| 1 <= q < pages.len() && is_extent(pages[q]) implies decoding_of(
                    pages[q],
                    q as u64,
                    #[trigger] models[q],
                    None,
                ) by {
                    if q == pn {
                        assert(models[q] == spec_deobfuscate(pages[q], q as u64, bv));
                    } else {
                        assert(models[q] == old_models[q]);
                    }
                }
            }
            if fails {
                failed.push(pn);
            }
        }
        pn = pn + 1;
    }
    assert(model_decodings(pages, models));
    (total, failed)
}

/// The `bv` an oracle answers for a page: the anchor oracle, else the
/// brute-force oracle.
pub open spec fn anchor_or_brute_bv(raw: Seq<u8>, pn: u64) -> Option<u8> {
    match spec_recover_bv_qb(raw, pn) {
        Some(bv) => Some(bv),
        None => spec_recover_bv_brute(raw, pn),
    }
}

/// The extent pages among `lo..hi` other than `pn`, each with the `bv`
/// that the anchor or brute-force oracle answers for it, in page order.
pub open spec fn siblings_of(pages: Seq<Seq<u8>>, pn: u64, lo: int, hi: int) -> Seq<(u64, Option<u8>)>
    decreases hi - lo,
{
    if hi <= lo {
        Seq::empty()
    } else {
        let p = siblings_of(pages, pn, lo, hi - 1);
        if hi - 1 != pn && is_extent(pages[hi - 1]) {
            p.push(((hi - 1) as u64, anchor_or_brute_bv(pages[hi - 1], (hi - 1) as u64)))
        } else {
            p
        }
    }
}

/// The first page of the 8-page block of `pn`.
pub open spec fn block_start(pn: u64) -> int {
    (pn / 8) * 8
}

/// The end of the block of `pn`, capped at `n`.
pub open spec fn block_end(pn: u64, n: int) -> int {
    if block_start(pn) + 8 < n {
        block_start(pn) + 8
    } else {
        n
    }
}

/// The extent pages of the 8-page block of `pn`, other than `pn`, each
/// with the `bv` that the anchor oracle, else the brute-force oracle,
/// answers for it.
pub fn block_siblings(store: &PageStore, pn: u64) -> (r: Vec<(u64, Option<u8>)>)
    ensures
        r@ == siblings_of(store_pages(*store), pn, block_start(pn), block_end(pn, store_pages(*store).len() as int)),
{
    let ghost pages = store_pages(*store);
    let n = page_count(store);
    let start = (pn / 8) * 8;
    let end = if start < n && n - start > 8 {
        start + 8
    } else {
        n
    };
    let mut r: Vec<(u64, Option<u8>)> = Vec::new();
    let mut sib = start;
    while sib < end
        invariant
            start <= sib,
            sib <= end || (end < start && sib == start),
            end <= n,
            start == block_start(pn),
            end == block_end(pn, n as int),
            n == pages.len(),
            pages == store_pages(*store),
            r@ == siblings_of(pages, pn, start as int, sib as int),
        decreases end - sib,
    {
        let raw = page_bytes(store, sib).unwrap();
        if sib != pn && is_extent_page(sib, raw) {
            let bv = match recover_bv_qb_data(sib, raw) {
                Some(b) => Some(b),
                None => recover_bv_brute(sib, raw),
            };
            r.push((sib, bv));
        }
        sib = sib + 1;
    }
    proof {
        if end < start {
            assert(siblings_of(pages, pn, start as int, end as int) =~= Seq::<(u64, Option<u8>)>::empty());
            assert(siblings_of(pages, pn, start as int, start as int) =~= Seq::<(u64, Option<u8>)>::empty());
        }
    }
    r
}

/// The first sibling `bv` under which page `raw` (number `pn`) decodes
/// to a zero-rich body.
pub open spec fn rescue_from(raw: Seq<u8>, pn: u64, sibs: Seq<(u64, Option<u8>)>, i: int) -> Option<u8>
    decreases sibs.len() - i,
{
    if i < 0 || i >= sibs.len() {
        None
    } else {
        match sibs[i].1 {
            Some(bv) => if zero_rich(spec_deobfuscate(raw, pn, bv)) {
                Some(bv)
            } else {
                rescue_from(raw, pn, sibs, i + 1)
            },
            None => rescue_from(raw, pn, sibs, i + 1),
        }
    }
}

/// The first `bv` among those of the siblings under which page `raw`
/// (number `pn`) decodes to a body at least 5% zero.
pub fn rescue_bv(raw: &[u8], pn: u64, siblings: &[(u64, Option<u8>)]) -> (r: Option<u8>)
    requires
        raw@.len() == PAGE,
    ensures
        r == rescue_from(raw@, pn, siblings@, 0),
{
    let mut i: usize = 0;
    while i < siblings.len()
        invariant
            i <= siblings@.len(),
            raw@.len() == PAGE,
            rescue_from(raw@, pn, siblings@, 0) == rescue_from(raw@, pn, siblings@, i as int),
        decreases siblings@.len() - i,
    {
        match siblings[i].1 {
            Some(bv) => {
                let p = deobfuscate_with_bv(raw, pn, bv);
                if is_zero_rich(p.as_slice()) {
                    return Some(bv);
                }
            },
            None => {},
        }
        i = i + 1;
    }
    None
}

} // verus!
