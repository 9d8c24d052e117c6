//! Content-signature page-to-table attribution.
//!
//! Where [`crate::page_attribution::PageAttribution`] attributes pages by
//! their position, this module attributes them by row layout: the first
//! [`SIG_LEN`] bytes of a page's first row form a column-type signature
//! that is, empirically, unique per table. The signature of each
//! `SYSTABLE` row's root page is recorded; signatures shared by several
//! rows are left out so that attribution stays strict.

use vstd::prelude::*;
use crate::sorting::{backwards, into_stack, lemma_backwards_front};
use opensqlany::{ApModel, PageStore};
use crate::bv_recovery::{spec_recover_bv_qb, PAGE};
use crate::codec::{bytes_equal, lemma_filter_push};
use crate::decode::{decode_page, decoding_of, BvOracle};
use crate::page_attribution::{attributed_row, PageAttribution};
use crate::store::{is_extent, is_extent_page, page_bytes, page_rows, slotted_rows, store_pages};
use crate::systable::{iter_systable_entries, systable_scanned_from, SysTableEntry};
use crate::text::{ascii_to_string, string_bytes};

verus! {

/// Length of the row prefix used as a table signature.
pub const SIG_LEN: usize = 12;

/// A row prefix used as a table fingerprint.
#[derive(Debug, Clone, PartialEq, Eq, PartialOrd, Ord, Hash)]
pub struct RowSignature(Vec<u8>);

impl View for RowSignature {
    type V = Seq<u8>;

    closed spec fn view(&self) -> Seq<u8> {
        self.0@
    }
}

/// The signature of a row: its first `SIG_LEN` bytes, or the whole row
/// when it is shorter.
pub open spec fn signature_of(row: Seq<u8>) -> Seq<u8> {
    if row.len() < SIG_LEN {
        row
    } else {
        row.take(SIG_LEN as int)
    }
}

/// The ASCII hex digit of a nibble.
pub open spec fn hex_digit(n: int) -> u8 {
    if n < 10 {
        (0x30 + n) as u8
    } else {
        (0x61 + n - 10) as u8
    }
}

/// The bytes as two lower-case hex digits each, separated by spaces.
pub open spec fn hex_text(s: Seq<u8>) -> Seq<u8>
    decreases s.len(),
{
    if s.len() == 0 {
        Seq::empty()
    } else {
        let head = hex_text(s.drop_last());
        let pair = seq![hex_digit(s.last() as int / 16), hex_digit(s.last() as int % 16)];
        if s.len() == 1 {
            pair
        } else {
            head + seq![0x20u8] + pair
        }
    }
}

impl RowSignature {
    /// The signature of `row`: its first [`SIG_LEN`] bytes, or the whole
    /// row when it is shorter.
    pub fn from_row(row: &[u8]) -> (r: Self)
        ensures
            r@ == signature_of(row@),
    {
        let take = if row.len() < SIG_LEN {
            row.len()
        } else {
            SIG_LEN
        };
        let mut v: Vec<u8> = Vec::new();
        let mut i: usize = 0;
        while i < take
            invariant
                take <= row@.len(),
                i <= take,
                v@ == row@.take(i as int),
            decreases take - i,
        {
            v.push(row[i]);
            assert(row@.take(i + 1) =~= row@.take(i as int).push(row@[i as int]));
            i = i + 1;
        }
        assert(row@.take(take as int) =~= signature_of(row@));
        RowSignature(v)
    }

    /// The signature bytes.
    pub fn as_bytes(&self) -> (r: &[u8])
        ensures
            r@ == self@,
    {
        self.0.as_slice()
    }

    /// The signature as hex: two lower-case digits per byte, separated by
    /// single spaces.
    pub fn to_hex(&self) -> (r: String)
        ensures
            string_bytes(r) == hex_text(self@),
    {
        let bytes = self.0.as_slice();
        let mut out: Vec<u8> = Vec::new();
        let mut i: usize = 0;
        while i < bytes.len()
            invariant
                i <= bytes@.len(),
                out@ == hex_text(bytes@.take(i as int)),
                forall|k: int| 0 <= k < out@.len() ==> #[trigger] out@[k] <= 0x7f,
            decreases bytes@.len() - i,
        {
            let b = bytes[i];
            let hi = b / 16;
            let lo = b % 16;
            let dh = if hi < 10 {
                0x30 + hi
            } else {
                0x61 + hi - 10
            };
            let dl = if lo < 10 {
                0x30 + lo
            } else {
                0x61 + lo - 10
            };
            let ghost before = out@;
            if i > 0 {
                out.push(0x20);
            }
            out.push(dh);
            out.push(dl);
            proof {
                let t = bytes@.take(i + 1);
                assert(t.drop_last() =~= bytes@.take(i as int));
                assert(t.last() == b);
                if i == 0 {
                    assert(out@ =~= seq![hex_digit(b as int / 16), hex_digit(b as int % 16)]);
                } else {
                    assert(out@ =~= before + seq![0x20u8] + seq![hex_digit(b as int / 16), hex_digit(b as int % 16)]);
                }
            }
            i = i + 1;
        }
        proof {
            assert(bytes@.take(i as int) =~= bytes@);
        }
        ascii_to_string(out.as_slice())
    }
}

/// Statistics of comparing the position and content attributions over a
/// set of pages.
#[derive(Debug, Clone, Copy)]
pub struct AttributionAgreement {
    /// Pages where both give the same table name.
    pub agree: u64,
    /// Pages where both give a name and the names differ.
    pub disagree: u64,
    /// Pages where only the position attribution gives a name.
    pub only_position: u64,
    /// Pages where only the content attribution gives a name.
    pub only_content: u64,
    /// Pages where neither gives a name.
    pub neither: u64,
}

impl AttributionAgreement {
    /// Total pages compared.
    pub fn total(&self) -> (t: u64)
        requires
            self.agree + self.disagree + self.only_position + self.only_content + self.neither <= u64::MAX,
        ensures
            t == self.agree + self.disagree + self.only_position + self.only_content + self.neither,
    {
        self.agree + self.disagree + self.only_position + self.only_content + self.neither
    }
}

/// The signature of the first row of a decoded page, if it has rows.
pub open spec fn first_row_signature(plain: Seq<u8>) -> Option<Seq<u8>> {
    let rows = slotted_rows(plain.subrange(0, PAGE as int));
    if rows.len() == 0 {
        None
    } else {
        Some(signature_of(rows[0]))
    }
}

/// `sig` is a signature that page `pn` of `pages` can yield: none for a
/// missing or non-extent page; otherwise the first-row signature of a
/// decoding of the page that follows the anchor oracle.
pub open spec fn page_signature(pages: Seq<Seq<u8>>, pn: u64, sig: Option<Seq<u8>>) -> bool {
    if pn >= pages.len() || !is_extent(pages[pn as int]) {
        sig is None
    } else {
        exists|plain: Seq<u8>|
            decoding_of(pages[pn as int], pn, plain, spec_recover_bv_qb(pages[pn as int], pn)) && plain.len() == PAGE
                && sig == first_row_signature(plain)
    }
}

/// Decode page `page_number` and return the signature of its first row.
pub fn extract_signature(store: &PageStore, model: &ApModel, page_number: u64) -> (r: Option<RowSignature>)
    ensures
        page_signature(
            store_pages(*store),
            page_number,
            match r {
                Some(s) => Some(s@),
                None => None,
            },
        ),
{
    let raw = match page_bytes(store, page_number) {
        Some(r) => r,
        None => return None,
    };
    if !is_extent_page(page_number, raw) {
        return None;
    }
    let plain = decode_page(store, model, page_number, raw, BvOracle::Anchor);
    let rows = page_rows(page_number, plain.as_slice());
    if rows.len() == 0 {
        assert(first_row_signature(plain@) is None);
        return None;
    }
    let sig = RowSignature::from_row(rows[0].as_slice());
    assert(first_row_signature(plain@) == Some(sig@));
    Some(sig)
}

/// A signature and the row it identifies.
pub type SignedRow = (RowSignature, SysTableEntry);

/// Content-signature attribution map.
#[derive(Debug, Clone)]
pub struct ContentAttribution {
    unique: Vec<SignedRow>,
    ambiguous_count: usize,
    skipped_count: usize,
}

/// The signatures as bytes.
pub open spec fn sig_views(sigs: Seq<Option<RowSignature>>) -> Seq<Option<Seq<u8>>> {
    sigs.map_values(|o: Option<RowSignature>| match o {
        Some(x) => Some(x@),
        None => None,
    })
}

/// How many rows have signature `s`.
pub open spec fn sig_count(sigs: Seq<Option<Seq<u8>>>, s: Seq<u8>) -> nat {
    sigs.filter(|x: Option<Seq<u8>>| x == Some(s)).len()
}

/// The rows with their signatures.
pub open spec fn signed_rows(sigs: Seq<Option<Seq<u8>>>, rows: Seq<SysTableEntry>) -> Seq<(Option<Seq<u8>>, SysTableEntry)> {
    Seq::new(rows.len(), |i: int| (sigs[i], rows[i]))
}

/// Whether a row's signature is held by it alone among `sigs`.
pub open spec fn unique_signed(sigs: Seq<Option<Seq<u8>>>) -> spec_fn((Option<Seq<u8>>, SysTableEntry)) -> bool {
    |p: (Option<Seq<u8>>, SysTableEntry)| p.0 is Some && sig_count(sigs, p.0.unwrap()) == 1
}

/// The rows whose signature no other row shares, in order.
pub open spec fn unique_rows(sigs: Seq<Option<Seq<u8>>>, rows: Seq<SysTableEntry>) -> Seq<(Option<Seq<u8>>, SysTableEntry)> {
    signed_rows(sigs, rows).filter(unique_signed(sigs))
}

/// Whether index `i` is the first row with a signature shared by several
/// rows.
pub open spec fn first_shared(sigs: Seq<Option<Seq<u8>>>) -> spec_fn(int) -> bool {
    |i: int|
        0 <= i < sigs.len() && sigs[i] is Some && sig_count(sigs, sigs[i].unwrap()) >= 2 && forall|j: int|
            0 <= j < i ==> sigs[j] != sigs[i]
}

/// The number of distinct signatures shared by several rows.
pub open spec fn shared_count(sigs: Seq<Option<Seq<u8>>>) -> nat {
    Seq::new(sigs.len(), |i: int| i).filter(first_shared(sigs)).len()
}

/// The number of rows without a signature.
pub open spec fn unsigned_count(sigs: Seq<Option<Seq<u8>>>) -> nat {
    sigs.filter(|x: Option<Seq<u8>>| x is None).len()
}

/// `sv` are signatures that the root pages of `rows` can yield (none for
/// a row without root page).
pub open spec fn roots_signed(store_pages: Seq<Seq<u8>>, rows: Seq<SysTableEntry>, sv: Seq<Option<Seq<u8>>>) -> bool {
    &&& sv.len() == rows.len()
    &&& forall|i: int|
        0 <= i < rows.len() ==> match (#[trigger] rows[i]).data_root_page {
            Some(root) => page_signature(store_pages, root as u64, sv[i]),
            None => sv[i] is None,
        }
}

impl ContentAttribution {
    /// The rows kept, with their signatures, in catalog order.
    pub closed spec fn signed(&self) -> Seq<(Seq<u8>, SysTableEntry)> {
        self.unique@.map_values(|p: SignedRow| (p.0@, p.1))
    }

    /// The counts recorded at construction: ambiguous and skipped.
    pub closed spec fn counts(&self) -> (usize, usize) {
        (self.ambiguous_count, self.skipped_count)
    }

    /// Build the map from a catalog and the signature of each of its rows'
    /// root pages (`None` when a row contributed none): the rows whose
    /// signature is held by no other row are kept, the distinct shared
    /// signatures are counted as ambiguous, the rows without signature as
    /// skipped.
    pub fn from_signatures(rows: Vec<SysTableEntry>, sigs: Vec<Option<RowSignature>>) -> (r: Self)
        requires
            rows@.len() == sigs@.len(),
        ensures
            ({
                let sv = sig_views(sigs@);
                &&& r.signed() == unique_rows(sv, rows@).map_values(|p: (Option<Seq<u8>>, SysTableEntry)| (p.0.unwrap(), p.1))
                &&& r.counts() == (shared_count(sv) as usize, unsigned_count(sv) as usize)
            }),
    {
        let ghost sv = sig_views(sigs@);
        let ghost rv = rows@;
        let n = rows.len();
        let mut counts: Vec<usize> = Vec::new();
        let mut i: usize = 0;
        while i < n
            invariant
                n == rv.len(),
                n == sigs@.len(),
                sv == sig_views(sigs@),
                i <= n,
                counts@.len() == i,
                forall|k: int| 0 <= k < i && sv[k] is Some ==> #[trigger] counts@[k] == sig_count(sv, sv[k].unwrap()),
            decreases n - i,
        {
            let c = match &sigs[i] {
                Some(s) => count_sig(&sigs, s),
                None => 0,
            };
            counts.push(c);
            i = i + 1;
        }
        let mut unique: Vec<SignedRow> = Vec::new();
        let mut ambiguous: usize = 0;
        let mut skipped: usize = 0;
        let mut rest = into_stack(rows);
        let mut k: usize = 0;
        proof {
            reveal(Seq::filter);
            assert(signed_rows(sv, rv).take(0) =~= Seq::<(Option<Seq<u8>>, SysTableEntry)>::empty());
            assert(sv.take(0) =~= Seq::<Option<Seq<u8>>>::empty());
            assert(Seq::new(0, |j: int| j) =~= Seq::<int>::empty());
        }
        while rest.len() > 0
            invariant
                n == rv.len(),
                n == sigs@.len(),
                sv == sig_views(sigs@),
                n == counts@.len(),
                k <= n,
                rest@ == backwards(rv.subrange(k as int, n as int)),
                forall|j: int| 0 <= j < n && sv[j] is Some ==> #[trigger] counts@[j] == sig_count(sv, sv[j].unwrap()),
                unique@.map_values(|p: SignedRow| (p.0@, p.1)) == signed_rows(sv, rv).take(k as int).filter(unique_signed(sv)).map_values(
                    |p: (Option<Seq<u8>>, SysTableEntry)| (p.0.unwrap(), p.1),
                ),
                ambiguous == Seq::new(k as nat, |j: int| j).filter(first_shared(sv)).len(),
                skipped == sv.take(k as int).filter(|x: Option<Seq<u8>>| x is None).len(),
                ambiguous <= k,
                skipped <= k,
            decreases rest@.len(),
        {
            proof {
                lemma_backwards_front(rv.subrange(k as int, n as int));
            }
            let e = rest.pop().unwrap();
            let ghost pr = (sv[k as int], e);
            proof {
                assert(e == rv[k as int]);
                assert(signed_rows(sv, rv).take(k + 1) =~= signed_rows(sv, rv).take(k as int).push(pr));
                assert(sv.take(k + 1) =~= sv.take(k as int).push(sv[k as int]));
                assert(Seq::new((k + 1) as nat, |j: int| j) =~= Seq::new(k as nat, |j: int| j).push(k as int));
                lemma_filter_push(signed_rows(sv, rv).take(k as int), pr, unique_signed(sv));
                lemma_filter_push(sv.take(k as int), sv[k as int], |x: Option<Seq<u8>>| x is None);
                lemma_filter_push(Seq::new(k as nat, |j: int| j), k as int, first_shared(sv));
            }
            match &sigs[k] {
                Some(s) => {
                    let c = counts[k];
                    if c == 1 {
                        let ghost before = unique@;
                        unique.push((s.clone_sig(), e));
                        proof {
                            assert(unique@.map_values(|p: SignedRow| (p.0@, p.1)) =~= before.map_values(|p: SignedRow| (p.0@, p.1)).push((s@, e)));
                        }
                    } else {
                        proof {
                            let pred = |x: Option<Seq<u8>>| x == Some(s@);
                            sv.filter_lemma(pred);
                            assert(sv.filter(pred).contains(sv[k as int]));
                        }
                        let first = !seen_before(&sigs, k, s);
                        if first {
                            ambiguous = ambiguous + 1;
                        }
                    }
                },
                None => {
                    skipped = skipped + 1;
                },
            }
            k = k + 1;
            assert(rv.subrange(k as int - 1, n as int).drop_first() =~= rv.subrange(k as int, n as int));
        }
        proof {
            assert(signed_rows(sv, rv).take(n as int) =~= signed_rows(sv, rv));
            assert(sv.take(n as int) =~= sv);
        }
        ContentAttribution { unique, ambiguous_count: ambiguous, skipped_count: skipped }
    }

    /// Build the map by reading every `SYSTABLE` row and the signature of
    /// its root page.
    pub fn build(store: &PageStore, model: &ApModel) -> (r: Self)
        ensures
            exists|rows: Seq<SysTableEntry>, sv: Seq<Option<Seq<u8>>>|
                #[trigger] roots_signed(store_pages(*store), rows, sv) && systable_scanned_from(*store, rows)
                    && r.signed() == unique_rows(sv, rows).map_values(
                    |p: (Option<Seq<u8>>, SysTableEntry)| (p.0.unwrap(), p.1),
                ) && r.counts() == (shared_count(sv) as usize, unsigned_count(sv) as usize),
    {
        let entries = iter_systable_entries(store, model);
        let mut sigs: Vec<Option<RowSignature>> = Vec::new();
        let mut i: usize = 0;
        while i < entries.len()
            invariant
                i <= entries@.len(),
                sigs@.len() == i,
                forall|k: int|
                    0 <= k < i ==> match (#[trigger] entries@[k]).data_root_page {
                        Some(root) => page_signature(
                            store_pages(*store),
                            root as u64,
                            match sigs@[k] {
                                Some(s) => Some(s@),
                                None => None,
                            },
                        ),
                        None => sigs@[k] is None,
                    },
            decreases entries@.len() - i,
        {
            let sig = match entries[i].data_root_page {
                Some(root) => extract_signature(store, model, root as u64),
                None => None,
            };
            sigs.push(sig);
            i = i + 1;
        }
        let ghost rows = entries@;
        let ghost sv = sig_views(sigs@);
        let r = Self::from_signatures(entries, sigs);
        assert(roots_signed(store_pages(*store), rows, sv));
        r
    }

    /// The row whose signature is `sig`, among the kept rows.
    pub fn lookup(&self, sig: &RowSignature) -> (r: Option<&SysTableEntry>)
        ensures
            match signed_lookup(self.signed(), sig@) {
                Some(e) => r == Some(&e),
                None => r is None,
            },
    {
        let mut i: usize = 0;
        while i < self.unique.len()
            invariant
                i <= self.unique@.len(),
                signed_lookup(self.signed(), sig@) == signed_lookup_from(self.signed(), sig@, i as int),
            decreases self.unique@.len() - i,
        {
            if bytes_equal(self.unique[i].0.as_bytes(), sig.as_bytes()) {
                return Some(&self.unique[i].1);
            }
            i = i + 1;
        }
        None
    }

    /// The table whose root page has the same first-row signature as page
    /// `page_number`; `None` when the page yields no signature or no kept
    /// row has it.
    pub fn attribute(&self, store: &PageStore, model: &ApModel, page_number: u64) -> (r: Option<&SysTableEntry>)
        ensures
            exists|sig: Option<Seq<u8>>|
                #[trigger] page_signature(store_pages(*store), page_number, sig) && match content_row(self.signed(), sig) {
                    Some(e) => r == Some(&e),
                    None => r is None,
                },
    {
        let sig = extract_signature(store, model, page_number);
        match sig {
            Some(s) => self.lookup(&s),
            None => None,
        }
    }

    /// Number of kept signatures.
    pub fn len(&self) -> (n: usize)
        ensures
            n == self.signed().len(),
    {
        self.unique.len()
    }

    /// Whether no signature was kept.
    pub fn is_empty(&self) -> (b: bool)
        ensures
            b == (self.signed().len() == 0),
    {
        self.unique.len() == 0
    }

    /// Number of distinct signatures shared by several rows.
    pub fn ambiguous_count(&self) -> (n: usize)
        ensures
            n == self.counts().0,
    {
        self.ambiguous_count
    }

    /// Number of rows that contributed no signature.
    pub fn skipped_count(&self) -> (n: usize)
        ensures
            n == self.counts().1,
    {
        self.skipped_count
    }
}

/// The kept row whose signature is `sig`, if any.
pub open spec fn content_row(signed: Seq<(Seq<u8>, SysTableEntry)>, sig: Option<Seq<u8>>) -> Option<SysTableEntry> {
    match sig {
        Some(s) => signed_lookup(signed, s),
        None => None,
    }
}

/// The first kept row with signature `sig`, from index `i` on.
pub open spec fn signed_lookup_from(signed: Seq<(Seq<u8>, SysTableEntry)>, sig: Seq<u8>, i: int) -> Option<SysTableEntry>
    decreases signed.len() - i,
{
    if i < 0 || i >= signed.len() {
        None
    } else if signed[i].0 == sig {
        Some(signed[i].1)
    } else {
        signed_lookup_from(signed, sig, i + 1)
    }
}

/// The kept row with signature `sig`.
pub open spec fn signed_lookup(signed: Seq<(Seq<u8>, SysTableEntry)>, sig: Seq<u8>) -> Option<SysTableEntry> {
    signed_lookup_from(signed, sig, 0)
}

impl RowSignature {
    /// A copy of the signature.
    pub fn clone_sig(&self) -> (r: Self)
        ensures
            r@ == self@,
    {
        RowSignature(self.0.clone())
    }
}

/// How many entries of `sigs` equal `s`.
fn count_sig(sigs: &Vec<Option<RowSignature>>, s: &RowSignature) -> (c: usize)
    ensures
        c == sig_count(
            sig_views(sigs@),
            s@,
        ),
{
    let ghost sv = sig_views(sigs@);
    let mut c: usize = 0;
    let mut i: usize = 0;
    proof {
        reveal(Seq::filter);
        assert(sv.take(0) =~= Seq::<Option<Seq<u8>>>::empty());
    }
    while i < sigs.len()
        invariant
            i <= sigs@.len(),
            sv.len() == sigs@.len(),
            sv == sig_views(sigs@),
            c == sv.take(i as int).filter(|x: Option<Seq<u8>>| x == Some(s@)).len(),
            c <= i,
        decreases sigs@.len() - i,
    {
        proof {
            assert(sv.take(i + 1) =~= sv.take(i as int).push(sv[i as int]));
            lemma_filter_push(sv.take(i as int), sv[i as int], |x: Option<Seq<u8>>| x == Some(s@));
        }
        match &sigs[i] {
            Some(t) => {
                if bytes_equal(t.as_bytes(), s.as_bytes()) {
                    c = c + 1;
                }
            },
            None => {},
        }
        i = i + 1;
    }
    proof {
        assert(sv.take(i as int) =~= sv);
    }
    c
}

/// Whether an entry before index `k` equals `s`.
fn seen_before(sigs: &Vec<Option<RowSignature>>, k: usize, s: &RowSignature) -> (b: bool)
    requires
        k <= sigs@.len(),
    ensures
        b == exists|j: int| 0 <= j < k && #[trigger] sig_views(sigs@)[j] == Some(s@),
{
    let ghost sv = sig_views(sigs@);
    let mut i: usize = 0;
    while i < k
        invariant
            i <= k,
            k <= sigs@.len(),
            sv == sig_views(sigs@),
            forall|j: int| 0 <= j < i ==> sv[j] != Some(s@),
        decreases k - i,
    {
        match &sigs[i] {
            Some(t) => {
                if bytes_equal(t.as_bytes(), s.as_bytes()) {
                    assert(sv[i as int] == Some(s@));
                    return true;
                }
            },
            None => {},
        }
        i = i + 1;
    }
    false
}

/// Compare the position attribution with this content attribution over
/// `pages`.
pub open spec fn agreement_outcome(pos: Option<Seq<u8>>, con: Option<Seq<u8>>) -> int {
    match (pos, con) {
        (Some(a), Some(b)) => if a == b {
            0
        } else {
            1
        },
        (Some(_), None) => 2,
        (None, Some(_)) => 3,
        (None, None) => 4,
    }
}

/// The name of the row a page is attributed to by position.
pub open spec fn position_name(rows: Seq<SysTableEntry>, pn: u64) -> Option<Seq<u8>> {
    match attributed_row(rows, pn) {
        Some(e) => Some(string_bytes(e.name)),
        None => None,
    }
}

/// The name of the kept row with signature `sig`.
pub open spec fn content_name(signed: Seq<(Seq<u8>, SysTableEntry)>, sig: Option<Seq<u8>>) -> Option<Seq<u8>> {
    match sig {
        Some(s) => match signed_lookup(signed, s) {
            Some(e) => Some(string_bytes(e.name)),
            None => None,
        },
        None => None,
    }
}

/// The outcomes of the pages, given the signature each page yielded.
pub open spec fn page_outcomes(
    rows: Seq<SysTableEntry>,
    signed: Seq<(Seq<u8>, SysTableEntry)>,
    pages: Seq<u64>,
    sigs: Seq<Option<Seq<u8>>>,
) -> Seq<int> {
    Seq::new(pages.len(), |i: int| agreement_outcome(position_name(rows, pages[i]), content_name(signed, sigs[i])))
}

/// How many outcomes equal `o`.
pub open spec fn outcome_count(outcomes: Seq<int>, o: int) -> nat {
    outcomes.filter(is_outcome(o)).len()
}

/// The predicate "equals `o`".
pub open spec fn is_outcome(o: int) -> spec_fn(int) -> bool {
    |x: int| x == o
}

proof fn lemma_outcome_counts_sum(oc: Seq<int>)
    requires
        forall|i: int| 0 <= i < oc.len() ==> 0 <= #[trigger] oc[i] < 5,
    ensures
        outcome_count(oc, 0) + outcome_count(oc, 1) + outcome_count(oc, 2) + outcome_count(oc, 3) + outcome_count(
            oc,
            4,
        ) == oc.len(),
    decreases oc.len(),
{
    reveal(Seq::filter);
    if oc.len() > 0 {
        let d = oc.drop_last();
        assert forall|i: int| 0 <= i < d.len() implies 0 <= #[trigger] d[i] < 5 by {
            assert(d[i] == oc[i]);
        }
        lemma_outcome_counts_sum(d);
        assert(d.push(oc.last()) =~= oc);
        assert(0 <= oc[oc.len() - 1] < 5);
        lemma_filter_push(d, oc.last(), is_outcome(0));
        lemma_filter_push(d, oc.last(), is_outcome(1));
        lemma_filter_push(d, oc.last(), is_outcome(2));
        lemma_filter_push(d, oc.last(), is_outcome(3));
        lemma_filter_push(d, oc.last(), is_outcome(4));
    }
}

/// Every compared page has exactly one outcome: the five counts of a
/// comparison add up to the number of pages compared.
pub proof fn lemma_agreement_counts_cover_pages(
    rows: Seq<SysTableEntry>,
    signed: Seq<(Seq<u8>, SysTableEntry)>,
    pages: Seq<u64>,
    sigs: Seq<Option<Seq<u8>>>,
    r: AttributionAgreement,
)
    requires
        agreement_of(r, page_outcomes(rows, signed, pages, sigs)),
    ensures
        r.agree + r.disagree + r.only_position + r.only_content + r.neither == pages.len(),
{
    let oc = page_outcomes(rows, signed, pages, sigs);
    assert forall|i: int| 0 <= i < oc.len() implies 0 <= #[trigger] oc[i] < 5 by {
        assert(oc[i] == agreement_outcome(position_name(rows, pages[i]), content_name(signed, sigs[i])));
    }
    lemma_outcome_counts_sum(oc);
}

/// `sigs` are signatures that the pages can yield.
pub open spec fn pages_signed(store_pages: Seq<Seq<u8>>, pages: Seq<u64>, sigs: Seq<Option<Seq<u8>>>) -> bool {
    &&& sigs.len() == pages.len()
    &&& forall|i: int| 0 <= i < pages.len() ==> page_signature(store_pages, #[trigger] pages[i], sigs[i])
}

/// The counts of `r` are those of the outcomes.
pub open spec fn agreement_of(r: AttributionAgreement, oc: Seq<int>) -> bool {
    &&& r.agree == outcome_count(oc, 0)
    &&& r.disagree == outcome_count(oc, 1)
    &&& r.only_position == outcome_count(oc, 2)
    &&& r.only_content == outcome_count(oc, 3)
    &&& r.neither == outcome_count(oc, 4)
}

impl ContentAttribution {
    /// Compare the position attribution with this content attribution
    /// over `pages`: count the pages where both give the same name, both
    /// give different names, only one gives a name, or neither does.
    pub fn compare(
        &self,
        store: &PageStore,
        model: &ApModel,
        position: &PageAttribution,
        pages: Vec<u64>,
    ) -> (r: AttributionAgreement)
        ensures
            exists|sigs: Seq<Option<Seq<u8>>>|
                #[trigger] pages_signed(store_pages(*store), pages@, sigs) && agreement_of(
                    r,
                    page_outcomes(position.rows(), self.signed(), pages@, sigs),
                ),
    {
        let ghost rows = position.rows();
        let ghost signed = self.signed();
        let mut out = AttributionAgreement { agree: 0, disagree: 0, only_position: 0, only_content: 0, neither: 0 };
        let ghost mut sigs: Seq<Option<Seq<u8>>> = Seq::empty();
        let n = pages.len();
        let mut i: usize = 0;
        proof {
            reveal(Seq::filter);
        }
        while i < n
            invariant
                n == pages@.len(),
                i <= n,
                rows == position.rows(),
                signed == self.signed(),
                sigs.len() == i,
                forall|k: int| 0 <= k < i ==> page_signature(store_pages(*store), #[trigger] pages@[k], sigs[k]),
                out.agree == outcome_count(page_outcomes(rows, signed, pages@.take(i as int), sigs), 0),
                out.disagree == outcome_count(page_outcomes(rows, signed, pages@.take(i as int), sigs), 1),
                out.only_position == outcome_count(page_outcomes(rows, signed, pages@.take(i as int), sigs), 2),
                out.only_content == outcome_count(page_outcomes(rows, signed, pages@.take(i as int), sigs), 3),
                out.neither == outcome_count(page_outcomes(rows, signed, pages@.take(i as int), sigs), 4),
                out.agree <= i && out.disagree <= i && out.only_position <= i && out.only_content <= i && out.neither <= i,
            decreases n - i,
        {
            let pn = pages[i];
            let pos_name = match position.attribute(pn) {
                Some(e) => Some(e.name.as_str()),
                None => None,
            };
            let sig = extract_signature(store, model, pn);
            let ghost sg = match &sig {
                Some(s) => Some(s@),
                None => None,
            };
            let con_name = match &sig {
                Some(s) => match self.lookup(s) {
                    Some(e) => Some(e.name.as_str()),
                    None => None,
                },
                None => None,
            };
            let ghost old_oc = page_outcomes(rows, signed, pages@.take(i as int), sigs);
            proof {
                assert(pos_name is Some <==> position_name(rows, pn) is Some);
                assert(pos_name matches Some(a) ==> position_name(rows, pn) == Some(crate::text::str_bytes(a)));
                assert(con_name is Some <==> content_name(signed, sg) is Some);
                assert(con_name matches Some(b) ==> content_name(signed, sg) == Some(crate::text::str_bytes(b)));
                sigs = sigs.push(sg);
                let oc = page_outcomes(rows, signed, pages@.take(i + 1), sigs);
                assert(oc =~= old_oc.push(agreement_outcome(position_name(rows, pn), content_name(signed, sg))));
                lemma_filter_push(old_oc, oc.last(), is_outcome(0));
                lemma_filter_push(old_oc, oc.last(), is_outcome(1));
                lemma_filter_push(old_oc, oc.last(), is_outcome(2));
                lemma_filter_push(old_oc, oc.last(), is_outcome(3));
                lemma_filter_push(old_oc, oc.last(), is_outcome(4));
            }
            let ghost outcome = agreement_outcome(position_name(rows, pn), content_name(signed, sg));
            match (pos_name, con_name) {
                (Some(a), Some(b)) => {
                    let same = bytes_equal(a.as_bytes(), b.as_bytes());
                    assert(same == (crate::text::str_bytes(a) == crate::text::str_bytes(b)));
                    if same {
                        assert(outcome == 0);
                        out.agree = out.agree + 1;
                    } else {
                        assert(outcome == 1);
                        out.disagree = out.disagree + 1;
                    }
                },
                (Some(_), None) => {
                    out.only_position = out.only_position + 1;
                },
                (None, Some(_)) => {
                    out.only_content = out.only_content + 1;
                },
                (None, None) => {
                    out.neither = out.neither + 1;
                },
            }
            i = i + 1;
        }
        proof {
            assert(pages@.take(n as int) =~= pages@);
            assert(pages_signed(store_pages(*store), pages@, sigs));
        }
        out
    }
}

} // verus!
