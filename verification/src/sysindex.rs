//! `SYSINDEX` catalog rows, and the audit of the position attribution
//! against them.
//!
//! A `SYSINDEX` row has the layout
//!
//! ```text
//! [2B flags] [2B creator = 01 46] [4B root u32 LE]
//! [4B zeros] [4B table_id u32 LE] [4B zeros]
//! [1B nlen]  [nlen bytes ASCII name]
//! ```
//!
//! `root_page` is the root of the index B-tree and `table_id` joins the
//! row to `SYSTABLE`. Index names starting with `fkey_` are foreign-key
//! indexes.
//!
//! The root page of an index is recorded by the engine itself, so it is
//! the most reliable evidence of which table a page belongs to.
//! [`CrossValidation::run`] checks, for every distinct
//! `(table_id, root_page)` pair, whether the position attribution assigns
//! the root page to the table with that id.

use vstd::prelude::*;
use opensqlany::{ApModel, PageStore};
use crate::catalog::{canonical_of, unique_by_key, KeyedRow, RowKey};
use crate::codec::{
    all_printable, all_printable_exec, bytes_equal, le_u32, lemma_filter_push, lemma_printable_ascii,
    read_le_u32,
};
use crate::decode::{decode_page, page_decodings, BvOracle};
use crate::page_attribution::{attributed_row, PageAttribution};
use crate::store::{is_extent, is_extent_page, page_bytes, page_count, store_pages};
use crate::systable::SysTableEntry;
use crate::text::{ascii_to_string, starts_with, starts_with_bytes, string_bytes};

verus! {

/// The two-byte creator id at row offset +2 of every `SYSINDEX` row.
pub const SYSINDEX_CREATOR: [u8; 2] = [0x01, 0x46];

/// Shortest accepted index name.
pub const INDEX_NAME_LEN_MIN: u8 = 1;

/// Longest accepted index name.
pub const INDEX_NAME_LEN_MAX: u8 = 128;

/// Length of the fixed row preamble plus the first name byte.
pub const PREAMBLE_LEN: usize = 22;

/// Rows are searched in the page body up to the trailer.
pub const SYSINDEX_DATA_END: usize = 0xFF0;

/// `fkey_`: the name prefix of foreign-key indexes.
pub const FKEY_PREFIX: [u8; 5] = [0x66, 0x6B, 0x65, 0x79, 0x5F];

/// Most disagreement samples kept by [`CrossValidation::run`].
pub const DISAGREE_SAMPLE_LIMIT: usize = 16;

/// A parsed `SYSINDEX` row.
#[derive(Debug, Clone, PartialEq, Eq)]
pub struct SysIndexEntry {
    /// Owning table id (joins to [`SysTableEntry::table_id`]).
    pub table_id: u32,
    /// Root page of the index B-tree.
    pub root_page: u32,
    /// Index name (printable ASCII).
    pub name: String,
    /// Page on which the row was found.
    pub page_number: u64,
    /// Offset of the row preamble in the decoded page body.
    pub row_offset: usize,
}

/// A `SYSINDEX` row with its name taken as bytes.
pub struct SysIndexView {
    pub table_id: u32,
    pub root_page: u32,
    pub name: Seq<u8>,
    pub page_number: u64,
    pub row_offset: usize,
}

impl View for SysIndexEntry {
    type V = SysIndexView;

    open spec fn view(&self) -> SysIndexView {
        SysIndexView {
            table_id: self.table_id,
            root_page: self.root_page,
            name: string_bytes(self.name),
            page_number: self.page_number,
            row_offset: self.row_offset,
        }
    }
}

/// The views of a sequence of `SYSINDEX` rows.
pub open spec fn sysindex_views(v: Seq<SysIndexEntry>) -> Seq<SysIndexView> {
    v.map_values(|e: SysIndexEntry| e@)
}

impl SysIndexEntry {
    /// Whether the index name starts with `fkey_`, the convention for
    /// foreign-key indexes.
    pub fn is_foreign_key(&self) -> (b: bool)
        ensures
            b == starts_with_bytes(string_bytes(self.name), FKEY_PREFIX@),
    {
        starts_with(self.name.as_str().as_bytes(), &FKEY_PREFIX)
    }
}

/// Whether a byte is printable ASCII.
pub fn is_printable_ascii(b: u8) -> (r: bool)
    ensures
        r == (0x20 <= b < 0x7F),
{
    0x20 <= b && b < 0x7F
}

/// Whether a `SYSINDEX` preamble with a non-zero root and table id starts
/// at `pos`: the creator at +2 and zeros at `+8..+12` and `+16..+20`.
pub open spec fn index_preamble_at(b: Seq<u8>, pos: int) -> bool {
    &&& b[pos + 2] == SYSINDEX_CREATOR[0] && b[pos + 3] == SYSINDEX_CREATOR[1]
    &&& b[pos + 8] == 0 && b[pos + 9] == 0 && b[pos + 10] == 0 && b[pos + 11] == 0
    &&& b[pos + 16] == 0 && b[pos + 17] == 0 && b[pos + 18] == 0 && b[pos + 19] == 0
    &&& le_u32(b, pos + 4) != 0 && le_u32(b, pos + 12) != 0
}

/// Whether the row whose preamble is at `pos` has an acceptable name: a
/// length in `1..=128`, inside the searched region, of printable bytes.
pub open spec fn index_name_accepted(b: Seq<u8>, end: int, pos: int) -> bool {
    let nl = b[pos + 20];
    &&& INDEX_NAME_LEN_MIN <= nl <= INDEX_NAME_LEN_MAX
    &&& pos + 21 + nl <= end
    &&& all_printable(b.subrange(pos + 21, pos + 21 + nl))
}

/// The row parsed from a preamble at `pos`.
pub open spec fn index_row_at(b: Seq<u8>, pn: u64, pos: int) -> SysIndexView {
    SysIndexView {
        table_id: le_u32(b, pos + 12),
        root_page: le_u32(b, pos + 4),
        name: b.subrange(pos + 21, pos + 21 + b[pos + 20]),
        page_number: pn,
        row_offset: pos as usize,
    }
}

/// The rows found scanning from `pos` up to `end`; an accepted row is
/// skipped past its name.
pub open spec fn index_rows_from(b: Seq<u8>, pn: u64, end: int, pos: int) -> Seq<SysIndexView>
    decreases end - pos,
{
    if pos < 0 || pos + PREAMBLE_LEN > end {
        Seq::empty()
    } else if index_preamble_at(b, pos) && index_name_accepted(b, end, pos) {
        seq![index_row_at(b, pn, pos)] + index_rows_from(b, pn, end, pos + 21 + b[pos + 20])
    } else {
        index_rows_from(b, pn, end, pos + 1)
    }
}

/// The `SYSINDEX` rows of a decoded page body, searched within its first
/// `0xFF0` bytes.
pub open spec fn index_rows(b: Seq<u8>, pn: u64) -> Seq<SysIndexView> {
    let end = if b.len() < SYSINDEX_DATA_END {
        b.len() as int
    } else {
        SYSINDEX_DATA_END as int
    };
    index_rows_from(b, pn, end, 0)
}

/// Scan a decoded page body for `SYSINDEX` rows and append them to `out`
/// in page order.
pub fn scan_page(body: &[u8], pn: u64, out: &mut Vec<SysIndexEntry>)
    ensures
        sysindex_views(final(out)@) == sysindex_views(old(out)@) + index_rows(body@, pn),
{
    let ghost b = body@;
    let ghost init = sysindex_views(out@);
    let n = body.len();
    let end = if n < SYSINDEX_DATA_END {
        n
    } else {
        SYSINDEX_DATA_END
    };
    if end < PREAMBLE_LEN {
        assert(index_rows(b, pn) =~= Seq::<SysIndexView>::empty());
        assert(sysindex_views(out@) =~= init + index_rows(b, pn));
        return;
    }
    let limit = end - PREAMBLE_LEN;
    let mut pos: usize = 0;
    while pos <= limit
        invariant
            n == b.len(),
            b == body@,
            end <= n,
            end <= SYSINDEX_DATA_END,
            limit == end - PREAMBLE_LEN,
            pos <= end,
            index_rows(b, pn) == index_rows_from(b, pn, end as int, 0),
            init + index_rows_from(b, pn, end as int, 0) == sysindex_views(out@) + index_rows_from(
                b,
                pn,
                end as int,
                pos as int,
            ),
        decreases end - pos,
    {
        let framed = body[pos + 2] == SYSINDEX_CREATOR[0] && body[pos + 3] == SYSINDEX_CREATOR[1]
            && body[pos + 8] == 0 && body[pos + 9] == 0 && body[pos + 10] == 0 && body[pos + 11] == 0
            && body[pos + 16] == 0 && body[pos + 17] == 0 && body[pos + 18] == 0 && body[pos + 19]
            == 0;
        if !framed {
            pos = pos + 1;
        } else {
            let root = read_le_u32(body, pos + 4);
            let tid = read_le_u32(body, pos + 12);
            let nlen = body[pos + 20];
            let name_start = pos + 21;
            let name_end = name_start + nlen as usize;
            if root == 0 || tid == 0 || nlen < INDEX_NAME_LEN_MIN || nlen > INDEX_NAME_LEN_MAX
                || name_end > end {
                pos = pos + 1;
            } else if !all_printable_exec(&body[name_start..name_end]) {
                pos = pos + 1;
            } else {
                proof {
                    lemma_printable_ascii(b.subrange(name_start as int, name_end as int));
                }
                let name = ascii_to_string(&body[name_start..name_end]);
                let e = SysIndexEntry { table_id: tid, root_page: root, name, page_number: pn, row_offset: pos };
                proof {
                    assert(e@ == index_row_at(b, pn, pos as int));
                }
                let ghost before = sysindex_views(out@);
                out.push(e);
                proof {
                    assert(sysindex_views(out@) =~= before.push(e@));
                    assert(before + index_rows_from(b, pn, end as int, pos as int) =~= sysindex_views(out@)
                        + index_rows_from(b, pn, end as int, name_end as int));
                }
                pos = name_end;
            }
        }
    }
    assert(index_rows_from(b, pn, end as int, pos as int) =~= Seq::<SysIndexView>::empty());
    assert(init + index_rows(b, pn) =~= sysindex_views(out@));
}

/// The `SYSINDEX` rows of the pages `1..hi`, given the decoded pages.
pub open spec fn index_rows_of_pages(pages: Seq<Seq<u8>>, plains: Seq<Seq<u8>>, hi: int) -> Seq<SysIndexView>
    decreases hi,
{
    if hi <= 1 {
        Seq::empty()
    } else {
        index_rows_of_pages(pages, plains, hi - 1) + if is_extent(pages[hi - 1]) {
            index_rows(plains[hi - 1], (hi - 1) as u64)
        } else {
            Seq::empty()
        }
    }
}

proof fn lemma_index_rows_of_pages_prefix(pages: Seq<Seq<u8>>, p1: Seq<Seq<u8>>, p2: Seq<Seq<u8>>, hi: int)
    requires
        forall|i: int| 1 <= i < hi ==> #[trigger] p1[i] == p2[i],
    ensures
        index_rows_of_pages(pages, p1, hi) == index_rows_of_pages(pages, p2, hi),
    decreases hi,
{
    if hi > 1 {
        lemma_index_rows_of_pages_prefix(pages, p1, p2, hi - 1);
        assert(p1[hi - 1] == p2[hi - 1]);
    }
}

/// Every `SYSINDEX` row in `store`, scanning each extent page after the
/// superblock in page order. Each page is decoded with the `bv` of the
/// oracle cascade when it answers, else with the cipher model.
pub fn iter_sysindex(store: &PageStore, model: &ApModel) -> (rows: Vec<SysIndexEntry>)
    ensures
        exists|plains: Seq<Seq<u8>>|
            page_decodings(store_pages(*store), plains, BvOracle::Cascade)
                && sysindex_views(rows@) == index_rows_of_pages(
                store_pages(*store),
                plains,
                store_pages(*store).len() as int,
            ),
{
    let ghost pages = store_pages(*store);
    let n = page_count(store);
    let mut rows: Vec<SysIndexEntry> = Vec::new();
    let ghost mut plains: Seq<Seq<u8>> = Seq::new(pages.len(), |i: int| Seq::<u8>::empty());
    if n == 0 {
        assert(sysindex_views(rows@) =~= index_rows_of_pages(pages, plains, 0));
        assert(page_decodings(pages, plains, BvOracle::Cascade));
        return rows;
    }
    let mut pn: u64 = 1;
    while pn < n
        invariant
            n == pages.len(),
            pages == store_pages(*store),
            1 <= pn <= n,
            plains.len() == pages.len(),
            forall|q: int|
                1 <= q < pn && is_extent(pages[q]) ==> crate::decode::decoding_of(
                    pages[q],
                    q as u64,
                    #[trigger] plains[q],
                    crate::decode::oracle_answer(BvOracle::Cascade, pages[q], q as u64),
                ),
            sysindex_views(rows@) == index_rows_of_pages(pages, plains, pn as int),
        decreases n - pn,
    {
        let raw = page_bytes(store, pn).unwrap();
        let ghost old_plains = plains;
        let ghost old_rows = sysindex_views(rows@);
        if is_extent_page(pn, raw) {
            let plain = decode_page(store, model, pn, raw, BvOracle::Cascade);
            proof {
                plains = plains.update(pn as int, plain@);
            }
            scan_page(plain.as_slice(), pn, &mut rows);
            proof {
                lemma_index_rows_of_pages_prefix(pages, old_plains, plains, pn as int);
            }
        } else {
            assert(sysindex_views(rows@) =~= old_rows + Seq::<SysIndexView>::empty());
        }
        assert(sysindex_views(rows@) == index_rows_of_pages(pages, plains, pn + 1));
        pn = pn + 1;
    }
    assert(page_decodings(pages, plains, BvOracle::Cascade));
    rows
}

impl KeyedRow for SysIndexEntry {
    open spec fn row_key(&self) -> RowKey {
        (self.table_id, self.root_page, string_bytes(self.name))
    }

    fn key_parts(&self) -> (r: (u32, u32, &[u8])) {
        (self.table_id, self.root_page, self.name.as_str().as_bytes())
    }
}

/// `rows` is the canonical catalog of the `SYSINDEX` rows found in
/// `store` under some decoding of its pages that follows the oracle
/// cascade.
pub open spec fn indexes_collected_from(store: PageStore, rows: Seq<SysIndexEntry>) -> bool {
    exists|all: Seq<SysIndexEntry>, plains: Seq<Seq<u8>>|
        page_decodings(store_pages(store), plains, BvOracle::Cascade) && sysindex_views(all)
            == index_rows_of_pages(store_pages(store), plains, store_pages(store).len() as int)
            && canonical_of(all, rows)
}

/// The deduplicated `SYSINDEX` rows: one per `(table_id, root_page,
/// name)`, the first one found, ordered by that key.
pub fn collect_unique(store: &PageStore, model: &ApModel) -> (rows: Vec<SysIndexEntry>)
    ensures
        indexes_collected_from(*store, rows@),
{
    let all = iter_sysindex(store, model);
    let ghost all_rows = all@;
    let rows = unique_by_key(all);
    proof {
        let plains = choose|plains: Seq<Seq<u8>>|
            page_decodings(store_pages(*store), plains, BvOracle::Cascade) && sysindex_views(all_rows)
                == index_rows_of_pages(store_pages(*store), plains, store_pages(*store).len() as int);
        assert(canonical_of(all_rows, rows@));
    }
    rows
}

// ---------------------------------------------------------------------------
// Auditing the position attribution
// ---------------------------------------------------------------------------

/// Outcome of auditing one `(table_id, root_page)` pair.
#[derive(Debug, Clone, Copy, PartialEq, Eq, Structural)]
pub enum AuditOutcome {
    /// The position attribution assigns the root page to the same table.
    Agree,
    /// The position attribution assigns the root page to another table.
    Disagree,
    /// The position attribution assigns the root page to no table.
    Missing,
    /// The table id is not in the `SYSTABLE` catalog.
    OrphanIndex,
}

/// The outcome for a catalog name and a position name.
pub open spec fn outcome_of(sysindex_name: Option<Seq<u8>>, pos_name: Option<Seq<u8>>) -> AuditOutcome {
    match (sysindex_name, pos_name) {
        (None, _) => AuditOutcome::OrphanIndex,
        (Some(_), None) => AuditOutcome::Missing,
        (Some(a), Some(b)) => if a == b {
            AuditOutcome::Agree
        } else {
            AuditOutcome::Disagree
        },
    }
}

/// The bytes of an optional string slice.
pub open spec fn opt_str_bytes(s: Option<&str>) -> Option<Seq<u8>> {
    match s {
        Some(t) => Some(crate::text::str_bytes(t)),
        None => None,
    }
}

/// Classify a pair from the catalog name of its table and the name the
/// position attribution gives its root page.
pub fn classify(sysindex_name: Option<&str>, pos_name: Option<&str>) -> (r: AuditOutcome)
    ensures
        r == outcome_of(opt_str_bytes(sysindex_name), opt_str_bytes(pos_name)),
{
    match (sysindex_name, pos_name) {
        (None, _) => AuditOutcome::OrphanIndex,
        (Some(_), None) => AuditOutcome::Missing,
        (Some(a), Some(b)) => if bytes_equal(a.as_bytes(), b.as_bytes()) {
            AuditOutcome::Agree
        } else {
            AuditOutcome::Disagree
        },
    }
}

/// Agreement counts of the position attribution against `SYSINDEX`.
#[derive(Debug, Clone)]
pub struct CrossValidation {
    /// Rows audited.
    pub total: usize,
    /// Distinct `(table_id, root_page)` pairs audited.
    pub distinct_roots: usize,
    /// Pairs on which the position attribution agreed.
    pub agree: usize,
    /// Pairs whose root the position attribution put in another table.
    pub disagree: usize,
    /// Pairs whose root the position attribution put in no table.
    pub missing: usize,
    /// Pairs whose table id is not in `SYSTABLE`.
    pub orphan_index: usize,
    /// The first disagreements: `(table_id, sysindex_table_name,
    /// position_table_name, root_page, index_name)`.
    pub disagree_samples: Vec<(u32, String, String, u32, String)>,
}

/// The name of the first catalog table with id `tid`.
pub open spec fn table_name_for(tables: Seq<SysTableEntry>, tid: u32) -> Option<Seq<u8>>
    decreases tables.len(),
{
    if tables.len() == 0 {
        None
    } else if tables[0].table_id == tid {
        Some(string_bytes(tables[0].name))
    } else {
        table_name_for(tables.drop_first(), tid)
    }
}

/// The name of the table the position attribution gives page `p`.
pub open spec fn position_name_for(rows: Seq<SysTableEntry>, p: u32) -> Option<Seq<u8>> {
    match attributed_row(rows, p as u64) {
        Some(e) => Some(string_bytes(e.name)),
        None => None,
    }
}

/// The audit outcome of a `SYSINDEX` row.
pub open spec fn audit_outcome(rows: Seq<SysTableEntry>, tables: Seq<SysTableEntry>, e: SysIndexEntry) -> AuditOutcome {
    outcome_of(table_name_for(tables, e.table_id), position_name_for(rows, e.root_page))
}

/// Whether some row of `s` has the pair `(tid, root)`.
pub open spec fn pair_in(s: Seq<SysIndexEntry>, tid: u32, root: u32) -> bool {
    exists|j: int| 0 <= j < s.len() && #[trigger] s[j].table_id == tid && s[j].root_page == root
}

/// The rows of `s` whose `(table_id, root_page)` pair has not occurred
/// before them, in order.
pub open spec fn first_pairs(s: Seq<SysIndexEntry>) -> Seq<SysIndexEntry>
    decreases s.len(),
{
    if s.len() == 0 {
        Seq::empty()
    } else if pair_in(s.drop_last(), s.last().table_id, s.last().root_page) {
        first_pairs(s.drop_last())
    } else {
        first_pairs(s.drop_last()).push(s.last())
    }
}

/// The first-pair rows with a given audit outcome.
pub open spec fn with_outcome(
    rows: Seq<SysTableEntry>,
    tables: Seq<SysTableEntry>,
    entries: Seq<SysIndexEntry>,
    o: AuditOutcome,
) -> Seq<SysIndexEntry> {
    first_pairs(entries).filter(outcome_is(rows, tables, o))
}

/// The predicate "has audit outcome `o`".
pub open spec fn outcome_is(rows: Seq<SysTableEntry>, tables: Seq<SysTableEntry>, o: AuditOutcome) -> spec_fn(
    SysIndexEntry,
) -> bool {
    |e: SysIndexEntry| audit_outcome(rows, tables, e) == o
}

/// The sample recorded for a disagreeing row, with strings as bytes.
pub open spec fn sample_of(rows: Seq<SysTableEntry>, tables: Seq<SysTableEntry>, e: SysIndexEntry) -> (u32, Seq<u8>, Seq<u8>, u32, Seq<u8>) {
    (
        e.table_id,
        table_name_for(tables, e.table_id).unwrap(),
        position_name_for(rows, e.root_page).unwrap(),
        e.root_page,
        string_bytes(e.name),
    )
}

/// A recorded sample with its strings taken as bytes.
pub open spec fn sample_view(t: (u32, String, String, u32, String)) -> (u32, Seq<u8>, Seq<u8>, u32, Seq<u8>) {
    (t.0, string_bytes(t.1), string_bytes(t.2), t.3, string_bytes(t.4))
}

/// The samples expected from auditing `entries`: the first
/// [`DISAGREE_SAMPLE_LIMIT`] disagreeing pairs.
pub open spec fn expected_samples(
    rows: Seq<SysTableEntry>,
    tables: Seq<SysTableEntry>,
    entries: Seq<SysIndexEntry>,
) -> Seq<(u32, Seq<u8>, Seq<u8>, u32, Seq<u8>)> {
    let d = with_outcome(rows, tables, entries, AuditOutcome::Disagree);
    let k = if d.len() < DISAGREE_SAMPLE_LIMIT {
        d.len() as int
    } else {
        DISAGREE_SAMPLE_LIMIT as int
    };
    d.take(k).map_values(|e: SysIndexEntry| sample_of(rows, tables, e))
}

/// The counts and samples of `v` are those of auditing `entries` against
/// the attribution rows `rows` and the catalog `tables`.
pub open spec fn audit_counts(
    v: CrossValidation,
    rows: Seq<SysTableEntry>,
    tables: Seq<SysTableEntry>,
    entries: Seq<SysIndexEntry>,
) -> bool {
    &&& v.distinct_roots == first_pairs(entries).len()
    &&& v.agree == with_outcome(rows, tables, entries, AuditOutcome::Agree).len()
    &&& v.disagree == with_outcome(rows, tables, entries, AuditOutcome::Disagree).len()
    &&& v.missing == with_outcome(rows, tables, entries, AuditOutcome::Missing).len()
    &&& v.orphan_index == with_outcome(rows, tables, entries, AuditOutcome::OrphanIndex).len()
    &&& v.disagree_samples@.map_values(|t: (u32, String, String, u32, String)| sample_view(t))
        == expected_samples(rows, tables, entries)
}

/// `v` is the audit of `entries` against the attribution rows `rows` and
/// the catalog `tables`.
pub open spec fn audit_of(
    v: CrossValidation,
    rows: Seq<SysTableEntry>,
    tables: Seq<SysTableEntry>,
    entries: Seq<SysIndexEntry>,
) -> bool {
    v.total == entries.len() && audit_counts(v, rows, tables, entries)
}

/// The name of the first catalog table with id `tid`.
fn find_table_name(tables: &[SysTableEntry], tid: u32) -> (r: Option<&String>)
    ensures
        match table_name_for(tables@, tid) {
            Some(n) => r is Some && string_bytes(*r.unwrap()) == n,
            None => r is None,
        },
{
    let mut i: usize = 0;
    assert(tables@.subrange(0, tables@.len() as int) =~= tables@);
    while i < tables.len()
        invariant
            i <= tables@.len(),
            table_name_for(tables@, tid) == table_name_for(tables@.subrange(i as int, tables@.len() as int), tid),
        decreases tables@.len() - i,
    {
        let ghost rest = tables@.subrange(i as int, tables@.len() as int);
        assert(rest.drop_first() =~= tables@.subrange(i + 1, tables@.len() as int));
        if tables[i].table_id == tid {
            return Some(&tables[i].name);
        }
        i = i + 1;
    }
    None
}

/// Whether some row of `seen` has the pair `(tid, root)`.
fn seen_pair(seen: &Vec<(u32, u32)>, tid: u32, root: u32) -> (r: bool)
    ensures
        r == exists|j: int| 0 <= j < seen@.len() && #[trigger] seen@[j] == (tid, root),
{
    let mut i: usize = 0;
    while i < seen.len()
        invariant
            i <= seen@.len(),
            forall|j: int| 0 <= j < i ==> #[trigger] seen@[j] != (tid, root),
        decreases seen@.len() - i,
    {
        if seen[i].0 == tid && seen[i].1 == root {
            return true;
        }
        i = i + 1;
    }
    false
}

proof fn lemma_first_pairs_push(s: Seq<SysIndexEntry>, e: SysIndexEntry)
    ensures
        first_pairs(s.push(e)) == if pair_in(s, e.table_id, e.root_page) {
            first_pairs(s)
        } else {
            first_pairs(s).push(e)
        },
{
    assert(s.push(e).drop_last() =~= s);
}

impl CrossValidation {
    /// Audit `entries` against the position attribution `position`,
    /// resolving table ids to names through the catalog `tables`. Each
    /// distinct `(table_id, root_page)` pair is audited once, at its first
    /// row; the catalog name of a table id is that of its first row in
    /// `tables`.
    pub fn run(entries: &[SysIndexEntry], position: &PageAttribution, tables: &[SysTableEntry]) -> (v: Self)
        ensures
            audit_of(v, position.rows(), tables@, entries@),
    {
        let ghost rows = position.rows();
        let ghost es = entries@;
        let n = entries.len();
        let mut stats = CrossValidation {
            total: n,
            distinct_roots: 0,
            agree: 0,
            disagree: 0,
            missing: 0,
            orphan_index: 0,
            disagree_samples: Vec::new(),
        };
        let mut seen: Vec<(u32, u32)> = Vec::new();
        let mut k: usize = 0;
        proof {
            assert(es.take(0) =~= Seq::<SysIndexEntry>::empty());
            reveal(Seq::filter);
            assert(expected_samples(rows, tables@, es.take(0)) =~= Seq::empty());
            assert(stats.disagree_samples@.map_values(|t: (u32, String, String, u32, String)| sample_view(t)) =~= Seq::empty());
        }
        while k < n
            invariant
                n == es.len(),
                es == entries@,
                rows == position.rows(),
                k <= n,
                seen@.len() == k,
                forall|j: int| 0 <= j < k ==> #[trigger] seen@[j] == (es[j].table_id, es[j].root_page),
                stats.total == n,
                stats.distinct_roots <= k,
                stats.agree <= k,
                stats.disagree <= k,
                stats.missing <= k,
                stats.orphan_index <= k,
                stats.disagree_samples@.len() <= DISAGREE_SAMPLE_LIMIT,
                audit_counts(stats, rows, tables@, es.take(k as int)),
            decreases n - k,
        {
            let e = &entries[k];
            let ghost t = es.take(k as int);
            let ghost before_stats = stats;
            proof {
                assert(es.take(k + 1) =~= t.push(*e));
                lemma_first_pairs_push(t, *e);
                assert(pair_in(t, e.table_id, e.root_page) == exists|j: int| 0 <= j < seen@.len() && #[trigger] seen@[j] == (e.table_id, e.root_page)) by {
                    if pair_in(t, e.table_id, e.root_page) {
                        let j = choose|j: int| 0 <= j < t.len() && #[trigger] t[j].table_id == e.table_id && t[j].root_page == e.root_page;
                        assert(seen@[j] == (e.table_id, e.root_page));
                    }
                    if exists|j: int| 0 <= j < seen@.len() && #[trigger] seen@[j] == (e.table_id, e.root_page) {
                        let j = choose|j: int| 0 <= j < seen@.len() && #[trigger] seen@[j] == (e.table_id, e.root_page);
                        assert(t[j].table_id == e.table_id && t[j].root_page == e.root_page);
                    }
                }
                let d = with_outcome(rows, tables@, t, AuditOutcome::Disagree);
                assert(stats.disagree_samples@.len() == expected_samples(rows, tables@, t).len());
            }
            let dup = seen_pair(&seen, e.table_id, e.root_page);
            seen.push((e.table_id, e.root_page));
            if dup {
                proof {
                    assert(audit_counts(stats, rows, tables@, t.push(*e)));
                }
            } else {
                stats.distinct_roots = stats.distinct_roots + 1;
                let sysindex_name = find_table_name(tables, e.table_id);
                let pos_entry = position.attribute(e.root_page as u64);
                let pos_name = match pos_entry {
                    Some(te) => Some(&te.name),
                    None => None,
                };
                let outcome = classify(
                    match sysindex_name {
                        Some(s) => Some(s.as_str()),
                        None => None,
                    },
                    match pos_name {
                        Some(s) => Some(s.as_str()),
                        None => None,
                    },
                );
                let ghost fp = first_pairs(t);
                proof {
                    assert(outcome == audit_outcome(rows, tables@, *e));
                    lemma_filter_push(fp, *e, outcome_is(rows, tables@, AuditOutcome::Agree));
                    lemma_filter_push(fp, *e, outcome_is(rows, tables@, AuditOutcome::Disagree));
                    lemma_filter_push(fp, *e, outcome_is(rows, tables@, AuditOutcome::Missing));
                    lemma_filter_push(fp, *e, outcome_is(rows, tables@, AuditOutcome::OrphanIndex));
                }
                match outcome {
                    AuditOutcome::Agree => {
                        stats.agree = stats.agree + 1;
                    },
                    AuditOutcome::Disagree => {
                        let ghost d = with_outcome(rows, tables@, t, AuditOutcome::Disagree);
                        if stats.disagree_samples.len() < DISAGREE_SAMPLE_LIMIT {
                            let sn = sysindex_name.unwrap().clone();
                            let pnm = pos_name.unwrap().clone();
                            let iname = e.name.clone();
                            let ghost before = stats.disagree_samples@;
                            stats.disagree_samples.push((e.table_id, sn, pnm, e.root_page, iname));
                            proof {
                                assert(d.push(*e).take(d.len() + 1 as int) =~= d.take(d.len() as int).push(*e));
                                assert(d.take(d.len() as int) =~= d);
                                assert(sample_view((e.table_id, sn, pnm, e.root_page, iname)) == sample_of(rows, tables@, *e));
                                assert(stats.disagree_samples@.map_values(|t: (u32, String, String, u32, String)| sample_view(t))
                                    =~= before.map_values(|t: (u32, String, String, u32, String)| sample_view(t)).push(sample_of(rows, tables@, *e)));
                                assert(expected_samples(rows, tables@, t.push(*e)) =~= expected_samples(rows, tables@, t).push(sample_of(rows, tables@, *e)));
                            }
                        } else {
                            proof {
                                assert(d.push(*e).take(DISAGREE_SAMPLE_LIMIT as int) =~= d.take(DISAGREE_SAMPLE_LIMIT as int));
                                assert(expected_samples(rows, tables@, t.push(*e)) =~= expected_samples(rows, tables@, t));
                            }
                        }
                        stats.disagree = stats.disagree + 1;
                    },
                    AuditOutcome::Missing => {
                        stats.missing = stats.missing + 1;
                    },
                    AuditOutcome::OrphanIndex => {
                        stats.orphan_index = stats.orphan_index + 1;
                    },
                }
                proof {
                    assert(audit_counts(stats, rows, tables@, t.push(*e)));
                }
            }
            k = k + 1;
        }
        proof {
            assert(es.take(n as int) =~= es);
        }
        stats
    }

    /// The agreement ratio over the pairs whose table id is known, as
    /// `(agree, agree + disagree + missing)`.
    pub fn agreement_ratio(&self) -> (r: (usize, usize))
        requires
            self.agree + self.disagree + self.missing <= usize::MAX,
        ensures
            r == (self.agree, (self.agree + self.disagree + self.missing) as usize),
    {
        (self.agree, self.agree + self.disagree + self.missing)
    }
}

} // verus!
