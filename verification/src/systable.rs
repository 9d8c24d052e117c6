//! `SYSTABLE` catalog rows.
//!
//! Each row of the SA17 `SYSTABLE` catalog is anchored by a framed tag:
//!
//! ```text
//! 05 00 00 00 <tid u32 LE> 00 00 00 00 <magic 4B> 00 00 00 00 <name_len u8> <name>
//! ```
//!
//! The 4-byte magic is specific to the file and is accepted as a wildcard.
//! The trailer that follows the name carries per-table metadata: the
//! column count at trailer offset +6, the first leaf page of the table
//! B-tree (`data_root_page`) at +34 and its last leaf page at +50.

use vstd::prelude::*;
use opensqlany::{ApModel, PageStore};
use crate::bv_recovery::PAGE;
use crate::catalog::{canonical_of, unique_by_key, KeyedRow, RowKey};
use crate::codec::{all_printable, all_printable_exec, le_u32, lemma_printable_ascii, read_le_u32};
use crate::decode::{decode_page, page_decodings, BvOracle};
use crate::store::{is_extent, is_extent_page, page_bytes, page_count, store_pages};
use crate::text::{ascii_to_string, string_bytes};

verus! {

/// Rows are searched in the page body up to the trailer.
pub const SYSTABLE_DATA_END: usize = 0xFF0;

/// Shortest accepted table name.
pub const NAME_LEN_MIN: u8 = 4;

/// Longest accepted table name.
pub const NAME_LEN_MAX: u8 = 64;

/// Bytes of trailer read after the name.
pub const TRAILER_SCAN_LEN: usize = 64;

/// Trailer offset of the column count.
pub const COL_COUNT_OFF: usize = 6;

/// Trailer offset of the first leaf page.
pub const DATA_ROOT_OFF: usize = 34;

/// Trailer offset of the last leaf page.
pub const LAST_PAGE_OFF: usize = 50;

/// A parsed `SYSTABLE` row.
#[derive(Debug, Clone)]
pub struct SysTableEntry {
    /// Table id.
    pub table_id: u32,
    /// Table name (printable ASCII).
    pub name: String,
    /// File-specific 4-byte tag between the table id and the name.
    pub magic: [u8; 4],
    /// Number of columns, from trailer offset +6.
    pub col_count: Option<u8>,
    /// First (leftmost) leaf page of the table B-tree, from trailer +34.
    pub data_root_page: Option<u32>,
    /// Last (rightmost) leaf page of the table B-tree, from trailer +50.
    pub last_page: Option<u32>,
    /// Page on which the row was found.
    pub page_number: u64,
    /// Offset of the row tag in the decoded page body.
    pub row_offset: usize,
}

/// A `SYSTABLE` row with its name taken as bytes.
pub struct SysTableView {
    pub table_id: u32,
    pub name: Seq<u8>,
    pub magic: Seq<u8>,
    pub col_count: Option<u8>,
    pub data_root_page: Option<u32>,
    pub last_page: Option<u32>,
    pub page_number: u64,
    pub row_offset: usize,
}

impl View for SysTableEntry {
    type V = SysTableView;

    open spec fn view(&self) -> SysTableView {
        SysTableView {
            table_id: self.table_id,
            name: string_bytes(self.name),
            magic: self.magic@,
            col_count: self.col_count,
            data_root_page: self.data_root_page,
            last_page: self.last_page,
            page_number: self.page_number,
            row_offset: self.row_offset,
        }
    }
}

impl SysTableEntry {
    /// A copy of the row, field by field.
    pub fn copied(&self) -> (r: Self)
        ensures
            r == *self,
    {
        SysTableEntry {
            table_id: self.table_id,
            name: self.name.clone(),
            magic: self.magic,
            col_count: self.col_count,
            data_root_page: self.data_root_page,
            last_page: self.last_page,
            page_number: self.page_number,
            row_offset: self.row_offset,
        }
    }
}

/// The views of a sequence of `SYSTABLE` rows.
pub open spec fn systable_views(v: Seq<SysTableEntry>) -> Seq<SysTableView> {
    v.map_values(|e: SysTableEntry| e@)
}

/// The little-endian `u32` at `off` of `buf`, when it fits.
pub open spec fn u32_at(buf: Seq<u8>, off: int) -> Option<u32> {
    if buf.len() < off + 4 {
        None
    } else {
        Some(le_u32(buf, off))
    }
}

/// Read the little-endian `u32` at `off`, when the buffer holds it.
pub fn read_u32_le(buf: &[u8], off: usize) -> (r: Option<u32>)
    requires
        off + 4 <= usize::MAX,
    ensures
        r == u32_at(buf@, off as int),
{
    if buf.len() < off + 4 {
        return None;
    }
    Some(read_le_u32(buf, off))
}

/// Whether the framing bytes before the magic match at `pos`:
/// `05 00 00 00 ?? ?? ?? ?? 00 00 00 00`.
pub open spec fn tag_head_at(b: Seq<u8>, pos: int) -> bool {
    &&& b[pos] == 5 && b[pos + 1] == 0 && b[pos + 2] == 0 && b[pos + 3] == 0
    &&& b[pos + 8] == 0 && b[pos + 9] == 0 && b[pos + 10] == 0 && b[pos + 11] == 0
}

/// Whether the four bytes after the magic are zero.
pub open spec fn tag_tail_at(b: Seq<u8>, pos: int) -> bool {
    b[pos + 16] == 0 && b[pos + 17] == 0 && b[pos + 18] == 0 && b[pos + 19] == 0
}

/// Whether checking the four bytes after the magic at `pos` reads past
/// the end of `b` (the check stops at the first non-zero byte).
pub open spec fn tag_tail_overruns(b: Seq<u8>, pos: int) -> bool {
    ||| (pos + 17 >= b.len() && b[pos + 16] == 0)
    ||| (pos + 18 >= b.len() && b[pos + 16] == 0 && b[pos + 17] == 0)
    ||| (pos + 19 >= b.len() && b[pos + 16] == 0 && b[pos + 17] == 0 && b[pos + 18] == 0)
}

/// The end of the searched region of `b`.
pub open spec fn systable_end(b: Seq<u8>) -> int {
    if b.len() < SYSTABLE_DATA_END {
        b.len() as int
    } else {
        SYSTABLE_DATA_END as int
    }
}

/// The trailer read after a name ending at `name_end`: up to 64 bytes.
pub open spec fn trailer_after(b: Seq<u8>, name_end: int) -> Seq<u8> {
    if name_end + TRAILER_SCAN_LEN <= b.len() {
        b.subrange(name_end, name_end + TRAILER_SCAN_LEN)
    } else {
        b.subrange(name_end, b.len() as int)
    }
}

/// The row parsed from a tag at `pos` whose name is accepted.
pub open spec fn systable_row_at(b: Seq<u8>, pn: u64, pos: int) -> SysTableView {
    let nl = b[pos + 20] as int;
    let name_end = pos + 21 + nl;
    let tr = trailer_after(b, name_end);
    SysTableView {
        table_id: le_u32(b, pos + 4),
        name: b.subrange(pos + 21, name_end),
        magic: b.subrange(pos + 12, pos + 16),
        col_count: if COL_COUNT_OFF < tr.len() {
            Some(tr[COL_COUNT_OFF as int])
        } else {
            None
        },
        data_root_page: u32_at(tr, DATA_ROOT_OFF as int),
        last_page: u32_at(tr, LAST_PAGE_OFF as int),
        page_number: pn,
        row_offset: pos as usize,
    }
}

/// Whether a tag whose framing matched at `pos` has an acceptable name:
/// a length in `4..=64`, inside the searched region, of printable bytes.
pub open spec fn name_accepted(b: Seq<u8>, end: int, pos: int) -> bool {
    let nl = b[pos + 20];
    &&& NAME_LEN_MIN <= nl <= NAME_LEN_MAX
    &&& pos + 21 + nl <= end
    &&& all_printable(b.subrange(pos + 21, pos + 21 + nl))
}

/// The rows found scanning `b` from `pos` (the searched region ends at
/// `end`). A tag too close to the end stops the scan; an accepted row is
/// skipped past its name.
pub open spec fn systable_rows_from(b: Seq<u8>, pn: u64, end: int, pos: int) -> Seq<SysTableView>
    decreases end - pos,
{
    if pos < 0 || pos + 17 > end {
        Seq::empty()
    } else if !tag_head_at(b, pos) || !tag_tail_at(b, pos) {
        systable_rows_from(b, pn, end, pos + 1)
    } else if pos + 21 > end {
        Seq::empty()
    } else if !name_accepted(b, end, pos) {
        systable_rows_from(b, pn, end, pos + 1)
    } else {
        seq![systable_row_at(b, pn, pos)] + systable_rows_from(b, pn, end, pos + 21 + b[pos + 20])
    }
}

/// Whether the scan from `pos` reaches a tag whose tail check reads past
/// the end of `b`.
pub open spec fn systable_scan_overruns(b: Seq<u8>, end: int, pos: int) -> bool
    decreases end - pos,
{
    if pos < 0 || pos + 17 > end {
        false
    } else if !tag_head_at(b, pos) {
        systable_scan_overruns(b, end, pos + 1)
    } else if tag_tail_overruns(b, pos) {
        true
    } else if !tag_tail_at(b, pos) {
        systable_scan_overruns(b, end, pos + 1)
    } else if pos + 21 > end {
        false
    } else if !name_accepted(b, end, pos) {
        systable_scan_overruns(b, end, pos + 1)
    } else {
        systable_scan_overruns(b, end, pos + 21 + b[pos + 20])
    }
}

/// The rows of a decoded page body.
pub open spec fn systable_rows(b: Seq<u8>, pn: u64) -> Seq<SysTableView> {
    if b.len() < 17 {
        Seq::empty()
    } else {
        systable_rows_from(b, pn, systable_end(b), 0)
    }
}

/// Whether scanning `b` reads past its end: the body is cut off right
/// behind a matching tag.
pub open spec fn systable_overruns(b: Seq<u8>) -> bool {
    b.len() >= 17 && systable_scan_overruns(b, systable_end(b), 0)
}

/// A body that extends three bytes past the searched region is never
/// overrun.
proof fn lemma_no_overrun_on_full_page(b: Seq<u8>, end: int, pos: int)
    requires
        end + 3 <= b.len(),
    ensures
        !systable_scan_overruns(b, end, pos),
    decreases end - pos,
{
    if pos < 0 || pos + 17 > end {
    } else if !tag_head_at(b, pos) {
        lemma_no_overrun_on_full_page(b, end, pos + 1);
    } else if !tag_tail_at(b, pos) {
        lemma_no_overrun_on_full_page(b, end, pos + 1);
    } else if pos + 21 > end {
    } else if !name_accepted(b, end, pos) {
        lemma_no_overrun_on_full_page(b, end, pos + 1);
    } else {
        lemma_no_overrun_on_full_page(b, end, pos + 21 + b[pos + 20]);
    }
}

/// Scan a decoded page body for `SYSTABLE` row tags and append the parsed
/// rows to `out`, in page order. A tag at `pos` is accepted when its
/// framing matches and its name length is in `4..=64` with a printable
/// name inside the first `0xFF0` bytes; the scan then continues after
/// the name.
pub fn scan_page(body: &[u8], pn: u64, out: &mut Vec<SysTableEntry>)
    requires
        !systable_overruns(body@),
    ensures
        systable_views(final(out)@) == systable_views(old(out)@) + systable_rows(body@, pn),
{
    let ghost b = body@;
    let ghost init = systable_views(out@);
    let n = body.len();
    if n < 17 {
        assert(systable_views(out@) =~= init + systable_rows(b, pn));
        return;
    }
    let end = if n < SYSTABLE_DATA_END {
        n
    } else {
        SYSTABLE_DATA_END
    };
    if end < 17 {
        assert(systable_rows_from(b, pn, end as int, 0) =~= Seq::<SysTableView>::empty());
        assert(systable_views(out@) =~= init + systable_rows(b, pn));
        return;
    }
    let limit = end - 17;
    let mut pos: usize = 0;
    let mut stopped = false;
    while pos <= limit && !stopped
        invariant
            n == b.len(),
            b == body@,
            end as int == systable_end(b),
            limit == end - 17,
            end <= n,
            pos <= end,
            !systable_scan_overruns(b, end as int, pos as int),
            stopped ==> systable_rows_from(b, pn, end as int, pos as int) =~= Seq::<SysTableView>::empty(),
            init + systable_rows_from(b, pn, end as int, 0) == systable_views(out@) + systable_rows_from(
                b,
                pn,
                end as int,
                pos as int,
            ),
        decreases end - pos + if stopped { 0int } else { 1int },
    {
        if body[pos] != 0x05 || body[pos + 1] != 0x00 || body[pos + 2] != 0x00 || body[pos + 3]
            != 0x00 || body[pos + 8] != 0x00 || body[pos + 9] != 0x00 || body[pos + 10] != 0x00
            || body[pos + 11] != 0x00 {
            pos = pos + 1;
        } else if body[pos + 16] != 0x00 || body[pos + 17] != 0x00 || body[pos + 18] != 0x00
            || body[pos + 19] != 0x00 {
            pos = pos + 1;
        } else if pos + 21 > end {
            stopped = true;
        } else {
            let name_len = body[pos + 20];
            let name_start = pos + 21;
            let name_end = name_start + name_len as usize;
            if name_len < NAME_LEN_MIN || name_len > NAME_LEN_MAX || name_end > end {
                pos = pos + 1;
            } else if !all_printable_exec(&body[name_start..name_end]) {
                pos = pos + 1;
            } else {
                let tid = read_le_u32(body, pos + 4);
                let magic: [u8; 4] = [body[pos + 12], body[pos + 13], body[pos + 14], body[pos + 15]];
                proof {
                    lemma_printable_ascii(b.subrange(name_start as int, name_end as int));
                }
                let name = ascii_to_string(&body[name_start..name_end]);
                let trailer_start = name_end;
                let tend = if n - trailer_start >= TRAILER_SCAN_LEN {
                    trailer_start + TRAILER_SCAN_LEN
                } else {
                    n
                };
                let trailer = &body[trailer_start..tend];
                assert(trailer@ == trailer_after(b, name_end as int));
                let col_count = if COL_COUNT_OFF < trailer.len() {
                    Some(trailer[COL_COUNT_OFF])
                } else {
                    None
                };
                let data_root_page = read_u32_le(trailer, DATA_ROOT_OFF);
                let last_page = read_u32_le(trailer, LAST_PAGE_OFF);
                let entry = SysTableEntry {
                    table_id: tid,
                    name,
                    magic,
                    col_count,
                    data_root_page,
                    last_page,
                    page_number: pn,
                    row_offset: pos,
                };
                proof {
                    assert(entry@.magic =~= b.subrange(pos + 12, pos + 16));
                    assert(entry@ == systable_row_at(b, pn, pos as int));
                }
                let ghost before = systable_views(out@);
                out.push(entry);
                proof {
                    assert(systable_views(out@) =~= before.push(entry@));
                    assert(before + systable_rows_from(b, pn, end as int, pos as int) =~= systable_views(out@)
                        + systable_rows_from(b, pn, end as int, name_end as int));
                }
                pos = name_end;
            }
        }
    }
    assert(systable_rows_from(b, pn, end as int, pos as int) =~= Seq::<SysTableView>::empty());
    assert(init + systable_rows(b, pn) =~= systable_views(out@));
}

// ---------------------------------------------------------------------------
// Whole-store extraction
// ---------------------------------------------------------------------------

/// The `SYSTABLE` rows of the pages `1..hi`, given the decoded pages.
pub open spec fn systable_rows_of_pages(pages: Seq<Seq<u8>>, plains: Seq<Seq<u8>>, hi: int) -> Seq<SysTableView>
    decreases hi,
{
    if hi <= 1 {
        Seq::empty()
    } else {
        systable_rows_of_pages(pages, plains, hi - 1) + if is_extent(pages[hi - 1]) {
            systable_rows(plains[hi - 1], (hi - 1) as u64)
        } else {
            Seq::empty()
        }
    }
}

proof fn lemma_rows_of_pages_prefix(pages: Seq<Seq<u8>>, p1: Seq<Seq<u8>>, p2: Seq<Seq<u8>>, hi: int)
    requires
        forall|i: int| 1 <= i < hi ==> #[trigger] p1[i] == p2[i],
    ensures
        systable_rows_of_pages(pages, p1, hi) == systable_rows_of_pages(pages, p2, hi),
    decreases hi,
{
    if hi > 1 {
        lemma_rows_of_pages_prefix(pages, p1, p2, hi - 1);
        assert(p1[hi - 1] == p2[hi - 1]);
    }
}

/// `rows` are the `SYSTABLE` rows of `store` under some decoding of its
/// pages that follows the oracle cascade, in page and offset order.
pub open spec fn systable_scanned_from(store: PageStore, rows: Seq<SysTableEntry>) -> bool {
    exists|plains: Seq<Seq<u8>>|
        page_decodings(store_pages(store), plains, BvOracle::Cascade) && systable_views(rows)
            == systable_rows_of_pages(store_pages(store), plains, store_pages(store).len() as int)
}

/// Every `SYSTABLE` row in `store`, scanning each extent page after the
/// superblock in page order and each page in offset order. Each page is
/// decoded with the `bv` of the oracle cascade when it answers, else with
/// the cipher model.
pub fn iter_systable_entries(store: &PageStore, model: &ApModel) -> (rows: Vec<SysTableEntry>)
    ensures
        systable_scanned_from(*store, rows@),
{
    let ghost pages = store_pages(*store);
    let n = page_count(store);
    let mut rows: Vec<SysTableEntry> = Vec::new();
    let ghost mut plains: Seq<Seq<u8>> = Seq::new(pages.len(), |i: int| Seq::<u8>::empty());
    if n == 0 {
        assert(systable_views(rows@) =~= systable_rows_of_pages(pages, plains, 0));
        assert(page_decodings(pages, plains, BvOracle::Cascade));
        return rows;
    }
    let mut pn: u64 = 1;
    while pn < n
        invariant
            n == pages.len(),
            pages == store_pages(*store),
            1 <= pn <= n,
            plains.len() == pages.len(),
            forall|q: int|
                1 <= q < pn && is_extent(pages[q]) ==> crate::decode::decoding_of(
                    pages[q],
                    q as u64,
                    #[trigger] plains[q],
                    crate::decode::oracle_answer(BvOracle::Cascade, pages[q], q as u64),
                ),
            systable_views(rows@) == systable_rows_of_pages(pages, plains, pn as int),
        decreases n - pn,
    {
        let raw = page_bytes(store, pn).unwrap();
        let ghost old_plains = plains;
        let ghost old_rows = systable_views(rows@);
        if is_extent_page(pn, raw) {
            let plain = decode_page(store, model, pn, raw, BvOracle::Cascade);
            proof {
                plains = plains.update(pn as int, plain@);
                lemma_no_overrun_on_full_page(plain@, SYSTABLE_DATA_END as int, 0);
            }
            scan_page(plain.as_slice(), pn, &mut rows);
            proof {
                lemma_rows_of_pages_prefix(pages, old_plains, plains, pn as int);
            }
        } else {
            assert(systable_views(rows@) =~= old_rows + Seq::<SysTableView>::empty());
        }
        assert(systable_views(rows@) == systable_rows_of_pages(pages, plains, pn + 1));
        pn = pn + 1;
    }
    assert(page_decodings(pages, plains, BvOracle::Cascade));
    rows
}

impl KeyedRow for SysTableEntry {
    open spec fn row_key(&self) -> RowKey {
        (self.table_id, 0u32, string_bytes(self.name))
    }

    fn key_parts(&self) -> (r: (u32, u32, &[u8])) {
        (self.table_id, 0, self.name.as_str().as_bytes())
    }
}

/// `rows` is the canonical catalog of the `SYSTABLE` rows found in
/// `store` under some decoding of its pages that follows the oracle
/// cascade.
pub open spec fn collected_from(store: PageStore, rows: Seq<SysTableEntry>) -> bool {
    exists|all: Seq<SysTableEntry>| systable_scanned_from(store, all) && canonical_of(all, rows)
}

/// The deduplicated catalog: one row per `(table_id, name)`, the first
/// one found, ordered by table id and then by name.
pub fn collect_unique(store: &PageStore, model: &ApModel) -> (rows: Vec<SysTableEntry>)
    ensures
        collected_from(*store, rows@),
{
    let all = iter_systable_entries(store, model);
    let ghost all_rows = all@;
    let rows = unique_by_key(all);
    assert(systable_scanned_from(*store, all_rows) && canonical_of(all_rows, rows@));
    rows
}

} // verus!
