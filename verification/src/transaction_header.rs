//! Transaction-header records.
//!
//! QuickBooks transaction-header tables (`abmc_*_header`) store one row
//! per transaction. A header row carries the row's own QB-ID as a
//! type-tagged string field `0E 00 10 <16 base62>`, followed within the
//! next 96 bytes by the transaction date (`u32` LE days since 1981-01-01)
//! and an internal counter (`u32` LE). The scanner extracts the QB-ID and
//! the first plausible `(date, counter)` pair. Header pages are the
//! extent pages that the position attribution assigns to a table whose
//! name ends in `_header`.

use vstd::prelude::*;
use vstd::string::*;
use opensqlany::{ApModel, PageStore};
use crate::codec::{all_base62, find_date_counter_in, first_date_counter, lemma_base62_ascii};
use crate::decode::{any_decoding, decode_page, lemma_any_decoding, page_decodings, BvOracle};
use crate::lineitem::is_base62;
use crate::page_attribution::{attributed_row, PageAttribution};
use crate::store::{is_extent, is_extent_page, page_bytes, page_count, store_pages};
use crate::text::{
    ascii_to_string, ends_with, ends_with_bytes, str_bytes, string_bytes, strip_prefix_or_keep,
    strip_suffix_or_keep, without_prefix, without_suffix,
};

verus! {

/// Header rows are searched in the page body up to the trailer.
pub const HEADER_DATA_END: usize = 0xFF0;

/// Length of a QB-ID.
pub const HEADER_QB_ID_LEN: usize = 16;

/// The type tag of a 16-byte string field.
pub const HEADER_PREFIX: [u8; 3] = [0x0E, 0x00, 0x10];

/// `_header`: the name suffix of header tables.
pub const HEADER_SUFFIX: [u8; 7] = [0x5F, 0x68, 0x65, 0x61, 0x64, 0x65, 0x72];

/// `abmc_`: the name prefix of QuickBooks tables.
pub const ABMC_PREFIX: [u8; 5] = [0x61, 0x62, 0x6D, 0x63, 0x5F];

/// A transaction-header record.
#[derive(Debug, Clone)]
pub struct TransactionHeader {
    /// Row QB-ID (16 base62 characters).
    pub qb_id: String,
    /// Owning `SYSTABLE` name (e.g. `abmc_invoice_header`).
    pub source_table: String,
    /// SA17 transaction date (days since 1981-01-01), when found.
    pub txn_date_raw: Option<u32>,
    /// Internal counter, when found.
    pub counter: Option<u32>,
    /// Source page number.
    pub page_number: u64,
    /// Offset of the QB-ID tag in the decoded page body.
    pub page_offset: usize,
}

/// A transaction header with its strings taken as bytes.
pub struct HeaderView {
    pub qb_id: Seq<u8>,
    pub source_table: Seq<u8>,
    pub txn_date_raw: Option<u32>,
    pub counter: Option<u32>,
    pub page_number: u64,
    pub page_offset: usize,
}

impl View for TransactionHeader {
    type V = HeaderView;

    open spec fn view(&self) -> HeaderView {
        HeaderView {
            qb_id: string_bytes(self.qb_id),
            source_table: string_bytes(self.source_table),
            txn_date_raw: self.txn_date_raw,
            counter: self.counter,
            page_number: self.page_number,
            page_offset: self.page_offset,
        }
    }
}

/// The views of a sequence of headers.
pub open spec fn header_views(v: Seq<TransactionHeader>) -> Seq<HeaderView> {
    v.map_values(|h: TransactionHeader| h@)
}

/// The transaction type named by a table: the name without a leading
/// `abmc_` and a trailing `_header`.
pub open spec fn txn_type_of(table: Seq<u8>) -> Seq<u8> {
    without_suffix(without_prefix(table, ABMC_PREFIX@), HEADER_SUFFIX@)
}

proof fn lemma_name_literals()
    ensures
        "abmc_".spec_bytes() == ABMC_PREFIX@,
        "_header".spec_bytes() == HEADER_SUFFIX@,
{
    reveal_strlit("abmc_");
    reveal_strlit("_header");
    vstd::utf8::is_ascii_chars_encode_utf8("abmc_"@);
    vstd::utf8::is_ascii_chars_encode_utf8("_header"@);
    assert("abmc_".spec_bytes() =~= ABMC_PREFIX@);
    assert("_header".spec_bytes() =~= HEADER_SUFFIX@);
}

impl TransactionHeader {
    /// The QuickBooks transaction type: the source table name without its
    /// `abmc_` prefix and `_header` suffix (`abmc_invoice_header` gives
    /// `invoice`).
    pub fn txn_type(&self) -> (r: &str)
        ensures
            str_bytes(r) == txn_type_of(string_bytes(self.source_table)),
    {
        proof {
            lemma_name_literals();
        }
        let s = self.source_table.as_str();
        let s = strip_prefix_or_keep(s, "abmc_");
        strip_suffix_or_keep(s, "_header")
    }
}

/// Whether a table name ends with `_header`.
pub fn is_header_table(name: &str) -> (b: bool)
    ensures
        b == ends_with_bytes(str_bytes(name), HEADER_SUFFIX@),
{
    ends_with(name.as_bytes(), &HEADER_SUFFIX)
}

/// Whether the header tag `0E 00 10` followed by 16 base62 bytes starts
/// at `pos`.
pub open spec fn header_anchor_at(b: Seq<u8>, pos: int) -> bool {
    &&& b[pos] == 0x0E && b[pos + 1] == 0x00 && b[pos + 2] == 0x10
    &&& all_base62(b.subrange(pos + 3, pos + 19))
}

/// End (exclusive) of the offsets searched for a `(date, counter)` pair
/// after a QB-ID ending at `start`: the eight bytes at an offset must end
/// within 96 bytes of `start` and eight bytes before the end of the body.
pub open spec fn header_date_hi(len: int, start: int) -> int {
    let lim = if len >= 8 {
        len - 8
    } else {
        0
    };
    let e = if start + 96 < lim {
        start + 96
    } else {
        lim
    };
    e - 7
}

/// The header parsed from a tag at `pos`.
pub open spec fn header_at(b: Seq<u8>, pn: u64, table: Seq<u8>, pos: int) -> HeaderView {
    let dc = first_date_counter(b, pos + 19, header_date_hi(b.len() as int, pos + 19), 10_000_000);
    HeaderView {
        qb_id: b.subrange(pos + 3, pos + 19),
        source_table: table,
        txn_date_raw: match dc {
            Some(p) => Some(p.0),
            None => None,
        },
        counter: match dc {
            Some(p) => Some(p.1),
            None => None,
        },
        page_number: pn,
        page_offset: pos as usize,
    }
}

/// The headers found scanning from `pos` up to `end`; a match skips past
/// its QB-ID.
pub open spec fn headers_from(b: Seq<u8>, pn: u64, table: Seq<u8>, end: int, pos: int) -> Seq<HeaderView>
    decreases end - pos,
{
    if pos < 0 || pos + 19 > end {
        Seq::empty()
    } else if header_anchor_at(b, pos) {
        seq![header_at(b, pn, table, pos)] + headers_from(b, pn, table, end, pos + 19)
    } else {
        headers_from(b, pn, table, end, pos + 1)
    }
}

/// The headers of a decoded page body, searched within its first `0xFF0`
/// bytes.
pub open spec fn headers_in(b: Seq<u8>, pn: u64, table: Seq<u8>) -> Seq<HeaderView> {
    let end = if b.len() < HEADER_DATA_END {
        b.len() as int
    } else {
        HEADER_DATA_END as int
    };
    headers_from(b, pn, table, end, 0)
}

/// The first plausible `(date, counter)` pair after a QB-ID ending at
/// `start`.
pub fn find_date_counter(body: &[u8], start: usize) -> (r: (Option<u32>, Option<u32>))
    ensures
        match first_date_counter(body@, start as int, header_date_hi(body@.len() as int, start as int), 10_000_000) {
            Some(p) => r == (Some(p.0), Some(p.1)),
            None => r == (None::<u32>, None::<u32>),
        },
{
    let n = body.len();
    let lim = if n >= 8 {
        n - 8
    } else {
        0
    };
    let e = if lim > start && lim - start > 96 {
        start + 96
    } else {
        lim
    };
    if e < 7 || e - 7 <= start {
        proof {
            assert(first_date_counter(body@, start as int, header_date_hi(n as int, start as int), 10_000_000) is None);
        }
        return (None, None);
    }
    match find_date_counter_in(body, start, e - 7, 10_000_000) {
        Some(p) => (Some(p.0), Some(p.1)),
        None => (None, None),
    }
}

/// Scan a decoded page body for QB-ID header tags and append the parsed
/// records to `out`, in page order.
pub fn scan_page(body: &[u8], pn: u64, source_table: &str, out: &mut Vec<TransactionHeader>)
    ensures
        header_views(final(out)@) == header_views(old(out)@) + headers_in(body@, pn, str_bytes(source_table)),
{
    let ghost b = body@;
    let ghost table = str_bytes(source_table);
    let ghost init = header_views(out@);
    let n = body.len();
    let end = if n < HEADER_DATA_END {
        n
    } else {
        HEADER_DATA_END
    };
    if end < 19 {
        assert(headers_in(b, pn, table) =~= Seq::<HeaderView>::empty());
        assert(header_views(out@) =~= init + headers_in(b, pn, table));
        return;
    }
    let limit = end - 19;
    let mut pos: usize = 0;
    while pos <= limit
        invariant
            n == b.len(),
            b == body@,
            end <= n,
            limit == end - 19,
            pos <= end,
            table == str_bytes(source_table),
            headers_in(b, pn, table) == headers_from(b, pn, table, end as int, 0),
            init + headers_from(b, pn, table, end as int, 0) == header_views(out@) + headers_from(
                b,
                pn,
                table,
                end as int,
                pos as int,
            ),
        decreases end - pos,
    {
        if body[pos] != 0x0E || body[pos + 1] != 0x00 || body[pos + 2] != 0x10 {
            pos = pos + 1;
        } else {
            let id_start = pos + 3;
            let id_bytes = &body[id_start..id_start + HEADER_QB_ID_LEN];
            if !is_base62(id_bytes) {
                pos = pos + 1;
            } else {
                proof {
                    lemma_base62_ascii(id_bytes@);
                }
                let qb_id = ascii_to_string(id_bytes);
                let (txn_date_raw, counter) = find_date_counter(body, id_start + HEADER_QB_ID_LEN);
                let h = TransactionHeader {
                    qb_id,
                    source_table: source_table.to_owned(),
                    txn_date_raw,
                    counter,
                    page_number: pn,
                    page_offset: pos,
                };
                proof {
                    assert(h@ == header_at(b, pn, table, pos as int));
                }
                let ghost before = header_views(out@);
                out.push(h);
                proof {
                    assert(header_views(out@) =~= before.push(h@));
                    assert(before + headers_from(b, pn, table, end as int, pos as int) =~= header_views(out@)
                        + headers_from(b, pn, table, end as int, pos + 19));
                }
                pos = id_start + HEADER_QB_ID_LEN;
            }
        }
    }
    assert(headers_from(b, pn, table, end as int, pos as int) =~= Seq::<HeaderView>::empty());
    assert(init + headers_in(b, pn, table) =~= header_views(out@));
}

// ---------------------------------------------------------------------------
// Whole-store extraction
// ---------------------------------------------------------------------------

/// The header table that page `q` is attributed to, if any.
pub open spec fn header_table_of(rows: Seq<crate::systable::SysTableEntry>, q: int) -> Option<Seq<u8>> {
    match attributed_row(rows, q as u64) {
        Some(e) => if ends_with_bytes(string_bytes(e.name), HEADER_SUFFIX@) {
            Some(string_bytes(e.name))
        } else {
            None
        },
        None => None,
    }
}

/// The headers of the pages `1..hi`: every extent page attributed to a
/// header table contributes the headers of its decoded body.
pub open spec fn headers_of_pages(
    pages: Seq<Seq<u8>>,
    plains: Seq<Seq<u8>>,
    rows: Seq<crate::systable::SysTableEntry>,
    hi: int,
) -> Seq<HeaderView>
    decreases hi,
{
    if hi <= 1 {
        Seq::empty()
    } else {
        headers_of_pages(pages, plains, rows, hi - 1) + match header_table_of(rows, hi - 1) {
            Some(t) => if is_extent(pages[hi - 1]) {
                headers_in(plains[hi - 1].subrange(0, HEADER_DATA_END as int), (hi - 1) as u64, t)
            } else {
                Seq::empty()
            },
            None => Seq::empty(),
        }
    }
}

proof fn lemma_headers_of_pages_prefix(
    pages: Seq<Seq<u8>>,
    p1: Seq<Seq<u8>>,
    p2: Seq<Seq<u8>>,
    rows: Seq<crate::systable::SysTableEntry>,
    hi: int,
)
    requires
        forall|i: int| 1 <= i < hi ==> #[trigger] p1[i] == p2[i],
    ensures
        headers_of_pages(pages, p1, rows, hi) == headers_of_pages(pages, p2, rows, hi),
    decreases hi,
{
    if hi > 1 {
        lemma_headers_of_pages_prefix(pages, p1, p2, rows, hi - 1);
        assert(p1[hi - 1] == p2[hi - 1]);
    }
}

/// Every transaction header on the extent pages that `attribution`
/// assigns to a `*_header` table, in page order. Each page is decoded
/// with the `bv` of the oracle cascade when it answers, else with the
/// cipher model.
pub fn iter_transaction_headers(store: &PageStore, model: &ApModel, attribution: &PageAttribution) -> (headers: Vec<
    TransactionHeader,
>)
    ensures
        exists|plains: Seq<Seq<u8>>|
            page_decodings(store_pages(*store), plains, BvOracle::Cascade)
                && header_views(headers@) == headers_of_pages(
                store_pages(*store),
                plains,
                attribution.rows(),
                store_pages(*store).len() as int,
            ),
{
    let ghost pages = store_pages(*store);
    let ghost rows = attribution.rows();
    let n = page_count(store);
    let mut headers: Vec<TransactionHeader> = Vec::new();
    let ghost mut plains: Seq<Seq<u8>> = Seq::new(pages.len(), |i: int| Seq::<u8>::empty());
    if n == 0 {
        assert(header_views(headers@) =~= headers_of_pages(pages, plains, rows, 0));
        assert(page_decodings(pages, plains, BvOracle::Cascade));
        return headers;
    }
    let mut pn: u64 = 1;
    while pn < n
        invariant
            n == pages.len(),
            pages == store_pages(*store),
            rows == attribution.rows(),
            1 <= pn <= n,
            plains.len() == pages.len(),
            forall|q: int|
                1 <= q < pn && is_extent(pages[q]) ==> crate::decode::decoding_of(
                    pages[q],
                    q as u64,
                    #[trigger] plains[q],
                    crate::decode::oracle_answer(BvOracle::Cascade, pages[q], q as u64),
                ),
            header_views(headers@) == headers_of_pages(pages, plains, rows, pn as int),
        decreases n - pn,
    {
        let ghost old_plains = plains;
        let ghost old_headers = header_views(headers@);
        let table = match attribution.attribute(pn) {
            Some(e) => if is_header_table(e.name.as_str()) {
                Some(e.name.as_str())
            } else {
                None
            },
            None => None,
        };
        match table {
            Some(t) => {
                let raw = page_bytes(store, pn).unwrap();
                if is_extent_page(pn, raw) {
                    let plain = decode_page(store, model, pn, raw, BvOracle::Cascade);
                    proof {
                        plains = plains.update(pn as int, plain@);
                    }
                    let body = &plain.as_slice()[0..HEADER_DATA_END];
                    scan_page(body, pn, t, &mut headers);
                    proof {
                        lemma_headers_of_pages_prefix(pages, old_plains, plains, rows, pn as int);
                        assert(body@ == plains[pn as int].subrange(0, HEADER_DATA_END as int));
                    }
                } else {
                    assert(header_views(headers@) =~= old_headers + Seq::<HeaderView>::empty());
                }
            },
            None => {
                proof {
                    plains = plains.update(pn as int, any_decoding(pages[pn as int], pn, BvOracle::Cascade));
                    lemma_any_decoding(pages[pn as int], pn, BvOracle::Cascade);
                    lemma_headers_of_pages_prefix(pages, old_plains, plains, rows, pn as int);
                }
                assert(header_views(headers@) =~= old_headers + Seq::<HeaderView>::empty());
            },
        }
        assert(header_views(headers@) == headers_of_pages(pages, plains, rows, pn + 1));
        pn = pn + 1;
    }
    assert(page_decodings(pages, plains, BvOracle::Cascade));
    headers
}

} // verus!
