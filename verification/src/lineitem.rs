//! Invoice line-item records.
//!
//! A line item is anchored by the 25-byte pattern
//! `00 00 00 00 10 <16 ASCII base62 chars> 00 00 80 3F`: the 16 characters
//! are the QB-ID of the parent invoice and the trailing four bytes are a
//! `float32(1.0)` quantity. The four typed amount bytes follow the anchor,
//! and a `(date, counter)` pair follows a little later:
//!
//! * `0x01`, `0x02`: `[type][u24 LE cents]`;
//! * `0x03`: deferred (the raw bytes are kept, no cents are decoded);
//! * `0x00`: no amount.

use vstd::prelude::*;
use opensqlany::{ApModel, PageStore};
use crate::bv_recovery::{matches_at, PAGE};
use crate::codec::{
    all_base62, all_base62_exec, find_date_counter_in, first_date_counter, lemma_base62_ascii,
};
use crate::date::DATE_EPOCH_DAYS_BEFORE_UNIX;
use crate::decode::{decode_page, page_decodings, BvOracle};
use crate::store::{is_extent, is_extent_page, page_bytes, page_count, store_pages};
use crate::text::{ascii_to_string, string_bytes};

verus! {

/// Line items are searched in the page body up to this offset.
pub const PAGE_DATA_END: usize = 0xFE0;

/// Length of the line-item anchor.
pub const ANCHOR_LEN: usize = 25;

/// Length of a QB-ID.
pub const QB_ID_LEN: usize = 16;

/// The `float32(1.0)` quantity that closes the anchor.
pub const F32_ONE: [u8; 4] = [0x00, 0x00, 0x80, 0x3F];

/// The five bytes that open the anchor.
pub const PARENT_PREFIX: [u8; 5] = [0x00, 0x00, 0x00, 0x00, 0x10];

/// The three bytes that precede the line item's own QB-ID.
pub const ITEM_ID_PREFIX: [u8; 3] = [0x04, 0x00, 0x10];

/// Classification of the amount-type byte of a line item.
#[derive(Debug, Clone, Copy, PartialEq, Eq, Hash, Structural)]
pub enum AmountType {
    /// `0x00`: placeholder; the four bytes are not a cents value.
    Placeholder,
    /// `0x01`: `[0x01][u24 LE cents]`.
    OneByteOne,
    /// `0x02`: `[0x02][u24 LE cents]`.
    Standard,
    /// `0x03`: deferred; the encoding is not known.
    Deferred,
    /// Any other byte.
    Other(u8),
}

/// The classification of an amount-type byte.
pub open spec fn amount_type_of(b: u8) -> AmountType {
    if b == 0 {
        AmountType::Placeholder
    } else if b == 1 {
        AmountType::OneByteOne
    } else if b == 2 {
        AmountType::Standard
    } else if b == 3 {
        AmountType::Deferred
    } else {
        AmountType::Other(b)
    }
}

/// The 24-bit little-endian cents value stored after the type byte.
pub open spec fn u24_cents(raw: Seq<u8>) -> u32 {
    (raw[1] + raw[2] * 256 + raw[3] * 65536) as u32
}

impl AmountType {
    /// Classify the leading amount-type byte.
    pub fn from_byte(b: u8) -> (t: Self)
        ensures
            t == amount_type_of(b),
    {
        match b {
            0x00 => AmountType::Placeholder,
            0x01 => AmountType::OneByteOne,
            0x02 => AmountType::Standard,
            0x03 => AmountType::Deferred,
            other => AmountType::Other(other),
        }
    }

    /// The cents carried by the four amount bytes under this type.
    pub open spec fn cents_of(self, raw: Seq<u8>) -> Option<u32> {
        match self {
            AmountType::Standard | AmountType::OneByteOne => Some(u24_cents(raw)),
            _ => None,
        }
    }

    /// Decode the four amount bytes into integer cents when the type is
    /// one of the cents-bearing types (`0x01`, `0x02`).
    pub fn decode_cents(self, raw: &[u8; 4]) -> (r: Option<u32>)
        ensures
            r == self.cents_of(raw@),
            r is Some <==> (self == AmountType::Standard || self == AmountType::OneByteOne),
            r matches Some(c) ==> c % 256 == raw@[1] && (c / 256) % 256 == raw@[2] && c / 65536 == raw@[3],
    {
        proof {
            lemma_cents_are_u24_le(self, raw@);
        }
        match self {
            AmountType::Standard | AmountType::OneByteOne => {
                let cents = raw[1] as u32 + (raw[2] as u32) * 256 + (raw[3] as u32) * 65536;
                Some(cents)
            },
            _ => None,
        }
    }
}

/// For the two cents-bearing types (`0x01`, `0x02`) the cents read back
/// the three bytes after the type byte, least significant first; every
/// other type carries no cents.
pub proof fn lemma_cents_are_u24_le(t: AmountType, raw: Seq<u8>)
    requires
        raw.len() == 4,
    ensures
        (t == AmountType::Standard || t == AmountType::OneByteOne) ==> match t.cents_of(raw) {
            Some(c) => c % 256 == raw[1] && (c / 256) % 256 == raw[2] && c / 65536 == raw[3],
            None => false,
        },
        !(t == AmountType::Standard || t == AmountType::OneByteOne) ==> t.cents_of(raw) is None,
        amount_type_of(raw[0]).cents_of(raw) is Some <==> (raw[0] == 1 || raw[0] == 2),
{
    if t == AmountType::Standard || t == AmountType::OneByteOne {
        let c = t.cents_of(raw).unwrap();
        let (a, b, d) = (raw[1] as int, raw[2] as int, raw[3] as int);
        assert(c == a + b * 256 + d * 65536);
        assert(c % 256 == a && (c / 256) % 256 == b && c / 65536 == d) by (nonlinear_arith)
            requires
                c == a + b * 256 + d * 65536,
                0 <= a < 256,
                0 <= b < 256,
                0 <= d < 256,
        ;
    }
}

/// A parsed invoice line item.
#[derive(Debug, Clone)]
pub struct LineItem {
    /// Parent invoice QB-ID (16 base62 characters).
    pub invoice_id: String,
    /// Source page number.
    pub page_number: u64,
    /// Offset of the anchor in the decoded page body.
    pub page_offset: usize,
    /// The line item's own QB-ID, when found.
    pub item_qb_id: Option<String>,
    /// Amount-type classification.
    pub amount_type: AmountType,
    /// Decoded cents when the type carries cents.
    pub amount_cents: Option<u32>,
    /// The four bytes after the `float32(1.0)` quantity.
    pub amount_raw: [u8; 4],
    /// SA17 transaction date (days since 1981-01-01), when found.
    pub txn_date_raw: Option<u32>,
    /// SA17 transaction counter, when found.
    pub counter: Option<u32>,
}

/// A line item with its strings taken as bytes.
pub struct LineItemView {
    pub invoice_id: Seq<u8>,
    pub page_number: u64,
    pub page_offset: usize,
    pub item_qb_id: Option<Seq<u8>>,
    pub amount_type: AmountType,
    pub amount_cents: Option<u32>,
    pub amount_raw: Seq<u8>,
    pub txn_date_raw: Option<u32>,
    pub counter: Option<u32>,
}

/// The bytes of an optional string.
pub open spec fn opt_string_bytes(s: Option<String>) -> Option<Seq<u8>> {
    match s {
        Some(t) => Some(string_bytes(t)),
        None => None,
    }
}

impl View for LineItem {
    type V = LineItemView;

    open spec fn view(&self) -> LineItemView {
        LineItemView {
            invoice_id: string_bytes(self.invoice_id),
            page_number: self.page_number,
            page_offset: self.page_offset,
            item_qb_id: opt_string_bytes(self.item_qb_id),
            amount_type: self.amount_type,
            amount_cents: self.amount_cents,
            amount_raw: self.amount_raw@,
            txn_date_raw: self.txn_date_raw,
            counter: self.counter,
        }
    }
}

/// The views of a sequence of line items.
pub open spec fn lineitem_views(v: Seq<LineItem>) -> Seq<LineItemView> {
    v.map_values(|li: LineItem| li@)
}

/// The Unix day of an SA17 line-item date, for dates in `1..30000`.
pub open spec fn lineitem_unix_day(d: Option<u32>) -> Option<int> {
    match d {
        Some(v) => if 0 < v < 30000 {
            Some(v - DATE_EPOCH_DAYS_BEFORE_UNIX)
        } else {
            None
        },
        None => None,
    }
}

impl LineItem {
    /// The transaction date as days since the Unix epoch. `None` when the
    /// date is missing or not in `1..30000`.
    pub fn txn_date_days_since_unix(&self) -> (r: Option<i64>)
        ensures
            match lineitem_unix_day(self.txn_date_raw) {
                Some(d) => r == Some(d as i64),
                None => r is None,
            },
    {
        match self.txn_date_raw {
            Some(d) => if d > 0 && d < 30_000 {
                Some(d as i64 - DATE_EPOCH_DAYS_BEFORE_UNIX)
            } else {
                None
            },
            None => None,
        }
    }
}

// ---------------------------------------------------------------------------
// Scanning a page body
// ---------------------------------------------------------------------------

/// Whether the line-item anchor starts at `pos`.
pub open spec fn lineitem_anchor_at(body: Seq<u8>, pos: int) -> bool {
    &&& 0 <= pos && pos + ANCHOR_LEN <= body.len()
    &&& body.subrange(pos, pos + 5) == PARENT_PREFIX@
    &&& all_base62(body.subrange(pos + 5, pos + 21))
    &&& body.subrange(pos + 21, pos + 25) == F32_ONE@
}

/// The first offset `>= i` at which `needle` occurs in `hay`.
pub open spec fn first_occurrence_from(hay: Seq<u8>, needle: Seq<u8>, i: int) -> Option<int>
    decreases hay.len() + 1 - i,
{
    if i < 0 || i + needle.len() > hay.len() {
        None
    } else if hay.subrange(i, i + needle.len()) == needle {
        Some(i)
    } else {
        first_occurrence_from(hay, needle, i + 1)
    }
}

/// The first offset at which the non-empty `needle` occurs in `hay`.
pub open spec fn first_occurrence(hay: Seq<u8>, needle: Seq<u8>) -> Option<int> {
    if needle.len() == 0 {
        None
    } else {
        first_occurrence_from(hay, needle, 0)
    }
}

/// The four amount bytes after an anchor at `a` (zeros past the body).
pub open spec fn amount_raw_at(body: Seq<u8>, a: int) -> Seq<u8> {
    if a + 29 <= body.len() {
        body.subrange(a + 25, a + 29)
    } else {
        seq![0u8, 0u8, 0u8, 0u8]
    }
}

/// End of the `(date, counter)` search window after an anchor at `a`.
pub open spec fn lineitem_date_end(len: int, a: int) -> int {
    let lim = if len >= 8 {
        len - 8
    } else {
        0
    };
    if a + 25 + 64 < lim {
        a + 25 + 64
    } else {
        lim
    }
}

/// The item QB-ID found before an anchor at `a`: the 16 base62 bytes
/// after the first `04 00 10` in the (up to) 96 bytes before the anchor.
pub open spec fn item_qb_id_before(body: Seq<u8>, a: int) -> Option<Seq<u8>> {
    let back_start = if a >= 96 {
        a - 96
    } else {
        0
    };
    let back = body.subrange(back_start, a);
    match first_occurrence(back, ITEM_ID_PREFIX@) {
        Some(rel) => if rel + 3 + 16 <= back.len() && all_base62(back.subrange(rel + 3, rel + 19)) {
            Some(back.subrange(rel + 3, rel + 19))
        } else {
            None
        },
        None => None,
    }
}

/// The line item parsed from an anchor at `a` on page `pn`.
pub open spec fn lineitem_at(body: Seq<u8>, pn: u64, a: int) -> LineItemView {
    let raw = amount_raw_at(body, a);
    let t = amount_type_of(raw[0]);
    let dc = first_date_counter(body, a + 29, lineitem_date_end(body.len() as int, a), 1_000_000);
    LineItemView {
        invoice_id: body.subrange(a + 5, a + 21),
        page_number: pn,
        page_offset: a as usize,
        item_qb_id: item_qb_id_before(body, a),
        amount_type: t,
        amount_cents: t.cents_of(raw),
        amount_raw: raw,
        txn_date_raw: match dc {
            Some(p) => Some(p.0),
            None => None,
        },
        counter: match dc {
            Some(p) => Some(p.1),
            None => None,
        },
    }
}

/// The line items found scanning `body` from `pos`: every anchor in
/// turn, each match skipping past its 25 bytes.
pub open spec fn lineitems_from(body: Seq<u8>, pn: u64, pos: int) -> Seq<LineItemView>
    decreases body.len() - pos,
{
    if pos < 0 || pos + ANCHOR_LEN > body.len() {
        Seq::empty()
    } else if lineitem_anchor_at(body, pos) {
        seq![lineitem_at(body, pn, pos)] + lineitems_from(body, pn, pos + ANCHOR_LEN)
    } else {
        lineitems_from(body, pn, pos + 1)
    }
}

/// Check that every byte is an ASCII digit or letter.
pub fn is_base62(s: &[u8]) -> (b: bool)
    ensures
        b == all_base62(s@),
{
    all_base62_exec(s)
}

/// The first offset at which the non-empty `needle` occurs in `haystack`.
pub fn find_subslice(haystack: &[u8], needle: &[u8]) -> (r: Option<usize>)
    ensures
        r is Some <==> first_occurrence(haystack@, needle@) is Some,
        r matches Some(i) ==> first_occurrence(haystack@, needle@) == Some(i as int) && i
            + needle@.len() <= haystack@.len(),
{
    if needle.len() == 0 || haystack.len() < needle.len() {
        proof {
            if needle.len() > 0 {
                assert(first_occurrence_from(haystack@, needle@, 0) is None);
            }
        }
        return None;
    }
    let hl = haystack.len();
    let last = hl - needle.len();
    let mut i: usize = 0;
    while i <= last
        invariant
            hl == haystack@.len(),
            last == haystack@.len() - needle@.len(),
            needle@.len() > 0,
            i <= last + 1,
            first_occurrence(haystack@, needle@) == first_occurrence_from(haystack@, needle@, i as int),
        decreases last + 1 - i,
    {
        if matches_at(haystack, i, needle) {
            return Some(i);
        }
        i = i + 1;
    }
    None
}

/// Whether the line-item anchor starts at `pos`.
fn anchor_matches(body: &[u8], pos: usize) -> (b: bool)
    requires
        pos + ANCHOR_LEN <= body@.len(),
    ensures
        b == lineitem_anchor_at(body@, pos as int),
{
    let _n = body.len();
    matches_at(body, pos, &PARENT_PREFIX) && is_base62(&body[pos + 5..pos + 5 + QB_ID_LEN])
        && matches_at(body, pos + 5 + QB_ID_LEN, &F32_ONE)
}

/// Parse the line item whose anchor starts at `anchor_start`.
pub fn parse_anchor(body: &[u8], pn: u64, anchor_start: usize) -> (li: LineItem)
    requires
        lineitem_anchor_at(body@, anchor_start as int),
    ensures
        li@ == lineitem_at(body@, pn, anchor_start as int),
{
    let ghost b = body@;
    let ghost a = anchor_start as int;
    let _n = body.len();
    let id_start = anchor_start + 5;
    proof {
        lemma_base62_ascii(b.subrange(a + 5, a + 21));
    }
    let invoice_id = ascii_to_string(&body[id_start..id_start + QB_ID_LEN]);

    let payload_start = anchor_start + ANCHOR_LEN;
    let amount_raw: [u8; 4] = if body.len() >= 4 && payload_start <= body.len() - 4 {
        [body[payload_start], body[payload_start + 1], body[payload_start + 2], body[payload_start + 3]]
    } else {
        [0u8, 0u8, 0u8, 0u8]
    };
    assert(amount_raw@ =~= amount_raw_at(b, a));
    let amount_type = AmountType::from_byte(amount_raw[0]);
    let amount_cents = amount_type.decode_cents(&amount_raw);

    let lim = if body.len() >= 8 {
        body.len() - 8
    } else {
        0
    };
    let end = if lim > payload_start && lim - payload_start > 64 {
        payload_start + 64
    } else {
        lim
    };
    assert(end == lineitem_date_end(b.len() as int, a));
    let dc = if end > payload_start {
        find_date_counter_in(body, payload_start + 4, end, 1_000_000)
    } else {
        None
    };
    let (txn_date_raw, counter) = match dc {
        Some(p) => (Some(p.0), Some(p.1)),
        None => (None, None),
    };

    let back_start = if anchor_start >= 96 {
        anchor_start - 96
    } else {
        0
    };
    let back = &body[back_start..anchor_start];
    let ghost bk = b.subrange(back_start as int, a);
    assert(back@ == bk);
    let mut item_qb_id: Option<String> = None;
    match find_subslice(back, &ITEM_ID_PREFIX) {
        Some(rel) => {
            let id_off = rel + 3;
            if id_off <= back.len() && QB_ID_LEN <= back.len() - id_off {
                let id_bytes = &back[id_off..id_off + QB_ID_LEN];
                if is_base62(id_bytes) {
                    proof {
                        lemma_base62_ascii(id_bytes@);
                    }
                    item_qb_id = Some(ascii_to_string(id_bytes));
                }
            }
        },
        None => {},
    }
    let li = LineItem {
        invoice_id,
        page_number: pn,
        page_offset: anchor_start,
        item_qb_id,
        amount_type,
        amount_cents,
        amount_raw,
        txn_date_raw,
        counter,
    };
    assert(li@.invoice_id == b.subrange(a + 5, a + 21));
    assert(li@.item_qb_id == item_qb_id_before(b, a));
    li
}

/// Scan a decoded page body for line-item anchors and append the parsed
/// records to `out`, in the order they are encountered.
pub fn scan_page(body: &[u8], pn: u64, out: &mut Vec<LineItem>)
    ensures
        lineitem_views(final(out)@) == lineitem_views(old(out)@) + lineitems_from(body@, pn, 0),
{
    let ghost init = lineitem_views(out@);
    if body.len() < ANCHOR_LEN {
        assert(lineitems_from(body@, pn, 0) =~= Seq::<LineItemView>::empty());
        assert(lineitem_views(out@) =~= init + lineitems_from(body@, pn, 0));
        return;
    }
    let n = body.len();
    let limit = n - ANCHOR_LEN;
    let mut pos: usize = 0;
    while pos <= limit
        invariant
            n == body@.len(),
            limit == body@.len() - ANCHOR_LEN,
            pos <= limit + ANCHOR_LEN,
            init + lineitems_from(body@, pn, 0) == lineitem_views(out@) + lineitems_from(body@, pn, pos as int),
        decreases limit + ANCHOR_LEN - pos,
    {
        if anchor_matches(body, pos) {
            let li = parse_anchor(body, pn, pos);
            let ghost before = lineitem_views(out@);
            out.push(li);
            proof {
                assert(lineitem_views(out@) =~= before.push(li@));
                assert(lineitems_from(body@, pn, pos as int) == seq![lineitem_at(body@, pn, pos as int)]
                    + lineitems_from(body@, pn, pos + ANCHOR_LEN));
                assert(before + lineitems_from(body@, pn, pos as int) =~= lineitem_views(out@)
                    + lineitems_from(body@, pn, pos + ANCHOR_LEN));
            }
            pos = pos + ANCHOR_LEN;
        } else {
            pos = pos + 1;
        }
    }
    assert(lineitems_from(body@, pn, pos as int) =~= Seq::<LineItemView>::empty());
    assert(init + lineitems_from(body@, pn, 0) =~= lineitem_views(out@));
}

// ---------------------------------------------------------------------------
// Whole-store extraction
// ---------------------------------------------------------------------------

/// The line items of the pages `1..hi`, given the decoded pages: every
/// extent page contributes the line items of its body up to
/// [`PAGE_DATA_END`].
pub open spec fn lineitems_of_pages(pages: Seq<Seq<u8>>, plains: Seq<Seq<u8>>, hi: int) -> Seq<LineItemView>
    decreases hi,
{
    if hi <= 1 {
        Seq::empty()
    } else {
        lineitems_of_pages(pages, plains, hi - 1) + if is_extent(pages[hi - 1]) {
            lineitems_from(plains[hi - 1].subrange(0, PAGE_DATA_END as int), (hi - 1) as u64, 0)
        } else {
            Seq::empty()
        }
    }
}

proof fn lemma_lineitems_of_pages_prefix(pages: Seq<Seq<u8>>, p1: Seq<Seq<u8>>, p2: Seq<Seq<u8>>, hi: int)
    requires
        forall|i: int| 1 <= i < hi ==> #[trigger] p1[i] == p2[i],
    ensures
        lineitems_of_pages(pages, p1, hi) == lineitems_of_pages(pages, p2, hi),
    decreases hi,
{
    if hi > 1 {
        lemma_lineitems_of_pages_prefix(pages, p1, p2, hi - 1);
        assert(p1[hi - 1] == p2[hi - 1]);
    }
}

/// Every line item in `store`, scanning each extent page after the
/// superblock (page 0) in page order. Each page is decoded with the `bv`
/// of the anchor oracle when it answers, else with the cipher model.
pub fn iter_lineitems(store: &PageStore, model: &ApModel) -> (items: Vec<LineItem>)
    ensures
        exists|plains: Seq<Seq<u8>>|
            page_decodings(store_pages(*store), plains, BvOracle::Anchor)
                && lineitem_views(items@) == lineitems_of_pages(
                store_pages(*store),
                plains,
                store_pages(*store).len() as int,
            ),
{
    let ghost pages = store_pages(*store);
    let n = page_count(store);
    let mut items: Vec<LineItem> = Vec::new();
    let ghost mut plains: Seq<Seq<u8>> = Seq::new(pages.len(), |i: int| Seq::<u8>::empty());
    let mut pn: u64 = 1;
    if n == 0 {
        proof {
            assert(page_decodings(pages, plains, BvOracle::Anchor));
            assert(lineitem_views(items@) =~= lineitems_of_pages(pages, plains, 0));
        }
        return items;
    }
    while pn < n
        invariant
            n == pages.len(),
            pages == store_pages(*store),
            1 <= pn <= n,
            plains.len() == pages.len(),
            forall|q: int|
                1 <= q < pn && is_extent(pages[q]) ==> crate::decode::decoding_of(
                    pages[q],
                    q as u64,
                    #[trigger] plains[q],
                    crate::decode::oracle_answer(BvOracle::Anchor, pages[q], q as u64),
                ),
            lineitem_views(items@) == lineitems_of_pages(pages, plains, pn as int),
        decreases n - pn,
    {
        let raw = page_bytes(store, pn).unwrap();
        let ghost old_plains = plains;
        let ghost old_items = lineitem_views(items@);
        if is_extent_page(pn, raw) {
            let plain = decode_page(store, model, pn, raw, BvOracle::Anchor);
            proof {
                plains = plains.update(pn as int, plain@);
            }
            let body = &plain.as_slice()[0..PAGE_DATA_END];
            scan_page(body, pn, &mut items);
            proof {
                lemma_lineitems_of_pages_prefix(pages, old_plains, plains, pn as int);
                assert(body@ == plains[pn as int].subrange(0, PAGE_DATA_END as int));
            }
        } else {
            proof {
                assert(lineitem_views(items@) =~= old_items + Seq::<LineItemView>::empty());
            }
        }
        assert(lineitem_views(items@) == lineitems_of_pages(pages, plains, pn + 1));
        pn = pn + 1;
    }
    proof {
        assert(page_decodings(pages, plains, BvOracle::Anchor));
    }
    items
}

} // verus!
