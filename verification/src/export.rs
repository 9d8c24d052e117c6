//! What the export writes: the rows of the `transactions` and
//! `transaction_line_items` tables, and the one-line summary.
//!
//! The export decodes line items and transaction headers, attributes each
//! line item to a table by page position, and lays the result out as rows:
//!
//! * one `transactions` row per distinct header QB-ID (the first header in
//!   page order wins), carrying the aggregates of the line items under it;
//! * one synthesized `transactions` row of type `unknown` per parent QB-ID
//!   that has line items but no header, in order of first appearance;
//! * one `transaction_line_items` row per line item, numbered from 1 within
//!   each `(parent, source table)` pair.

use vstd::prelude::*;
use crate::attribution_content::hex_digit;
use crate::codec::{bytes_equal, lemma_filter_push};
use opensqlany::{ApModel, PageStore};
use crate::decode::{page_decodings, BvOracle};
use crate::lineitem::{iter_lineitems, lineitem_views, lineitems_of_pages, AmountType, LineItem};
use crate::store::store_pages;
use crate::page_attribution::{attributed_row, PageAttribution};
use crate::sorting::{key_sorted, stable_sort, stable_sorted, SortKey};
use crate::systable::SysTableEntry;
use crate::transaction_header::{txn_type_of, TransactionHeader};
use crate::text::{ascii_to_string, is_ascii_bytes, starts_with, starts_with_bytes, str_bytes, string_bytes};

verus! {

/// Prefix of SA17 system tables.
pub const SYS_PREFIX: [u8; 3] = [0x53, 0x59, 0x53];

/// Prefix of SA17 internal system tables.
pub const ISYS_PREFIX: [u8; 4] = [0x49, 0x53, 0x59, 0x53];

/// Prefix of replication-server tables.
pub const RS_PREFIX: [u8; 3] = [0x52, 0x53, 0x5F];

/// Prefix of `dbo`-owned tables.
pub const DBO_PREFIX: [u8; 3] = [0x64, 0x62, 0x6F];

/// Whether a table name belongs to the database engine rather than to
/// QuickBooks: it starts with `SYS`, `ISYS`, `RS_` or `dbo`.
pub open spec fn system_name(name: Seq<u8>) -> bool {
    ||| starts_with_bytes(name, SYS_PREFIX@)
    ||| starts_with_bytes(name, ISYS_PREFIX@)
    ||| starts_with_bytes(name, RS_PREFIX@)
    ||| starts_with_bytes(name, DBO_PREFIX@)
}

/// Whether a table name belongs to the database engine: it starts with
/// `SYS`, `ISYS`, `RS_` or `dbo`.
pub fn is_system_name(name: &str) -> (b: bool)
    ensures
        b == system_name(str_bytes(name)),
{
    let s = name.as_bytes();
    starts_with(s, &SYS_PREFIX) || starts_with(s, &ISYS_PREFIX) || starts_with(s, &RS_PREFIX) || starts_with(
        s,
        &DBO_PREFIX,
    )
}

/// The integer stored for an amount type: the type byte it was read from.
pub open spec fn amount_type_code(t: AmountType) -> i64 {
    match t {
        AmountType::Placeholder => 0,
        AmountType::OneByteOne => 1,
        AmountType::Standard => 2,
        AmountType::Deferred => 3,
        AmountType::Other(b) => b as i64,
    }
}

/// The integer stored for an amount type: the type byte it was read from.
pub fn amount_type_byte(t: AmountType) -> (b: i64)
    ensures
        b == amount_type_code(t),
{
    match t {
        AmountType::Placeholder => 0,
        AmountType::OneByteOne => 1,
        AmountType::Standard => 2,
        AmountType::Deferred => 3,
        AmountType::Other(x) => x as i64,
    }
}

/// The bytes as two lower-case hex digits each, with no separator.
pub open spec fn hex_pairs(s: Seq<u8>) -> Seq<u8>
    decreases s.len(),
{
    if s.len() == 0 {
        Seq::empty()
    } else {
        hex_pairs(s.drop_last()) + seq![hex_digit(s.last() as int / 16), hex_digit(s.last() as int % 16)]
    }
}

/// The bytes as two lower-case hex digits each, with no separator.
pub fn lower_hex(bytes: &[u8]) -> (r: String)
    ensures
        string_bytes(r) == hex_pairs(bytes@),
{
    let mut out: Vec<u8> = Vec::new();
    let mut i: usize = 0;
    while i < bytes.len()
        invariant
            i <= bytes@.len(),
            out@ == hex_pairs(bytes@.take(i as int)),
            is_ascii_bytes(out@),
        decreases bytes@.len() - i,
    {
        let b = bytes[i];
        let hi = b / 16;
        let lo = b % 16;
        let dh = if hi < 10 {
            0x30 + hi
        } else {
            0x61 + hi - 10
        };
        let dl = if lo < 10 {
            0x30 + lo
        } else {
            0x61 + lo - 10
        };
        let ghost before = out@;
        out.push(dh);
        out.push(dl);
        proof {
            let t = bytes@.take(i + 1);
            assert(t.drop_last() =~= bytes@.take(i as int));
            assert(out@ =~= before + seq![hex_digit(b as int / 16), hex_digit(b as int % 16)]);
        }
        i = i + 1;
    }
    assert(bytes@.take(i as int) =~= bytes@);
    ascii_to_string(out.as_slice())
}

/// The ASCII digit of `d`, for `d` in `0..10`.
pub open spec fn digit(d: int) -> u8 {
    (0x30 + d) as u8
}

/// The decimal digits of `n`, most significant first, with no leading
/// zero (zero itself is `0`).
pub open spec fn decimal_digits(n: nat) -> Seq<u8>
    decreases n,
{
    if n < 10 {
        seq![digit(n as int)]
    } else {
        decimal_digits(n / 10).push(digit((n % 10) as int))
    }
}

/// Append the decimal digits of `n`.
fn push_decimal(out: &mut Vec<u8>, n: u64)
    requires
        is_ascii_bytes(old(out)@),
    ensures
        final(out)@ == old(out)@ + decimal_digits(n as nat),
        is_ascii_bytes(final(out)@),
    decreases n,
{
    if n >= 10 {
        push_decimal(out, n / 10);
    }
    let ghost before = out@;
    out.push(0x30 + (n % 10) as u8);
    proof {
        if n >= 10 {
            assert(decimal_digits(n as nat) == decimal_digits((n / 10) as nat).push(digit((n % 10) as int)));
            assert(out@ =~= old(out)@ + decimal_digits(n as nat));
        } else {
            assert(out@ =~= old(out)@ + decimal_digits(n as nat));
        }
    }
}

/// The absolute value of `c`.
pub open spec fn abs(c: int) -> nat {
    if c < 0 {
        (-c) as nat
    } else {
        c as nat
    }
}

/// A cents amount as dollars with two decimals: a `-` for a negative
/// amount, the whole dollars, a `.` and the two digits of the cents.
pub open spec fn dollars_text(cents: int) -> Seq<u8> {
    let a = abs(cents);
    let sign = if cents < 0 {
        seq![0x2Du8]
    } else {
        Seq::<u8>::empty()
    };
    sign + decimal_digits(a / 100) + seq![0x2Eu8, digit(((a % 100) / 10) as int), digit((a % 10) as int)]
}

/// Append the dollars text of `cents`.
fn push_dollars(out: &mut Vec<u8>, cents: i64)
    requires
        is_ascii_bytes(old(out)@),
    ensures
        final(out)@ == old(out)@ + dollars_text(cents as int),
        is_ascii_bytes(final(out)@),
{
    let a: u64 = if cents < 0 {
        if cents == i64::MIN {
            9_223_372_036_854_775_808u64
        } else {
            (-cents) as u64
        }
    } else {
        cents as u64
    };
    assert(a == abs(cents as int));
    let ghost start = out@;
    if cents < 0 {
        out.push(0x2D);
    }
    let ghost signed = out@;
    push_decimal(out, a / 100);
    let ghost whole = out@;
    out.push(0x2E);
    out.push(0x30 + ((a % 100) / 10) as u8);
    out.push(0x30 + (a % 10) as u8);
    proof {
        let sign = if cents < 0 {
            seq![0x2Du8]
        } else {
            Seq::<u8>::empty()
        };
        assert(signed =~= start + sign);
        assert(whole =~= start + sign + decimal_digits((a / 100) as nat));
        assert(out@ =~= start + dollars_text(cents as int));
    }
}

/// An integer in decimal, with a `-` when negative.
pub open spec fn integer_text(n: int) -> Seq<u8> {
    if n < 0 {
        seq![0x2Du8] + decimal_digits(abs(n))
    } else {
        decimal_digits(abs(n))
    }
}

/// Append `n` in decimal, with a `-` when negative.
fn push_integer(out: &mut Vec<u8>, n: i64)
    requires
        is_ascii_bytes(old(out)@),
    ensures
        final(out)@ == old(out)@ + integer_text(n as int),
        is_ascii_bytes(final(out)@),
{
    let a: u64 = if n < 0 {
        if n == i64::MIN {
            9_223_372_036_854_775_808u64
        } else {
            (-n) as u64
        }
    } else {
        n as u64
    };
    assert(a == abs(n as int));
    let ghost start = out@;
    if n < 0 {
        out.push(0x2D);
    }
    let ghost signed = out@;
    push_decimal(out, a);
    proof {
        if n < 0 {
            assert(signed =~= start + seq![0x2Du8]);
            assert(out@ =~= start + integer_text(n as int));
        } else {
            assert(out@ =~= start + integer_text(n as int));
        }
    }
}

/// Append the bytes of an ASCII string.
fn push_ascii(out: &mut Vec<u8>, s: &str)
    requires
        is_ascii_bytes(old(out)@),
        is_ascii_bytes(str_bytes(s)),
    ensures
        final(out)@ == old(out)@ + str_bytes(s),
        is_ascii_bytes(final(out)@),
{
    let b = s.as_bytes();
    let ghost start = out@;
    let mut i: usize = 0;
    while i < b.len()
        invariant
            i <= b@.len(),
            b@ == str_bytes(s),
            is_ascii_bytes(b@),
            out@ == start + b@.take(i as int),
            is_ascii_bytes(start),
        decreases b@.len() - i,
    {
        out.push(b[i]);
        assert(b@.take(i + 1) =~= b@.take(i as int).push(b@[i as int]));
        i = i + 1;
    }
    assert(b@.take(i as int) =~= b@);
}

/// The bytes of a string whose characters are all ASCII are those
/// characters.
proof fn lemma_ascii_literal(s: &str)
    requires
        vstd::utf8::is_ascii_chars(s@),
    ensures
        is_ascii_bytes(str_bytes(s)),
{
    vstd::utf8::is_ascii_chars_encode_utf8(s@);
    assert forall|i: int| 0 <= i < str_bytes(s).len() implies #[trigger] str_bytes(s)[i] <= 0x7f by {
        assert(s@[i] as u8 == str_bytes(s)[i]);
    }
}

/// The figures of the summary line printed after an export.
#[derive(Debug, Clone, Copy)]
pub struct ExportStats {
    /// Pages in the page store.
    pub pages: u64,
    /// Rows of the `transactions` table.
    pub transactions: i64,
    /// Transaction headers decoded (before removal of repeated QB-IDs).
    pub headers: i64,
    /// Line items decoded.
    pub line_items: i64,
    /// Sum of `total_cents` over the `transactions` table.
    pub grand_total_cents: i64,
}

/// The summary line: `openqbw: pages=P transactions=T headers=H
/// lineitems=L grand_total=$D.CC`.
pub open spec fn summary_text(s: ExportStats) -> Seq<u8> {
    str_bytes("openqbw: pages=") + decimal_digits(s.pages as nat) + str_bytes(" transactions=") + integer_text(
        s.transactions as int,
    ) + str_bytes(" headers=") + integer_text(s.headers as int) + str_bytes(" lineitems=") + integer_text(
        s.line_items as int,
    ) + str_bytes(" grand_total=$") + dollars_text(s.grand_total_cents as int)
}

impl ExportStats {
    /// The summary line: `openqbw: pages=P transactions=T headers=H
    /// lineitems=L grand_total=$D.CC`, the total in dollars with two
    /// decimals.
    pub fn summary(&self) -> (r: String)
        ensures
            string_bytes(r) == summary_text(*self),
    {
        proof {
            reveal_strlit("openqbw: pages=");
            reveal_strlit(" transactions=");
            reveal_strlit(" headers=");
            reveal_strlit(" lineitems=");
            reveal_strlit(" grand_total=$");
            lemma_ascii_literal("openqbw: pages=");
            lemma_ascii_literal(" transactions=");
            lemma_ascii_literal(" headers=");
            lemma_ascii_literal(" lineitems=");
            lemma_ascii_literal(" grand_total=$");
        }
        let mut out: Vec<u8> = Vec::new();
        push_ascii(&mut out, "openqbw: pages=");
        push_decimal(&mut out, self.pages);
        push_ascii(&mut out, " transactions=");
        push_integer(&mut out, self.transactions);
        push_ascii(&mut out, " headers=");
        push_integer(&mut out, self.headers);
        push_ascii(&mut out, " lineitems=");
        push_integer(&mut out, self.line_items);
        push_ascii(&mut out, " grand_total=$");
        push_dollars(&mut out, self.grand_total_cents);
        ascii_to_string(out.as_slice())
    }
}

/// Parent QB-IDs in the invoice regression corpus file.
pub const INVOICE_REGRESSION_COUNT: i64 = 13_375;

/// Sum of line-item cents in the invoice regression corpus file.
pub const INVOICE_REGRESSION_TOTAL_CENTS: i64 = 39_991_479_278;

/// Whether an export reproduces the invoice regression figures: the
/// number of distinct parents and the grand total in cents.
pub fn invoice_regression_holds(parent_count: i64, grand_total_cents: i64) -> (b: bool)
    ensures
        b == (parent_count == INVOICE_REGRESSION_COUNT && grand_total_cents == INVOICE_REGRESSION_TOTAL_CENTS),
{
    parent_count == INVOICE_REGRESSION_COUNT && grand_total_cents == INVOICE_REGRESSION_TOTAL_CENTS
}

/// Whether position `(p1, o1)` is at most `(p2, o2)`: by page, then by
/// offset.
pub open spec fn position_le(p1: u64, o1: usize, p2: u64, o2: usize) -> bool {
    p1 < p2 || (p1 == p2 && o1 <= o2)
}

impl SortKey for LineItem {
    open spec fn key_le(&self, other: &Self) -> bool {
        position_le(self.page_number, self.page_offset, other.page_number, other.page_offset)
    }

    proof fn lemma_key_le_total(a: &Self, b: &Self) {
    }

    proof fn lemma_key_le_transitive(a: &Self, b: &Self, c: &Self) {
    }

    fn key_le_exec(&self, other: &Self) -> (r: bool) {
        self.page_number < other.page_number || (self.page_number == other.page_number && self.page_offset
            <= other.page_offset)
    }
}

impl SortKey for TransactionHeader {
    open spec fn key_le(&self, other: &Self) -> bool {
        position_le(self.page_number, self.page_offset, other.page_number, other.page_offset)
    }

    proof fn lemma_key_le_total(a: &Self, b: &Self) {
    }

    proof fn lemma_key_le_transitive(a: &Self, b: &Self, c: &Self) {
    }

    fn key_le_exec(&self, other: &Self) -> (r: bool) {
        self.page_number < other.page_number || (self.page_number == other.page_number && self.page_offset
            <= other.page_offset)
    }
}

impl SortKey for SysTableEntry {
    open spec fn key_le(&self, other: &Self) -> bool {
        self.table_id <= other.table_id
    }

    proof fn lemma_key_le_total(a: &Self, b: &Self) {
    }

    proof fn lemma_key_le_transitive(a: &Self, b: &Self, c: &Self) {
    }

    fn key_le_exec(&self, other: &Self) -> (r: bool) {
        self.table_id <= other.table_id
    }
}

/// Order line items by position (page, then offset); items at the same
/// position keep their order.
pub fn sort_items_by_position(items: Vec<LineItem>) -> (r: Vec<LineItem>)
    ensures
        r@ == stable_sorted(items@),
        key_sorted(r@),
{
    stable_sort(items)
}

/// Order transaction headers by position (page, then offset); headers at
/// the same position keep their order.
pub fn sort_headers_by_position(headers: Vec<TransactionHeader>) -> (r: Vec<TransactionHeader>)
    ensures
        r@ == stable_sorted(headers@),
        key_sorted(r@),
{
    stable_sort(headers)
}

/// Order catalog rows by table id; rows with the same id keep their
/// order.
pub fn sort_by_table_id(entries: Vec<SysTableEntry>) -> (r: Vec<SysTableEntry>)
    ensures
        r@ == stable_sorted(entries@),
        key_sorted(r@),
{
    stable_sort(entries)
}

/// Whether a catalog row names a QuickBooks table rather than a system
/// table.
pub open spec fn is_user_table(e: SysTableEntry) -> bool {
    !system_name(string_bytes(e.name))
}

/// The catalog rows that name QuickBooks tables, in order.
pub fn user_tables(entries: &[SysTableEntry]) -> (r: Vec<SysTableEntry>)
    ensures
        r@ == entries@.filter(|e: SysTableEntry| is_user_table(e)),
{
    let mut r: Vec<SysTableEntry> = Vec::new();
    let mut i: usize = 0;
    proof {
        assert(entries@.take(0) =~= Seq::<SysTableEntry>::empty());
        reveal(Seq::filter);
    }
    while i < entries.len()
        invariant
            i <= entries@.len(),
            r@ == entries@.take(i as int).filter(|e: SysTableEntry| is_user_table(e)),
        decreases entries@.len() - i,
    {
        let e = &entries[i];
        proof {
            assert(entries@.take(i + 1) =~= entries@.take(i as int).push(*e));
            lemma_filter_push(entries@.take(i as int), *e, |e: SysTableEntry| is_user_table(e));
        }
        if !is_system_name(e.name.as_str()) {
            r.push(e.copied());
        }
        i = i + 1;
    }
    assert(entries@.take(i as int) =~= entries@);
    r
}

/// The parent QB-ID of a line item, as bytes.
pub open spec fn id_of(li: LineItem) -> Seq<u8> {
    string_bytes(li.invoice_id)
}

/// The cents of a line item, zero when it carries none.
pub open spec fn cents_or_zero(li: LineItem) -> int {
    match li.amount_cents {
        Some(c) => c as int,
        None => 0,
    }
}

/// The cents of the first `n` line items.
pub open spec fn all_cents(items: Seq<LineItem>, n: int) -> int
    decreases n,
{
    if n <= 0 {
        0
    } else {
        all_cents(items, n - 1) + cents_or_zero(items[n - 1])
    }
}

/// How many of the first `n` line items have parent `id`.
pub open spec fn lines_count(items: Seq<LineItem>, id: Seq<u8>, n: int) -> nat
    decreases n,
{
    if n <= 0 {
        0
    } else {
        lines_count(items, id, n - 1) + if id_of(items[n - 1]) == id {
            1nat
        } else {
            0nat
        }
    }
}

/// The cents of the first `n` line items with parent `id`.
pub open spec fn lines_cents(items: Seq<LineItem>, id: Seq<u8>, n: int) -> int
    decreases n,
{
    if n <= 0 {
        0
    } else {
        lines_cents(items, id, n - 1) + if id_of(items[n - 1]) == id {
            cents_or_zero(items[n - 1])
        } else {
            0
        }
    }
}

/// Whether one of the first `n` line items with parent `id` is deferred.
pub open spec fn lines_deferred(items: Seq<LineItem>, id: Seq<u8>, n: int) -> bool
    decreases n,
{
    if n <= 0 {
        false
    } else {
        lines_deferred(items, id, n - 1) || (id_of(items[n - 1]) == id && items[n - 1].amount_type
            == AmountType::Deferred)
    }
}

/// The first date among the first `n` line items with parent `id`.
pub open spec fn lines_date(items: Seq<LineItem>, id: Seq<u8>, n: int) -> Option<u32>
    decreases n,
{
    if n <= 0 {
        None
    } else {
        let p = lines_date(items, id, n - 1);
        if p is Some {
            p
        } else if id_of(items[n - 1]) == id {
            items[n - 1].txn_date_raw
        } else {
            None
        }
    }
}

/// The first counter among the first `n` line items with parent `id`.
pub open spec fn lines_counter(items: Seq<LineItem>, id: Seq<u8>, n: int) -> Option<u32>
    decreases n,
{
    if n <= 0 {
        None
    } else {
        let p = lines_counter(items, id, n - 1);
        if p is Some {
            p
        } else if id_of(items[n - 1]) == id {
            items[n - 1].counter
        } else {
            None
        }
    }
}

/// The first source table among the first `n` line items with parent
/// `id`.
pub open spec fn lines_source(items: Seq<LineItem>, sources: Seq<Option<String>>, id: Seq<u8>, n: int) -> Option<
    String,
>
    decreases n,
{
    if n <= 0 {
        None
    } else {
        let p = lines_source(items, sources, id, n - 1);
        if p is Some {
            p
        } else if id_of(items[n - 1]) == id {
            sources[n - 1]
        } else {
            None
        }
    }
}

/// The page of the first of the first `n` line items with parent `id`.
pub open spec fn lines_page(items: Seq<LineItem>, id: Seq<u8>, n: int) -> Option<u64>
    decreases n,
{
    if n <= 0 {
        None
    } else {
        let p = lines_page(items, id, n - 1);
        if p is Some {
            p
        } else if id_of(items[n - 1]) == id {
            Some(items[n - 1].page_number)
        } else {
            None
        }
    }
}

/// The parents of the first `n` line items, each once, in order of first
/// appearance.
pub open spec fn ids_in_order(items: Seq<LineItem>, n: int) -> Seq<Seq<u8>>
    decreases n,
{
    if n <= 0 {
        Seq::empty()
    } else {
        let p = ids_in_order(items, n - 1);
        if p.contains(id_of(items[n - 1])) {
            p
        } else {
            p.push(id_of(items[n - 1]))
        }
    }
}

/// The line items of one parent QB-ID, summarised.
#[derive(Debug, Clone)]
pub struct LineGroup {
    /// The parent QB-ID.
    pub qb_id: String,
    /// Number of line items.
    pub line_count: u64,
    /// Sum of the cents the line items carry.
    pub total_cents: i64,
    /// Whether a line item is deferred (amount type `0x03`).
    pub has_deferred: bool,
    /// The first date found among the line items.
    pub txn_date_raw: Option<u32>,
    /// The first counter found among the line items.
    pub counter: Option<u32>,
    /// The first source table among the line items.
    pub source_table: Option<String>,
    /// The page of the first line item.
    pub first_page: u64,
}

/// `g` summarises the first `n` line items with parent `g.qb_id`.
pub open spec fn group_summarises(items: Seq<LineItem>, sources: Seq<Option<String>>, n: int, g: LineGroup) -> bool {
    let id = string_bytes(g.qb_id);
    &&& g.line_count == lines_count(items, id, n)
    &&& g.total_cents == lines_cents(items, id, n)
    &&& g.has_deferred == lines_deferred(items, id, n)
    &&& g.txn_date_raw == lines_date(items, id, n)
    &&& g.counter == lines_counter(items, id, n)
    &&& g.source_table == lines_source(items, sources, id, n)
    &&& lines_page(items, id, n) == Some(g.first_page)
}

/// The QB-IDs of groups, as bytes.
pub open spec fn group_ids(groups: Seq<LineGroup>) -> Seq<Seq<u8>> {
    groups.map_values(|g: LineGroup| string_bytes(g.qb_id))
}

/// A parent absent from the first `n` line items has no line there.
proof fn lemma_absent_parent(items: Seq<LineItem>, sources: Seq<Option<String>>, id: Seq<u8>, n: int)
    requires
        0 <= n <= items.len(),
        !ids_in_order(items, n).contains(id),
    ensures
        lines_count(items, id, n) == 0,
        lines_cents(items, id, n) == 0,
        !lines_deferred(items, id, n),
        lines_date(items, id, n) is None,
        lines_counter(items, id, n) is None,
        lines_source(items, sources, id, n) is None,
        lines_page(items, id, n) is None,
    decreases n,
{
    if n > 0 {
        let p = ids_in_order(items, n - 1);
        if !p.contains(id_of(items[n - 1])) {
            assert(p.push(id_of(items[n - 1])).last() == id_of(items[n - 1]));
            assert(ids_in_order(items, n).contains(id_of(items[n - 1])));
        }
        assert(ids_in_order(items, n).contains(id_of(items[n - 1])));
        if p.contains(id) {
            let k = choose|k: int| 0 <= k < p.len() && p[k] == id;
            assert(ids_in_order(items, n)[k] == id);
        }
        lemma_absent_parent(items, sources, id, n - 1);
    }
}

/// The cents of one parent never exceed the cents of all line items, and
/// the cents of a prefix never exceed those of a longer one.
proof fn lemma_cents_bounded(items: Seq<LineItem>, id: Seq<u8>, m: int, n: int)
    requires
        0 <= m <= n,
    ensures
        0 <= lines_cents(items, id, m) <= all_cents(items, m) <= all_cents(items, n),
    decreases n,
{
    if n > m {
        lemma_cents_bounded(items, id, m, n - 1);
    } else if n > 0 {
        lemma_cents_bounded(items, id, n - 1, n - 1);
    }
}

/// The distinct parents appear once each.
proof fn lemma_ids_distinct(items: Seq<LineItem>, n: int)
    ensures
        forall|a: int, b: int|
            0 <= a < b < ids_in_order(items, n).len() ==> ids_in_order(items, n)[a] != ids_in_order(items, n)[b],
    decreases n,
{
    if n > 0 {
        lemma_ids_distinct(items, n - 1);
        let p = ids_in_order(items, n - 1);
        let x = id_of(items[n - 1]);
        if !p.contains(x) {
            assert forall|a: int, b: int| 0 <= a < b < p.push(x).len() implies p.push(x)[a] != p.push(x)[b] by {
                if b == p.len() && p[a] == x {
                    assert(p.contains(x));
                }
            }
        }
    }
}

/// A parent has at most as many line items as there are.
proof fn lemma_count_bounded(items: Seq<LineItem>, id: Seq<u8>, n: int)
    requires
        0 <= n,
    ensures
        lines_count(items, id, n) <= n,
    decreases n,
{
    if n > 0 {
        lemma_count_bounded(items, id, n - 1);
    }
}

/// The line counts of the parents `ids` among the first `n` line items,
/// added up.
pub open spec fn count_over(items: Seq<LineItem>, ids: Seq<Seq<u8>>, n: int) -> int
    decreases ids.len(),
{
    if ids.len() == 0 {
        0
    } else {
        count_over(items, ids.drop_last(), n) + lines_count(items, ids.last(), n)
    }
}

/// The cents of the parents `ids` among the first `n` line items, added
/// up.
pub open spec fn cents_over(items: Seq<LineItem>, ids: Seq<Seq<u8>>, n: int) -> int
    decreases ids.len(),
{
    if ids.len() == 0 {
        0
    } else {
        cents_over(items, ids.drop_last(), n) + lines_cents(items, ids.last(), n)
    }
}

/// Whether no parent occurs twice in `ids`.
pub open spec fn distinct_ids(ids: Seq<Seq<u8>>) -> bool {
    forall|a: int, b: int| 0 <= a < b < ids.len() ==> ids[a] != ids[b]
}

/// Taking one more line item into account adds it to the sums of exactly
/// the parents among `ids` that it belongs to.
proof fn lemma_over_step(items: Seq<LineItem>, ids: Seq<Seq<u8>>, n: int)
    requires
        1 <= n,
        distinct_ids(ids),
    ensures
        count_over(items, ids, n) == count_over(items, ids, n - 1) + if ids.contains(id_of(items[n - 1])) {
            1int
        } else {
            0int
        },
        cents_over(items, ids, n) == cents_over(items, ids, n - 1) + if ids.contains(id_of(items[n - 1])) {
            cents_or_zero(items[n - 1])
        } else {
            0int
        },
    decreases ids.len(),
{
    if ids.len() > 0 {
        let d = ids.drop_last();
        let x = id_of(items[n - 1]);
        assert(distinct_ids(d));
        lemma_over_step(items, d, n);
        if ids.last() == x {
            if d.contains(x) {
                let k = choose|k: int| 0 <= k < d.len() && d[k] == x;
                assert(ids[k] == ids[ids.len() - 1]);
            }
            assert(ids.contains(x)) by {
                assert(ids[ids.len() - 1] == x);
            }
        } else {
            if ids.contains(x) {
                let k = choose|k: int| 0 <= k < ids.len() && ids[k] == x;
                assert(d[k] == x);
            }
            if d.contains(x) {
                let k = choose|k: int| 0 <= k < d.len() && d[k] == x;
                assert(ids[k] == x);
            }
        }
    }
}

/// The parents of the line items, each with its line count and cents,
/// account for every line item once: the counts add up to the number of
/// line items and the cents to the cents of all line items.
proof fn lemma_parent_sums(items: Seq<LineItem>, n: int)
    requires
        0 <= n <= items.len(),
    ensures
        count_over(items, ids_in_order(items, n), n) == n,
        cents_over(items, ids_in_order(items, n), n) == all_cents(items, n),
    decreases n,
{
    if n > 0 {
        lemma_parent_sums(items, n - 1);
        let p = ids_in_order(items, n - 1);
        let x = id_of(items[n - 1]);
        lemma_ids_distinct(items, n - 1);
        lemma_ids_distinct(items, n);
        lemma_over_step(items, p, n);
        if !p.contains(x) {
            lemma_absent_parent(items, Seq::new(items.len(), |i: int| None::<String>), x, n - 1);
            let q = p.push(x);
            assert(q.drop_last() =~= p);
            assert(q.last() == x);
        }
    }
}

/// The line counts of groups, added up.
pub open spec fn groups_line_total(groups: Seq<LineGroup>) -> int
    decreases groups.len(),
{
    if groups.len() == 0 {
        0
    } else {
        groups_line_total(groups.drop_last()) + groups.last().line_count
    }
}

/// The cents of groups, added up.
pub open spec fn groups_cents_total(groups: Seq<LineGroup>) -> int
    decreases groups.len(),
{
    if groups.len() == 0 {
        0
    } else {
        groups_cents_total(groups.drop_last()) + groups.last().total_cents
    }
}

proof fn lemma_groups_over(items: Seq<LineItem>, sources: Seq<Option<String>>, groups: Seq<LineGroup>, n: int)
    requires
        forall|k: int| 0 <= k < groups.len() ==> group_summarises(items, sources, n, #[trigger] groups[k]),
    ensures
        groups_line_total(groups) == count_over(items, group_ids(groups), n),
        groups_cents_total(groups) == cents_over(items, group_ids(groups), n),
    decreases groups.len(),
{
    if groups.len() > 0 {
        let d = groups.drop_last();
        assert forall|k: int| 0 <= k < d.len() implies group_summarises(items, sources, n, #[trigger] d[k]) by {
            assert(d[k] == groups[k]);
        }
        lemma_groups_over(items, sources, d, n);
        assert(group_ids(groups).drop_last() =~= group_ids(d));
        assert(group_summarises(items, sources, n, groups[groups.len() - 1]));
    }
}

/// The groups of the line items account for every line item exactly
/// once: their line counts add up to the number of line items, and their
/// totals to the cents of all line items.
pub proof fn lemma_groups_account_for_every_item(items: Seq<LineItem>, sources: Seq<Option<String>>, groups: Seq<LineGroup>)
    requires
        group_ids(groups) == ids_in_order(items, items.len() as int),
        forall|k: int|
            0 <= k < groups.len() ==> group_summarises(items, sources, items.len() as int, #[trigger] groups[k]),
    ensures
        groups_line_total(groups) == items.len(),
        groups_cents_total(groups) == all_cents(items, items.len() as int),
{
    lemma_groups_over(items, sources, groups, items.len() as int);
    lemma_parent_sums(items, items.len() as int);
}

/// A parent is marked deferred exactly when one of its line items among
/// the first `n` has amount type `0x03`, wherever that line stands.
pub proof fn lemma_deferred_iff_some_line(items: Seq<LineItem>, id: Seq<u8>, n: int)
    requires
        0 <= n <= items.len(),
    ensures
        lines_deferred(items, id, n) <==> exists|j: int|
            0 <= j < n && id_of(#[trigger] items[j]) == id && items[j].amount_type == AmountType::Deferred,
    decreases n,
{
    if n > 0 {
        lemma_deferred_iff_some_line(items, id, n - 1);
        if lines_deferred(items, id, n - 1) {
            let j = choose|j: int|
                0 <= j < n - 1 && id_of(#[trigger] items[j]) == id && items[j].amount_type == AmountType::Deferred;
            assert(0 <= j < n && id_of(items[j]) == id);
        }
        if id_of(items[n - 1]) == id && items[n - 1].amount_type == AmountType::Deferred {
            assert(id_of(items[n - 1]) == id);
        }
    }
}

/// A parent's line count is the number of line items among the first `n`
/// that have it as parent.
pub proof fn lemma_count_is_number_of_lines(items: Seq<LineItem>, id: Seq<u8>, n: int)
    requires
        0 <= n <= items.len(),
    ensures
        lines_count(items, id, n) == items.take(n).filter(|li: LineItem| id_of(li) == id).len(),
    decreases n,
{
    reveal(Seq::filter);
    if n == 0 {
        assert(items.take(0) =~= Seq::<LineItem>::empty());
    } else {
        lemma_count_is_number_of_lines(items, id, n - 1);
        assert(items.take(n) =~= items.take(n - 1).push(items[n - 1]));
        lemma_filter_push(items.take(n - 1), items[n - 1], |li: LineItem| id_of(li) == id);
    }
}

/// A parent's date, counter and first page come from its earliest line
/// item that has one: the value is that of some line with the parent, and
/// every earlier line with the parent has none; when there is no value,
/// no line with the parent has one.
pub proof fn lemma_first_values(items: Seq<LineItem>, id: Seq<u8>, n: int)
    requires
        0 <= n <= items.len(),
    ensures
        match lines_date(items, id, n) {
            Some(d) => exists|j: int|
                0 <= j < n && id_of(#[trigger] items[j]) == id && items[j].txn_date_raw == Some(d) && forall|k: int|
                    0 <= k < j && id_of(#[trigger] items[k]) == id ==> items[k].txn_date_raw is None,
            None => forall|j: int| 0 <= j < n && id_of(#[trigger] items[j]) == id ==> items[j].txn_date_raw is None,
        },
        match lines_counter(items, id, n) {
            Some(c) => exists|j: int|
                0 <= j < n && id_of(#[trigger] items[j]) == id && items[j].counter == Some(c) && forall|k: int|
                    0 <= k < j && id_of(#[trigger] items[k]) == id ==> items[k].counter is None,
            None => forall|j: int| 0 <= j < n && id_of(#[trigger] items[j]) == id ==> items[j].counter is None,
        },
        match lines_page(items, id, n) {
            Some(p) => exists|j: int|
                0 <= j < n && id_of(#[trigger] items[j]) == id && items[j].page_number == p && forall|k: int|
                    0 <= k < j ==> id_of(#[trigger] items[k]) != id,
            None => forall|j: int| 0 <= j < n ==> id_of(#[trigger] items[j]) != id,
        },
    decreases n,
{
    if n > 0 {
        lemma_first_values(items, id, n - 1);
        let m = n - 1;
        if lines_date(items, id, m) is Some {
            let j = choose|j: int|
                0 <= j < m && id_of(#[trigger] items[j]) == id && items[j].txn_date_raw == lines_date(items, id, m)
                    && forall|k: int| 0 <= k < j && id_of(#[trigger] items[k]) == id ==> items[k].txn_date_raw is None;
            assert(0 <= j < n && id_of(items[j]) == id);
        } else if id_of(items[m]) == id && items[m].txn_date_raw is Some {
            assert(id_of(items[m]) == id);
        }
        if lines_counter(items, id, m) is Some {
            let j = choose|j: int|
                0 <= j < m && id_of(#[trigger] items[j]) == id && items[j].counter == lines_counter(items, id, m)
                    && forall|k: int| 0 <= k < j && id_of(#[trigger] items[k]) == id ==> items[k].counter is None;
            assert(0 <= j < n && id_of(items[j]) == id);
        } else if id_of(items[m]) == id && items[m].counter is Some {
            assert(id_of(items[m]) == id);
        }
        if lines_page(items, id, m) is Some {
            let j = choose|j: int|
                0 <= j < m && id_of(#[trigger] items[j]) == id && Some(items[j].page_number) == lines_page(items, id, m)
                    && forall|k: int| 0 <= k < j ==> id_of(#[trigger] items[k]) != id;
            assert(0 <= j < n && id_of(items[j]) == id);
        } else if id_of(items[m]) == id {
            assert(id_of(items[m]) == id);
        }
    }
}

/// A copy of an optional string.
fn copy_opt_string(o: &Option<String>) -> (r: Option<String>)
    ensures
        r == *o,
{
    match o {
        Some(s) => Some(s.clone()),
        None => None,
    }
}

/// The index of the group with QB-ID `id`, searching from the last group.
fn find_group(groups: &Vec<LineGroup>, id: &str) -> (r: Option<usize>)
    ensures
        match r {
            Some(p) => p < groups@.len() && string_bytes(groups@[p as int].qb_id) == str_bytes(id),
            None => forall|k: int| 0 <= k < groups@.len() ==> string_bytes(#[trigger] groups@[k].qb_id) != str_bytes(id),
        },
{
    let mut p = groups.len();
    while p > 0
        invariant
            p <= groups@.len(),
            forall|k: int| p <= k < groups@.len() ==> string_bytes(#[trigger] groups@[k].qb_id) != str_bytes(id),
        decreases p,
    {
        if bytes_equal(groups[p - 1].qb_id.as_str().as_bytes(), id.as_bytes()) {
            return Some(p - 1);
        }
        p = p - 1;
    }
    None
}

/// Summarise the line items by parent QB-ID: one group per parent, in
/// order of first appearance, with the number of line items, the sum of
/// their cents, whether one is deferred, the first date, counter and
/// source table found among them, and the page of the first one.
/// `sources[i]` is the table line item `i` is attributed to.
pub fn group_line_items(items: &[LineItem], sources: &[Option<String>]) -> (groups: Vec<LineGroup>)
    requires
        items@.len() == sources@.len(),
        all_cents(items@, items@.len() as int) <= i64::MAX,
    ensures
        group_ids(groups@) == ids_in_order(items@, items@.len() as int),
        forall|k: int| 0 <= k < groups@.len() ==> group_summarises(items@, sources@, items@.len() as int, #[trigger] groups@[k]),
        forall|k: int|
            0 <= k < groups@.len() ==> ((#[trigger] groups@[k]).has_deferred <==> exists|j: int|
                0 <= j < items@.len() && id_of(#[trigger] items@[j]) == string_bytes(groups@[k].qb_id)
                    && items@[j].amount_type == AmountType::Deferred),
        forall|k: int|
            0 <= k < groups@.len() ==> (#[trigger] groups@[k]).line_count == items@.filter(
                |li: LineItem| id_of(li) == string_bytes(groups@[k].qb_id),
            ).len(),
        forall|k: int|
            #![trigger groups@[k]]
            0 <= k < groups@.len() ==> exists|j: int|
                0 <= j < items@.len() && id_of(#[trigger] items@[j]) == string_bytes(groups@[k].qb_id)
                    && items@[j].page_number == groups@[k].first_page && forall|i: int|
                    0 <= i < j ==> id_of(#[trigger] items@[i]) != string_bytes(groups@[k].qb_id),
        forall|k: int|
            #![trigger groups@[k]]
            0 <= k < groups@.len() ==> match groups@[k].txn_date_raw {
                Some(d) => exists|j: int|
                    0 <= j < items@.len() && id_of(#[trigger] items@[j]) == string_bytes(groups@[k].qb_id)
                        && items@[j].txn_date_raw == Some(d) && forall|i: int|
                        0 <= i < j && id_of(#[trigger] items@[i]) == string_bytes(groups@[k].qb_id)
                            ==> items@[i].txn_date_raw is None,
                None => forall|j: int|
                    0 <= j < items@.len() && id_of(#[trigger] items@[j]) == string_bytes(groups@[k].qb_id)
                        ==> items@[j].txn_date_raw is None,
            },
        forall|k: int|
            #![trigger groups@[k]]
            0 <= k < groups@.len() ==> match groups@[k].counter {
                Some(c) => exists|j: int|
                    0 <= j < items@.len() && id_of(#[trigger] items@[j]) == string_bytes(groups@[k].qb_id)
                        && items@[j].counter == Some(c) && forall|i: int|
                        0 <= i < j && id_of(#[trigger] items@[i]) == string_bytes(groups@[k].qb_id)
                            ==> items@[i].counter is None,
                None => forall|j: int|
                    0 <= j < items@.len() && id_of(#[trigger] items@[j]) == string_bytes(groups@[k].qb_id)
                        ==> items@[j].counter is None,
            },
{
    let n = items.len();
    let mut groups: Vec<LineGroup> = Vec::new();
    let mut i: usize = 0;
    while i < n
        invariant
            n == items@.len(),
            n == sources@.len(),
            i <= n,
            all_cents(items@, n as int) <= i64::MAX,
            group_ids(groups@) == ids_in_order(items@, i as int),
            forall|k: int| 0 <= k < groups@.len() ==> group_summarises(items@, sources@, i as int, #[trigger] groups@[k]),
        decreases n - i,
    {
        let li = &items[i];
        let ghost id = id_of(*li);
        let ghost before = groups@;
        proof {
            lemma_ids_distinct(items@, i as int);
            lemma_cents_bounded(items@, id, i + 1, n as int);
            lemma_count_bounded(items@, id, i as int);
        }
        let cents: i64 = match li.amount_cents {
            Some(c) => c as i64,
            None => 0,
        };
        match find_group(&groups, li.invoice_id.as_str()) {
            Some(p) => {
                let g = &groups[p];
                let ng = LineGroup {
                    qb_id: g.qb_id.clone(),
                    line_count: g.line_count + 1,
                    total_cents: g.total_cents + cents,
                    has_deferred: g.has_deferred || li.amount_type == AmountType::Deferred,
                    txn_date_raw: if g.txn_date_raw.is_some() {
                        g.txn_date_raw
                    } else {
                        li.txn_date_raw
                    },
                    counter: if g.counter.is_some() {
                        g.counter
                    } else {
                        li.counter
                    },
                    source_table: if g.source_table.is_some() {
                        copy_opt_string(&g.source_table)
                    } else {
                        copy_opt_string(&sources[i])
                    },
                    first_page: g.first_page,
                };
                groups.set(p, ng);
                proof {
                    assert(group_ids(groups@) =~= group_ids(before));
                    assert(ids_in_order(items@, i + 1) == ids_in_order(items@, i as int)) by {
                        assert(ids_in_order(items@, i as int)[p as int] == id);
                    }
                    assert forall|k: int| 0 <= k < groups@.len() implies group_summarises(
                        items@,
                        sources@,
                        i + 1,
                        #[trigger] groups@[k],
                    ) by {
                        if k != p {
                            assert(group_ids(before)[k] != group_ids(before)[p as int]);
                        }
                    }
                }
            },
            None => {
                proof {
                    assert forall|k: int| 0 <= k < ids_in_order(items@, i as int).len() implies ids_in_order(
                        items@,
                        i as int,
                    )[k] != id by {
                        assert(group_ids(before)[k] == string_bytes(before[k].qb_id));
                    }
                    lemma_absent_parent(items@, sources@, id, i as int);
                }
                let ng = LineGroup {
                    qb_id: li.invoice_id.clone(),
                    line_count: 1,
                    total_cents: cents,
                    has_deferred: li.amount_type == AmountType::Deferred,
                    txn_date_raw: li.txn_date_raw,
                    counter: li.counter,
                    source_table: copy_opt_string(&sources[i]),
                    first_page: li.page_number,
                };
                groups.push(ng);
                proof {
                    assert(group_ids(groups@) =~= group_ids(before).push(id));
                    assert forall|k: int| 0 <= k < groups@.len() implies group_summarises(
                        items@,
                        sources@,
                        i + 1,
                        #[trigger] groups@[k],
                    ) by {
                        if k < before.len() {
                            assert(group_ids(before)[k] != id);
                        }
                    }
                }
            },
        }
        i = i + 1;
    }
    proof {
        assert(items@.take(n as int) =~= items@);
        assert forall|k: int| 0 <= k < groups@.len() implies ((#[trigger] groups@[k]).has_deferred <==> exists|j: int|
            0 <= j < items@.len() && id_of(#[trigger] items@[j]) == string_bytes(groups@[k].qb_id)
                && items@[j].amount_type == AmountType::Deferred) by {
            lemma_deferred_iff_some_line(items@, string_bytes(groups@[k].qb_id), n as int);
        }
        assert forall|k: int| 0 <= k < groups@.len() implies (#[trigger] groups@[k]).line_count == items@.filter(
            |li: LineItem| id_of(li) == string_bytes(groups@[k].qb_id),
        ).len() by {
            lemma_count_is_number_of_lines(items@, string_bytes(groups@[k].qb_id), n as int);
        }
        assert forall|k: int| #![trigger groups@[k]] 0 <= k < groups@.len() implies exists|j: int|
                0 <= j < items@.len() && id_of(#[trigger] items@[j]) == string_bytes(groups@[k].qb_id)
                    && items@[j].page_number == groups@[k].first_page && forall|i: int|
                    0 <= i < j ==> id_of(#[trigger] items@[i]) != string_bytes(groups@[k].qb_id) by {
            assert(group_summarises(items@, sources@, n as int, groups@[k]));
            lemma_first_values(items@, string_bytes(groups@[k].qb_id), n as int);
        }
        assert forall|k: int| #![trigger groups@[k]] 0 <= k < groups@.len() implies match groups@[k].txn_date_raw {
                Some(d) => exists|j: int|
                    0 <= j < items@.len() && id_of(#[trigger] items@[j]) == string_bytes(groups@[k].qb_id)
                        && items@[j].txn_date_raw == Some(d) && forall|i: int|
                        0 <= i < j && id_of(#[trigger] items@[i]) == string_bytes(groups@[k].qb_id)
                            ==> items@[i].txn_date_raw is None,
                None => forall|j: int|
                    0 <= j < items@.len() && id_of(#[trigger] items@[j]) == string_bytes(groups@[k].qb_id)
                        ==> items@[j].txn_date_raw is None,
            } by {
            assert(group_summarises(items@, sources@, n as int, groups@[k]));
            lemma_first_values(items@, string_bytes(groups@[k].qb_id), n as int);
        }
        assert forall|k: int| #![trigger groups@[k]] 0 <= k < groups@.len() implies match groups@[k].counter {
                Some(c) => exists|j: int|
                    0 <= j < items@.len() && id_of(#[trigger] items@[j]) == string_bytes(groups@[k].qb_id)
                        && items@[j].counter == Some(c) && forall|i: int|
                        0 <= i < j && id_of(#[trigger] items@[i]) == string_bytes(groups@[k].qb_id)
                            ==> items@[i].counter is None,
                None => forall|j: int|
                    0 <= j < items@.len() && id_of(#[trigger] items@[j]) == string_bytes(groups@[k].qb_id)
                        ==> items@[j].counter is None,
            } by {
            assert(group_summarises(items@, sources@, n as int, groups@[k]));
            lemma_first_values(items@, string_bytes(groups@[k].qb_id), n as int);
        }
    }
    groups
}

/// One row of the exported `transactions` table.
#[derive(Debug, Clone)]
pub struct TransactionRow {
    /// The transaction QB-ID.
    pub qb_id: String,
    /// The transaction type (`invoice`, `bill`, ...; `unknown` when the
    /// transaction has no header).
    pub txn_type: String,
    /// The table the header was read from, or the first table its line
    /// items are attributed to (empty when none is).
    pub source_table: String,
    /// SA17 transaction date.
    pub txn_date_raw: Option<u32>,
    /// Internal counter.
    pub counter: Option<u32>,
    /// Number of line items.
    pub line_count: u64,
    /// Sum of the cents of the line items.
    pub total_cents: i64,
    /// Whether a line item is deferred.
    pub has_deferred: bool,
    /// The page of the header, or of the first line item.
    pub source_page: u64,
}

/// Whether one of `hs` has QB-ID `id`.
pub open spec fn has_header_id(hs: Seq<TransactionHeader>, id: Seq<u8>) -> bool {
    exists|k: int| 0 <= k < hs.len() && string_bytes(#[trigger] hs[k].qb_id) == id
}

/// The first `n` headers without those whose QB-ID an earlier header
/// already has.
pub open spec fn kept_headers(hs: Seq<TransactionHeader>, n: int) -> Seq<TransactionHeader>
    decreases n,
{
    if n <= 0 {
        Seq::empty()
    } else {
        let p = kept_headers(hs, n - 1);
        if has_header_id(p, string_bytes(hs[n - 1].qb_id)) {
            p
        } else {
            p.push(hs[n - 1])
        }
    }
}

/// The last of the first `n` groups with QB-ID `id`.
pub open spec fn group_with_id(groups: Seq<LineGroup>, id: Seq<u8>, n: int) -> Option<LineGroup>
    decreases n,
{
    if n <= 0 {
        None
    } else if string_bytes(groups[n - 1].qb_id) == id {
        Some(groups[n - 1])
    } else {
        group_with_id(groups, id, n - 1)
    }
}

/// `r` is the row of header `h`, with the aggregates of its group.
pub open spec fn header_row_matches(r: TransactionRow, h: TransactionHeader, groups: Seq<LineGroup>) -> bool {
    &&& r.qb_id == h.qb_id
    &&& string_bytes(r.txn_type) == txn_type_of(string_bytes(h.source_table))
    &&& r.source_table == h.source_table
    &&& r.txn_date_raw == h.txn_date_raw
    &&& r.counter == h.counter
    &&& r.source_page == h.page_number
    &&& match group_with_id(groups, string_bytes(h.qb_id), groups.len() as int) {
        Some(g) => r.line_count == g.line_count && r.total_cents == g.total_cents && r.has_deferred
            == g.has_deferred,
        None => r.line_count == 0 && r.total_cents == 0 && !r.has_deferred,
    }
}

/// The text of an optional string, empty when there is none.
pub open spec fn opt_text(o: Option<String>) -> Seq<u8> {
    match o {
        Some(s) => string_bytes(s),
        None => Seq::empty(),
    }
}

/// `r` is the synthesized row of a group without header.
pub open spec fn synth_row_matches(r: TransactionRow, g: LineGroup) -> bool {
    &&& r.qb_id == g.qb_id
    &&& string_bytes(r.txn_type) == str_bytes("unknown")
    &&& string_bytes(r.source_table) == opt_text(g.source_table)
    &&& r.txn_date_raw == g.txn_date_raw
    &&& r.counter == g.counter
    &&& r.line_count == g.line_count
    &&& r.total_cents == g.total_cents
    &&& r.has_deferred == g.has_deferred
    &&& r.source_page == g.first_page
}

/// The groups whose QB-ID no header has.
pub open spec fn orphan_groups(groups: Seq<LineGroup>, kept: Seq<TransactionHeader>) -> Seq<LineGroup> {
    groups.filter(|g: LineGroup| !has_header_id(kept, string_bytes(g.qb_id)))
}

/// Whether one of the first `m` rows has QB-ID `id`.
fn rows_have_id(rows: &Vec<TransactionRow>, m: usize, id: &str) -> (b: bool)
    requires
        m <= rows@.len(),
    ensures
        b == exists|k: int| 0 <= k < m && string_bytes(#[trigger] rows@[k].qb_id) == str_bytes(id),
{
    let mut p = m;
    while p > 0
        invariant
            p <= m <= rows@.len(),
            forall|k: int| p <= k < m ==> string_bytes(#[trigger] rows@[k].qb_id) != str_bytes(id),
        decreases p,
    {
        if bytes_equal(rows[p - 1].qb_id.as_str().as_bytes(), id.as_bytes()) {
            assert(string_bytes(rows@[p - 1].qb_id) == str_bytes(id));
            return true;
        }
        p = p - 1;
    }
    false
}

/// The last group with QB-ID `id`.
fn find_last_group<'a>(groups: &'a [LineGroup], id: &str) -> (r: Option<&'a LineGroup>)
    ensures
        match group_with_id(groups@, str_bytes(id), groups@.len() as int) {
            Some(g) => r == Some(&g),
            None => r is None,
        },
{
    let mut p = groups.len();
    while p > 0
        invariant
            p <= groups@.len(),
            group_with_id(groups@, str_bytes(id), groups@.len() as int) == group_with_id(groups@, str_bytes(id), p as int),
        decreases p,
    {
        if bytes_equal(groups[p - 1].qb_id.as_str().as_bytes(), id.as_bytes()) {
            return Some(&groups[p - 1]);
        }
        p = p - 1;
    }
    None
}

/// The rows of the `transactions` table: first one row per header whose
/// QB-ID no earlier header has, in header order, carrying the aggregates
/// of the group with its QB-ID (none when no line item has it); then one
/// row of type `unknown` per group whose QB-ID no header has, in group
/// order.
pub fn transaction_rows(headers: &[TransactionHeader], groups: &[LineGroup]) -> (rows: Vec<TransactionRow>)
    ensures
        ({
            let kept = kept_headers(headers@, headers@.len() as int);
            let orphans = orphan_groups(groups@, kept);
            &&& rows@.len() == kept.len() + orphans.len()
            &&& forall|k: int| 0 <= k < kept.len() ==> header_row_matches(#[trigger] rows@[k], kept[k], groups@)
            &&& forall|k: int| 0 <= k < orphans.len() ==> synth_row_matches(#[trigger] rows@[kept.len() + k], orphans[k])
        }),
{
    let mut rows: Vec<TransactionRow> = Vec::new();
    let mut i: usize = 0;
    while i < headers.len()
        invariant
            i <= headers@.len(),
            rows@.len() == kept_headers(headers@, i as int).len(),
            forall|k: int| 0 <= k < rows@.len() ==> header_row_matches(#[trigger] rows@[k], kept_headers(headers@, i as int)[k], groups@),
        decreases headers@.len() - i,
    {
        let h = &headers[i];
        let ghost kept = kept_headers(headers@, i as int);
        let seen = rows_have_id(&rows, rows.len(), h.qb_id.as_str());
        proof {
            if seen {
                let k = choose|k: int| 0 <= k < rows@.len() && string_bytes(#[trigger] rows@[k].qb_id) == string_bytes(h.qb_id);
                assert(string_bytes(kept[k].qb_id) == string_bytes(h.qb_id));
            } else {
                assert forall|k: int| 0 <= k < kept.len() implies string_bytes(#[trigger] kept[k].qb_id) != string_bytes(h.qb_id) by {
                    assert(header_row_matches(rows@[k], kept[k], groups@));
                }
            }
        }
        if !seen {
            let g = find_last_group(groups, h.qb_id.as_str());
            let (line_count, total_cents, has_deferred) = match g {
                Some(g) => (g.line_count, g.total_cents, g.has_deferred),
                None => (0, 0, false),
            };
            let row = TransactionRow {
                qb_id: h.qb_id.clone(),
                txn_type: h.txn_type().to_owned(),
                source_table: h.source_table.clone(),
                txn_date_raw: h.txn_date_raw,
                counter: h.counter,
                line_count,
                total_cents,
                has_deferred,
                source_page: h.page_number,
            };
            rows.push(row);
        }
        proof {
            assert(kept_headers(headers@, i + 1) == if seen {
                kept
            } else {
                kept.push(*h)
            });
        }
        i = i + 1;
    }
    let ghost kept = kept_headers(headers@, headers@.len() as int);
    let nkept = rows.len();
    let mut j: usize = 0;
    proof {
        reveal(Seq::filter);
        assert(groups@.take(0) =~= Seq::<LineGroup>::empty());
    }
    while j < groups.len()
        invariant
            j <= groups@.len(),
            nkept == kept.len(),
            kept == kept_headers(headers@, headers@.len() as int),
            rows@.len() == nkept + orphan_groups(groups@.take(j as int), kept).len(),
            forall|k: int| 0 <= k < nkept ==> header_row_matches(#[trigger] rows@[k], kept[k], groups@),
            forall|k: int|
                0 <= k < orphan_groups(groups@.take(j as int), kept).len() ==> synth_row_matches(
                    #[trigger] rows@[nkept + k],
                    orphan_groups(groups@.take(j as int), kept)[k],
                ),
        decreases groups@.len() - j,
    {
        let g = &groups[j];
        let known = rows_have_id(&rows, nkept, g.qb_id.as_str());
        proof {
            if known {
                let k = choose|k: int| 0 <= k < nkept && string_bytes(#[trigger] rows@[k].qb_id) == string_bytes(g.qb_id);
                assert(header_row_matches(rows@[k], kept[k], groups@));
                assert(string_bytes(kept[k].qb_id) == string_bytes(g.qb_id));
            } else {
                assert forall|k: int| 0 <= k < kept.len() implies string_bytes(#[trigger] kept[k].qb_id) != string_bytes(g.qb_id) by {
                    assert(header_row_matches(rows@[k], kept[k], groups@));
                }
            }
            assert(groups@.take(j + 1) =~= groups@.take(j as int).push(*g));
            lemma_filter_push(groups@.take(j as int), *g, |g: LineGroup| !has_header_id(kept, string_bytes(g.qb_id)));
        }
        if !known {
            let row = TransactionRow {
                qb_id: g.qb_id.clone(),
                txn_type: "unknown".to_owned(),
                source_table: match &g.source_table {
                    Some(s) => s.clone(),
                    None => String::new(),
                },
                txn_date_raw: g.txn_date_raw,
                counter: g.counter,
                line_count: g.line_count,
                total_cents: g.total_cents,
                has_deferred: g.has_deferred,
                source_page: g.first_page,
            };
            rows.push(row);
        }
        j = j + 1;
    }
    proof {
        assert(groups@.take(j as int) =~= groups@);
    }
    rows
}

/// The totals of rows, added up.
pub open spec fn rows_cents_total(rows: Seq<TransactionRow>) -> int
    decreases rows.len(),
{
    if rows.len() == 0 {
        0
    } else {
        rows_cents_total(rows.drop_last()) + rows.last().total_cents
    }
}

/// The total a header row carries: that of the group with its QB-ID.
pub open spec fn header_total(h: TransactionHeader, groups: Seq<LineGroup>) -> int {
    match group_with_id(groups, string_bytes(h.qb_id), groups.len() as int) {
        Some(g) => g.total_cents as int,
        None => 0,
    }
}

/// The totals the header rows of `kept` carry, added up.
pub open spec fn headers_total(kept: Seq<TransactionHeader>, groups: Seq<LineGroup>) -> int
    decreases kept.len(),
{
    if kept.len() == 0 {
        0
    } else {
        headers_total(kept.drop_last(), groups) + header_total(kept.last(), groups)
    }
}

/// The totals of the groups whose QB-ID is `id`, added up.
pub open spec fn total_with_id(groups: Seq<LineGroup>, id: Seq<u8>) -> int
    decreases groups.len(),
{
    if groups.len() == 0 {
        0
    } else {
        total_with_id(groups.drop_last(), id) + if string_bytes(groups.last().qb_id) == id {
            groups.last().total_cents as int
        } else {
            0
        }
    }
}

/// The totals of the groups whose QB-ID one of `kept` has (`with`) or
/// none has (`!with`), added up.
pub open spec fn total_where_headed(groups: Seq<LineGroup>, kept: Seq<TransactionHeader>, with: bool) -> int
    decreases groups.len(),
{
    if groups.len() == 0 {
        0
    } else {
        total_where_headed(groups.drop_last(), kept, with) + if has_header_id(kept, string_bytes(groups.last().qb_id))
            == with {
            groups.last().total_cents as int
        } else {
            0
        }
    }
}

/// The headers kept have distinct QB-IDs.
proof fn lemma_kept_distinct(hs: Seq<TransactionHeader>, n: int)
    ensures
        forall|a: int, b: int|
            0 <= a < b < kept_headers(hs, n).len() ==> string_bytes(kept_headers(hs, n)[a].qb_id) != string_bytes(
                kept_headers(hs, n)[b].qb_id,
            ),
    decreases n,
{
    if n > 0 {
        lemma_kept_distinct(hs, n - 1);
        let p = kept_headers(hs, n - 1);
        let x = string_bytes(hs[n - 1].qb_id);
        if !has_header_id(p, x) {
            let q = p.push(hs[n - 1]);
            assert forall|a: int, b: int| 0 <= a < b < q.len() implies string_bytes(q[a].qb_id) != string_bytes(
                q[b].qb_id,
            ) by {
                if b == p.len() && string_bytes(q[a].qb_id) == x {
                    assert(string_bytes(p[a].qb_id) == x);
                }
            }
        }
    }
}

/// With distinct group QB-IDs, the group found for `id` carries all the
/// total of the groups with that QB-ID.
proof fn lemma_total_with_id(groups: Seq<LineGroup>, id: Seq<u8>)
    requires
        distinct_ids(group_ids(groups)),
    ensures
        total_with_id(groups, id) == match group_with_id(groups, id, groups.len() as int) {
            Some(g) => g.total_cents as int,
            None => 0,
        },
    decreases groups.len(),
{
    if groups.len() > 0 {
        let d = groups.drop_last();
        assert(group_ids(d) =~= group_ids(groups).drop_last());
        assert forall|a: int, b: int| 0 <= a < b < group_ids(d).len() implies group_ids(d)[a] != group_ids(d)[b] by {
            assert(group_ids(groups)[a] == group_ids(d)[a]);
            assert(group_ids(groups)[b] == group_ids(d)[b]);
        }
        lemma_total_with_id(d, id);
        lemma_group_with_id_prefix(groups, id, groups.len() - 1);
        if string_bytes(groups.last().qb_id) == id {
            lemma_total_with_id_absent(d, id, groups);
        }
    }
}

proof fn lemma_group_with_id_prefix(groups: Seq<LineGroup>, id: Seq<u8>, n: int)
    requires
        0 <= n <= groups.len(),
    ensures
        group_with_id(groups, id, n) == group_with_id(groups.take(n), id, n),
    decreases n,
{
    if n > 0 {
        lemma_group_with_id_prefix(groups, id, n - 1);
        lemma_group_with_id_prefix(groups.take(n), id, n - 1);
        assert(groups.take(n).take(n - 1) =~= groups.take(n - 1));
    }
}

proof fn lemma_total_with_id_absent(d: Seq<LineGroup>, id: Seq<u8>, groups: Seq<LineGroup>)
    requires
        d == groups.drop_last(),
        groups.len() > 0,
        string_bytes(groups.last().qb_id) == id,
        distinct_ids(group_ids(groups)),
    ensures
        total_with_id(d, id) == 0,
        group_with_id(d, id, d.len() as int) is None,
{
    lemma_no_group_with_id(d, id, d.len() as int, groups);
    assert(d.take(d.len() as int) =~= d);
}

proof fn lemma_no_group_with_id(d: Seq<LineGroup>, id: Seq<u8>, n: int, groups: Seq<LineGroup>)
    requires
        d == groups.drop_last(),
        groups.len() > 0,
        string_bytes(groups.last().qb_id) == id,
        distinct_ids(group_ids(groups)),
        0 <= n <= d.len(),
    ensures
        total_with_id(d.take(n), id) == 0,
        group_with_id(d, id, n) is None,
    decreases n,
{
    if n > 0 {
        lemma_no_group_with_id(d, id, n - 1, groups);
        assert(d.take(n).drop_last() =~= d.take(n - 1));
        assert(group_ids(groups)[n - 1] != group_ids(groups)[groups.len() - 1]);
    }
}

/// Splitting the groups by whether a kept header has their QB-ID, when
/// one more header is kept.
proof fn lemma_where_headed_push(groups: Seq<LineGroup>, kept: Seq<TransactionHeader>, h: TransactionHeader)
    requires
        !has_header_id(kept, string_bytes(h.qb_id)),
    ensures
        total_where_headed(groups, kept.push(h), true) == total_where_headed(groups, kept, true) + total_with_id(
            groups,
            string_bytes(h.qb_id),
        ),
    decreases groups.len(),
{
    if groups.len() > 0 {
        lemma_where_headed_push(groups.drop_last(), kept, h);
        let x = string_bytes(groups.last().qb_id);
        let k2 = kept.push(h);
        if has_header_id(k2, x) {
            let k = choose|k: int| 0 <= k < k2.len() && string_bytes(#[trigger] k2[k].qb_id) == x;
            if k < kept.len() {
                assert(string_bytes(kept[k].qb_id) == x);
            }
        }
        if has_header_id(kept, x) {
            let k = choose|k: int| 0 <= k < kept.len() && string_bytes(#[trigger] kept[k].qb_id) == x;
            assert(string_bytes(k2[k].qb_id) == x);
        }
        if x == string_bytes(h.qb_id) {
            assert(string_bytes(k2[kept.len() as int].qb_id) == x);
        }
    }
}

/// The header rows carry the totals of exactly the groups whose QB-ID a
/// kept header has.
proof fn lemma_headers_total(kept: Seq<TransactionHeader>, groups: Seq<LineGroup>)
    requires
        distinct_ids(group_ids(groups)),
        forall|a: int, b: int|
            0 <= a < b < kept.len() ==> string_bytes(kept[a].qb_id) != string_bytes(kept[b].qb_id),
    ensures
        headers_total(kept, groups) == total_where_headed(groups, kept, true),
    decreases kept.len(),
{
    if kept.len() == 0 {
        lemma_where_headed_empty(groups, kept);
    } else {
        let d = kept.drop_last();
        let h = kept.last();
        lemma_headers_total(d, groups);
        if has_header_id(d, string_bytes(h.qb_id)) {
            let k = choose|k: int| 0 <= k < d.len() && string_bytes(#[trigger] d[k].qb_id) == string_bytes(h.qb_id);
            assert(kept[k] == d[k]);
        }
        lemma_where_headed_push(groups, d, h);
        assert(d.push(h) =~= kept);
        lemma_total_with_id(groups, string_bytes(h.qb_id));
    }
}

proof fn lemma_where_headed_empty(groups: Seq<LineGroup>, kept: Seq<TransactionHeader>)
    requires
        kept.len() == 0,
    ensures
        total_where_headed(groups, kept, true) == 0,
    decreases groups.len(),
{
    if groups.len() > 0 {
        lemma_where_headed_empty(groups.drop_last(), kept);
    }
}

/// The groups split into those with a kept header and those without.
proof fn lemma_where_headed_split(groups: Seq<LineGroup>, kept: Seq<TransactionHeader>)
    ensures
        total_where_headed(groups, kept, true) + total_where_headed(groups, kept, false) == groups_cents_total(groups),
    decreases groups.len(),
{
    if groups.len() > 0 {
        lemma_where_headed_split(groups.drop_last(), kept);
    }
}

/// The orphan groups carry the totals of the groups whose QB-ID no kept
/// header has.
proof fn lemma_orphans_total(groups: Seq<LineGroup>, kept: Seq<TransactionHeader>)
    ensures
        groups_cents_total(orphan_groups(groups, kept)) == total_where_headed(groups, kept, false),
    decreases groups.len(),
{
    reveal(Seq::filter);
    if groups.len() > 0 {
        lemma_orphans_total(groups.drop_last(), kept);
        let pred = |g: LineGroup| !has_header_id(kept, string_bytes(g.qb_id));
        assert(groups.drop_last().push(groups.last()) =~= groups);
        lemma_filter_push(groups.drop_last(), groups.last(), pred);
        if pred(groups.last()) {
            let f = orphan_groups(groups, kept);
            assert(f.drop_last() =~= orphan_groups(groups.drop_last(), kept));
        }
    }
}

proof fn lemma_rows_total_split(rows: Seq<TransactionRow>, m: int)
    requires
        0 <= m <= rows.len(),
    ensures
        rows_cents_total(rows) == rows_cents_total(rows.take(m)) + rows_cents_total(rows.skip(m)),
    decreases rows.len(),
{
    if rows.len() > m {
        lemma_rows_total_split(rows.drop_last(), m);
        assert(rows.drop_last().take(m) =~= rows.take(m));
        assert(rows.skip(m).drop_last() =~= rows.drop_last().skip(m));
    } else {
        assert(rows.take(m) =~= rows);
        assert(rows.skip(m) =~= Seq::<TransactionRow>::empty());
    }
}

proof fn lemma_header_rows_total(rows: Seq<TransactionRow>, kept: Seq<TransactionHeader>, groups: Seq<LineGroup>)
    requires
        rows.len() == kept.len(),
        forall|k: int| 0 <= k < kept.len() ==> header_row_matches(#[trigger] rows[k], kept[k], groups),
    ensures
        rows_cents_total(rows) == headers_total(kept, groups),
    decreases rows.len(),
{
    if rows.len() > 0 {
        let r = rows.drop_last();
        let k = kept.drop_last();
        assert forall|j: int| 0 <= j < k.len() implies header_row_matches(#[trigger] r[j], k[j], groups) by {
            assert(header_row_matches(rows[j], kept[j], groups));
        }
        lemma_header_rows_total(r, k, groups);
        assert(header_row_matches(rows[rows.len() - 1], kept[kept.len() - 1], groups));
    }
}

proof fn lemma_synth_rows_total(rows: Seq<TransactionRow>, orphans: Seq<LineGroup>)
    requires
        rows.len() == orphans.len(),
        forall|k: int| 0 <= k < orphans.len() ==> synth_row_matches(#[trigger] rows[k], orphans[k]),
    ensures
        rows_cents_total(rows) == groups_cents_total(orphans),
    decreases rows.len(),
{
    if rows.len() > 0 {
        let r = rows.drop_last();
        let o = orphans.drop_last();
        assert forall|j: int| 0 <= j < o.len() implies synth_row_matches(#[trigger] r[j], o[j]) by {
            assert(synth_row_matches(rows[j], orphans[j]));
        }
        lemma_synth_rows_total(r, o);
        assert(synth_row_matches(rows[rows.len() - 1], orphans[orphans.len() - 1]));
    }
}

/// The `transactions` table carries every group's total exactly once:
/// when the groups have distinct QB-IDs, the totals of the rows that
/// [`transaction_rows`] lays out add up to the totals of the groups.
pub proof fn lemma_transactions_carry_every_group(
    headers: Seq<TransactionHeader>,
    groups: Seq<LineGroup>,
    rows: Seq<TransactionRow>,
)
    requires
        distinct_ids(group_ids(groups)),
        ({
            let kept = kept_headers(headers, headers.len() as int);
            let orphans = orphan_groups(groups, kept);
            &&& rows.len() == kept.len() + orphans.len()
            &&& forall|k: int| 0 <= k < kept.len() ==> header_row_matches(#[trigger] rows[k], kept[k], groups)
            &&& forall|k: int| 0 <= k < orphans.len() ==> synth_row_matches(#[trigger] rows[kept.len() + k], orphans[k])
        }),
    ensures
        rows_cents_total(rows) == groups_cents_total(groups),
{
    let kept = kept_headers(headers, headers.len() as int);
    let orphans = orphan_groups(groups, kept);
    let m = kept.len() as int;
    lemma_rows_total_split(rows, m);
    assert forall|k: int| 0 <= k < kept.len() implies header_row_matches(#[trigger] rows.take(m)[k], kept[k], groups) by {
        assert(rows.take(m)[k] == rows[k]);
    }
    lemma_header_rows_total(rows.take(m), kept, groups);
    assert forall|k: int| 0 <= k < orphans.len() implies synth_row_matches(#[trigger] rows.skip(m)[k], orphans[k]) by {
        assert(rows.skip(m)[k] == rows[m + k]);
    }
    lemma_synth_rows_total(rows.skip(m), orphans);
    lemma_kept_distinct(headers, headers.len() as int);
    lemma_headers_total(kept, groups);
    lemma_orphans_total(groups, kept);
    lemma_where_headed_split(groups, kept);
}

/// The groups [`group_line_items`] returns have distinct QB-IDs.
pub proof fn lemma_group_ids_distinct(items: Seq<LineItem>, groups: Seq<LineGroup>)
    requires
        group_ids(groups) == ids_in_order(items, items.len() as int),
    ensures
        distinct_ids(group_ids(groups)),
{
    lemma_ids_distinct(items, items.len() as int);
}

/// One row of the exported `transaction_line_items` table.
#[derive(Debug, Clone)]
pub struct LineItemRow {
    /// The parent QB-ID.
    pub qb_id_parent: String,
    /// Number of the line within its parent and source table, from 1.
    pub line_number: u64,
    /// The line item's own QB-ID.
    pub item_qb_id: Option<String>,
    /// The amount-type byte.
    pub amount_type: i64,
    /// Decoded cents.
    pub amount_cents: Option<u32>,
    /// The four amount bytes in lower-case hex.
    pub amount_raw_hex: String,
    /// SA17 transaction date.
    pub txn_date_raw: Option<u32>,
    /// Internal counter.
    pub counter: Option<u32>,
    /// The table the line item is attributed to (empty when none).
    pub source_table: String,
    /// Source page.
    pub page_number: u64,
    /// Offset in the page.
    pub page_offset: usize,
}

/// The numbering key of line item `j`: its parent and its source table.
pub open spec fn line_key(items: Seq<LineItem>, sources: Seq<Option<String>>, j: int) -> (Seq<u8>, Seq<u8>) {
    (id_of(items[j]), opt_text(sources[j]))
}

/// How many of the first `n` line items have numbering key `key`.
pub open spec fn key_count(items: Seq<LineItem>, sources: Seq<Option<String>>, key: (Seq<u8>, Seq<u8>), n: int) -> nat
    decreases n,
{
    if n <= 0 {
        0
    } else {
        key_count(items, sources, key, n - 1) + if line_key(items, sources, n - 1) == key {
            1nat
        } else {
            0nat
        }
    }
}

/// `r` is the row of line item `li`, attributed to `src`, numbered
/// `number`.
pub open spec fn line_row_matches(r: LineItemRow, li: LineItem, src: Option<String>, number: nat) -> bool {
    &&& r.qb_id_parent == li.invoice_id
    &&& r.line_number == number
    &&& r.item_qb_id == li.item_qb_id
    &&& r.amount_type == amount_type_code(li.amount_type)
    &&& r.amount_cents == li.amount_cents
    &&& string_bytes(r.amount_raw_hex) == hex_pairs(li.amount_raw@)
    &&& r.txn_date_raw == li.txn_date_raw
    &&& r.counter == li.counter
    &&& string_bytes(r.source_table) == opt_text(src)
    &&& r.page_number == li.page_number
    &&& r.page_offset == li.page_offset
}

proof fn lemma_key_absent(items: Seq<LineItem>, sources: Seq<Option<String>>, key: (Seq<u8>, Seq<u8>), n: int)
    requires
        forall|j: int| 0 <= j < n ==> line_key(items, sources, j) != key,
    ensures
        key_count(items, sources, key, n) == 0,
    decreases n,
{
    if n > 0 {
        lemma_key_absent(items, sources, key, n - 1);
    }
}

proof fn lemma_key_count_bounded(items: Seq<LineItem>, sources: Seq<Option<String>>, key: (Seq<u8>, Seq<u8>), n: int)
    requires
        0 <= n,
    ensures
        key_count(items, sources, key, n) <= n,
    decreases n,
{
    if n > 0 {
        lemma_key_count_bounded(items, sources, key, n - 1);
    }
}

proof fn lemma_key_count_monotone(items: Seq<LineItem>, sources: Seq<Option<String>>, key: (Seq<u8>, Seq<u8>), m: int, n: int)
    requires
        0 <= m <= n,
    ensures
        key_count(items, sources, key, m) <= key_count(items, sources, key, n),
    decreases n,
{
    if n > m {
        lemma_key_count_monotone(items, sources, key, m, n - 1);
    }
}

/// Two line items with the same parent and source table get different
/// line numbers, the later one the larger: the rows never collide on the
/// key `(parent, line number, source table)`.
pub proof fn lemma_line_numbers_distinct(items: Seq<LineItem>, sources: Seq<Option<String>>, i: int, j: int)
    requires
        0 <= i < j < items.len(),
        line_key(items, sources, i) == line_key(items, sources, j),
    ensures
        key_count(items, sources, line_key(items, sources, i), i + 1) < key_count(
            items,
            sources,
            line_key(items, sources, j),
            j + 1,
        ),
{
    lemma_key_count_monotone(items, sources, line_key(items, sources, i), i + 1, j);
}

/// The key of a line counter.
pub open spec fn counter_key(c: (String, String, u64)) -> (Seq<u8>, Seq<u8>) {
    (string_bytes(c.0), string_bytes(c.1))
}

/// The index of the counter of `(id, src)`, searching from the last one.
fn find_counter(counters: &Vec<(String, String, u64)>, id: &str, src: &str) -> (r: Option<usize>)
    ensures
        match r {
            Some(p) => p < counters@.len() && counter_key(counters@[p as int]) == (str_bytes(id), str_bytes(src)),
            None => forall|k: int| 0 <= k < counters@.len() ==> counter_key(#[trigger] counters@[k]) != (str_bytes(id), str_bytes(src)),
        },
{
    let mut p = counters.len();
    while p > 0
        invariant
            p <= counters@.len(),
            forall|k: int| p <= k < counters@.len() ==> counter_key(#[trigger] counters@[k]) != (str_bytes(id), str_bytes(src)),
        decreases p,
    {
        let c = &counters[p - 1];
        if bytes_equal(c.0.as_str().as_bytes(), id.as_bytes()) && bytes_equal(c.1.as_str().as_bytes(), src.as_bytes()) {
            return Some(p - 1);
        }
        p = p - 1;
    }
    None
}

/// The rows of the `transaction_line_items` table, one per line item in
/// order. `sources[i]` is the table line item `i` is attributed to; line
/// item `i` is numbered by how many of the items up to it have its parent
/// and its source table.
pub fn line_item_rows(items: &[LineItem], sources: &[Option<String>]) -> (rows: Vec<LineItemRow>)
    requires
        items@.len() == sources@.len(),
    ensures
        rows@.len() == items@.len(),
        forall|i: int|
            0 <= i < items@.len() ==> line_row_matches(
                #[trigger] rows@[i],
                items@[i],
                sources@[i],
                key_count(items@, sources@, line_key(items@, sources@, i), i + 1),
            ),
{
    let n = items.len();
    let mut rows: Vec<LineItemRow> = Vec::new();
    let mut counters: Vec<(String, String, u64)> = Vec::new();
    let mut i: usize = 0;
    while i < n
        invariant
            n == items@.len(),
            n == sources@.len(),
            i <= n,
            rows@.len() == i,
            forall|k: int|
                0 <= k < i ==> line_row_matches(
                    #[trigger] rows@[k],
                    items@[k],
                    sources@[k],
                    key_count(items@, sources@, line_key(items@, sources@, k), k + 1),
                ),
            forall|p: int|
                0 <= p < counters@.len() ==> (#[trigger] counters@[p]).2 == key_count(
                    items@,
                    sources@,
                    counter_key(counters@[p]),
                    i as int,
                ),
            forall|p: int, q: int|
                0 <= p < q < counters@.len() ==> counter_key(#[trigger] counters@[p]) != counter_key(
                    #[trigger] counters@[q],
                ),
            forall|j: int|
                #![trigger line_key(items@, sources@, j)]
                0 <= j < i ==> exists|p: int|
                    0 <= p < counters@.len() && counter_key(#[trigger] counters@[p]) == line_key(items@, sources@, j),
        decreases n - i,
    {
        let li = &items[i];
        let src: String = match &sources[i] {
            Some(s) => s.clone(),
            None => String::new(),
        };
        let ghost key = line_key(items@, sources@, i as int);
        assert(key == (string_bytes(li.invoice_id), string_bytes(src)));
        let ghost before = counters@;
        proof {
            lemma_key_count_bounded(items@, sources@, key, i as int);
        }
        let number: u64 = match find_counter(&counters, li.invoice_id.as_str(), src.as_str()) {
            Some(p) => {
                let c = &counters[p];
                let next = c.2 + 1;
                let nc = (c.0.clone(), c.1.clone(), next);
                counters.set(p, nc);
                proof {
                    assert forall|q: int| 0 <= q < counters@.len() implies (#[trigger] counters@[q]).2 == key_count(
                        items@,
                        sources@,
                        counter_key(counters@[q]),
                        i + 1,
                    ) by {
                        if q != p {
                            assert(counter_key(before[q]) != counter_key(before[p as int]));
                        }
                    }
                    assert forall|a: int, b: int| 0 <= a < b < counters@.len() implies counter_key(#[trigger] counters@[a]) != counter_key(
                        #[trigger] counters@[b],
                    ) by {
                        assert(counter_key(counters@[a]) == counter_key(before[a]));
                        assert(counter_key(counters@[b]) == counter_key(before[b]));
                    }
                    assert forall|j: int| #![trigger line_key(items@, sources@, j)] 0 <= j < i + 1 implies exists|q: int|
                        0 <= q < counters@.len() && counter_key(#[trigger] counters@[q]) == line_key(items@, sources@, j) by {
                        if j < i {
                            let q = choose|q: int| 0 <= q < before.len() && counter_key(#[trigger] before[q]) == line_key(items@, sources@, j);
                            assert(counter_key(counters@[q]) == counter_key(before[q]));
                        } else {
                            assert(counter_key(counters@[p as int]) == key);
                        }
                    }
                }
                next
            },
            None => {
                proof {
                    assert forall|j: int| #![trigger line_key(items@, sources@, j)] 0 <= j < i implies line_key(items@, sources@, j) != key by {
                        let q = choose|q: int| 0 <= q < before.len() && counter_key(#[trigger] before[q]) == line_key(items@, sources@, j);
                    }
                    lemma_key_absent(items@, sources@, key, i as int);
                }
                counters.push((li.invoice_id.clone(), src.clone(), 1));
                proof {
                    assert forall|q: int| 0 <= q < counters@.len() implies (#[trigger] counters@[q]).2 == key_count(
                        items@,
                        sources@,
                        counter_key(counters@[q]),
                        i + 1,
                    ) by {
                        if q < before.len() {
                            assert(counters@[q] == before[q]);
                        }
                    }
                    assert forall|j: int| #![trigger line_key(items@, sources@, j)] 0 <= j < i + 1 implies exists|q: int|
                        0 <= q < counters@.len() && counter_key(#[trigger] counters@[q]) == line_key(items@, sources@, j) by {
                        if j < i {
                            let q = choose|q: int| 0 <= q < before.len() && counter_key(#[trigger] before[q]) == line_key(items@, sources@, j);
                            assert(counters@[q] == before[q]);
                        } else {
                            assert(counter_key(counters@[before.len() as int]) == key);
                        }
                    }
                }
                1
            },
        };
        let row = LineItemRow {
            qb_id_parent: li.invoice_id.clone(),
            line_number: number,
            item_qb_id: copy_opt_string(&li.item_qb_id),
            amount_type: amount_type_byte(li.amount_type),
            amount_cents: li.amount_cents,
            amount_raw_hex: lower_hex(&li.amount_raw),
            txn_date_raw: li.txn_date_raw,
            counter: li.counter,
            source_table: src,
            page_number: li.page_number,
            page_offset: li.page_offset,
        };
        rows.push(row);
        i = i + 1;
    }
    rows
}

/// The name of the table that owns `page` by position, if any.
pub open spec fn attributed_name(rows: Seq<SysTableEntry>, page: u64) -> Option<String> {
    match attributed_row(rows, page) {
        Some(e) => Some(e.name),
        None => None,
    }
}

/// The table each line item is attributed to by the position of its page.
pub fn attribute_items(attribution: &PageAttribution, items: &[LineItem]) -> (sources: Vec<Option<String>>)
    ensures
        sources@.len() == items@.len(),
        forall|i: int|
            0 <= i < items@.len() ==> #[trigger] sources@[i] == attributed_name(attribution.rows(), items@[i].page_number),
{
    let mut sources: Vec<Option<String>> = Vec::new();
    let mut i: usize = 0;
    while i < items.len()
        invariant
            i <= items@.len(),
            sources@.len() == i,
            forall|k: int|
                0 <= k < i ==> #[trigger] sources@[k] == attributed_name(attribution.rows(), items@[k].page_number),
        decreases items@.len() - i,
    {
        let name = match attribution.attribute(items[i].page_number) {
            Some(e) => Some(e.name.clone()),
            None => None,
        };
        sources.push(name);
        i = i + 1;
    }
    sources
}

/// Every line item of the store, in page order (see
/// [`crate::iter_lineitems`]), with the table each one is attributed to by
/// the position of its page (see [`attribute_items`]).
pub fn iter_lineitems_with_attribution(store: &PageStore, model: &ApModel, attribution: &PageAttribution) -> (r: (
    Vec<LineItem>,
    Vec<Option<String>>,
))
    ensures
        exists|plains: Seq<Seq<u8>>|
            page_decodings(store_pages(*store), plains, BvOracle::Anchor) && lineitem_views(r.0@)
                == lineitems_of_pages(store_pages(*store), plains, store_pages(*store).len() as int),
        r.1@.len() == r.0@.len(),
        forall|i: int|
            0 <= i < r.0@.len() ==> #[trigger] r.1@[i] == attributed_name(attribution.rows(), r.0@[i].page_number),
{
    let items = iter_lineitems(store, model);
    let sources = attribute_items(attribution, &items);
    (items, sources)
}

} // verus!
