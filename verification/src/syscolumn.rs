//! `SYSCOLUMN` catalog rows.
//!
//! Each `SYSCOLUMN` row stores one column definition:
//!
//! ```text
//! <name_len u8> <name>
//! [<default_len u8> <default>]?           optional
//! 01 52 00 01 00 00 00 00                  8-byte tag
//! <row_id u32 LE>                          ignored
//! <owner_object_id u32 LE>                 SA17 object id of the table
//! <column_id u32 LE>                       ordinal within the table
//! <nulls_flag u8> <pad u8>
//! 01 <domain_char u8> <width u8>
//! ```
//!
//! The name is recovered by walking back from the tag: for each allowed
//! gap (a default value may sit between name and tag) and each length
//! `1..=40`, the first length byte that sits right before an identifier
//! of that length wins.

use vstd::prelude::*;
use opensqlany::{ApModel, PageStore};
use crate::bv_recovery::{matches_at, PAGE};
use crate::catalog::{canonical_of, unique_by_key, KeyedRow, RowKey};
use crate::codec::{is_identifier, is_identifier_exec, le_u32, lemma_identifier_ascii, read_le_u32};
use crate::decode::{decode_page, page_decodings, BvOracle};
use crate::store::{is_extent, is_extent_page, page_bytes, page_count, page_rows, slotted_rows, store_pages};
use crate::sorting::{
    backwards, dedup_consecutive, dedup_consecutive_exec, into_stack, lemma_backwards_front, lemma_dedup_consecutive_props,
    lemma_stable_sorted_is_sorted, lemma_stable_sorted_members, stable_sort, stable_sorted, SameAs, SortKey,
};
use crate::sysobject::{bridge_found, bridge_owners_to_tables};
use crate::systable::{iter_systable_entries, systable_scanned_from, SysTableEntry};
use crate::codec::{bytes_equal, lemma_filter_push};
use crate::text::{ascii_to_string, str_bytes, string_bytes};

verus! {

/// The 8-byte tag before the numeric part of every `SYSCOLUMN` row.
pub const SYSCOLUMN_TAG: [u8; 8] = [0x01, 0x52, 0x00, 0x01, 0x00, 0x00, 0x00, 0x00];

/// Longest accepted column name.
pub const COLUMN_NAME_LEN_MAX: usize = 40;

/// The gaps tried between the column name and the tag, in order.
pub const DEFAULT_PEELS: [usize; 7] = [0, 1, 2, 3, 4, 8, 16];

/// A parsed `SYSCOLUMN` row.
#[derive(Debug, Clone, PartialEq, Eq)]
pub struct SysColumn {
    /// Column name (ASCII identifier).
    pub name: String,
    /// SA17 object id of the owning table.
    pub owner_object_id: u32,
    /// Ordinal of the column in its table.
    pub column_id: u32,
    /// Nullability / flags byte.
    pub nulls_flag: u8,
    /// One-letter SA17 domain code.
    pub domain_char: u8,
    /// Declared width / precision byte.
    pub width: u8,
    /// Page on which the row was found.
    pub page_number: u64,
    /// Offset of the tag in the row body.
    pub tag_offset: usize,
}

/// A `SYSCOLUMN` row with its name taken as bytes.
pub struct SysColumnView {
    pub name: Seq<u8>,
    pub owner_object_id: u32,
    pub column_id: u32,
    pub nulls_flag: u8,
    pub domain_char: u8,
    pub width: u8,
    pub page_number: u64,
    pub tag_offset: usize,
}

impl View for SysColumn {
    type V = SysColumnView;

    open spec fn view(&self) -> SysColumnView {
        SysColumnView {
            name: string_bytes(self.name),
            owner_object_id: self.owner_object_id,
            column_id: self.column_id,
            nulls_flag: self.nulls_flag,
            domain_char: self.domain_char,
            width: self.width,
            page_number: self.page_number,
            tag_offset: self.tag_offset,
        }
    }
}

/// The views of a sequence of columns.
pub open spec fn column_views(v: Seq<SysColumn>) -> Seq<SysColumnView> {
    v.map_values(|c: SysColumn| c@)
}

/// Whether a length byte `nl` sits right before an identifier of length
/// `nl` that ends at `inner`.
pub open spec fn name_ends_at(body: Seq<u8>, inner: int, nl: int) -> bool {
    &&& inner >= nl + 1
    &&& body[inner - nl - 1] == nl
    &&& is_identifier(body.subrange(inner - nl, inner))
}

/// The first name length in `nl..=40` that fits [`name_ends_at`].
pub open spec fn first_name_len(body: Seq<u8>, inner: int, nl: int) -> Option<int>
    decreases 41 - nl,
{
    if nl > 40 || nl < 1 {
        None
    } else if name_ends_at(body, inner, nl) {
        Some(nl)
    } else {
        first_name_len(body, inner, nl + 1)
    }
}

/// The name found before a tag at `tag_pos`, trying the gaps from the
/// `pi`-th one on.
pub open spec fn name_before_from(body: Seq<u8>, tag_pos: int, pi: int) -> Option<Seq<u8>>
    decreases 7 - pi,
{
    if pi >= 7 || pi < 0 {
        None
    } else {
        let peel = DEFAULT_PEELS[pi] as int;
        if tag_pos < peel + 2 {
            name_before_from(body, tag_pos, pi + 1)
        } else {
            let inner = tag_pos - peel;
            match first_name_len(body, inner, 1) {
                Some(nl) => Some(body.subrange(inner - nl, inner)),
                None => name_before_from(body, tag_pos, pi + 1),
            }
        }
    }
}

/// The column name found before a tag at `tag_pos`.
pub open spec fn name_before(body: Seq<u8>, tag_pos: int) -> Option<Seq<u8>> {
    name_before_from(body, tag_pos, 0)
}

proof fn lemma_first_name_len_bounds(body: Seq<u8>, inner: int, nl: int)
    ensures
        first_name_len(body, inner, nl) matches Some(l) ==> nl <= l <= 40 && name_ends_at(body, inner, l),
    decreases 41 - nl,
{
    if 1 <= nl <= 40 && !name_ends_at(body, inner, nl) {
        lemma_first_name_len_bounds(body, inner, nl + 1);
    }
}

/// Find the identifier whose length byte sits before it and which ends
/// right before `inner`, trying lengths from `1` to `40`.
fn find_name_len(body: &[u8], inner: usize) -> (r: Option<usize>)
    requires
        inner <= body@.len(),
    ensures
        match first_name_len(body@, inner as int, 1) {
            Some(l) => r == Some(l as usize),
            None => r is None,
        },
{
    let mut nl: usize = 1;
    while nl <= COLUMN_NAME_LEN_MAX
        invariant
            1 <= nl <= COLUMN_NAME_LEN_MAX + 1,
            inner <= body@.len(),
            first_name_len(body@, inner as int, 1) == first_name_len(body@, inner as int, nl as int),
        decreases COLUMN_NAME_LEN_MAX + 1 - nl,
    {
        if inner >= nl + 1 {
            let len_off = inner - nl - 1;
            if body[len_off] as usize == nl && is_identifier_exec(&body[len_off + 1..inner]) {
                return Some(nl);
            }
        }
        nl = nl + 1;
    }
    None
}

/// The column name before a tag at `tag_pos`: for each gap in
/// [`DEFAULT_PEELS`] in turn, the first length in `1..=40` whose length
/// byte sits right before an identifier of that length ending at the gap.
pub fn find_name_before(body: &[u8], tag_pos: usize) -> (r: Option<String>)
    requires
        tag_pos <= body@.len(),
    ensures
        match name_before(body@, tag_pos as int) {
            Some(nm) => r is Some && string_bytes(r.unwrap()) == nm,
            None => r is None,
        },
{
    let mut pi: usize = 0;
    while pi < 7
        invariant
            pi <= 7,
            tag_pos <= body@.len(),
            name_before(body@, tag_pos as int) == name_before_from(body@, tag_pos as int, pi as int),
        decreases 7 - pi,
    {
        let peel = DEFAULT_PEELS[pi];
        if tag_pos >= peel + 2 {
            let inner = tag_pos - peel;
            match find_name_len(body, inner) {
                Some(nl) => {
                    proof {
                        lemma_first_name_len_bounds(body@, inner as int, 1);
                        lemma_identifier_ascii(body@.subrange(inner - nl, inner as int));
                    }
                    let s = ascii_to_string(&body[inner - nl..inner]);
                    return Some(s);
                },
                None => {},
            }
        }
        pi = pi + 1;
    }
    None
}

/// Whether `b` is an ASCII letter.
pub open spec fn alpha_byte(b: u8) -> bool {
    (0x41 <= b <= 0x5A) || (0x61 <= b <= 0x7A)
}

/// Whether a row is accepted at a tag at `i` (name found, `01` marker,
/// alphabetic domain code).
pub open spec fn column_accepted(body: Seq<u8>, i: int) -> bool {
    &&& name_before(body, i) is Some
    &&& body[i + 22] == 0x01
    &&& alpha_byte(body[i + 23])
}

/// The column parsed from a tag at `i`.
pub open spec fn column_at(body: Seq<u8>, pn: u64, i: int) -> SysColumnView {
    SysColumnView {
        name: name_before(body, i).unwrap(),
        owner_object_id: le_u32(body, i + 12),
        column_id: le_u32(body, i + 16),
        nulls_flag: body[i + 20],
        domain_char: body[i + 23],
        width: body[i + 24],
        page_number: pn,
        tag_offset: i as usize,
    }
}

/// The columns found scanning a row body from `i`: at each tag, an
/// accepted row is emitted, and the scan moves on past the tag.
pub open spec fn columns_from(body: Seq<u8>, pn: u64, i: int) -> Seq<SysColumnView>
    decreases body.len() - i,
{
    if i < 0 || i + 25 > body.len() {
        Seq::empty()
    } else if body.subrange(i, i + 8) != SYSCOLUMN_TAG@ {
        columns_from(body, pn, i + 1)
    } else if column_accepted(body, i) {
        seq![column_at(body, pn, i)] + columns_from(body, pn, i + 8)
    } else {
        columns_from(body, pn, i + 8)
    }
}

/// Parse every `SYSCOLUMN` row out of one slotted-page row body and
/// append them to `out` in order.
pub fn parse_rows_in_body(body: &[u8], pn: u64, out: &mut Vec<SysColumn>)
    ensures
        column_views(final(out)@) == column_views(old(out)@) + columns_from(body@, pn, 0),
{
    let ghost b = body@;
    let ghost init = column_views(out@);
    let n = body.len();
    if n < 25 {
        assert(columns_from(b, pn, 0) =~= Seq::<SysColumnView>::empty());
        assert(column_views(out@) =~= init + columns_from(b, pn, 0));
        return;
    }
    let mut i: usize = 0;
    while i <= n - 25
        invariant
            n == b.len(),
            b == body@,
            n >= 25,
            i <= n,
            init + columns_from(b, pn, 0) == column_views(out@) + columns_from(b, pn, i as int),
        decreases n - i,
    {
        if !matches_at(body, i, &SYSCOLUMN_TAG) {
            i = i + 1;
        } else {
            let name = find_name_before(body, i);
            let p = i + 12;
            let marker_ok = body[p + 10] == 0x01;
            let domain_char = body[p + 11];
            let alpha = (0x41 <= domain_char && domain_char <= 0x5A) || (0x61 <= domain_char && domain_char <= 0x7A);
            match name {
                Some(nm) => {
                    if marker_ok && alpha {
                        let c = SysColumn {
                            name: nm,
                            owner_object_id: read_le_u32(body, p),
                            column_id: read_le_u32(body, p + 4),
                            nulls_flag: body[p + 8],
                            domain_char,
                            width: body[p + 12],
                            page_number: pn,
                            tag_offset: i,
                        };
                        proof {
                            assert(c@ == column_at(b, pn, i as int));
                        }
                        let ghost before = column_views(out@);
                        out.push(c);
                        proof {
                            assert(column_views(out@) =~= before.push(c@));
                            assert(before + columns_from(b, pn, i as int) =~= column_views(out@)
                                + columns_from(b, pn, i + 8));
                        }
                    }
                },
                None => {},
            }
            i = i + 8;
        }
    }
    assert(columns_from(b, pn, i as int) =~= Seq::<SysColumnView>::empty());
    assert(init + columns_from(b, pn, 0) =~= column_views(out@));
}

/// The columns of a sequence of row bodies, in order.
pub open spec fn columns_of_rows(rows: Seq<Seq<u8>>, pn: u64) -> Seq<SysColumnView>
    decreases rows.len(),
{
    if rows.len() == 0 {
        Seq::empty()
    } else {
        columns_of_rows(rows.drop_last(), pn) + columns_from(rows.last(), pn, 0)
    }
}

/// The columns of a decoded page: those of each of its slotted rows.
pub open spec fn page_columns(plain: Seq<u8>, pn: u64) -> Seq<SysColumnView> {
    columns_of_rows(slotted_rows(plain.subrange(0, PAGE as int)), pn)
}

/// Scan every slotted row of a decoded page for `SYSCOLUMN` rows and
/// append them to `out`.
pub fn scan_page(plain: &[u8], pn: u64, out: &mut Vec<SysColumn>)
    requires
        plain@.len() >= PAGE,
    ensures
        column_views(final(out)@) == column_views(old(out)@) + page_columns(plain@, pn),
{
    let ghost init = column_views(out@);
    let rows = page_rows(pn, plain);
    let ghost srows = slotted_rows(plain@.subrange(0, PAGE as int));
    let mut r: usize = 0;
    assert(srows.take(0) =~= Seq::<Seq<u8>>::empty());
    while r < rows.len()
        invariant
            r <= rows@.len(),
            rows@.len() == srows.len(),
            forall|i: int| 0 <= i < rows@.len() ==> #[trigger] rows@[i]@ == srows[i],
            column_views(out@) == init + columns_of_rows(srows.take(r as int), pn),
        decreases rows@.len() - r,
    {
        parse_rows_in_body(rows[r].as_slice(), pn, out);
        proof {
            assert(srows.take(r + 1).drop_last() =~= srows.take(r as int));
            assert(srows.take(r + 1).last() == rows@[r as int]@);
        }
        r = r + 1;
    }
    assert(srows.take(r as int) =~= srows);
}

/// The columns of the pages `1..hi`, given the decoded pages.
pub open spec fn columns_of_pages(pages: Seq<Seq<u8>>, plains: Seq<Seq<u8>>, hi: int) -> Seq<SysColumnView>
    decreases hi,
{
    if hi <= 1 {
        Seq::empty()
    } else {
        columns_of_pages(pages, plains, hi - 1) + if is_extent(pages[hi - 1]) {
            page_columns(plains[hi - 1], (hi - 1) as u64)
        } else {
            Seq::empty()
        }
    }
}

proof fn lemma_columns_of_pages_prefix(pages: Seq<Seq<u8>>, p1: Seq<Seq<u8>>, p2: Seq<Seq<u8>>, hi: int)
    requires
        forall|i: int| 1 <= i < hi ==> #[trigger] p1[i] == p2[i],
    ensures
        columns_of_pages(pages, p1, hi) == columns_of_pages(pages, p2, hi),
    decreases hi,
{
    if hi > 1 {
        lemma_columns_of_pages_prefix(pages, p1, p2, hi - 1);
        assert(p1[hi - 1] == p2[hi - 1]);
    }
}

/// `cols` are the `SYSCOLUMN` rows of `store` under some decoding of its
/// pages that follows the oracle cascade, in page and row order.
pub open spec fn columns_scanned_from(store: PageStore, cols: Seq<SysColumn>) -> bool {
    exists|plains: Seq<Seq<u8>>|
        page_decodings(store_pages(store), plains, BvOracle::Cascade) && column_views(cols) == columns_of_pages(
            store_pages(store),
            plains,
            store_pages(store).len() as int,
        )
}

/// Every `SYSCOLUMN` row in `store`, scanning each extent page after the
/// superblock in page order. Each page is decoded with the `bv` of the
/// oracle cascade when it answers, else with the cipher model.
pub fn iter_syscolumns(store: &PageStore, model: &ApModel) -> (cols: Vec<SysColumn>)
    ensures
        columns_scanned_from(*store, cols@),
{
    let ghost pages = store_pages(*store);
    let n = page_count(store);
    let mut cols: Vec<SysColumn> = Vec::new();
    let ghost mut plains: Seq<Seq<u8>> = Seq::new(pages.len(), |i: int| Seq::<u8>::empty());
    if n == 0 {
        assert(column_views(cols@) =~= columns_of_pages(pages, plains, 0));
        assert(page_decodings(pages, plains, BvOracle::Cascade));
        return cols;
    }
    let mut pn: u64 = 1;
    while pn < n
        invariant
            n == pages.len(),
            pages == store_pages(*store),
            1 <= pn <= n,
            plains.len() == pages.len(),
            forall|q: int|
                1 <= q < pn && is_extent(pages[q]) ==> crate::decode::decoding_of(
                    pages[q],
                    q as u64,
                    #[trigger] plains[q],
                    crate::decode::oracle_answer(BvOracle::Cascade, pages[q], q as u64),
                ),
            column_views(cols@) == columns_of_pages(pages, plains, pn as int),
        decreases n - pn,
    {
        let raw = page_bytes(store, pn).unwrap();
        let ghost old_plains = plains;
        let ghost old_cols = column_views(cols@);
        if is_extent_page(pn, raw) {
            let plain = decode_page(store, model, pn, raw, BvOracle::Cascade);
            proof {
                plains = plains.update(pn as int, plain@);
            }
            scan_page(plain.as_slice(), pn, &mut cols);
            proof {
                lemma_columns_of_pages_prefix(pages, old_plains, plains, pn as int);
            }
        } else {
            assert(column_views(cols@) =~= old_cols + Seq::<SysColumnView>::empty());
        }
        assert(column_views(cols@) == columns_of_pages(pages, plains, pn + 1));
        pn = pn + 1;
    }
    assert(page_decodings(pages, plains, BvOracle::Cascade));
    cols
}

impl KeyedRow for SysColumn {
    open spec fn row_key(&self) -> RowKey {
        (self.owner_object_id, self.column_id, string_bytes(self.name))
    }

    fn key_parts(&self) -> (r: (u32, u32, &[u8])) {
        (self.owner_object_id, self.column_id, self.name.as_str().as_bytes())
    }
}

/// The deduplicated `SYSCOLUMN` rows: one per `(owner_object_id,
/// column_id, name)`, the first one found, ordered by that key.
pub fn collect_unique(store: &PageStore, model: &ApModel) -> (cols: Vec<SysColumn>)
    ensures
        exists|all: Seq<SysColumn>| columns_scanned_from(*store, all) && canonical_of(all, cols@),
{
    let all = iter_syscolumns(store, model);
    let ghost all_cols = all@;
    let cols = unique_by_key(all);
    assert(columns_scanned_from(*store, all_cols) && canonical_of(all_cols, cols@));
    cols
}

impl SortKey for SysColumn {
    open spec fn key_le(&self, other: &Self) -> bool {
        self.column_id <= other.column_id
    }

    proof fn lemma_key_le_total(a: &Self, b: &Self) {
    }

    proof fn lemma_key_le_transitive(a: &Self, b: &Self, c: &Self) {
    }

    fn key_le_exec(&self, other: &Self) -> (r: bool) {
        self.column_id <= other.column_id
    }
}

impl SameAs for SysColumn {
    open spec fn same(&self, other: &Self) -> bool {
        self.column_id == other.column_id && string_bytes(self.name) == string_bytes(other.name)
    }

    fn same_exec(&self, other: &Self) -> (r: bool) {
        self.column_id == other.column_id && bytes_equal(self.name.as_str().as_bytes(), other.name.as_str().as_bytes())
    }
}

/// The first owner the bridge maps to `table`.
pub open spec fn owner_named(bridge: Seq<(u32, String)>, table: Seq<u8>) -> Option<u32>
    decreases bridge.len(),
{
    if bridge.len() == 0 {
        None
    } else if string_bytes(bridge[0].1) == table {
        Some(bridge[0].0)
    } else {
        owner_named(bridge.drop_first(), table)
    }
}

/// The columns of `owner`, in order.
pub open spec fn owned_by(cols: Seq<SysColumn>, owner: u32) -> Seq<SysColumn> {
    cols.filter(|c: SysColumn| c.owner_object_id == owner)
}

/// The schema of `table`: the columns of the first owner bridged to it,
/// sorted by column id (stably), without consecutive repeats of the same
/// `(column_id, name)`; empty when no owner is bridged to it.
pub open spec fn schema_of(cols: Seq<SysColumn>, bridge: Seq<(u32, String)>, table: Seq<u8>) -> Seq<SysColumn> {
    match owner_named(bridge, table) {
        Some(o) => dedup_consecutive(stable_sorted(owned_by(cols, o))),
        None => Seq::empty(),
    }
}

/// The schema of a table lists its columns by non-decreasing column id,
/// each from the owner bridged to the table, and never lists the same
/// `(column_id, name)` twice in a row, whatever pages the rows were found
/// on.
pub proof fn lemma_schema_rows(cols: Seq<SysColumn>, bridge: Seq<(u32, String)>, table: Seq<u8>)
    ensures
        ({
            let r = schema_of(cols, bridge, table);
            &&& forall|i: int, j: int|
                0 <= i < j < r.len() ==> (#[trigger] r[i]).column_id <= (#[trigger] r[j]).column_id
            &&& forall|i: int|
                0 <= i < r.len() - 1 ==> !((#[trigger] r[i]).column_id == r[i + 1].column_id && string_bytes(r[i].name)
                    == string_bytes(r[i + 1].name))
            &&& forall|i: int| 0 <= i < r.len() ==> Some((#[trigger] r[i]).owner_object_id) == owner_named(bridge, table)
        }),
{
    match owner_named(bridge, table) {
        Some(o) => {
            let m = owned_by(cols, o);
            let r = schema_of(cols, bridge, table);
            lemma_stable_sorted_is_sorted(m);
            lemma_dedup_consecutive_props(stable_sorted(m));
            lemma_stable_sorted_members(m);
            assert forall|i: int, j: int| 0 <= i < j < r.len() implies (#[trigger] r[i]).column_id
                <= (#[trigger] r[j]).column_id by {
                assert(r[i].key_le(&r[j]));
            }
            assert forall|i: int| 0 <= i < r.len() - 1 implies !((#[trigger] r[i]).column_id == r[i + 1].column_id
                && string_bytes(r[i].name) == string_bytes(r[i + 1].name)) by {
                assert(!r[i + 1].same(&r[i]));
            }
            assert forall|i: int| 0 <= i < r.len() implies Some((#[trigger] r[i]).owner_object_id) == owner_named(
                bridge,
                table,
            ) by {
                assert(stable_sorted(m).contains(r[i]));
                let k = choose|k: int| 0 <= k < stable_sorted(m).len() && stable_sorted(m)[k] == r[i];
                assert(m.contains(stable_sorted(m)[k]));
                let q = choose|q: int| 0 <= q < m.len() && m[q] == r[i];
                cols.lemma_filter_pred(|c: SysColumn| c.owner_object_id == o, q);
            }
        },
        None => {},
    }
}

/// The first owner the bridge maps to `table`.
fn find_owner(bridge: &[(u32, String)], table: &str) -> (r: Option<u32>)
    ensures
        r == owner_named(bridge@, str_bytes(table)),
{
    let mut i: usize = 0;
    assert(bridge@.subrange(0, bridge@.len() as int) =~= bridge@);
    while i < bridge.len()
        invariant
            i <= bridge@.len(),
            owner_named(bridge@, str_bytes(table)) == owner_named(bridge@.subrange(i as int, bridge@.len() as int), str_bytes(table)),
        decreases bridge@.len() - i,
    {
        let ghost rest = bridge@.subrange(i as int, bridge@.len() as int);
        assert(rest.drop_first() =~= bridge@.subrange(i + 1, bridge@.len() as int));
        if bytes_equal(bridge[i].1.as_str().as_bytes(), table.as_bytes()) {
            return Some(bridge[i].0);
        }
        i = i + 1;
    }
    None
}

/// The schema of `table` from a column list and a bridge.
pub fn schema_from(cols: Vec<SysColumn>, bridge: &[(u32, String)], table: &str) -> (r: Vec<SysColumn>)
    ensures
        r@ == schema_of(cols@, bridge@, str_bytes(table)),
        forall|i: int, j: int| 0 <= i < j < r@.len() ==> (#[trigger] r@[i]).column_id <= (#[trigger] r@[j]).column_id,
        forall|i: int|
            0 <= i < r@.len() - 1 ==> !((#[trigger] r@[i]).column_id == r@[i + 1].column_id && string_bytes(r@[i].name)
                == string_bytes(r@[i + 1].name)),
{
    proof {
        lemma_schema_rows(cols@, bridge@, str_bytes(table));
    }
    let owner = find_owner(bridge, table);
    let o = match owner {
        Some(o) => o,
        None => return Vec::new(),
    };
    let ghost input = cols@;
    let n = cols.len();
    let mut rest = into_stack(cols);
    let mut mine: Vec<SysColumn> = Vec::new();
    let mut k: usize = 0;
    proof {
        reveal(Seq::filter);
    }
    while rest.len() > 0
        invariant
            n == input.len(),
            k <= n,
            rest@ == backwards(input.subrange(k as int, n as int)),
            mine@ == owned_by(input.take(k as int), o),
        decreases rest@.len(),
    {
        proof {
                lemma_backwards_front(input.subrange(k as int, n as int));
            }
            let c = rest.pop().unwrap();
        proof {
            assert(c == input[k as int]);
            assert(input.take(k + 1) =~= input.take(k as int).push(c));
            lemma_filter_push(input.take(k as int), c, |c: SysColumn| c.owner_object_id == o);
        }
        if c.owner_object_id == o {
            mine.push(c);
        }
        k = k + 1;
        assert(input.subrange(k as int - 1, n as int).drop_first() =~= input.subrange(k as int, n as int));
    }
    assert(input.take(n as int) =~= input);
    let sorted = stable_sort(mine);
    dedup_consecutive_exec(sorted)
}

/// The columns of table `table_name`, ordered by column id: the owner is
/// found through the `SYSOBJECT` bridge (the first owner bridged to that
/// name), and repeated `(column_id, name)` rows are dropped. Empty when
/// the table cannot be bridged.
pub fn schema_for(store: &PageStore, model: &ApModel, table_name: &str) -> (r: Vec<SysColumn>)
    ensures
        exists|cols: Seq<SysColumn>, tables: Seq<SysTableEntry>, bridge: Seq<(u32, String)>|
            #[trigger] bridge_found(*store, cols, tables, bridge) && columns_scanned_from(*store, cols)
                && systable_scanned_from(*store, tables) && r@ == schema_of(cols, bridge, str_bytes(table_name)),
{
    let columns = iter_syscolumns(store, model);
    let tables = iter_systable_entries(store, model);
    let bridge = bridge_owners_to_tables(store, model, columns.as_slice(), tables.as_slice());
    let ghost cv = columns@;
    let r = schema_from(columns, bridge.as_slice(), table_name);
    assert(bridge_found(*store, cv, tables@, bridge@));
    r
}

} // verus!
