//! Heuristic foreign-key graph.
//!
//! SA17 does not expose foreign-key declarations in a row we can read, so
//! candidate edges are inferred from column names:
//!
//! * a column named `<stem>_id` or `<stem>_id_h` refers to a table whose
//!   name contains the stem;
//! * candidate tables are scored (exact match, match after a common SA
//!   prefix, stem as a `_`-separated suffix or prefix, stem as a
//!   substring) and the best-scoring table wins.
//!
//! Unresolved edges are kept with `target_table = None`.

use vstd::prelude::*;
use vstd::string::*;
use opensqlany::{ApModel, PageStore};
use crate::catalog::{bytes_lt, bytes_lt_exec, lemma_bytes_lt_irreflexive, lemma_bytes_lt_total, lemma_bytes_lt_transitive};
use crate::codec::{bytes_equal, lemma_filter_push};
use crate::sorting::{
    dedup_consecutive, dedup_consecutive_exec, lemma_dedup_consecutive_props, lemma_stable_sorted_is_sorted, stable_sort,
    stable_sorted, SameAs, SortKey,
};
use crate::syscolumn::{column_views, columns_scanned_from, iter_syscolumns, SysColumn};
use crate::systable::{collect_unique, collected_from, SysTableEntry};
use crate::text::{
    contains, contains_bytes, ends_with, ends_with_bytes, lower_bytes, starts_with,
    starts_with_bytes, str_bytes, string_bytes, strip_suffix_str, to_ascii_lower,
};

verus! {

/// `_id_h`.
pub const ID_H_SUFFIX: [u8; 5] = [0x5F, 0x69, 0x64, 0x5F, 0x68];

/// `_id`.
pub const ID_SUFFIX: [u8; 3] = [0x5F, 0x69, 0x64];

/// Score of a table whose name equals the stem.
pub const SCORE_EXACT: u32 = 1000;

/// Score of a table whose name equals the stem after a common prefix.
pub const SCORE_STRIPPED: u32 = 900;

/// Score of a table whose name ends with `_<stem>`.
pub const SCORE_SUFFIX: u32 = 700;

/// Score of a table whose name starts with `<stem>_`.
pub const SCORE_PREFIX: u32 = 600;

/// Score of a table whose name contains the stem.
pub const SCORE_SUBSTRING: u32 = 300;

/// One inferred foreign-key edge.
#[derive(Debug, Clone, PartialEq, Eq)]
pub struct FkEdge {
    /// Table of the referring column.
    pub source_table: String,
    /// Referring column name.
    pub source_column: String,
    /// Column id in the source table.
    pub source_column_id: u32,
    /// The column name without its `_id` / `_id_h` suffix.
    pub stem: String,
    /// Best-scoring target table, if any.
    pub target_table: Option<String>,
    /// Score of the best match (0: no match).
    pub score: u32,
}

/// An edge with its strings taken as bytes.
pub struct FkEdgeView {
    pub source_table: Seq<u8>,
    pub source_column: Seq<u8>,
    pub source_column_id: u32,
    pub stem: Seq<u8>,
    pub target_table: Option<Seq<u8>>,
    pub score: u32,
}

impl View for FkEdge {
    type V = FkEdgeView;

    open spec fn view(&self) -> FkEdgeView {
        FkEdgeView {
            source_table: string_bytes(self.source_table),
            source_column: string_bytes(self.source_column),
            source_column_id: self.source_column_id,
            stem: string_bytes(self.stem),
            target_table: match self.target_table {
                Some(t) => Some(string_bytes(t)),
                None => None,
            },
            score: self.score,
        }
    }
}

/// The views of a sequence of edges.
pub open spec fn edge_views(v: Seq<FkEdge>) -> Seq<FkEdgeView> {
    v.map_values(|e: FkEdge| e@)
}

/// The stem of a column name: the name without `_id_h`, else without
/// `_id`; `None` when it has neither suffix.
pub open spec fn stem_of(name: Seq<u8>) -> Option<Seq<u8>> {
    if ends_with_bytes(name, ID_H_SUFFIX@) {
        Some(name.subrange(0, name.len() - 5))
    } else if ends_with_bytes(name, ID_SUFFIX@) {
        Some(name.subrange(0, name.len() - 3))
    } else {
        None
    }
}

proof fn lemma_id_literals()
    ensures
        "_id_h".spec_bytes() == ID_H_SUFFIX@,
        "_id".spec_bytes() == ID_SUFFIX@,
{
    reveal_strlit("_id_h");
    reveal_strlit("_id");
    vstd::utf8::is_ascii_chars_encode_utf8("_id_h"@);
    vstd::utf8::is_ascii_chars_encode_utf8("_id"@);
    assert("_id_h".spec_bytes() =~= ID_H_SUFFIX@);
    assert("_id".spec_bytes() =~= ID_SUFFIX@);
}

/// The column name without its `_id_h` suffix, else without its `_id`
/// suffix; `None` when it has neither.
pub fn strip_id_suffix(name: &str) -> (r: Option<&str>)
    ensures
        match stem_of(str_bytes(name)) {
            Some(st) => r is Some && str_bytes(r.unwrap()) == st,
            None => r is None,
        },
{
    proof {
        lemma_id_literals();
    }
    match strip_suffix_str(name, "_id_h") {
        Some(s) => return Some(s),
        None => {},
    }
    match strip_suffix_str(name, "_id") {
        Some(s) => Some(s),
        None => None,
    }
}

/// The common SA table-name prefixes, tried in order: `abmc_`, `es_`,
/// `i_`, `v_`, `mv_`, `ix_`.
pub open spec fn sa_prefixes() -> Seq<Seq<u8>> {
    seq![
        seq![0x61u8, 0x62, 0x6D, 0x63, 0x5F],
        seq![0x65u8, 0x73, 0x5F],
        seq![0x69u8, 0x5F],
        seq![0x76u8, 0x5F],
        seq![0x6Du8, 0x76, 0x5F],
        seq![0x69u8, 0x78, 0x5F],
    ]
}

/// The table name without the first common SA prefix it starts with.
pub open spec fn without_sa_prefix_from(t: Seq<u8>, k: int) -> Seq<u8>
    decreases 6 - k,
{
    if k >= 6 || k < 0 {
        t
    } else if starts_with_bytes(t, sa_prefixes()[k]) {
        t.subrange(sa_prefixes()[k].len() as int, t.len() as int)
    } else {
        without_sa_prefix_from(t, k + 1)
    }
}

/// The score of table name `table` for stem `stem`, both compared in
/// ASCII lower case.
pub open spec fn score_of(stem: Seq<u8>, table: Seq<u8>) -> u32 {
    let st = lower_bytes(stem);
    let tl = lower_bytes(table);
    let stripped = without_sa_prefix_from(tl, 0);
    if tl == st {
        SCORE_EXACT
    } else if stripped == st {
        SCORE_STRIPPED
    } else if ends_with_bytes(stripped, seq![0x5Fu8] + st) {
        SCORE_SUFFIX
    } else if starts_with_bytes(stripped, st + seq![0x5Fu8]) {
        SCORE_PREFIX
    } else if contains_bytes(stripped, st) {
        SCORE_SUBSTRING
    } else {
        0
    }
}

/// The length of the first common SA prefix that `t` starts with (0 when
/// none).
fn sa_prefix_len(t: &[u8]) -> (n: usize)
    ensures
        n <= t@.len(),
        without_sa_prefix_from(t@, 0) == t@.subrange(n as int, t@.len() as int),
{
    assert(t@.subrange(0, t@.len() as int) =~= t@);
    reveal_with_fuel(without_sa_prefix_from, 7);
    if starts_with(t, &[0x61u8, 0x62, 0x6D, 0x63, 0x5F]) {
        assert(seq![0x61u8, 0x62, 0x6D, 0x63, 0x5F] =~= sa_prefixes()[0]);
        return 5;
    }
    assert(seq![0x61u8, 0x62, 0x6D, 0x63, 0x5F] =~= sa_prefixes()[0]);
    if starts_with(t, &[0x65u8, 0x73, 0x5F]) {
        assert(seq![0x65u8, 0x73, 0x5F] =~= sa_prefixes()[1]);
        return 3;
    }
    assert(seq![0x65u8, 0x73, 0x5F] =~= sa_prefixes()[1]);
    if starts_with(t, &[0x69u8, 0x5F]) {
        assert(seq![0x69u8, 0x5F] =~= sa_prefixes()[2]);
        return 2;
    }
    assert(seq![0x69u8, 0x5F] =~= sa_prefixes()[2]);
    if starts_with(t, &[0x76u8, 0x5F]) {
        assert(seq![0x76u8, 0x5F] =~= sa_prefixes()[3]);
        return 2;
    }
    assert(seq![0x76u8, 0x5F] =~= sa_prefixes()[3]);
    if starts_with(t, &[0x6Du8, 0x76, 0x5F]) {
        assert(seq![0x6Du8, 0x76, 0x5F] =~= sa_prefixes()[4]);
        return 3;
    }
    assert(seq![0x6Du8, 0x76, 0x5F] =~= sa_prefixes()[4]);
    if starts_with(t, &[0x69u8, 0x78, 0x5F]) {
        assert(seq![0x69u8, 0x78, 0x5F] =~= sa_prefixes()[5]);
        return 3;
    }
    assert(seq![0x69u8, 0x78, 0x5F] =~= sa_prefixes()[5]);
    0
}

/// Score a candidate target table for a stem; higher is better.
pub fn match_score(stem: &str, table: &str) -> (r: u32)
    ensures
        r == score_of(str_bytes(stem), str_bytes(table)),
{
    let stem_l = to_ascii_lower(stem.as_bytes());
    let table_l = to_ascii_lower(table.as_bytes());
    if bytes_equal(table_l.as_slice(), stem_l.as_slice()) {
        return SCORE_EXACT;
    }
    let cut = sa_prefix_len(table_l.as_slice());
    let stripped = &table_l.as_slice()[cut..table_l.len()];
    if bytes_equal(stripped, stem_l.as_slice()) {
        return SCORE_STRIPPED;
    }
    let mut under_stem: Vec<u8> = Vec::new();
    under_stem.push(0x5F);
    let mut stem_under: Vec<u8> = Vec::new();
    let mut i: usize = 0;
    while i < stem_l.len()
        invariant
            i <= stem_l@.len(),
            under_stem@ == seq![0x5Fu8] + stem_l@.take(i as int),
            stem_under@ == stem_l@.take(i as int),
        decreases stem_l@.len() - i,
    {
        under_stem.push(stem_l[i]);
        stem_under.push(stem_l[i]);
        proof {
            assert(stem_l@.take(i + 1) =~= stem_l@.take(i as int).push(stem_l@[i as int]));
            assert(seq![0x5Fu8] + stem_l@.take(i + 1) =~= (seq![0x5Fu8] + stem_l@.take(i as int)).push(stem_l@[i as int]));
        }
        i = i + 1;
    }
    stem_under.push(0x5F);
    proof {
        assert(stem_l@.take(i as int) =~= stem_l@);
        assert(stem_under@ =~= stem_l@ + seq![0x5Fu8]);
        assert(stripped@ == without_sa_prefix_from(lower_bytes(str_bytes(table)), 0));
    }
    if ends_with(stripped, under_stem.as_slice()) {
        return SCORE_SUFFIX;
    }
    if starts_with(stripped, stem_under.as_slice()) {
        return SCORE_PREFIX;
    }
    if contains(stripped, stem_l.as_slice()) {
        return SCORE_SUBSTRING;
    }
    0
}

/// The index of the first table with the highest score among `0..k`,
/// when that score is positive.
pub open spec fn best_upto(stem: Seq<u8>, tables: Seq<Seq<u8>>, k: int) -> Option<int>
    decreases k,
{
    if k <= 0 {
        None
    } else {
        let prev = best_upto(stem, tables, k - 1);
        let s = score_of(stem, tables[k - 1]);
        match prev {
            Some(b) => if s > score_of(stem, tables[b]) {
                Some(k - 1)
            } else {
                Some(b)
            },
            None => if s > 0 {
                Some(k - 1)
            } else {
                None
            },
        }
    }
}

proof fn lemma_best_upto_range(stem: Seq<u8>, tables: Seq<Seq<u8>>, k: int)
    ensures
        best_upto(stem, tables, k) matches Some(b) ==> 0 <= b < k,
    decreases k,
{
    if k > 0 {
        lemma_best_upto_range(stem, tables, k - 1);
    }
}

/// The best target for a stem: the first table with the highest positive
/// score, with that score; `(None, 0)` when no table scores.
pub open spec fn best_target(stem: Seq<u8>, tables: Seq<Seq<u8>>) -> (Option<Seq<u8>>, u32) {
    match best_upto(stem, tables, tables.len() as int) {
        Some(b) => (Some(tables[b]), score_of(stem, tables[b])),
        None => (None, 0),
    }
}

/// The bytes of each string.
pub open spec fn names_bytes(v: Seq<String>) -> Seq<Seq<u8>> {
    v.map_values(|s: String| string_bytes(s))
}

/// The first table with the highest positive score for `stem`, and that
/// score; `(None, 0)` when no table scores above zero.
pub fn pick_best(stem: &str, tables: &[String]) -> (r: (Option<String>, u32))
    ensures
        ({
            let (t, s) = best_target(str_bytes(stem), names_bytes(tables@));
            &&& r.1 == s
            &&& match t {
                Some(nm) => r.0 is Some && string_bytes(r.0.unwrap()) == nm,
                None => r.0 is None,
            }
        }),
{
    let ghost names = names_bytes(tables@);
    let mut best: Option<usize> = None;
    let mut best_score: u32 = 0;
    let mut i: usize = 0;
    while i < tables.len()
        invariant
            i <= tables@.len(),
            names == names_bytes(tables@),
            match best_upto(str_bytes(stem), names, i as int) {
                Some(b) => best == Some(b as usize) && best_score == score_of(str_bytes(stem), names[b]) && best_score > 0
                    && b < i,
                None => best is None && best_score == 0,
            },
        decreases tables@.len() - i,
    {
        let s = match_score(stem, tables[i].as_str());
        proof {
            assert(names[i as int] == string_bytes(tables@[i as int]));
            lemma_best_upto_range(str_bytes(stem), names, i as int);
            lemma_best_upto_range(str_bytes(stem), names, i + 1);
        }
        if s > best_score {
            best_score = s;
            best = Some(i);
        }
        i = i + 1;
    }
    proof {
        lemma_best_upto_range(str_bytes(stem), names, i as int);
    }
    match best {
        Some(b) => {
            proof {
                assert(names[b as int] == string_bytes(tables@[b as int]));
            }
            (Some(tables[b].clone()), best_score)
        },
        None => (None, 0),
    }
}

/// Summary of edge resolution.
#[derive(Debug, Clone, Copy)]
pub struct FkGraphStats {
    /// Total edges.
    pub edges: usize,
    /// Edges with a target table.
    pub resolved: usize,
    /// Edges with a score of at least 900 (exact stem match).
    pub strong: usize,
}

/// Count the edges, the resolved edges and the strong edges.
pub fn stats(edges: &[FkEdge]) -> (r: FkGraphStats)
    ensures
        r.edges == edges@.len(),
        r.resolved == edges@.filter(|e: FkEdge| e.target_table is Some).len(),
        r.strong == edges@.filter(|e: FkEdge| e.score >= SCORE_STRIPPED).len(),
{
    let mut resolved: usize = 0;
    let mut strong: usize = 0;
    let mut i: usize = 0;
    proof {
        reveal(Seq::filter);
        assert(edges@.take(0) =~= Seq::<FkEdge>::empty());
    }
    while i < edges.len()
        invariant
            i <= edges@.len(),
            resolved == edges@.take(i as int).filter(|e: FkEdge| e.target_table is Some).len(),
            strong == edges@.take(i as int).filter(|e: FkEdge| e.score >= SCORE_STRIPPED).len(),
            resolved <= i,
            strong <= i,
        decreases edges@.len() - i,
    {
        proof {
            assert(edges@.take(i + 1) =~= edges@.take(i as int).push(edges@[i as int]));
            lemma_filter_push(edges@.take(i as int), edges@[i as int], |e: FkEdge| e.target_table is Some);
            lemma_filter_push(edges@.take(i as int), edges@[i as int], |e: FkEdge| e.score >= SCORE_STRIPPED);
        }
        if edges[i].target_table.is_some() {
            resolved = resolved + 1;
        }
        if edges[i].score >= SCORE_STRIPPED {
            strong = strong + 1;
        }
        i = i + 1;
    }
    proof {
        assert(edges@.take(i as int) =~= edges@);
    }
    FkGraphStats { edges: edges.len(), resolved, strong }
}

impl SortKey for FkEdge {
    open spec fn key_le(&self, other: &Self) -> bool {
        bytes_lt(string_bytes(self.source_table), string_bytes(other.source_table)) || (string_bytes(
            self.source_table,
        ) == string_bytes(other.source_table) && self.source_column_id <= other.source_column_id)
    }

    proof fn lemma_key_le_total(a: &Self, b: &Self) {
        if string_bytes(a.source_table) != string_bytes(b.source_table) {
            lemma_bytes_lt_total(string_bytes(a.source_table), string_bytes(b.source_table));
        }
    }

    proof fn lemma_key_le_transitive(a: &Self, b: &Self, c: &Self) {
        let (x, y, z) = (string_bytes(a.source_table), string_bytes(b.source_table), string_bytes(c.source_table));
        if bytes_lt(x, y) && bytes_lt(y, z) {
            lemma_bytes_lt_transitive(x, y, z);
        }
    }

    fn key_le_exec(&self, other: &Self) -> (r: bool) {
        let a = self.source_table.as_str().as_bytes();
        let b = other.source_table.as_str().as_bytes();
        bytes_lt_exec(a, b) || (bytes_equal(a, b) && self.source_column_id <= other.source_column_id)
    }
}

impl SameAs for FkEdge {
    open spec fn same(&self, other: &Self) -> bool {
        &&& string_bytes(self.source_table) == string_bytes(other.source_table)
        &&& string_bytes(self.source_column) == string_bytes(other.source_column)
        &&& self.source_column_id == other.source_column_id
    }

    fn same_exec(&self, other: &Self) -> (r: bool) {
        bytes_equal(self.source_table.as_str().as_bytes(), other.source_table.as_str().as_bytes())
            && bytes_equal(self.source_column.as_str().as_bytes(), other.source_column.as_str().as_bytes())
            && self.source_column_id == other.source_column_id
    }
}

/// The edge list is ordered by source table name (byte order), then by
/// column id within a table, and no edge repeats the source table, column
/// name and column id of the edge before it.
pub proof fn lemma_edges_ordered(raw: Seq<FkEdge>)
    ensures
        ({
            let e = dedup_consecutive(stable_sorted(raw));
            &&& forall|i: int, j: int|
                0 <= i < j < e.len() ==> bytes_lt(
                    string_bytes(#[trigger] e[i].source_table),
                    string_bytes(#[trigger] e[j].source_table),
                ) || (string_bytes(e[i].source_table) == string_bytes(e[j].source_table) && e[i].source_column_id
                    <= e[j].source_column_id)
            &&& forall|i: int|
                0 <= i < e.len() - 1 ==> !(string_bytes((#[trigger] e[i]).source_table) == string_bytes(
                    e[i + 1].source_table,
                ) && string_bytes(e[i].source_column) == string_bytes(e[i + 1].source_column) && e[i].source_column_id
                    == e[i + 1].source_column_id)
        }),
{
    let e = dedup_consecutive(stable_sorted(raw));
    lemma_stable_sorted_is_sorted(raw);
    lemma_dedup_consecutive_props(stable_sorted(raw));
    assert forall|i: int, j: int| 0 <= i < j < e.len() implies bytes_lt(
        string_bytes(#[trigger] e[i].source_table),
        string_bytes(#[trigger] e[j].source_table),
    ) || (string_bytes(e[i].source_table) == string_bytes(e[j].source_table) && e[i].source_column_id
        <= e[j].source_column_id) by {
        assert(e[i].key_le(&e[j]));
    }
    assert forall|i: int| 0 <= i < e.len() - 1 implies !(string_bytes((#[trigger] e[i]).source_table) == string_bytes(
        e[i + 1].source_table,
    ) && string_bytes(e[i].source_column) == string_bytes(e[i + 1].source_column) && e[i].source_column_id
        == e[i + 1].source_column_id) by {
        assert(!e[i + 1].same(&e[i]));
    }
}

/// The name of the first catalog table whose root page is `root`.
pub open spec fn name_for_root(tables: Seq<SysTableEntry>, root: u32) -> Option<Seq<u8>>
    decreases tables.len(),
{
    if tables.len() == 0 {
        None
    } else if tables[0].data_root_page == Some(root) {
        Some(string_bytes(tables[0].name))
    } else {
        name_for_root(tables.drop_first(), root)
    }
}

/// The edge inferred from a column, if any: the column needs a non-empty
/// stem and an owner that is the root page of a catalog table.
pub open spec fn edge_of(c: SysColumn, tables: Seq<SysTableEntry>, names: Seq<Seq<u8>>) -> Option<FkEdgeView> {
    match stem_of(string_bytes(c.name)) {
        Some(st) => if st.len() > 0 {
            match name_for_root(tables, c.owner_object_id) {
                Some(src) => {
                    let (t, s) = best_target(st, names);
                    Some(
                        FkEdgeView {
                            source_table: src,
                            source_column: string_bytes(c.name),
                            source_column_id: c.column_id,
                            stem: st,
                            target_table: t,
                            score: s,
                        },
                    )
                },
                None => None,
            }
        } else {
            None
        },
        None => None,
    }
}

/// The edges inferred from the columns, in column order.
pub open spec fn edges_of(cols: Seq<SysColumn>, tables: Seq<SysTableEntry>, names: Seq<Seq<u8>>) -> Seq<FkEdgeView>
    decreases cols.len(),
{
    if cols.len() == 0 {
        Seq::empty()
    } else {
        edges_of(cols.drop_last(), tables, names) + match edge_of(cols.last(), tables, names) {
            Some(e) => seq![e],
            None => Seq::empty(),
        }
    }
}

/// The name of the first catalog table whose root page is `root`.
fn find_name_for_root(tables: &[SysTableEntry], root: u32) -> (r: Option<&String>)
    ensures
        match name_for_root(tables@, root) {
            Some(n) => r is Some && string_bytes(*r.unwrap()) == n,
            None => r is None,
        },
{
    let mut i: usize = 0;
    assert(tables@.subrange(0, tables@.len() as int) =~= tables@);
    while i < tables.len()
        invariant
            i <= tables@.len(),
            name_for_root(tables@, root) == name_for_root(tables@.subrange(i as int, tables@.len() as int), root),
        decreases tables@.len() - i,
    {
        let ghost rest = tables@.subrange(i as int, tables@.len() as int);
        assert(rest.drop_first() =~= tables@.subrange(i + 1, tables@.len() as int));
        match tables[i].data_root_page {
            Some(r) => if r == root {
                return Some(&tables[i].name);
            },
            None => {},
        }
        i = i + 1;
    }
    None
}

/// The heuristic edges of a catalog and its columns: every column with a
/// non-empty `_id` / `_id_h` stem whose owner is the root page of a
/// catalog table, matched against every table name, sorted by source
/// table and column id (stably), with consecutive repeats of the same
/// `(source_table, source_column, source_column_id)` removed.
pub fn edges_for(tables: &[SysTableEntry], columns: &[SysColumn]) -> (edges: Vec<FkEdge>)
    ensures
        exists|raw: Seq<FkEdge>|
            edge_views(raw) == edges_of(columns@, tables@, names_bytes(tables@.map_values(|t: SysTableEntry| t.name)))
                && edges@ == dedup_consecutive(stable_sorted(raw)),
        forall|i: int, j: int|
            0 <= i < j < edges@.len() ==> bytes_lt(
                string_bytes(#[trigger] edges@[i].source_table),
                string_bytes(#[trigger] edges@[j].source_table),
            ) || (string_bytes(edges@[i].source_table) == string_bytes(edges@[j].source_table)
                && edges@[i].source_column_id <= edges@[j].source_column_id),
        forall|i: int|
            0 <= i < edges@.len() - 1 ==> !(string_bytes((#[trigger] edges@[i]).source_table) == string_bytes(
                edges@[i + 1].source_table,
            ) && string_bytes(edges@[i].source_column) == string_bytes(edges@[i + 1].source_column)
                && edges@[i].source_column_id == edges@[i + 1].source_column_id),
{
    let mut table_names: Vec<String> = Vec::new();
    let mut t: usize = 0;
    while t < tables.len()
        invariant
            t <= tables@.len(),
            table_names@ == tables@.take(t as int).map_values(|e: SysTableEntry| e.name),
        decreases tables@.len() - t,
    {
        table_names.push(tables[t].name.clone());
        proof {
            assert(tables@.take(t + 1).map_values(|e: SysTableEntry| e.name) =~= tables@.take(t as int).map_values(
                |e: SysTableEntry| e.name,
            ).push(tables@[t as int].name));
        }
        t = t + 1;
    }
    proof {
        assert(tables@.take(t as int) =~= tables@);
    }
    let ghost names = names_bytes(tables@.map_values(|e: SysTableEntry| e.name));
    let mut raw: Vec<FkEdge> = Vec::new();
    let mut i: usize = 0;
    while i < columns.len()
        invariant
            i <= columns@.len(),
            names == names_bytes(table_names@),
            names == names_bytes(tables@.map_values(|e: SysTableEntry| e.name)),
            edge_views(raw@) == edges_of(columns@.take(i as int), tables@, names),
        decreases columns@.len() - i,
    {
        let c = &columns[i];
        let ghost before = edge_views(raw@);
        let ghost eo = edge_of(columns@[i as int], tables@, names);
        proof {
            assert(columns@.take(i + 1).drop_last() =~= columns@.take(i as int));
        }
        let edge: Option<FkEdge> = match strip_id_suffix(c.name.as_str()) {
            Some(stem) => {
                if stem.as_bytes().len() > 0 {
                    match find_name_for_root(tables, c.owner_object_id) {
                        Some(src) => {
                            let (best, score) = pick_best(stem, table_names.as_slice());
                            Some(
                                FkEdge {
                                    source_table: src.clone(),
                                    source_column: c.name.clone(),
                                    source_column_id: c.column_id,
                                    stem: stem.to_owned(),
                                    target_table: best,
                                    score,
                                },
                            )
                        },
                        None => None,
                    }
                } else {
                    None
                }
            },
            None => None,
        };
        proof {
            assert(edge is Some <==> eo is Some);
            if edge is Some {
                assert(eo == Some(edge.unwrap()@));
            }
        }
        match edge {
            Some(e) => {
                raw.push(e);
                proof {
                    assert(edge_views(raw@) =~= before.push(e@));
                    assert(edge_views(raw@) =~= edges_of(columns@.take(i + 1), tables@, names));
                }
            },
            None => {
                proof {
                    assert(edge_views(raw@) =~= edges_of(columns@.take(i + 1), tables@, names));
                }
            },
        }
        i = i + 1;
    }
    proof {
        assert(columns@.take(i as int) =~= columns@);
    }
    let ghost rv = raw@;
    let sorted = stable_sort(raw);
    proof {
        lemma_edges_ordered(rv);
    }
    dedup_consecutive_exec(sorted)
}

/// Build the heuristic edge list from the store: the canonical `SYSTABLE`
/// catalog, and the `SYSCOLUMN` rows in scan order.
pub fn build(store: &PageStore, model: &ApModel) -> (edges: Vec<FkEdge>)
    ensures
        exists|tables: Seq<SysTableEntry>, cols: Seq<SysColumn>, raw: Seq<FkEdge>|
            collected_from(*store, tables) && columns_scanned_from(*store, cols) && edge_views(raw) == edges_of(
                cols,
                tables,
                names_bytes(tables.map_values(|t: SysTableEntry| t.name)),
            ) && edges@ == dedup_consecutive(stable_sorted(raw)),
        forall|i: int, j: int|
            0 <= i < j < edges@.len() ==> bytes_lt(
                string_bytes(#[trigger] edges@[i].source_table),
                string_bytes(#[trigger] edges@[j].source_table),
            ) || (string_bytes(edges@[i].source_table) == string_bytes(edges@[j].source_table)
                && edges@[i].source_column_id <= edges@[j].source_column_id),
        forall|i: int|
            0 <= i < edges@.len() - 1 ==> !(string_bytes((#[trigger] edges@[i]).source_table) == string_bytes(
                edges@[i + 1].source_table,
            ) && string_bytes(edges@[i].source_column) == string_bytes(edges@[i + 1].source_column)
                && edges@[i].source_column_id == edges@[i + 1].source_column_id),
{
    let tables = collect_unique(store, model);
    let columns = iter_syscolumns(store, model);
    edges_for(tables.as_slice(), columns.as_slice())
}

} // verus!
