//! `SYSOBJECT` rows: the bridge from `SYSCOLUMN` owners to table names.
//!
//! [`crate::SysColumn::owner_object_id`] and
//! [`crate::SysTableEntry::data_root_page`] are independent integer
//! namespaces. The bridge between them is the `SYSOBJECT` catalog, whose
//! rows have the form
//!
//! ```text
//! <object_id u32 LE> <20 bytes type/metadata> <name_len u8> <name>
//! ```
//!
//! The scan is conservative: the object id must sit exactly 24 bytes
//! before the name length, the object id must be a known `SYSCOLUMN`
//! owner, and the name must be a known `SYSTABLE` name. An owner seen
//! with several names is bridged to the name seen most often.

use vstd::prelude::*;
use opensqlany::{ApModel, PageStore};
use crate::codec::{bytes_equal, is_identifier, is_identifier_exec, le_u32, lemma_filter_push, lemma_identifier_ascii, read_le_u32};
use crate::decode::{any_decoding, decode_page, lemma_any_decoding, BvOracle};
use crate::store::{is_extent, is_extent_page, page_bytes, page_count, store_pages};
use crate::syscolumn::SysColumn;
use crate::systable::SysTableEntry;
use crate::text::{ascii_to_string, string_bytes};

verus! {

/// Distance from the object id to the name-length byte of a `SYSOBJECT`
/// row.
pub const SYSOBJECT_NAME_OFFSET: usize = 24;

/// Shortest accepted object name.
pub const OBJECT_NAME_LEN_MIN: u8 = 3;

/// Longest accepted object name.
pub const OBJECT_NAME_LEN_MAX: u8 = 48;

/// Whether `s` is a non-empty ASCII identifier: a letter or `_` followed
/// by letters, digits and `_`.
pub fn looks_like_identifier(s: &[u8]) -> (b: bool)
    ensures
        b == is_identifier(s@),
{
    is_identifier_exec(s)
}

/// `bridge` is the bridge found in `store` for `cols` and `tables`, under
/// some decoding of its pages that follows the oracle cascade.
pub open spec fn bridge_found(store: PageStore, cols: Seq<SysColumn>, tables: Seq<SysTableEntry>, bridge: Seq<(u32, String)>) -> bool {
    exists|plains: Seq<Seq<u8>>|
        #[trigger] all_page_decodings(store_pages(store), plains) && bridge_of(
            sightings_of_pages(store_pages(store), plains, cols, tables, store_pages(store).len() as int),
            bridge,
        )
}

/// Whether some column has owner `oid`.
pub open spec fn known_owner(cols: Seq<SysColumn>, oid: u32) -> bool {
    exists|i: int| 0 <= i < cols.len() && #[trigger] cols[i].owner_object_id == oid
}

/// Whether some catalog table is named `name`.
pub open spec fn known_name(tables: Seq<SysTableEntry>, name: Seq<u8>) -> bool {
    exists|i: int| 0 <= i < tables.len() && string_bytes(#[trigger] tables[i].name) == name
}

/// Whether a `SYSOBJECT` row whose name length sits at `i` is recognised:
/// a length in `3..=48`, a name inside the page that is an identifier
/// and a known table name, and a known owner 24 bytes before.
pub open spec fn object_row_at(plain: Seq<u8>, cols: Seq<SysColumn>, tables: Seq<SysTableEntry>, i: int) -> bool {
    let nl = plain[i];
    let name = plain.subrange(i + 1, i + 1 + nl);
    &&& OBJECT_NAME_LEN_MIN <= nl <= OBJECT_NAME_LEN_MAX
    &&& i + 1 + nl <= plain.len()
    &&& is_identifier(name)
    &&& known_name(tables, name)
    &&& known_owner(cols, le_u32(plain, i - 24))
}

/// The `(owner, name)` sightings on a decoded page from offset `i` on.
pub open spec fn sightings_from(plain: Seq<u8>, cols: Seq<SysColumn>, tables: Seq<SysTableEntry>, i: int) -> Seq<
    (u32, Seq<u8>),
>
    decreases plain.len() - i,
{
    if i < SYSOBJECT_NAME_OFFSET || i + 1 >= plain.len() {
        Seq::empty()
    } else if object_row_at(plain, cols, tables, i) {
        seq![(le_u32(plain, i - 24), plain.subrange(i + 1, i + 1 + plain[i]))] + sightings_from(plain, cols, tables, i + 1)
    } else {
        sightings_from(plain, cols, tables, i + 1)
    }
}

/// The sightings of the pages `0..hi`, given the decoded pages: every
/// extent page contributes the sightings of its decoding.
pub open spec fn sightings_of_pages(
    pages: Seq<Seq<u8>>,
    plains: Seq<Seq<u8>>,
    cols: Seq<SysColumn>,
    tables: Seq<SysTableEntry>,
    hi: int,
) -> Seq<(u32, Seq<u8>)>
    decreases hi,
{
    if hi <= 0 {
        Seq::empty()
    } else {
        sightings_of_pages(pages, plains, cols, tables, hi - 1) + if is_extent(pages[hi - 1]) {
            sightings_from(plains[hi - 1], cols, tables, SYSOBJECT_NAME_OFFSET as int)
        } else {
            Seq::empty()
        }
    }
}

/// `plains[pn]` decodes every extent page `pn` of `pages` (page 0 too),
/// following the oracle cascade.
pub open spec fn all_page_decodings(pages: Seq<Seq<u8>>, plains: Seq<Seq<u8>>) -> bool {
    &&& plains.len() == pages.len()
    &&& forall|pn: int|
        0 <= pn < pages.len() && is_extent(pages[pn]) ==> crate::decode::decoding_of(
            pages[pn],
            pn as u64,
            #[trigger] plains[pn],
            crate::decode::oracle_answer(BvOracle::Cascade, pages[pn], pn as u64),
        )
}

/// How often `(oid, name)` was sighted.
pub open spec fn votes(s: Seq<(u32, Seq<u8>)>, oid: u32, name: Seq<u8>) -> nat {
    s.filter(|p: (u32, Seq<u8>)| p == (oid, name)).len()
}

/// The index of the first sighting of `oid` among `0..j` whose name has
/// the most votes.
pub open spec fn best_sighting(s: Seq<(u32, Seq<u8>)>, oid: u32, j: int) -> Option<int>
    decreases j,
{
    if j <= 0 {
        None
    } else {
        let prev = best_sighting(s, oid, j - 1);
        if s[j - 1].0 != oid {
            prev
        } else {
            match prev {
                None => Some(j - 1),
                Some(b) => if votes(s, oid, s[j - 1].1) > votes(s, oid, s[b].1) {
                    Some(j - 1)
                } else {
                    prev
                },
            }
        }
    }
}

/// The name an owner is bridged to: the first-sighted of its names with
/// the most votes.
pub open spec fn bridged_name(s: Seq<(u32, Seq<u8>)>, oid: u32) -> Option<Seq<u8>> {
    match best_sighting(s, oid, s.len() as int) {
        Some(b) => Some(s[b].1),
        None => None,
    }
}

/// The owners sighted, in order of first sighting.
pub open spec fn owners_in_order(s: Seq<(u32, Seq<u8>)>) -> Seq<u32>
    decreases s.len(),
{
    if s.len() == 0 {
        Seq::empty()
    } else {
        let p = owners_in_order(s.drop_last());
        if p.contains(s.last().0) {
            p
        } else {
            p.push(s.last().0)
        }
    }
}

/// `bridge` maps every sighted owner, in order of first sighting, to its
/// bridged name.
pub open spec fn bridge_of(s: Seq<(u32, Seq<u8>)>, bridge: Seq<(u32, String)>) -> bool {
    &&& bridge.map_values(|p: (u32, String)| p.0) == owners_in_order(s)
    &&& forall|k: int| 0 <= k < bridge.len() ==> Some(string_bytes(#[trigger] bridge[k].1)) == bridged_name(s, bridge[k].0)
}

/// Whether `oid` is the owner of some column.
fn has_owner(cols: &[SysColumn], oid: u32) -> (b: bool)
    ensures
        b == known_owner(cols@, oid),
{
    let mut i: usize = 0;
    while i < cols.len()
        invariant
            i <= cols@.len(),
            forall|k: int| 0 <= k < i ==> #[trigger] cols@[k].owner_object_id != oid,
        decreases cols@.len() - i,
    {
        if cols[i].owner_object_id == oid {
            return true;
        }
        i = i + 1;
    }
    false
}

/// Whether some table is named `name`.
fn has_name(tables: &[SysTableEntry], name: &[u8]) -> (b: bool)
    ensures
        b == known_name(tables@, name@),
{
    let mut i: usize = 0;
    while i < tables.len()
        invariant
            i <= tables@.len(),
            forall|k: int| 0 <= k < i ==> string_bytes(#[trigger] tables@[k].name) != name@,
        decreases tables@.len() - i,
    {
        if bytes_equal(tables[i].name.as_str().as_bytes(), name) {
            return true;
        }
        i = i + 1;
    }
    false
}

/// Scan a decoded page for `SYSOBJECT` rows with a known owner and a
/// known table name, and append the `(owner, name)` sightings to `out`.
pub fn scan_objects(plain: &[u8], cols: &[SysColumn], tables: &[SysTableEntry], out: &mut Vec<(u32, String)>)
    ensures
        sighting_views(final(out)@) == sighting_views(old(out)@) + sightings_from(
            plain@,
            cols@,
            tables@,
            SYSOBJECT_NAME_OFFSET as int,
        ),
{
    let ghost b = plain@;
    let ghost init = sighting_views(out@);
    let n = plain.len();
    let mut i: usize = SYSOBJECT_NAME_OFFSET;
    while i < n && i + 1 < n
        invariant
            n == b.len(),
            b == plain@,
            SYSOBJECT_NAME_OFFSET <= i,
            init + sightings_from(b, cols@, tables@, SYSOBJECT_NAME_OFFSET as int) == sighting_views(out@)
                + sightings_from(b, cols@, tables@, i as int),
        decreases n - i,
    {
        let nlen = plain[i];
        if OBJECT_NAME_LEN_MIN <= nlen && nlen <= OBJECT_NAME_LEN_MAX && nlen as usize <= n - i - 1 {
            let s = &plain[i + 1..i + 1 + nlen as usize];
            if looks_like_identifier(s) && has_name(tables, s) {
                let oid = read_le_u32(plain, i - SYSOBJECT_NAME_OFFSET);
                if has_owner(cols, oid) {
                    proof {
                        lemma_identifier_ascii(s@);
                    }
                    let name = ascii_to_string(s);
                    let ghost before = sighting_views(out@);
                    out.push((oid, name));
                    proof {
                        assert(sighting_views(out@) =~= before.push((oid, s@)));
                        assert(before + sightings_from(b, cols@, tables@, i as int) =~= sighting_views(out@)
                            + sightings_from(b, cols@, tables@, i + 1));
                    }
                }
            }
        }
        i = i + 1;
    }
    assert(sightings_from(b, cols@, tables@, i as int) =~= Seq::<(u32, Seq<u8>)>::empty());
    assert(init + sightings_from(b, cols@, tables@, SYSOBJECT_NAME_OFFSET as int) =~= sighting_views(out@));
}

/// The sightings with names as bytes.
pub open spec fn sighting_views(v: Seq<(u32, String)>) -> Seq<(u32, Seq<u8>)> {
    v.map_values(|p: (u32, String)| (p.0, string_bytes(p.1)))
}

proof fn lemma_sightings_of_pages_prefix(
    pages: Seq<Seq<u8>>,
    p1: Seq<Seq<u8>>,
    p2: Seq<Seq<u8>>,
    cols: Seq<SysColumn>,
    tables: Seq<SysTableEntry>,
    hi: int,
)
    requires
        forall|i: int| 0 <= i < hi ==> #[trigger] p1[i] == p2[i],
    ensures
        sightings_of_pages(pages, p1, cols, tables, hi) == sightings_of_pages(pages, p2, cols, tables, hi),
    decreases hi,
{
    if hi > 0 {
        lemma_sightings_of_pages_prefix(pages, p1, p2, cols, tables, hi - 1);
        assert(p1[hi - 1] == p2[hi - 1]);
    }
}

/// Every `(owner, name)` sighting in `store`, scanning every extent page
/// (page 0 included) in page order.
fn collect_sightings(store: &PageStore, model: &ApModel, cols: &[SysColumn], tables: &[SysTableEntry]) -> (s: Vec<
    (u32, String),
>)
    ensures
        exists|plains: Seq<Seq<u8>>|
            #[trigger] all_page_decodings(store_pages(*store), plains) && sighting_views(s@) == sightings_of_pages(
                store_pages(*store),
                plains,
                cols@,
                tables@,
                store_pages(*store).len() as int,
            ),
{
    let ghost pages = store_pages(*store);
    let n = page_count(store);
    let mut s: Vec<(u32, String)> = Vec::new();
    let ghost mut plains: Seq<Seq<u8>> = Seq::new(pages.len(), |i: int| Seq::<u8>::empty());
    let mut pn: u64 = 0;
    while pn < n
        invariant
            n == pages.len(),
            pages == store_pages(*store),
            pn <= n,
            plains.len() == pages.len(),
            forall|q: int|
                0 <= q < pn && is_extent(pages[q]) ==> crate::decode::decoding_of(
                    pages[q],
                    q as u64,
                    #[trigger] plains[q],
                    crate::decode::oracle_answer(BvOracle::Cascade, pages[q], q as u64),
                ),
            sighting_views(s@) == sightings_of_pages(pages, plains, cols@, tables@, pn as int),
        decreases n - pn,
    {
        let raw = page_bytes(store, pn).unwrap();
        let ghost old_plains = plains;
        let ghost old_s = sighting_views(s@);
        if is_extent_page(pn, raw) {
            let plain = decode_page(store, model, pn, raw, BvOracle::Cascade);
            proof {
                plains = plains.update(pn as int, plain@);
            }
            scan_objects(plain.as_slice(), cols, tables, &mut s);
            proof {
                lemma_sightings_of_pages_prefix(pages, old_plains, plains, cols@, tables@, pn as int);
            }
        } else {
            assert(sighting_views(s@) =~= old_s + Seq::<(u32, Seq<u8>)>::empty());
        }
        assert(sighting_views(s@) == sightings_of_pages(pages, plains, cols@, tables@, pn + 1));
        pn = pn + 1;
    }
    assert(all_page_decodings(pages, plains));
    s
}

/// How often `(oid, name)` occurs in the sightings.
fn count_votes(s: &Vec<(u32, String)>, oid: u32, name: &String) -> (c: usize)
    ensures
        c == votes(sighting_views(s@), oid, string_bytes(*name)),
{
    let ghost sv = sighting_views(s@);
    let mut c: usize = 0;
    let mut i: usize = 0;
    proof {
        reveal(Seq::filter);
        assert(sv.take(0) =~= Seq::<(u32, Seq<u8>)>::empty());
    }
    while i < s.len()
        invariant
            i <= s@.len(),
            sv == sighting_views(s@),
            c == sv.take(i as int).filter(|p: (u32, Seq<u8>)| p == (oid, string_bytes(*name))).len(),
            c <= i,
        decreases s@.len() - i,
    {
        proof {
            assert(sv.take(i + 1) =~= sv.take(i as int).push(sv[i as int]));
            lemma_filter_push(sv.take(i as int), sv[i as int], |p: (u32, Seq<u8>)| p == (oid, string_bytes(*name)));
        }
        if s[i].0 == oid && bytes_equal(s[i].1.as_str().as_bytes(), name.as_str().as_bytes()) {
            c = c + 1;
        }
        i = i + 1;
    }
    proof {
        assert(sv.take(i as int) =~= sv);
    }
    c
}

/// The index of the first sighting of `oid` whose name has the most
/// votes.
fn best_for(s: &Vec<(u32, String)>, oid: u32) -> (r: Option<usize>)
    ensures
        match best_sighting(sighting_views(s@), oid, s@.len() as int) {
            Some(b) => r == Some(b as usize),
            None => r is None,
        },
{
    let ghost sv = sighting_views(s@);
    let mut best: Option<usize> = None;
    let mut best_votes: usize = 0;
    let mut j: usize = 0;
    while j < s.len()
        invariant
            j <= s@.len(),
            sv == sighting_views(s@),
            match best_sighting(sv, oid, j as int) {
                Some(b) => best == Some(b as usize) && 0 <= b < j && best_votes == votes(sv, oid, sv[b].1),
                None => best is None,
            },
        decreases s@.len() - j,
    {
        if s[j].0 == oid {
            let v = count_votes(s, oid, &s[j].1);
            match best {
                None => {
                    best = Some(j);
                    best_votes = v;
                },
                Some(_) => {
                    if v > best_votes {
                        best = Some(j);
                        best_votes = v;
                    }
                },
            }
        }
        j = j + 1;
    }
    best
}

/// Whether the bridge already has owner `oid`.
fn bridge_has(bridge: &Vec<(u32, String)>, oid: u32) -> (b: bool)
    ensures
        b == bridge@.map_values(|p: (u32, String)| p.0).contains(oid),
{
    let ghost owners = bridge@.map_values(|p: (u32, String)| p.0);
    let mut i: usize = 0;
    while i < bridge.len()
        invariant
            i <= bridge@.len(),
            owners == bridge@.map_values(|p: (u32, String)| p.0),
            forall|k: int| 0 <= k < i ==> owners[k] != oid,
        decreases bridge@.len() - i,
    {
        if bridge[i].0 == oid {
            assert(owners[i as int] == oid);
            return true;
        }
        i = i + 1;
    }
    false
}

/// The bridge of a sequence of sightings: each owner, in order of first
/// sighting, with its first-sighted most-voted name.
pub fn bridge_of_sightings(s: &Vec<(u32, String)>) -> (bridge: Vec<(u32, String)>)
    ensures
        bridge_of(sighting_views(s@), bridge@),
{
    let ghost sv = sighting_views(s@);
    let mut bridge: Vec<(u32, String)> = Vec::new();
    let mut i: usize = 0;
    proof {
        assert(sv.take(0) =~= Seq::<(u32, Seq<u8>)>::empty());
    }
    while i < s.len()
        invariant
            i <= s@.len(),
            sv == sighting_views(s@),
            bridge@.map_values(|p: (u32, String)| p.0) == owners_in_order(sv.take(i as int)),
            forall|k: int| 0 <= k < bridge@.len() ==> Some(string_bytes(#[trigger] bridge@[k].1)) == bridged_name(sv, bridge@[k].0),
        decreases s@.len() - i,
    {
        let oid = s[i].0;
        proof {
            assert(sv.take(i + 1).drop_last() =~= sv.take(i as int));
            assert(sv.take(i + 1).last().0 == oid);
        }
        if !bridge_has(&bridge, oid) {
            let b = best_for(s, oid);
            proof {
                lemma_best_sighting_some(sv, oid, s@.len() as int, i as int);
                lemma_best_sighting_max(sv, oid, s@.len() as int);
            }
            let bi = b.unwrap();
            let name = s[bi].1.clone();
            let ghost before = bridge@;
            bridge.push((oid, name));
            proof {
                assert(bridge@.map_values(|p: (u32, String)| p.0) =~= before.map_values(|p: (u32, String)| p.0).push(oid));
                assert(sv[bi as int].1 == string_bytes(name));
            }
        }
        i = i + 1;
    }
    proof {
        assert(sv.take(i as int) =~= sv);
    }
    bridge
}

proof fn lemma_best_sighting_some(s: Seq<(u32, Seq<u8>)>, oid: u32, j: int, i: int)
    requires
        0 <= i < j <= s.len(),
        s[i].0 == oid,
    ensures
        best_sighting(s, oid, j) is Some,
    decreases j,
{
    if j - 1 > i {
        lemma_best_sighting_some(s, oid, j - 1, i);
    }
}

/// The bridge found in `store` for `columns` and `tables`: the sightings
/// of `SYSOBJECT` rows on every extent page, each owner mapped to its
/// most-voted name. With no column or no table there is nothing to
/// bridge.
pub fn bridge_owners_to_tables(
    store: &PageStore,
    model: &ApModel,
    columns: &[SysColumn],
    tables: &[SysTableEntry],
) -> (bridge: Vec<(u32, String)>)
    ensures
        bridge_found(*store, columns@, tables@, bridge@),
{
    if columns.len() == 0 || tables.len() == 0 {
        let ghost pages = store_pages(*store);
        let ghost plains = Seq::new(pages.len(), |i: int| any_decoding(pages[i], i as u64, BvOracle::Cascade));
        proof {
            assert forall|pn: int| 0 <= pn < pages.len() && is_extent(pages[pn]) implies crate::decode::decoding_of(
                pages[pn],
                pn as u64,
                #[trigger] plains[pn],
                crate::decode::oracle_answer(BvOracle::Cascade, pages[pn], pn as u64),
            ) by {
                lemma_any_decoding(pages[pn], pn as u64, BvOracle::Cascade);
            }
            lemma_no_sightings(pages, plains, columns@, tables@, pages.len() as int);
            assert(all_page_decodings(pages, plains));
            assert(owners_in_order(Seq::<(u32, Seq<u8>)>::empty()) =~= Seq::<u32>::empty());
        }
        let bridge: Vec<(u32, String)> = Vec::new();
        proof {
            assert(bridge@.map_values(|p: (u32, String)| p.0) =~= Seq::<u32>::empty());
            assert(bridge_of(sightings_of_pages(pages, plains, columns@, tables@, pages.len() as int), bridge@));
        }
        return bridge;
    }
    let s = collect_sightings(store, model, columns, tables);
    let bridge = bridge_of_sightings(&s);
    bridge
}

proof fn lemma_no_sightings_page(plain: Seq<u8>, cols: Seq<SysColumn>, tables: Seq<SysTableEntry>, i: int)
    requires
        cols.len() == 0 || tables.len() == 0,
    ensures
        sightings_from(plain, cols, tables, i) =~= Seq::<(u32, Seq<u8>)>::empty(),
    decreases plain.len() - i,
{
    if i >= SYSOBJECT_NAME_OFFSET && i + 1 < plain.len() {
        lemma_no_sightings_page(plain, cols, tables, i + 1);
    }
}

proof fn lemma_no_sightings(
    pages: Seq<Seq<u8>>,
    plains: Seq<Seq<u8>>,
    cols: Seq<SysColumn>,
    tables: Seq<SysTableEntry>,
    hi: int,
)
    requires
        cols.len() == 0 || tables.len() == 0,
    ensures
        sightings_of_pages(pages, plains, cols, tables, hi) =~= Seq::<(u32, Seq<u8>)>::empty(),
    decreases hi,
{
    if hi > 0 {
        lemma_no_sightings(pages, plains, cols, tables, hi - 1);
        lemma_no_sightings_page(plains[hi - 1], cols, tables, SYSOBJECT_NAME_OFFSET as int);
    }
}

/// The name an owner is bridged to has at least as many sightings as any
/// other name sighted with that owner.
pub proof fn lemma_bridge_picks_most_votes(s: Seq<(u32, Seq<u8>)>, oid: u32, other: Seq<u8>)
    ensures
        bridged_name(s, oid) matches Some(nm) ==> votes(s, oid, other) <= votes(s, oid, nm),
{
    lemma_best_sighting_max(s, oid, s.len() as int);
    if bridged_name(s, oid) is Some && votes(s, oid, other) > 0 {
        let pred = |p: (u32, Seq<u8>)| p == (oid, other);
        s.filter_lemma(pred);
        let x = s.filter(pred)[0];
        assert(s.filter(pred).contains(x));
        lemma_filter_member(s, pred, x);
        let i = choose|i: int| 0 <= i < s.len() && s[i] == x;
        assert(s[i].0 == oid && s[i].1 == other);
    }
}

proof fn lemma_filter_member<A>(s: Seq<A>, pred: spec_fn(A) -> bool, x: A)
    requires
        s.filter(pred).contains(x),
    ensures
        exists|i: int| 0 <= i < s.len() && s[i] == x,
    decreases s.len(),
{
    reveal(Seq::filter);
    if s.len() > 0 {
        if s.drop_last().filter(pred).contains(x) {
            lemma_filter_member(s.drop_last(), pred, x);
            let i = choose|i: int| 0 <= i < s.drop_last().len() && s.drop_last()[i] == x;
            assert(s[i] == x);
        } else {
            assert(s[s.len() - 1] == x);
        }
    }
}

proof fn lemma_best_sighting_max(s: Seq<(u32, Seq<u8>)>, oid: u32, j: int)
    requires
        0 <= j <= s.len(),
    ensures
        best_sighting(s, oid, j) matches Some(b) ==> 0 <= b < j && s[b].0 == oid && forall|i: int|
            0 <= i < j && s[i].0 == oid ==> #[trigger] votes(s, oid, s[i].1) <= votes(s, oid, s[b].1),
        best_sighting(s, oid, j) is None ==> forall|i: int| 0 <= i < j ==> s[i].0 != oid,
    decreases j,
{
    if j > 0 {
        lemma_best_sighting_max(s, oid, j - 1);
    }
}

} // verus!
