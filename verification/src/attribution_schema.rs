//! Schema-aware page attribution validator.
//!
//! For each table a plausible row-width band is computed from the
//! declared widths and domain codes of its `SYSCOLUMN` rows; a page
//! attributed to a table is then checked against that band using the
//! median row-body length of the page's slot directory.
//!
//! Variable-width columns (any domain but `N`, `F`, `I`, `D`, `T`, `B`)
//! contribute 1 byte to the lower bound and their declared width, at
//! least [`VARIABLE_COLUMN_UPPER_ALLOWANCE`], to the upper bound;
//! fixed-width columns contribute their declared width to both. Both
//! bounds start at [`MIN_ROW_BODY_BYTES`] and saturate at `u32::MAX`.

use vstd::prelude::*;
use opensqlany::{ApModel, PageStore};
use crate::bv_recovery::{spec_recover_bv_qb, PAGE};
use crate::codec::{bytes_equal, lemma_filter_push};
use crate::decode::{decode_page, decoding_of, BvOracle};
use crate::sorting::{stable_sort, stable_sorted};
use crate::store::{is_extent, is_extent_page, page_bytes, page_rows, slotted_rows, store_pages};
use crate::syscolumn::{columns_scanned_from, iter_syscolumns, owned_by, SysColumn};
use crate::sysobject::{bridge_found, bridge_owners_to_tables};
use crate::systable::{iter_systable_entries, systable_scanned_from, SysTableEntry};
use crate::text::{str_bytes, string_bytes};

verus! {

/// Upper-bound allowance of a variable-width column.
pub const VARIABLE_COLUMN_UPPER_ALLOWANCE: u32 = 64;

/// Smallest plausible row body; both bounds start here.
pub const MIN_ROW_BODY_BYTES: u32 = 4;

/// A row-width band derived from a table's `SYSCOLUMN` rows.
#[derive(Debug, Clone, Copy)]
pub struct WidthBand {
    /// `SYSCOLUMN` owner the band was computed from.
    pub owner_object_id: u32,
    /// Lower bound on the row body length.
    pub low: u32,
    /// Upper bound on the row body length.
    pub high: u32,
    /// Number of columns counted.
    pub column_count: u32,
}

/// Summary of [`SchemaAttribution::validate_corpus`].
#[derive(Debug, Clone, Copy)]
pub struct ValidationStats {
    /// Pages whose table has a band that the page passes.
    pub pass: u64,
    /// Pages whose table has a band that the page fails.
    pub fail: u64,
    /// Pages whose table has no band.
    pub no_band: u64,
    /// Pages whose rows could not be measured.
    pub unmeasured: u64,
}

impl ValidationStats {
    /// Total pages observed.
    pub fn total(&self) -> (t: u64)
        requires
            self.pass + self.fail + self.no_band + self.unmeasured <= u64::MAX,
        ensures
            t == self.pass + self.fail + self.no_band + self.unmeasured,
    {
        self.pass + self.fail + self.no_band + self.unmeasured
    }
}

/// Whether a domain code is fixed-width: `N`, `F`, `I`, `D`, `T` or `B`.
pub open spec fn fixed_width_domain(d: u8) -> bool {
    d == 0x4E || d == 0x46 || d == 0x49 || d == 0x44 || d == 0x54 || d == 0x42
}

/// Whether a domain code is fixed-width: `N`, `F`, `I`, `D`, `T` or `B`.
pub fn is_fixed_width_domain(d: u8) -> (b: bool)
    ensures
        b == fixed_width_domain(d),
{
    d == 0x4E || d == 0x46 || d == 0x49 || d == 0x44 || d == 0x54 || d == 0x42
}

/// `a + b`, saturating at `u32::MAX`.
pub open spec fn sat_add(a: u32, b: int) -> u32 {
    if a + b > u32::MAX {
        u32::MAX
    } else {
        (a + b) as u32
    }
}

/// The lower-bound contribution of a column.
pub open spec fn low_step(c: SysColumn) -> int {
    if fixed_width_domain(c.domain_char) {
        c.width as int
    } else {
        1
    }
}

/// The upper-bound contribution of a column.
pub open spec fn high_step(c: SysColumn) -> int {
    if fixed_width_domain(c.domain_char) {
        c.width as int
    } else if c.width > VARIABLE_COLUMN_UPPER_ALLOWANCE {
        c.width as int
    } else {
        VARIABLE_COLUMN_UPPER_ALLOWANCE as int
    }
}

/// The lower bound of a band over `cols`.
pub open spec fn band_low(cols: Seq<SysColumn>) -> u32
    decreases cols.len(),
{
    if cols.len() == 0 {
        MIN_ROW_BODY_BYTES
    } else {
        sat_add(band_low(cols.drop_last()), low_step(cols.last()))
    }
}

/// The upper bound of a band over `cols`.
pub open spec fn band_high(cols: Seq<SysColumn>) -> u32
    decreases cols.len(),
{
    if cols.len() == 0 {
        MIN_ROW_BODY_BYTES
    } else {
        sat_add(band_high(cols.drop_last()), high_step(cols.last()))
    }
}

/// The band of owner `o` over its columns `cols`.
pub open spec fn band_of(o: u32, cols: Seq<SysColumn>) -> WidthBand {
    WidthBand { owner_object_id: o, low: band_low(cols), high: band_high(cols), column_count: cols.len() as u32 }
}

/// The name the bridge gives owner `o`.
pub open spec fn bridge_name(bridge: Seq<(u32, String)>, o: u32) -> Option<Seq<u8>>
    decreases bridge.len(),
{
    if bridge.len() == 0 {
        None
    } else if bridge[0].0 == o {
        Some(string_bytes(bridge[0].1))
    } else {
        bridge_name(bridge.drop_first(), o)
    }
}

/// The first catalog row named `name`.
pub open spec fn table_named(tables: Seq<SysTableEntry>, name: Seq<u8>) -> Option<SysTableEntry>
    decreases tables.len(),
{
    if tables.len() == 0 {
        None
    } else if string_bytes(tables[0].name) == name {
        Some(tables[0])
    } else {
        table_named(tables.drop_first(), name)
    }
}

/// Whether a table declaring at least two columns has fewer than half of
/// them among the `n` parsed ones (such a band is left out).
pub open spec fn too_few_columns(declared: Option<u8>, n: int) -> bool {
    match declared {
        Some(d) => d >= 2 && (n as u32) * 2 < d,
        None => false,
    }
}

/// The band entry of owner `o`: its bridged table name and its band, when
/// the owner is bridged to a catalog table, has columns and passes the
/// column-count gate.
pub open spec fn band_entry(o: u32, cols: Seq<SysColumn>, bridge: Seq<(u32, String)>, tables: Seq<SysTableEntry>) -> Option<
    (Seq<u8>, WidthBand),
> {
    match bridge_name(bridge, o) {
        Some(nm) => match table_named(tables, nm) {
            Some(t) => {
                let g = owned_by(cols, o);
                if g.len() == 0 || too_few_columns(t.col_count, g.len() as int) {
                    None
                } else {
                    Some((nm, band_of(o, g)))
                }
            },
            None => None,
        },
        None => None,
    }
}

/// The index of the first entry named `nm`, from `i` on.
pub open spec fn first_named(list: Seq<(Seq<u8>, WidthBand)>, nm: Seq<u8>, i: int) -> Option<int>
    decreases list.len() - i,
{
    if i < 0 || i >= list.len() {
        None
    } else if list[i].0 == nm {
        Some(i)
    } else {
        first_named(list, nm, i + 1)
    }
}

/// Set the band of `nm`: replace the first entry with that name, or
/// append one.
pub open spec fn upsert(list: Seq<(Seq<u8>, WidthBand)>, nm: Seq<u8>, b: WidthBand) -> Seq<(Seq<u8>, WidthBand)> {
    match first_named(list, nm, 0) {
        Some(i) => list.update(i, (nm, b)),
        None => list.push((nm, b)),
    }
}

/// The bands of the owners, taken in the given order; a later owner
/// bridged to the same name replaces the band of an earlier one.
pub open spec fn bands_of(owners: Seq<u32>, cols: Seq<SysColumn>, bridge: Seq<(u32, String)>, tables: Seq<SysTableEntry>) -> Seq<
    (Seq<u8>, WidthBand),
>
    decreases owners.len(),
{
    if owners.len() == 0 {
        Seq::empty()
    } else {
        let prev = bands_of(owners.drop_last(), cols, bridge, tables);
        match band_entry(owners.last(), cols, bridge, tables) {
            Some((nm, b)) => upsert(prev, nm, b),
            None => prev,
        }
    }
}

/// The owners of the columns, in order of first appearance.
pub open spec fn distinct_owners(cols: Seq<SysColumn>) -> Seq<u32>
    decreases cols.len(),
{
    if cols.len() == 0 {
        Seq::empty()
    } else {
        let p = distinct_owners(cols.drop_last());
        if p.contains(cols.last().owner_object_id) {
            p
        } else {
            p.push(cols.last().owner_object_id)
        }
    }
}

/// The band of every bridged table: owners are taken in increasing order,
/// so a table bridged from several owners gets the band of the largest.
pub open spec fn schema_bands(cols: Seq<SysColumn>, bridge: Seq<(u32, String)>, tables: Seq<SysTableEntry>) -> Seq<
    (Seq<u8>, WidthBand),
> {
    bands_of(stable_sorted(distinct_owners(cols)), cols, bridge, tables)
}

/// The first band named `nm` in a band list.
pub open spec fn band_lookup(list: Seq<(Seq<u8>, WidthBand)>, nm: Seq<u8>) -> Option<WidthBand>
    decreases list.len(),
{
    if list.len() == 0 {
        None
    } else if list[0].0 == nm {
        Some(list[0].1)
    } else {
        band_lookup(list.drop_first(), nm)
    }
}

/// Schema-aware width validator.
#[derive(Debug, Clone)]
pub struct SchemaAttribution {
    bands: Vec<(String, WidthBand)>,
}

impl SchemaAttribution {
    /// The bands, with table names as bytes.
    pub closed spec fn band_list(&self) -> Seq<(Seq<u8>, WidthBand)> {
        self.bands@.map_values(|p: (String, WidthBand)| (string_bytes(p.0), p.1))
    }

    /// An attribution with no bands.
    pub fn empty() -> (r: Self)
        ensures
            r.band_list() == Seq::<(Seq<u8>, WidthBand)>::empty(),
    {
        let r = SchemaAttribution { bands: Vec::new() };
        assert(r.band_list() =~= Seq::<(Seq<u8>, WidthBand)>::empty());
        r
    }

    /// Set the band of a table, replacing a band it already has.
    pub fn set_band(&mut self, table_name: String, band: WidthBand)
        ensures
            final(self).band_list() == upsert(old(self).band_list(), string_bytes(table_name), band),
    {
        let ghost before = self.band_list();
        let ghost nm = string_bytes(table_name);
        let mut i: usize = 0;
        while i < self.bands.len()
            invariant
                i <= self.bands@.len(),
                before == self.band_list(),
                before == old(self).band_list(),
                nm == string_bytes(table_name),
                first_named(before, nm, 0) == first_named(before, nm, i as int),
            decreases self.bands@.len() - i,
        {
            proof {
                assert(before[i as int] == (string_bytes(self.bands@[i as int].0), self.bands@[i as int].1));
            }
            if bytes_equal(self.bands[i].0.as_str().as_bytes(), table_name.as_str().as_bytes()) {
                proof {
                    assert(before[i as int].0 == nm);
                }
                self.bands.set(i, (table_name, band));
                proof {
                    assert(self.band_list() =~= before.update(i as int, (nm, band)));
                }
                return;
            }
            i = i + 1;
        }
        self.bands.push((table_name, band));
        proof {
            assert(self.band_list() =~= before.push((nm, band)));
        }
    }

    /// The band of `table_name`, if it has one.
    pub fn band(&self, table_name: &str) -> (r: Option<&WidthBand>)
        ensures
            match band_lookup(self.band_list(), str_bytes(table_name)) {
                Some(b) => r == Some(&b),
                None => r is None,
            },
    {
        let ghost bl = self.band_list();
        let mut i: usize = 0;
        assert(bl.subrange(0, bl.len() as int) =~= bl);
        while i < self.bands.len()
            invariant
                i <= self.bands@.len(),
                bl == self.band_list(),
                band_lookup(bl, str_bytes(table_name)) == band_lookup(bl.subrange(i as int, bl.len() as int), str_bytes(table_name)),
            decreases self.bands@.len() - i,
        {
            let ghost rest = bl.subrange(i as int, bl.len() as int);
            assert(rest.drop_first() =~= bl.subrange(i + 1, bl.len() as int));
            if bytes_equal(self.bands[i].0.as_str().as_bytes(), table_name.as_bytes()) {
                return Some(&self.bands[i].1);
            }
            i = i + 1;
        }
        None
    }

    /// Number of tables with a band.
    pub fn len(&self) -> (n: usize)
        ensures
            n == self.band_list().len(),
    {
        self.bands.len()
    }

    /// Whether no band was computed.
    pub fn is_empty(&self) -> (b: bool)
        ensures
            b == (self.band_list().len() == 0),
    {
        self.bands.len() == 0
    }

    /// Whether `observed_row_body` lies in the band of `table_name`;
    /// `false` when the table has no band.
    pub fn validate_observed(&self, table_name: &str, observed_row_body: u32) -> (b: bool)
        ensures
            b == match band_lookup(self.band_list(), str_bytes(table_name)) {
                Some(w) => w.low <= observed_row_body <= w.high,
                None => false,
            },
    {
        match self.band(table_name) {
            Some(w) => observed_row_body >= w.low && observed_row_body <= w.high,
            None => false,
        }
    }
}

/// `a + b`, saturating at `u32::MAX`.
fn sat_add_exec(a: u32, b: u32) -> (r: u32)
    ensures
        r == sat_add(a, b as int),
{
    if (a as u64) + (b as u64) > u32::MAX as u64 {
        u32::MAX
    } else {
        a + b
    }
}

/// The band of owner `o` and the number of its columns.
fn owner_band(cols: &[SysColumn], o: u32) -> (r: (WidthBand, usize))
    ensures
        r.0 == band_of(o, owned_by(cols@, o)),
        r.1 == owned_by(cols@, o).len(),
{
    let mut low: u32 = MIN_ROW_BODY_BYTES;
    let mut high: u32 = MIN_ROW_BODY_BYTES;
    let mut count: usize = 0;
    let mut i: usize = 0;
    proof {
        reveal(Seq::filter);
        assert(cols@.take(0) =~= Seq::<SysColumn>::empty());
    }
    while i < cols.len()
        invariant
            i <= cols@.len(),
            low == band_low(owned_by(cols@.take(i as int), o)),
            high == band_high(owned_by(cols@.take(i as int), o)),
            count == owned_by(cols@.take(i as int), o).len(),
            count <= i,
        decreases cols@.len() - i,
    {
        let ghost pre = cols@.take(i as int);
        let c = &cols[i];
        proof {
            assert(cols@.take(i + 1) =~= pre.push(*c));
            lemma_filter_push(pre, *c, |c: SysColumn| c.owner_object_id == o);
            assert(owned_by(pre, o).push(*c).drop_last() =~= owned_by(pre, o));
        }
        if c.owner_object_id == o {
            let w = c.width as u32;
            if is_fixed_width_domain(c.domain_char) {
                low = sat_add_exec(low, w);
                high = sat_add_exec(high, w);
            } else {
                low = sat_add_exec(low, 1);
                let up = if w > VARIABLE_COLUMN_UPPER_ALLOWANCE {
                    w
                } else {
                    VARIABLE_COLUMN_UPPER_ALLOWANCE
                };
                high = sat_add_exec(high, up);
            }
            count = count + 1;
        }
        i = i + 1;
    }
    proof {
        assert(cols@.take(i as int) =~= cols@);
    }
    (WidthBand { owner_object_id: o, low, high, column_count: count as u32 }, count)
}

/// The name the bridge gives owner `o`.
fn find_bridge_name(bridge: &[(u32, String)], o: u32) -> (r: Option<&String>)
    ensures
        match bridge_name(bridge@, o) {
            Some(nm) => r is Some && string_bytes(*r.unwrap()) == nm,
            None => r is None,
        },
{
    let mut i: usize = 0;
    assert(bridge@.subrange(0, bridge@.len() as int) =~= bridge@);
    while i < bridge.len()
        invariant
            i <= bridge@.len(),
            bridge_name(bridge@, o) == bridge_name(bridge@.subrange(i as int, bridge@.len() as int), o),
        decreases bridge@.len() - i,
    {
        let ghost rest = bridge@.subrange(i as int, bridge@.len() as int);
        assert(rest.drop_first() =~= bridge@.subrange(i + 1, bridge@.len() as int));
        if bridge[i].0 == o {
            return Some(&bridge[i].1);
        }
        i = i + 1;
    }
    None
}

/// The first catalog row named `name`.
fn find_table_named<'a>(tables: &'a [SysTableEntry], name: &String) -> (r: Option<&'a SysTableEntry>)
    ensures
        match table_named(tables@, string_bytes(*name)) {
            Some(t) => r == Some(&t),
            None => r is None,
        },
{
    let mut i: usize = 0;
    assert(tables@.subrange(0, tables@.len() as int) =~= tables@);
    while i < tables.len()
        invariant
            i <= tables@.len(),
            table_named(tables@, string_bytes(*name)) == table_named(
                tables@.subrange(i as int, tables@.len() as int),
                string_bytes(*name),
            ),
        decreases tables@.len() - i,
    {
        let ghost rest = tables@.subrange(i as int, tables@.len() as int);
        assert(rest.drop_first() =~= tables@.subrange(i + 1, tables@.len() as int));
        if bytes_equal(tables[i].name.as_str().as_bytes(), name.as_str().as_bytes()) {
            return Some(&tables[i]);
        }
        i = i + 1;
    }
    None
}

/// The owners of the columns, in order of first appearance.
fn owners_of(cols: &[SysColumn]) -> (r: Vec<u32>)
    ensures
        r@ == distinct_owners(cols@),
{
    let mut r: Vec<u32> = Vec::new();
    let mut i: usize = 0;
    while i < cols.len()
        invariant
            i <= cols@.len(),
            r@ == distinct_owners(cols@.take(i as int)),
        decreases cols@.len() - i,
    {
        let o = cols[i].owner_object_id;
        proof {
            assert(cols@.take(i + 1).drop_last() =~= cols@.take(i as int));
        }
        let mut j: usize = 0;
        let mut seen = false;
        while j < r.len()
            invariant
                j <= r@.len(),
                seen == r@.take(j as int).contains(o),
            decreases r@.len() - j,
        {
            proof {
                let sq = r@.take(j as int);
                let t = sq.push(r@[j as int]);
                assert(r@.take(j + 1) =~= t);
                if t.contains(o) {
                    let k = choose|k: int| 0 <= k < t.len() && t[k] == o;
                    if k < sq.len() {
                        assert(sq[k] == o);
                    }
                }
                if sq.contains(o) {
                    let k = choose|k: int| 0 <= k < sq.len() && sq[k] == o;
                    assert(t[k] == o);
                }
                if r@[j as int] == o {
                    assert(t[sq.len() as int] == o);
                }
            }
            if r[j] == o {
                seen = true;
            }
            j = j + 1;
        }
        proof {
            assert(r@.take(j as int) =~= r@);
        }
        if !seen {
            r.push(o);
        }
        i = i + 1;
    }
    proof {
        assert(cols@.take(i as int) =~= cols@);
    }
    r
}

impl SchemaAttribution {
    /// The width bands of a catalog, its columns and the owner bridge:
    /// every bridged owner, in increasing order, whose table is in the
    /// catalog, that has columns and that does not miss more than half of
    /// the columns its table declares, sets the band of its table.
    pub fn from_parts(cols: &[SysColumn], tables: &[SysTableEntry], bridge: &[(u32, String)]) -> (r: Self)
        ensures
            r.band_list() == schema_bands(cols@, bridge@, tables@),
    {
        let owners = stable_sort(owners_of(cols));
        let ghost os = owners@;
        let mut r = SchemaAttribution::empty();
        let mut k: usize = 0;
        while k < owners.len()
            invariant
                k <= owners@.len(),
                os == owners@,
                os == stable_sorted(distinct_owners(cols@)),
                r.band_list() == bands_of(os.take(k as int), cols@, bridge@, tables@),
            decreases owners@.len() - k,
        {
            let o = owners[k];
            proof {
                assert(os.take(k + 1).drop_last() =~= os.take(k as int));
                assert(os.take(k + 1).last() == o);
            }
            match find_bridge_name(bridge, o) {
                Some(nm) => match find_table_named(tables, nm) {
                    Some(t) => {
                        let (band, n) = owner_band(cols, o);
                        let too_few = match t.col_count {
                            Some(d) => d >= 2 && (n as u32) as u64 * 2 < d as u64,
                            None => false,
                        };
                        if n > 0 && !too_few {
                            r.set_band(nm.clone(), band);
                        }
                    },
                    None => {},
                },
                None => {},
            }
            k = k + 1;
        }
        proof {
            assert(os.take(k as int) =~= os);
        }
        r
    }

    /// Build the width bands from the store: every `SYSTABLE` row, every
    /// `SYSCOLUMN` row, and the `SYSOBJECT` bridge between them.
    pub fn build(store: &PageStore, model: &ApModel) -> (r: Self)
        ensures
            exists|cols: Seq<SysColumn>, tables: Seq<SysTableEntry>, bridge: Seq<(u32, String)>|
                #[trigger] bridge_found(*store, cols, tables, bridge) && columns_scanned_from(*store, cols)
                    && systable_scanned_from(*store, tables) && r.band_list() == schema_bands(cols, bridge, tables),
    {
        let entries = iter_systable_entries(store, model);
        let columns = iter_syscolumns(store, model);
        let bridge = bridge_owners_to_tables(store, model, columns.as_slice(), entries.as_slice());
        let r = Self::from_parts(columns.as_slice(), entries.as_slice(), bridge.as_slice());
        assert(bridge_found(*store, columns@, entries@, bridge@));
        r
    }

    /// The median row-body length of page `page_number` (see
    /// [`median_row_body`]).
    pub fn measure_page(&self, store: &PageStore, model: &ApModel, page_number: u64) -> (r: Option<u32>)
        ensures
            page_median(store_pages(*store), page_number, r),
    {
        median_row_body(store, model, page_number)
    }

    /// Whether page `page_number`, attributed to `table_name`, has a
    /// median row-body length inside the table's band; `None` when the
    /// page cannot be measured.
    pub fn validate(&self, store: &PageStore, model: &ApModel, page_number: u64, table_name: &str) -> (r: Option<bool>)
        ensures
            exists|m: Option<u32>|
                #[trigger] page_median(store_pages(*store), page_number, m) && match m {
                    Some(v) => r == Some(observed_in_band(self.band_list(), str_bytes(table_name), v)),
                    None => r is None,
                },
    {
        let m = median_row_body(store, model, page_number);
        match m {
            Some(v) => Some(self.validate_observed(table_name, v)),
            None => None,
        }
    }

    /// Validate every `(page_number, table_name)` pair: pages whose table
    /// has no band count as `no_band` (and are not measured); the others
    /// count as `unmeasured`, `pass` or `fail`.
    pub fn validate_corpus(&self, store: &PageStore, model: &ApModel, pages: Vec<(u64, String)>) -> (s: ValidationStats)
        ensures
            exists|ms: Seq<Option<u32>>|
                #[trigger] medians_of(store_pages(*store), self.band_list(), pages@, ms) && stats_of(s, validation_outcomes(self.band_list(), pages@, ms)),
    {
        let ghost bl = self.band_list();
        let mut s = ValidationStats { pass: 0, fail: 0, no_band: 0, unmeasured: 0 };
        let ghost mut ms: Seq<Option<u32>> = Seq::empty();
        let n = pages.len();
        let mut i: usize = 0;
        proof {
            reveal(Seq::filter);
        }
        while i < n
            invariant
                n == pages@.len(),
                i <= n,
                bl == self.band_list(),
                ms.len() == i,
                forall|k: int| 0 <= k < i ==> page_median_if_banded(store_pages(*store), bl, #[trigger] pages@[k], ms[k]),
                stats_of(s, validation_outcomes(bl, pages@.take(i as int), ms)),
                s.pass <= i && s.fail <= i && s.no_band <= i && s.unmeasured <= i,
            decreases n - i,
        {
            let pn = pages[i].0;
            let name = pages[i].1.as_str();
            let ghost old_oc = validation_outcomes(bl, pages@.take(i as int), ms);
            let banded = self.band(name).is_some();
            if !banded {
                proof {
                    ms = ms.push(None);
                }
                s.no_band = s.no_band + 1;
            } else {
                let m = median_row_body(store, model, pn);
                proof {
                    ms = ms.push(m);
                }
                match m {
                    None => {
                        s.unmeasured = s.unmeasured + 1;
                    },
                    Some(v) => {
                        if self.validate_observed(name, v) {
                            s.pass = s.pass + 1;
                        } else {
                            s.fail = s.fail + 1;
                        }
                    },
                }
            }
            proof {
                let oc = validation_outcomes(bl, pages@.take(i + 1), ms);
                assert(oc =~= old_oc.push(oc.last()));
                lemma_filter_push(old_oc, oc.last(), is_validation(0));
                lemma_filter_push(old_oc, oc.last(), is_validation(1));
                lemma_filter_push(old_oc, oc.last(), is_validation(2));
                lemma_filter_push(old_oc, oc.last(), is_validation(3));
            }
            i = i + 1;
        }
        proof {
            assert(pages@.take(n as int) =~= pages@);
            assert(medians_of(store_pages(*store), bl, pages@, ms));
        }
        s
    }
}

/// Whether `v` lies in the band of `nm` (false without a band).
pub open spec fn observed_in_band(list: Seq<(Seq<u8>, WidthBand)>, nm: Seq<u8>, v: u32) -> bool {
    match band_lookup(list, nm) {
        Some(w) => w.low <= v <= w.high,
        None => false,
    }
}

/// The row-body lengths of the rows.
pub open spec fn row_lengths(rows: Seq<Seq<u8>>) -> Seq<u32> {
    rows.map_values(|r: Seq<u8>| r.len() as u32)
}

/// The median row-body length of a decoded page: the middle one (index
/// `len / 2`) of its sorted row lengths; `None` without rows.
pub open spec fn median_of_page(plain: Seq<u8>) -> Option<u32> {
    let lens = stable_sorted(row_lengths(slotted_rows(plain.subrange(0, PAGE as int))));
    if lens.len() == 0 {
        None
    } else {
        Some(lens[lens.len() as int / 2])
    }
}

/// `m` is a median page `pn` can yield: none for a missing or non-extent
/// page; otherwise the median of a decoding of the page that follows the
/// anchor oracle.
pub open spec fn page_median(pages: Seq<Seq<u8>>, pn: u64, m: Option<u32>) -> bool {
    if pn >= pages.len() || !is_extent(pages[pn as int]) {
        m is None
    } else {
        exists|plain: Seq<u8>|
            decoding_of(pages[pn as int], pn, plain, spec_recover_bv_qb(pages[pn as int], pn)) && plain.len() == PAGE
                && m == median_of_page(plain)
    }
}

/// Decode page `page_number` and return the median length of its rows;
/// `None` when the page is missing, is not an extent page, or has no rows.
pub fn median_row_body(store: &PageStore, model: &ApModel, page_number: u64) -> (r: Option<u32>)
    ensures
        page_median(store_pages(*store), page_number, r),
{
    let raw = match page_bytes(store, page_number) {
        Some(r) => r,
        None => return None,
    };
    if !is_extent_page(page_number, raw) {
        return None;
    }
    let plain = decode_page(store, model, page_number, raw, BvOracle::Anchor);
    let rows = page_rows(page_number, plain.as_slice());
    let ghost srows = slotted_rows(plain@.subrange(0, PAGE as int));
    let mut lens: Vec<u32> = Vec::new();
    let mut i: usize = 0;
    while i < rows.len()
        invariant
            i <= rows@.len(),
            rows@.len() == srows.len(),
            forall|k: int| 0 <= k < rows@.len() ==> #[trigger] rows@[k]@ == srows[k],
            lens@ == row_lengths(srows.take(i as int)),
        decreases rows@.len() - i,
    {
        lens.push(rows[i].len() as u32);
        proof {
            assert(row_lengths(srows.take(i + 1)) =~= row_lengths(srows.take(i as int)).push(srows[i as int].len() as u32));
        }
        i = i + 1;
    }
    proof {
        assert(srows.take(i as int) =~= srows);
    }
    if lens.len() == 0 {
        return None;
    }
    let sorted = stable_sort(lens);
    let m = sorted[sorted.len() / 2];
    assert(Some(m) == median_of_page(plain@));
    Some(m)
}

/// `ms` are medians the pages can yield, for the pages whose table has a
/// band (`None` for the others).
pub open spec fn medians_of(
    store_pages: Seq<Seq<u8>>,
    bl: Seq<(Seq<u8>, WidthBand)>,
    pages: Seq<(u64, String)>,
    ms: Seq<Option<u32>>,
) -> bool {
    &&& ms.len() == pages.len()
    &&& forall|k: int| 0 <= k < pages.len() ==> page_median_if_banded(store_pages, bl, #[trigger] pages[k], ms[k])
}

/// For a page whose table has a band, `m` is a median the page can yield.
pub open spec fn page_median_if_banded(
    store_pages: Seq<Seq<u8>>,
    bl: Seq<(Seq<u8>, WidthBand)>,
    page: (u64, String),
    m: Option<u32>,
) -> bool {
    if band_lookup(bl, string_bytes(page.1)) is Some {
        page_median(store_pages, page.0, m)
    } else {
        m is None
    }
}

/// The outcome of validating one page: 0 pass, 1 fail, 2 no band,
/// 3 unmeasured.
pub open spec fn validation_outcome(bl: Seq<(Seq<u8>, WidthBand)>, page: (u64, String), m: Option<u32>) -> int {
    if band_lookup(bl, string_bytes(page.1)) is None {
        2
    } else {
        match m {
            None => 3,
            Some(v) => if observed_in_band(bl, string_bytes(page.1), v) {
                0
            } else {
                1
            },
        }
    }
}

/// The outcomes of the pages, given their medians.
pub open spec fn validation_outcomes(bl: Seq<(Seq<u8>, WidthBand)>, pages: Seq<(u64, String)>, ms: Seq<Option<u32>>) -> Seq<int> {
    Seq::new(pages.len(), |k: int| validation_outcome(bl, pages[k], ms[k]))
}

/// The predicate "equals `o`".
pub open spec fn is_validation(o: int) -> spec_fn(int) -> bool {
    |x: int| x == o
}

/// The counts of `s` are those of the outcomes.
pub open spec fn stats_of(s: ValidationStats, oc: Seq<int>) -> bool {
    &&& s.pass == oc.filter(is_validation(0)).len()
    &&& s.fail == oc.filter(is_validation(1)).len()
    &&& s.no_band == oc.filter(is_validation(2)).len()
    &&& s.unmeasured == oc.filter(is_validation(3)).len()
}

} // verus!
