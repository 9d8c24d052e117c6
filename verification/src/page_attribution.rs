//! Page-to-table attribution driven by the `SYSTABLE` catalog.
//!
//! Pages are attributed to tables by position:
//!
//! 1. keep every catalog row whose `data_root_page` is known and non-zero;
//! 2. order them by `data_root_page` (rows with equal roots keep their
//!    catalog order);
//! 3. a page `p` belongs to the last row whose root is `<= p`;
//! 4. unless that row has a meaningful `last_page` (one `>=` its root) and
//!    `p` lies past it, in which case `p` belongs to no table.

use vstd::prelude::*;
use crate::sorting::{backwards, into_stack, lemma_backwards_front};
use opensqlany::{ApModel, PageStore};
use crate::catalog::{bytes_lt, bytes_lt_exec, lemma_key_order};
use crate::systable::{collect_unique, collected_from, SysTableEntry};
use crate::text::string_bytes;

verus! {

/// Why a [`PageAttribution`] has no usable rows, when it has none.
#[derive(Debug, Clone, Copy, PartialEq, Eq, Structural)]
pub enum AttributionGap {
    /// The catalog scan found no `SYSTABLE` rows at all.
    NoCatalogRows,
    /// Rows were found, but none has a non-zero `data_root_page`.
    AllRootsZeroed,
}

/// The root page of a row, zero when unknown.
pub open spec fn root_of(e: SysTableEntry) -> u32 {
    match e.data_root_page {
        Some(p) => p,
        None => 0,
    }
}

/// Whether a row has a known, non-zero root page.
pub open spec fn has_root(e: SysTableEntry) -> bool {
    root_of(e) > 0
}

/// The rows of a catalog that have a root page, in catalog order.
pub open spec fn rooted(catalog: Seq<SysTableEntry>) -> Seq<SysTableEntry> {
    catalog.filter(|e: SysTableEntry| has_root(e))
}

/// Insert `e` into a root-ordered sequence behind every row whose root is
/// not above `e`'s.
pub open spec fn insert_by_root(sorted: Seq<SysTableEntry>, e: SysTableEntry) -> Seq<SysTableEntry>
    decreases sorted.len(),
{
    if sorted.len() == 0 {
        seq![e]
    } else if root_of(sorted.last()) <= root_of(e) {
        sorted.push(e)
    } else {
        insert_by_root(sorted.drop_last(), e).push(sorted.last())
    }
}

/// The rows ordered by root page; rows with equal roots keep their order.
pub open spec fn sort_by_root(s: Seq<SysTableEntry>) -> Seq<SysTableEntry>
    decreases s.len(),
{
    if s.len() == 0 {
        s
    } else {
        insert_by_root(sort_by_root(s.drop_last()), s.last())
    }
}

/// Whether the roots of `s` never decrease.
pub open spec fn root_sorted(s: Seq<SysTableEntry>) -> bool {
    forall|i: int, j: int| 0 <= i <= j < s.len() ==> root_of(#[trigger] s[i]) <= root_of(#[trigger] s[j])
}

/// The gap reported for a catalog.
pub open spec fn gap_of(catalog: Seq<SysTableEntry>) -> Option<AttributionGap> {
    if rooted(catalog).len() > 0 {
        None
    } else if catalog.len() == 0 {
        Some(AttributionGap::NoCatalogRows)
    } else {
        Some(AttributionGap::AllRootsZeroed)
    }
}

/// The first index `>= i` whose root lies above `key`, or the length.
pub open spec fn first_above(s: Seq<SysTableEntry>, key: int, i: int) -> int
    decreases s.len() - i,
{
    if i < 0 || i >= s.len() {
        if i < 0 {
            0
        } else {
            i
        }
    } else if root_of(s[i]) > key {
        i
    } else {
        first_above(s, key, i + 1)
    }
}

/// Whether a row's `last_page` bounds its window and `key` lies past it.
pub open spec fn past_window(e: SysTableEntry, key: int) -> bool {
    match (e.last_page, e.data_root_page) {
        (Some(last), Some(root)) => last >= root && key > last,
        _ => false,
    }
}

/// The row a page is attributed to, given root-ordered rows.
pub open spec fn attributed_row(s: Seq<SysTableEntry>, page: u64) -> Option<SysTableEntry> {
    let key = page as int;
    let idx = first_above(s, key, 0);
    if s.len() == 0 || idx == 0 {
        None
    } else if past_window(s[idx - 1], key) {
        None
    } else {
        Some(s[idx - 1])
    }
}

/// The bucket name of a page: the attributed table's name, or empty.
pub open spec fn bucket_of(s: Seq<SysTableEntry>, page: u64) -> Seq<u8> {
    match attributed_row(s, page) {
        Some(e) => string_bytes(e.name),
        None => Seq::empty(),
    }
}

/// Resolves page numbers to the `SYSTABLE` row that most likely owns them.
#[derive(Debug)]
pub struct PageAttribution {
    by_root: Vec<SysTableEntry>,
    gap: Option<AttributionGap>,
}

impl PageAttribution {
    /// The rows used for attribution, in root order.
    pub closed spec fn rows(&self) -> Seq<SysTableEntry> {
        self.by_root@
    }

    /// The gap recorded at construction.
    pub closed spec fn gap_spec(&self) -> Option<AttributionGap> {
        self.gap
    }

    #[verifier::type_invariant]
    spec fn rows_ordered(&self) -> bool {
        &&& root_sorted(self.by_root@)
        &&& forall|i: int| 0 <= i < self.by_root@.len() ==> has_root(#[trigger] self.by_root@[i])
    }

    /// Build the attribution from a catalog: the rows with a root page,
    /// ordered by root page (equal roots keep their catalog order), and
    /// the gap when no row qualifies.
    pub fn from_catalog(catalog: Vec<SysTableEntry>) -> (r: Self)
        ensures
            r.rows() == sort_by_root(rooted(catalog@)),
            r.gap_spec() == gap_of(catalog@),
    {
        let ghost input = catalog@;
        let total = catalog.len();
        let mut rest = into_stack(catalog);
        let mut by_root: Vec<SysTableEntry> = Vec::new();
        let mut k: usize = 0;
        while rest.len() > 0
            invariant
                total == input.len(),
                k <= total,
                rest@ == backwards(input.subrange(k as int, total as int)),
                by_root@ == sort_by_root(rooted(input.take(k as int))),
                root_sorted(by_root@),
                forall|i: int| 0 <= i < by_root@.len() ==> has_root(#[trigger] by_root@[i]),
            decreases rest@.len(),
        {
            proof {
                lemma_backwards_front(input.subrange(k as int, total as int));
            }
            let e = rest.pop().unwrap();
            proof {
                assert(e == input[k as int]);
                assert(input.take(k + 1) =~= input.take(k as int).push(e));
                lemma_rooted_push(input.take(k as int), e);
            }
            let keep = match e.data_root_page {
                Some(p) => p > 0,
                None => false,
            };
            if keep {
                let p = insertion_point(&by_root, root_u32(&e));
                let ghost before = by_root@;
                proof {
                    lemma_insert_by_root_at(before, e, p as int);
                }
                by_root.insert(p, e);
                proof {
                    assert forall|i: int, j: int| 0 <= i <= j < by_root@.len() implies root_of(#[trigger] by_root@[i])
                        <= root_of(#[trigger] by_root@[j]) by {
                        if i < p && j > p {
                            assert(root_of(before[i]) <= root_of(before[p - 1]));
                        } else if i < p && j == p {
                            assert(root_of(before[i]) <= root_of(before[p - 1]));
                        }
                    }
                    assert(rooted(input.take(k + 1)) == rooted(input.take(k as int)).push(e));
                    assert(rooted(input.take(k as int)).push(e).drop_last() =~= rooted(input.take(k as int)));
                    assert(by_root@ == sort_by_root(rooted(input.take(k + 1))));
                }
            } else {
                proof {
                    assert(rooted(input.take(k + 1)) == rooted(input.take(k as int)));
                    assert(by_root@ == sort_by_root(rooted(input.take(k + 1))));
                }
            }
            k = k + 1;
            assert(input.subrange(k as int - 1, total as int).drop_first() =~= input.subrange(k as int, total as int));
        }
        assert(input.take(total as int) =~= input);
        let gap = if by_root.len() > 0 {
            None
        } else if total == 0 {
            Some(AttributionGap::NoCatalogRows)
        } else {
            Some(AttributionGap::AllRootsZeroed)
        };
        proof {
            lemma_sort_by_root_sorted(rooted(input));
        }
        PageAttribution { by_root, gap }
    }

    /// Why attribution is unavailable, if it is.
    pub fn gap(&self) -> (r: Option<AttributionGap>)
        ensures
            r == self.gap_spec(),
    {
        self.gap
    }

    /// Read the catalog from the store and build the attribution.
    pub fn build(store: &PageStore, model: &ApModel) -> (r: Self)
        ensures
            exists|catalog: Seq<SysTableEntry>|
                #[trigger] collected_from(*store, catalog) && r.rows() == sort_by_root(rooted(catalog))
                    && r.gap_spec() == gap_of(catalog),
    {
        let catalog = collect_unique(store, model);
        let ghost c = catalog@;
        let r = Self::from_catalog(catalog);
        assert(collected_from(*store, c));
        r
    }

    /// The row that most likely owns `page_number`: the last row whose
    /// root is at most the page number, unless the page lies past that
    /// row's meaningful `last_page`.
    pub fn attribute(&self, page_number: u64) -> (r: Option<&SysTableEntry>)
        ensures
            match attributed_row(self.rows(), page_number) {
                Some(e) => r == Some(&e),
                None => r is None,
            },
    {
        proof {
            use_type_invariant(self);
        }
        if self.by_root.len() == 0 {
            return None;
        }
        let idx = if page_number > 0xFFFF_FFFFu64 {
            proof {
                lemma_first_above(self.by_root@, page_number as int, 0, self.by_root@.len() as int);
            }
            self.by_root.len()
        } else {
            partition_point(&self.by_root, page_number as u32)
        };
        proof {
            lemma_first_above_props(self.by_root@, page_number as int, 0);
        }
        if idx == 0 {
            return None;
        }
        let entry = &self.by_root[idx - 1];
        let out_of_window = match (entry.last_page, entry.data_root_page) {
            (Some(last), Some(root)) => last >= root && page_number > last as u64,
            _ => false,
        };
        if out_of_window {
            return None;
        }
        Some(entry)
    }

    /// Number of rows that take part in attribution.
    pub fn len(&self) -> (n: usize)
        ensures
            n == self.rows().len(),
    {
        self.by_root.len()
    }

    /// Whether no row takes part in attribution.
    pub fn is_empty(&self) -> (b: bool)
        ensures
            b == (self.rows().len() == 0),
    {
        self.by_root.len() == 0
    }

    /// The rows that take part in attribution, in root order.
    pub fn entries(&self) -> (r: &[SysTableEntry])
        ensures
            r@ == self.rows(),
    {
        self.by_root.as_slice()
    }

    /// Group pages by the name of the table they are attributed to; pages
    /// attributed to no table go under the empty name. Groups are ordered
    /// by name and each keeps its pages in input order.
    pub fn group_pages(&self, pages: Vec<u64>) -> (groups: Vec<(String, Vec<u64>)>)
        ensures
            grouped(self.rows(), pages@, groups@),
    {
        let ghost s = self.rows();
        let mut groups: Vec<(String, Vec<u64>)> = Vec::new();
        let n = pages.len();
        let mut k: usize = 0;
        proof {
            assert(pages@.take(0) =~= Seq::<u64>::empty());
        }
        while k < n
            invariant
                n == pages@.len(),
                k <= n,
                s == self.rows(),
                grouped(s, pages@.take(k as int), groups@),
            decreases n - k,
        {
            let pn = pages[k];
            let name = match self.attribute(pn) {
                Some(e) => e.name.clone(),
                None => String::new(),
            };
            proof {
                assert(string_bytes(name) == bucket_of(s, pn));
            }
            let nb = name.as_str().as_bytes();
            let mut p: usize = 0;
            while p < groups.len() && bytes_lt_exec(groups[p].0.as_str().as_bytes(), nb)
                invariant
                    p <= groups@.len(),
                    nb@ == bucket_of(s, pn),
                    forall|m: int| 0 <= m < p ==> bytes_lt(string_bytes(#[trigger] groups@[m].0), nb@),
                decreases groups@.len() - p,
            {
                p = p + 1;
            }
            let found = p < groups.len() && !bytes_lt_exec(nb, groups[p].0.as_str().as_bytes());
            let ghost before = groups@;
            let ghost pre = pages@.take(k as int);
            proof {
                assert(pages@.take(k + 1) =~= pre.push(pn));
            }
            if found {
                proof {
                    lemma_key_order((0u32, 0u32, nb@), (0u32, 0u32, string_bytes(before[p as int].0)), (0u32, 0u32, nb@));
                }
                let (gname, mut gpages) = groups.remove(p);
                gpages.push(pn);
                proof {
                    lemma_grouped_extend(s, pre, pn, before, p as int, gpages);
                }
                groups.insert(p, (gname, gpages));
                proof {
                    assert(groups@ =~= before.update(p as int, (before[p as int].0, gpages)));
                }
            } else {
                let mut fresh: Vec<u64> = Vec::new();
                fresh.push(pn);
                proof {
                    lemma_grouped_new(s, pre, pn, before, p as int, name, fresh);
                }
                groups.insert(p, (name, fresh));
            }
            k = k + 1;
        }
        proof {
            assert(pages@.take(n as int) =~= pages@);
        }
        groups
    }
}

/// The pages of `pages` whose bucket is `name`, in order.
pub open spec fn pages_in(s: Seq<SysTableEntry>, pages: Seq<u64>, name: Seq<u8>) -> Seq<u64> {
    pages.filter(|q: u64| bucket_of(s, q) == name)
}

/// `groups` groups `pages` by bucket: one group per bucket that occurs,
/// ordered by name, each holding its pages in order.
pub open spec fn grouped(s: Seq<SysTableEntry>, pages: Seq<u64>, groups: Seq<(String, Vec<u64>)>) -> bool {
    &&& forall|i: int, j: int|
        0 <= i < j < groups.len() ==> bytes_lt(string_bytes(#[trigger] groups[i].0), string_bytes(#[trigger] groups[j].0))
    &&& forall|g: int| 0 <= g < groups.len() ==> #[trigger] groups[g].1@ == pages_in(s, pages, string_bytes(groups[g].0))
    &&& forall|g: int| 0 <= g < groups.len() ==> pages_in(s, pages, string_bytes(#[trigger] groups[g].0)).len() > 0
    &&& forall|i: int| 0 <= i < pages.len() ==> #[trigger] has_group(groups, bucket_of(s, pages[i]))
}

/// How many times `q` occurs in `pages`.
pub open spec fn occurrences(pages: Seq<u64>, q: u64) -> nat
    decreases pages.len(),
{
    if pages.len() == 0 {
        0
    } else {
        occurrences(pages.drop_last(), q) + if pages.last() == q {
            1nat
        } else {
            0nat
        }
    }
}

/// How many times `q` occurs across all groups.
pub open spec fn occurrences_in_groups(groups: Seq<(String, Vec<u64>)>, q: u64) -> nat
    decreases groups.len(),
{
    if groups.len() == 0 {
        0
    } else {
        occurrences_in_groups(groups.drop_last(), q) + occurrences(groups.last().1@, q)
    }
}

proof fn lemma_occurrences_filter(pages: Seq<u64>, pred: spec_fn(u64) -> bool, q: u64)
    ensures
        occurrences(pages.filter(pred), q) == if pred(q) {
            occurrences(pages, q)
        } else {
            0
        },
    decreases pages.len(),
{
    if pages.len() > 0 {
        let d = pages.drop_last();
        lemma_occurrences_filter(d, pred, q);
        assert(d.push(pages.last()) =~= pages);
        crate::codec::lemma_filter_push(d, pages.last(), pred);
        if pred(pages.last()) {
            assert(d.filter(pred).push(pages.last()).drop_last() =~= d.filter(pred));
        }
    }
}

proof fn lemma_occurs_somewhere(pages: Seq<u64>, q: u64)
    requires
        occurrences(pages, q) > 0,
    ensures
        exists|i: int| 0 <= i < pages.len() && pages[i] == q,
    decreases pages.len(),
{
    if pages.last() != q {
        lemma_occurs_somewhere(pages.drop_last(), q);
        let i = choose|i: int| 0 <= i < pages.drop_last().len() && pages.drop_last()[i] == q;
        assert(pages[i] == q);
    } else {
        assert(pages[pages.len() - 1] == q);
    }
}

proof fn lemma_groups_occurrences(
    s: Seq<SysTableEntry>,
    pages: Seq<u64>,
    groups: Seq<(String, Vec<u64>)>,
    q: u64,
)
    requires
        forall|i: int, j: int|
            0 <= i < j < groups.len() ==> string_bytes(#[trigger] groups[i].0) != string_bytes(#[trigger] groups[j].0),
        forall|g: int| 0 <= g < groups.len() ==> #[trigger] groups[g].1@ == pages_in(s, pages, string_bytes(groups[g].0)),
    ensures
        occurrences_in_groups(groups, q) == if has_group(groups, bucket_of(s, q)) {
            occurrences(pages, q)
        } else {
            0
        },
    decreases groups.len(),
{
    if groups.len() > 0 {
        let d = groups.drop_last();
        let last = groups.last();
        let b = bucket_of(s, q);
        assert forall|i: int, j: int| 0 <= i < j < d.len() implies string_bytes(#[trigger] d[i].0) != string_bytes(
            #[trigger] d[j].0,
        ) by {
            assert(d[i] == groups[i] && d[j] == groups[j]);
        }
        assert forall|g: int| 0 <= g < d.len() implies #[trigger] d[g].1@ == pages_in(s, pages, string_bytes(d[g].0)) by {
            assert(d[g] == groups[g]);
        }
        lemma_groups_occurrences(s, pages, d, q);
        assert(last.1@ == pages_in(s, pages, string_bytes(last.0)));
        lemma_occurrences_filter(pages, |p: u64| bucket_of(s, p) == string_bytes(last.0), q);
        if has_group(groups, b) {
            let g = choose|g: int| 0 <= g < groups.len() && string_bytes(#[trigger] groups[g].0) == b;
            if g < d.len() {
                assert(d[g] == groups[g]);
                assert(has_group(d, b));
                assert(string_bytes(last.0) != b) by {
                    assert(string_bytes(groups[g].0) != string_bytes(groups[groups.len() - 1].0));
                }
            }
        }
        if has_group(d, b) {
            let g = choose|g: int| 0 <= g < d.len() && string_bytes(#[trigger] d[g].0) == b;
            assert(groups[g] == d[g]);
            assert(string_bytes(last.0) != b) by {
                assert(string_bytes(groups[g].0) != string_bytes(groups[groups.len() - 1].0));
            }
        }
        if string_bytes(last.0) == b {
            assert(string_bytes(groups[groups.len() - 1].0) == b);
        }
    }
}

/// The groups of [`PageAttribution::group_pages`] rearrange the input
/// pages: every page number occurs across the groups exactly as often as
/// it occurs in the input.
pub proof fn lemma_groups_permute_pages(s: Seq<SysTableEntry>, pages: Seq<u64>, groups: Seq<(String, Vec<u64>)>, q: u64)
    requires
        grouped(s, pages, groups),
    ensures
        occurrences_in_groups(groups, q) == occurrences(pages, q),
{
    assert forall|i: int, j: int| 0 <= i < j < groups.len() implies string_bytes(#[trigger] groups[i].0)
        != string_bytes(#[trigger] groups[j].0) by {
        if string_bytes(groups[i].0) == string_bytes(groups[j].0) {
            crate::catalog::lemma_bytes_lt_irreflexive(string_bytes(groups[i].0));
        }
    }
    lemma_groups_occurrences(s, pages, groups, q);
    if occurrences(pages, q) > 0 {
        lemma_occurs_somewhere(pages, q);
        let i = choose|i: int| 0 <= i < pages.len() && pages[i] == q;
        assert(has_group(groups, bucket_of(s, pages[i])));
    }
}

/// Whether some group is named `name`.
pub open spec fn has_group(groups: Seq<(String, Vec<u64>)>, name: Seq<u8>) -> bool {
    exists|g: int| 0 <= g < groups.len() && string_bytes(#[trigger] groups[g].0) == name
}

/// The position behind the last row whose root is not above `r`,
/// searching from the end.
fn insertion_point(rows: &Vec<SysTableEntry>, r: u32) -> (p: usize)
    ensures
        p <= rows@.len(),
        forall|i: int| p <= i < rows@.len() ==> root_of(#[trigger] rows@[i]) > r,
        p > 0 ==> root_of(rows@[p - 1]) <= r,
{
    let mut p = rows.len();
    while p > 0 && root_u32(&rows[p - 1]) > r
        invariant
            p <= rows@.len(),
            forall|i: int| p <= i < rows@.len() ==> root_of(#[trigger] rows@[i]) > r,
        decreases p,
    {
        p = p - 1;
    }
    p
}

fn root_u32(e: &SysTableEntry) -> (r: u32)
    ensures
        r == root_of(*e),
{
    match e.data_root_page {
        Some(p) => p,
        None => 0,
    }
}

/// The first index whose root lies above `key`, by binary search over
/// root-ordered rows.
fn partition_point(rows: &Vec<SysTableEntry>, key: u32) -> (idx: usize)
    requires
        root_sorted(rows@),
    ensures
        idx == first_above(rows@, key as int, 0),
{
    let mut lo: usize = 0;
    let mut hi: usize = rows.len();
    while lo < hi
        invariant
            lo <= hi <= rows@.len(),
            root_sorted(rows@),
            forall|i: int| 0 <= i < lo ==> root_of(#[trigger] rows@[i]) <= key,
            forall|i: int| hi <= i < rows@.len() ==> root_of(#[trigger] rows@[i]) > key,
        decreases hi - lo,
    {
        let mid = lo + (hi - lo) / 2;
        if root_u32(&rows[mid]) <= key {
            proof {
                assert forall|i: int| 0 <= i <= mid implies root_of(#[trigger] rows@[i]) <= key by {
                    assert(root_of(rows@[i]) <= root_of(rows@[mid as int]));
                }
            }
            lo = mid + 1;
        } else {
            proof {
                assert forall|i: int| mid <= i < rows@.len() implies root_of(#[trigger] rows@[i]) > key by {
                    assert(root_of(rows@[mid as int]) <= root_of(rows@[i]));
                }
            }
            hi = mid;
        }
    }
    proof {
        lemma_first_above(rows@, key as int, 0, lo as int);
    }
    lo
}

proof fn lemma_first_above(s: Seq<SysTableEntry>, key: int, i: int, p: int)
    requires
        0 <= i <= p <= s.len(),
        forall|j: int| 0 <= j < p ==> root_of(#[trigger] s[j]) <= key,
        forall|j: int| p <= j < s.len() ==> root_of(#[trigger] s[j]) > key,
    ensures
        first_above(s, key, i) == p,
    decreases s.len() - i,
{
    if i < s.len() && i < p {
        lemma_first_above(s, key, i + 1, p);
    }
}

proof fn lemma_insert_by_root_at(s: Seq<SysTableEntry>, e: SysTableEntry, p: int)
    requires
        0 <= p <= s.len(),
        forall|i: int| p <= i < s.len() ==> root_of(#[trigger] s[i]) > root_of(e),
        p > 0 ==> root_of(s[p - 1]) <= root_of(e),
    ensures
        insert_by_root(s, e) == s.insert(p, e),
    decreases s.len(),
{
    if s.len() == 0 {
        assert(s.insert(p, e) =~= seq![e]);
    } else if p == s.len() {
        assert(s.insert(p, e) =~= s.push(e));
    } else {
        assert(root_of(s.last()) > root_of(e));
        lemma_insert_by_root_at(s.drop_last(), e, p);
        assert(s.drop_last().insert(p, e).push(s.last()) =~= s.insert(p, e));
    }
}

proof fn lemma_filter_push(pages: Seq<u64>, pn: u64, pred: spec_fn(u64) -> bool)
    ensures
        pages.push(pn).filter(pred) == if pred(pn) {
            pages.filter(pred).push(pn)
        } else {
            pages.filter(pred)
        },
{
    reveal(Seq::filter);
    assert(pages.push(pn).drop_last() =~= pages);
}

proof fn lemma_rooted_push(x: Seq<SysTableEntry>, e: SysTableEntry)
    ensures
        rooted(x.push(e)) == if has_root(e) {
            rooted(x).push(e)
        } else {
            rooted(x)
        },
{
    reveal(Seq::filter);
    assert(x.push(e).drop_last() =~= x);
}

proof fn lemma_bytes_lt_distinct(a: Seq<u8>, b: Seq<u8>)
    requires
        bytes_lt(a, b) || bytes_lt(b, a),
    ensures
        a != b,
{
    lemma_key_order((0u32, 0u32, a), (0u32, 0u32, a), (0u32, 0u32, a));
}

proof fn lemma_filter_none(pages: Seq<u64>, pred: spec_fn(u64) -> bool)
    requires
        forall|i: int| 0 <= i < pages.len() ==> !pred(#[trigger] pages[i]),
    ensures
        pages.filter(pred) =~= Seq::<u64>::empty(),
    decreases pages.len(),
{
    reveal(Seq::filter);
    if pages.len() > 0 {
        lemma_filter_none(pages.drop_last(), pred);
        assert(!pred(pages[pages.len() - 1]));
    }
}

proof fn lemma_grouped_extend(
    s: Seq<SysTableEntry>,
    pre: Seq<u64>,
    pn: u64,
    groups: Seq<(String, Vec<u64>)>,
    p: int,
    v: Vec<u64>,
)
    requires
        grouped(s, pre, groups),
        0 <= p < groups.len(),
        string_bytes(groups[p].0) == bucket_of(s, pn),
        v@ == groups[p].1@.push(pn),
    ensures
        grouped(s, pre.push(pn), groups.update(p, (groups[p].0, v))),
{
    let out = groups.update(p, (groups[p].0, v));
    assert forall|i: int, j: int| 0 <= i < j < out.len() implies bytes_lt(string_bytes(#[trigger] out[i].0), string_bytes(#[trigger] out[j].0)) by {
        assert(out[i].0 == groups[i].0 && out[j].0 == groups[j].0);
        assert(bytes_lt(string_bytes(groups[i].0), string_bytes(groups[j].0)));
    }
    assert forall|g: int| 0 <= g < out.len() implies #[trigger] out[g].1@ == pages_in(s, pre.push(pn), string_bytes(out[g].0)) by {
        let nm = string_bytes(out[g].0);
        lemma_filter_push(pre, pn, |q: u64| bucket_of(s, q) == nm);
        if g != p {
            if g < p {
                assert(bytes_lt(string_bytes(groups[g].0), string_bytes(groups[p].0)));
            } else {
                assert(bytes_lt(string_bytes(groups[p].0), string_bytes(groups[g].0)));
            }
            lemma_bytes_lt_distinct(nm, bucket_of(s, pn));
            assert(out[g] == groups[g]);
        }
    }
    assert forall|g: int| 0 <= g < out.len() implies pages_in(s, pre.push(pn), string_bytes(#[trigger] out[g].0)).len() > 0 by {
        let nm = string_bytes(out[g].0);
        lemma_filter_push(pre, pn, |q: u64| bucket_of(s, q) == nm);
        assert(out[g].0 == groups[g].0);
        assert(pages_in(s, pre, string_bytes(groups[g].0)).len() > 0);
    }
    assert forall|i: int| 0 <= i < pre.push(pn).len() implies #[trigger] has_group(out, bucket_of(s, pre.push(pn)[i])) by {
        if i == pre.len() {
            assert(string_bytes(out[p].0) == bucket_of(s, pre.push(pn)[i]));
        } else {
            assert(pre.push(pn)[i] == pre[i]);
            assert(has_group(groups, bucket_of(s, pre[i])));
            let g0 = choose|g: int| 0 <= g < groups.len() && string_bytes(#[trigger] groups[g].0) == bucket_of(s, pre[i]);
            assert(string_bytes(out[g0].0) == bucket_of(s, pre.push(pn)[i]));
        }
    }
}

proof fn lemma_grouped_new(
    s: Seq<SysTableEntry>,
    pre: Seq<u64>,
    pn: u64,
    groups: Seq<(String, Vec<u64>)>,
    p: int,
    name: String,
    fresh: Vec<u64>,
)
    requires
        grouped(s, pre, groups),
        0 <= p <= groups.len(),
        string_bytes(name) == bucket_of(s, pn),
        fresh@ == seq![pn],
        forall|m: int| 0 <= m < p ==> bytes_lt(string_bytes(#[trigger] groups[m].0), string_bytes(name)),
        p < groups.len() ==> bytes_lt(string_bytes(name), string_bytes(groups[p].0)),
    ensures
        grouped(s, pre.push(pn), groups.insert(p, (name, fresh))),
{
    let nb = string_bytes(name);
    let out = groups.insert(p, (name, fresh));
    // No group holds the new bucket, so no earlier page falls in it.
    assert forall|g: int| 0 <= g < groups.len() implies string_bytes(#[trigger] groups[g].0) != nb by {
        if g < p {
            lemma_key_order((0u32, 0u32, string_bytes(groups[g].0)), (0u32, 0u32, nb), (0u32, 0u32, nb));
        } else {
            if g > p {
                assert(bytes_lt(string_bytes(groups[p].0), string_bytes(groups[g].0)));
                lemma_key_order((0u32, 0u32, nb), (0u32, 0u32, string_bytes(groups[p].0)), (0u32, 0u32, string_bytes(groups[g].0)));
            }
            lemma_key_order((0u32, 0u32, nb), (0u32, 0u32, string_bytes(groups[g].0)), (0u32, 0u32, nb));
        }
    }
    assert forall|i: int| 0 <= i < pre.len() implies bucket_of(s, #[trigger] pre[i]) != nb by {
        assert(has_group(groups, bucket_of(s, pre[i])));
        let g0 = choose|g: int| 0 <= g < groups.len() && string_bytes(#[trigger] groups[g].0) == bucket_of(s, pre[i]);
    }
    lemma_filter_none(pre, |q: u64| bucket_of(s, q) == nb);
    assert forall|i: int, j: int| 0 <= i < j < out.len() implies bytes_lt(string_bytes(#[trigger] out[i].0), string_bytes(#[trigger] out[j].0)) by {
        if i < p && j == p {
        } else if i == p && j > p {
            assert(out[j] == groups[j - 1]);
            if j - 1 > p {
                assert(bytes_lt(string_bytes(groups[p].0), string_bytes(groups[j - 1].0)));
                lemma_key_order((0u32, 0u32, nb), (0u32, 0u32, string_bytes(groups[p].0)), (0u32, 0u32, string_bytes(groups[j - 1].0)));
            }
        } else if i < p && j > p {
            assert(bytes_lt(string_bytes(groups[i].0), string_bytes(groups[j - 1].0)));
        } else if i > p {
            assert(bytes_lt(string_bytes(groups[i - 1].0), string_bytes(groups[j - 1].0)));
        } else {
            assert(bytes_lt(string_bytes(groups[i].0), string_bytes(groups[j].0)));
        }
    }
    assert forall|g: int| 0 <= g < out.len() implies #[trigger] out[g].1@ == pages_in(s, pre.push(pn), string_bytes(out[g].0)) by {
        let nm = string_bytes(out[g].0);
        lemma_filter_push(pre, pn, |q: u64| bucket_of(s, q) == nm);
        if g == p {
            assert(pages_in(s, pre, nb).push(pn) =~= seq![pn]);
        } else {
            let gb = if g < p { g } else { g - 1 };
            assert(out[g] == groups[gb]);
        }
    }
    assert forall|g: int| 0 <= g < out.len() implies pages_in(s, pre.push(pn), string_bytes(#[trigger] out[g].0)).len() > 0 by {
        let nm = string_bytes(out[g].0);
        lemma_filter_push(pre, pn, |q: u64| bucket_of(s, q) == nm);
        if g != p {
            let gb = if g < p { g } else { g - 1 };
            assert(out[g] == groups[gb]);
            assert(pages_in(s, pre, string_bytes(groups[gb].0)).len() > 0);
        }
    }
    assert forall|i: int| 0 <= i < pre.push(pn).len() implies #[trigger] has_group(out, bucket_of(s, pre.push(pn)[i])) by {
        if i == pre.len() {
            assert(string_bytes(out[p].0) == bucket_of(s, pre.push(pn)[i]));
        } else {
            assert(pre.push(pn)[i] == pre[i]);
            assert(has_group(groups, bucket_of(s, pre[i])));
            let g0 = choose|g: int| 0 <= g < groups.len() && string_bytes(#[trigger] groups[g].0) == bucket_of(s, pre[i]);
            if g0 < p {
                assert(string_bytes(out[g0].0) == bucket_of(s, pre.push(pn)[i]));
            } else {
                assert(string_bytes(out[g0 + 1].0) == bucket_of(s, pre.push(pn)[i]));
            }
        }
    }
}

/// The largest root among `s` and `e`, for root-ordered `s`.
pub open spec fn top_root(s: Seq<SysTableEntry>, e: SysTableEntry) -> u32 {
    if s.len() > 0 && root_of(s.last()) > root_of(e) {
        root_of(s.last())
    } else {
        root_of(e)
    }
}

proof fn lemma_insert_by_root_sorted(s: Seq<SysTableEntry>, e: SysTableEntry)
    requires
        root_sorted(s),
    ensures
        root_sorted(insert_by_root(s, e)),
        insert_by_root(s, e).len() == s.len() + 1,
        forall|i: int| 0 <= i < s.len() + 1 ==> root_of(#[trigger] insert_by_root(s, e)[i]) <= top_root(s, e),
    decreases s.len(),
{
    if s.len() > 0 {
        if root_of(s.last()) <= root_of(e) {
            assert forall|i: int| 0 <= i < s.len() implies root_of(#[trigger] s[i]) <= root_of(e) by {
                assert(root_of(s[i]) <= root_of(s[s.len() - 1]));
            }
        } else {
            let d = s.drop_last();
            assert(root_sorted(d));
            lemma_insert_by_root_sorted(d, e);
            let r = insert_by_root(d, e);
            if d.len() > 0 {
                assert(root_of(d.last()) <= root_of(s.last()));
            }
            assert forall|i: int, j: int| 0 <= i <= j < r.push(s.last()).len() implies root_of(#[trigger] r.push(s.last())[i])
                <= root_of(#[trigger] r.push(s.last())[j]) by {
                if j == r.len() {
                    assert(root_of(r[i]) <= top_root(d, e) || i == r.len());
                }
            }
            assert forall|i: int| 0 <= i < s.len() + 1 implies root_of(#[trigger] insert_by_root(s, e)[i]) <= top_root(s, e) by {
                if i < r.len() {
                    assert(root_of(r[i]) <= top_root(d, e));
                }
            }
        }
    }
}

/// Rows ordered by [`sort_by_root`] have non-decreasing roots.
pub proof fn lemma_sort_by_root_sorted(s: Seq<SysTableEntry>)
    ensures
        root_sorted(sort_by_root(s)),
        sort_by_root(s).len() == s.len(),
    decreases s.len(),
{
    if s.len() > 0 {
        lemma_sort_by_root_sorted(s.drop_last());
        lemma_insert_by_root_sorted(sort_by_root(s.drop_last()), s.last());
    }
}

/// The row a page is attributed to has the nearest root at or below the
/// page: its root is at most the page number, and every later row in root
/// order has its root above the page.
pub proof fn lemma_attribution_nearest_lower_root(catalog: Seq<SysTableEntry>, page: u64)
    ensures
        ({
            let s = sort_by_root(rooted(catalog));
            attributed_row(s, page) matches Some(e) ==> root_of(e) <= page && exists|i: int|
                0 <= i < s.len() && s[i] == e && forall|j: int|
                    i < j < s.len() ==> root_of(#[trigger] s[j]) > page
        }),
{
    let s = sort_by_root(rooted(catalog));
    lemma_sort_by_root_sorted(rooted(catalog));
    let key = page as int;
    lemma_first_above_props(s, key, 0);
    let idx = first_above(s, key, 0);
    if s.len() > 0 && idx > 0 && !past_window(s[idx - 1], key) {
        assert(0 <= idx - 1 < s.len() && s[idx - 1] == s[idx - 1]);
    }
}

proof fn lemma_first_above_props(s: Seq<SysTableEntry>, key: int, i: int)
    requires
        0 <= i <= s.len(),
        root_sorted(s),
        forall|j: int| 0 <= j < i ==> root_of(#[trigger] s[j]) <= key,
    ensures
        i <= first_above(s, key, i) <= s.len(),
        forall|j: int| 0 <= j < first_above(s, key, i) ==> root_of(#[trigger] s[j]) <= key,
        forall|j: int| first_above(s, key, i) <= j < s.len() ==> root_of(#[trigger] s[j]) > key,
    decreases s.len() - i,
{
    if i < s.len() {
        if root_of(s[i]) > key {
            assert forall|j: int| i <= j < s.len() implies root_of(#[trigger] s[j]) > key by {
                assert(root_of(s[i]) <= root_of(s[j]));
            }
        } else {
            lemma_first_above_props(s, key, i + 1);
        }
    }
}

} // verus!
