//! The page-store layer, provided by the `opensqlany` crate.
//!
//! A page store is a sequence of 4096-byte pages. The items below give
//! `opensqlany`'s page store, its learned cipher model and its slotted-page
//! parser the contracts that the scanners of this crate are verified
//! against. Everything here is taken on trust from `opensqlany`'s source.

use vstd::prelude::*;
use opensqlany::{ApModel, Page, PageStore, PageType, SlottedPage};
use crate::bv_recovery::{spec_deobfuscate, PAGE, TRAILER_START};

verus! {

/// `opensqlany::PageStore`: a whole company file held in memory.
#[verifier::external_type_specification]
#[verifier::external_body]
pub struct ExPageStore(PageStore);

/// `opensqlany::ApModel`: the cipher model learned from a page store.
#[verifier::external_type_specification]
#[verifier::external_body]
pub struct ExApModel(ApModel);

/// The pages a store holds, in page-number order.
pub uninterp spec fn store_pages(store: PageStore) -> Seq<Seq<u8>>;

/// The rows that `opensqlany`'s slotted-page parser finds on a
/// plaintext page, in slot order.
pub uninterp spec fn slotted_rows(page: Seq<u8>) -> Seq<Seq<u8>>;

/// Offset of the page-type byte inside the page trailer.
pub const PAGE_TYPE_OFFSET: usize = 0xFF2;

/// Whether a trailer page-type byte denotes an extent (`E`) page; the
/// classification ignores ASCII case.
pub open spec fn extent_type_byte(b: u8) -> bool {
    b == 0x45 || b == 0x65
}

/// Whether a raw page is an extent (`E`) page.
pub open spec fn is_extent(page: Seq<u8>) -> bool {
    extent_type_byte(page[PAGE_TYPE_OFFSET as int])
}

/// `PageStore::page_count`: the number of pages in the store.
#[verifier::external_body]
pub(crate) fn page_count(store: &PageStore) -> (n: u64)
    ensures
        n == store_pages(*store).len(),
{
    store.page_count()
}

/// `PageStore::page` followed by `Page::bytes`: the bytes of page `pn`,
/// or `None` when `pn` is past the last page. `opensqlany` slices every
/// page to exactly 4096 bytes.
#[verifier::external_body]
pub(crate) fn page_bytes(store: &PageStore, pn: u64) -> (r: Option<&[u8]>)
    ensures
        r is Some <==> pn < store_pages(*store).len(),
        r matches Some(b) ==> b@ == store_pages(*store)[pn as int] && b@.len() == PAGE,
{
    store.page(pn).ok().map(|p| p.bytes())
}

/// `PageTrailer::page_type` of the page read from `raw`, compared with
/// `PageType::Extent`. `PageType::from_byte` upper-cases the byte at
/// `0xFF2` before classifying it, so both `E` and `e` are extents.
#[verifier::external_body]
pub(crate) fn is_extent_page(pn: u64, raw: &[u8]) -> (b: bool)
    requires
        raw@.len() >= PAGE,
    ensures
        b == is_extent(raw@),
{
    Page::from_bytes(pn, raw).trailer().page_type() == PageType::Extent
}

/// `ApModel::deobfuscate_with_store`: decode a page with a `bv` that the
/// model picks for this page. In `opensqlany` the model first tries to
/// learn `bv` from the page itself and otherwise searches all 256
/// candidates against the store, then always finishes with
/// `ApModel::deobfuscate_with_bv`, whose decoding is the one this crate
/// implements in [`crate::deobfuscate_with_bv`]. Which `bv` is picked
/// depends on the model and the store and is left unsaid: the claim is
/// only that the result is the page decoded with some `bv`.
#[verifier::external_body]
pub(crate) fn model_deobfuscate(model: &ApModel, raw: &[u8], pn: u64, store: &PageStore) -> (out: Vec<u8>)
    requires
        raw@.len() >= PAGE,
    ensures
        exists|bv: u8| out@ == spec_deobfuscate(raw@, pn, bv),
{
    model.deobfuscate_with_store(raw, pn, store)
}

/// `SlottedPage::parse` of `Page::from_bytes(pn, plain)` followed by
/// `SlottedPage::row_bytes`, each row copied out. `Page::from_bytes`
/// keeps the first 4096 bytes; the rows depend on those bytes alone. A
/// page without a slot directory has no rows. `row_bytes` only returns
/// rows with `start < end <= 0xFF0`, so every row has between 1 and
/// `0xFF0` bytes.
#[verifier::external_body]
pub(crate) fn page_rows(pn: u64, plain: &[u8]) -> (rows: Vec<Vec<u8>>)
    requires
        plain@.len() >= PAGE,
    ensures
        rows@.len() == slotted_rows(plain@.subrange(0, PAGE as int)).len(),
        forall|i: int|
            0 <= i < rows@.len() ==> #[trigger] rows@[i]@ == slotted_rows(
                plain@.subrange(0, PAGE as int),
            )[i],
        forall|i: int| 0 <= i < rows@.len() ==> 1 <= #[trigger] rows@[i]@.len() <= TRAILER_START,
{
    SlottedPage::parse(Page::from_bytes(pn, plain)).row_bytes().into_iter().map(|r| r.1.to_vec()).collect()
}

/// The byte `PageType::as_byte` gives for a trailer page-type byte `b`:
/// `PageType::from_byte` upper-cases `b` and keeps the upper-cased byte
/// when it is one of the known types `E A M H C @ I G`, and `b` itself
/// otherwise.
pub open spec fn page_type_code(b: u8) -> u8 {
    let u = if 0x61 <= b <= 0x7A {
        (b - 32) as u8
    } else {
        b
    };
    if u == 0x45 || u == 0x41 || u == 0x4D || u == 0x48 || u == 0x43 || u == 0x40 || u == 0x49 || u == 0x47 {
        u
    } else {
        b
    }
}

/// `PageTrailer::page_type` of the page read from `raw`, then
/// `PageType::as_byte`: the classified page-type byte at `0xFF2`.
#[verifier::external_body]
pub(crate) fn page_type_byte(pn: u64, raw: &[u8]) -> (b: u8)
    requires
        raw@.len() >= PAGE,
    ensures
        b == page_type_code(raw@[PAGE_TYPE_OFFSET as int]),
{
    Page::from_bytes(pn, raw).trailer().page_type().as_byte()
}

} // verus!
