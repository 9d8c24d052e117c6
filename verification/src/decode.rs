//! Decoding of stored pages: the `bv` oracles of this crate first, the
//! learned cipher model of the page store as the fallback.

use vstd::prelude::*;
use opensqlany::{ApModel, PageStore};
use crate::bv_recovery::{
    deobfuscate_with_bv, recover_bv_any, recover_bv_qb_data, spec_deobfuscate,
    spec_recover_bv_any, spec_recover_bv_qb, PAGE,
};
use crate::store::{is_extent, model_deobfuscate};

verus! {

/// Which oracle is asked for `bv` before falling back to the model.
pub enum BvOracle {
    /// The record-anchor oracle ([`crate::recover_bv_qb_data`]).
    Anchor,
    /// The full cascade ([`crate::recover_bv_any`]).
    Cascade,
}

/// The `bv` that the chosen oracle answers for a page, if any.
pub open spec fn oracle_answer(oracle: BvOracle, raw: Seq<u8>, pn: u64) -> Option<u8> {
    match oracle {
        BvOracle::Anchor => spec_recover_bv_qb(raw, pn),
        BvOracle::Cascade => spec_recover_bv_any(raw, pn),
    }
}

/// `plain` is a decoding of `raw` that follows `answer`: with the
/// answered `bv` when there is one, and otherwise with some `bv` (the one
/// the cipher model picks).
pub open spec fn decoding_of(raw: Seq<u8>, pn: u64, plain: Seq<u8>, answer: Option<u8>) -> bool {
    match answer {
        Some(bv) => plain == spec_deobfuscate(raw, pn, bv),
        None => exists|bv: u8| plain == spec_deobfuscate(raw, pn, bv),
    }
}

/// `plains[pn]` is a decoding of every extent page `pn >= 1` of `pages`
/// that follows `oracle`.
pub open spec fn page_decodings(pages: Seq<Seq<u8>>, plains: Seq<Seq<u8>>, oracle: BvOracle) -> bool {
    &&& plains.len() == pages.len()
    &&& forall|pn: int|
        1 <= pn < pages.len() && is_extent(pages[pn]) ==> decoding_of(
            pages[pn],
            pn as u64,
            #[trigger] plains[pn],
            oracle_answer(oracle, pages[pn], pn as u64),
        )
}

/// A decoding of `raw` that follows `oracle`, for pages that a scan skips.
pub open spec fn any_decoding(raw: Seq<u8>, pn: u64, oracle: BvOracle) -> Seq<u8> {
    match oracle_answer(oracle, raw, pn) {
        Some(bv) => spec_deobfuscate(raw, pn, bv),
        None => spec_deobfuscate(raw, pn, 0),
    }
}

/// [`any_decoding`] is a decoding that follows its oracle.
pub proof fn lemma_any_decoding(raw: Seq<u8>, pn: u64, oracle: BvOracle)
    ensures
        decoding_of(raw, pn, any_decoding(raw, pn, oracle), oracle_answer(oracle, raw, pn)),
{
    if oracle_answer(oracle, raw, pn) is None {
        assert(any_decoding(raw, pn, oracle) == spec_deobfuscate(raw, pn, 0));
    }
}

/// Decode a stored page: with the `bv` the chosen oracle answers, else
/// with the cipher model.
pub(crate) fn decode_page(
    store: &PageStore,
    model: &ApModel,
    pn: u64,
    raw: &[u8],
    oracle: BvOracle,
) -> (plain: Vec<u8>)
    requires
        raw@.len() == PAGE,
    ensures
        plain@.len() == PAGE,
        decoding_of(raw@, pn, plain@, oracle_answer(oracle, raw@, pn)),
{
    let answer = match oracle {
        BvOracle::Anchor => recover_bv_qb_data(pn, raw),
        BvOracle::Cascade => recover_bv_any(pn, raw),
    };
    match answer {
        Some(bv) => deobfuscate_with_bv(raw, pn, bv),
        None => {
            let plain = model_deobfuscate(model, raw, pn, store);
            proof {
                let bv = choose|bv: u8| plain@ == spec_deobfuscate(raw@, pn, bv);
                assert(plain@.len() == spec_deobfuscate(raw@, pn, bv).len());
            }
            plain
        },
    }
}

} // verus!
