//! Recovery of the per-page cipher parameter `bv` and decoding of
//! obfuscated pages.
//!
//! Every 4096-byte page is split into eight sectors of 512 bytes; the last
//! sector ends at the plaintext trailer (`0xFF0`). Inside sector `si` of page
//! `pn` the stored byte at sector index `i` is
//!
//! ```text
//!   stored[i] = plain[i] + base + i * step        (mod 256)
//!   base      = bv + pn + si - 4 * ((pn % 16) / 2) (mod 256)
//! ```
//!
//! where `step` is a per-sector constant and `bv` a per-page constant.
//! Decoding subtracts the progression again. The step of a sector is
//! recovered as the candidate whose decoded bytes have the tallest
//! histogram peak (plaintext is dominated by zero bytes). This module
//! proves what each recovery oracle returns, and the laws that tie them
//! together.

use vstd::prelude::*;
use vstd::arithmetic::div_mod::*;

verus! {

/// Size of a physical page.
pub const PAGE: usize = 4096;

/// Size of a cipher sector.
pub const SECTOR: usize = 512;

/// Number of cipher sectors per page.
pub const SECTORS: usize = 8;

/// Start of the plaintext page trailer; the cipher covers `0..TRAILER_START`.
pub const TRAILER_START: usize = 0xFF0;

/// Plaintext magic shared by every regular A-page (allocation map).
pub const APAGE_MAGIC: [u8; 8] = [0x24, 0x04, 0x31, 0x00, 0xB4, 0x02, 0x19, 0x00];

// ---------------------------------------------------------------------------
// Mathematical model of the cipher
// ---------------------------------------------------------------------------

/// Reduction of an integer to a byte.
pub open spec fn m256(x: int) -> u8 {
    (x % 256) as u8
}

/// The page-position bias `4 * ((pn % 16) / 2)`.
pub open spec fn page_bias(pn: u64) -> int {
    ((pn % 16) / 2) * 4
}

/// The cipher base of sector `si` of page `pn` under parameter `bv`.
pub open spec fn sector_base(pn: u64, si: int, bv: int) -> u8 {
    m256(bv + pn + si - page_bias(pn))
}

/// First byte offset of sector `si`.
pub open spec fn sector_start(si: int) -> int {
    si * 512
}

/// One past the last byte offset of sector `si` (the last sector stops at
/// the trailer).
pub open spec fn sector_end(si: int) -> int {
    if si == 7 {
        4080
    } else {
        si * 512 + 512
    }
}

/// The stored bytes of sector `si`.
pub open spec fn sector_of(raw: Seq<u8>, si: int) -> Seq<u8> {
    raw.subrange(sector_start(si), sector_end(si))
}

/// Decode one stored byte at sector index `i` with the given base and step.
pub open spec fn unmix(b: u8, base: int, i: int, step: int) -> u8 {
    m256(b - base - i * step)
}

/// Number of indices `i < n` of `sec` that decode to the byte `v`.
pub open spec fn count_decoded(sec: Seq<u8>, base: int, step: int, v: int, n: int) -> nat
    decreases n,
{
    if n <= 0 {
        0
    } else {
        count_decoded(sec, base, step, v, n - 1) + if unmix(sec[n - 1], base, n - 1, step) == v {
            1nat
        } else {
            0nat
        }
    }
}

/// Largest histogram bucket among the byte values `0..k`.
pub open spec fn peak_upto(sec: Seq<u8>, base: int, step: int, k: int) -> nat
    decreases k,
{
    if k <= 0 {
        0
    } else {
        let prev = peak_upto(sec, base, step, k - 1);
        let c = count_decoded(sec, base, step, k - 1, sec.len() as int);
        if c > prev {
            c
        } else {
            prev
        }
    }
}

/// Height of the tallest histogram bucket of `sec` decoded with `base` and
/// `step`.
pub open spec fn step_peak(sec: Seq<u8>, base: int, step: int) -> nat {
    peak_upto(sec, base, step, 256)
}

/// The first step among `0..k` whose peak is the largest among `0..k`.
pub open spec fn first_best_step(sec: Seq<u8>, base: int, k: int) -> int
    decreases k,
{
    if k <= 1 {
        0
    } else {
        let b = first_best_step(sec, base, k - 1);
        if step_peak(sec, base, k - 1) > step_peak(sec, base, b) {
            k - 1
        } else {
            b
        }
    }
}

/// The step recovered for `sec` under `base`: the first step in `0..256`
/// with the tallest histogram peak.
pub open spec fn spec_recover_step(sec: Seq<u8>, base: int) -> u8 {
    first_best_step(sec, base, 256) as u8
}

/// Byte `j` of the page decoded with parameter `bv`.
pub open spec fn decoded_byte(raw: Seq<u8>, pn: u64, bv: u8, j: int) -> u8 {
    if j < TRAILER_START {
        let si = j / 512;
        let base = sector_base(pn, si, bv as int);
        unmix(raw[j], base as int, j - sector_start(si), spec_recover_step(sector_of(raw, si), base as int) as int)
    } else {
        raw[j]
    }
}

/// The full 4096-byte page decoded with parameter `bv`: the body is
/// decoded sector by sector, the trailer is kept verbatim.
pub open spec fn spec_deobfuscate(raw: Seq<u8>, pn: u64, bv: u8) -> Seq<u8> {
    Seq::new(PAGE as nat, |j: int| decoded_byte(raw, pn, bv, j))
}

/// The byte index of `j` within its sector.
pub open spec fn sector_index(j: int) -> int {
    j - sector_start(j / 512)
}

/// The bv guessed from the first stored byte, assuming the plaintext page
/// begins with a zero byte.
pub open spec fn spec_oracle_bv(raw: Seq<u8>, pn: u64) -> u8 {
    m256(raw[0] - pn + page_bias(pn))
}

/// The step of sector `si` as recovered by the anchor oracle (at the base
/// of the oracle bv).
pub open spec fn qb_step(raw: Seq<u8>, pn: u64, si: int) -> u8 {
    spec_recover_step(sector_of(raw, si), sector_base(pn, si, spec_oracle_bv(raw, pn) as int) as int)
}

/// Body byte `j` with the step progression and the bv-independent part of
/// the base removed (`bv` is still to be subtracted).
pub open spec fn qb_partial(raw: Seq<u8>, pn: u64, j: int) -> u8 {
    let si = j / 512;
    unmix(raw[j], sector_base(pn, si, 0) as int, sector_index(j), qb_step(raw, pn, si) as int)
}

/// Body byte `j` decoded by the anchor oracle for candidate `bv`.
pub open spec fn qb_plain(raw: Seq<u8>, pn: u64, bv: int, j: int) -> u8 {
    m256(qb_partial(raw, pn, j) - bv)
}

/// Whether the anchor `[rc, 0x00, 0xD5, 0x0B]` sits at `p` of a byte
/// sequence.
pub open spec fn anchor_at(plain: Seq<u8>, rc: u8, p: int) -> bool {
    &&& plain[p] == rc
    &&& plain[p + 1] == 0
    &&& plain[p + 2] == 0xD5
    &&& plain[p + 3] == 0x0B
}

/// The page body (`0..0xFF0`) as decoded by the anchor oracle for `bv`.
pub open spec fn qb_body(raw: Seq<u8>, pn: u64, bv: int) -> Seq<u8> {
    Seq::new(TRAILER_START as nat, |j: int| qb_plain(raw, pn, bv, j))
}

/// Whether the anchor oracle finds the page-trailer anchor when decoding
/// with candidate `bv`.
pub open spec fn qb_anchor_present(raw: Seq<u8>, pn: u64, bv: int) -> bool {
    exists|p: int| 0 <= p <= TRAILER_START - 4 && anchor_at(qb_body(raw, pn, bv), raw[TRAILER_START as int], p)
}

/// The first candidate `bv` in `k..256` for which the anchor is present.
pub open spec fn first_qb_bv(raw: Seq<u8>, pn: u64, k: int) -> Option<u8>
    decreases 256 - k,
{
    if k >= 256 || k < 0 {
        None
    } else if qb_anchor_present(raw, pn, k) {
        Some(k as u8)
    } else {
        first_qb_bv(raw, pn, k + 1)
    }
}

/// What the anchor oracle returns: the oracle bv when it decodes the
/// anchor, otherwise the first bv that does, and `None` when no bv does or
/// the page is not 4096 bytes long.
pub open spec fn spec_recover_bv_qb(raw: Seq<u8>, pn: u64) -> Option<u8> {
    if raw.len() != PAGE {
        None
    } else if qb_anchor_present(raw, pn, spec_oracle_bv(raw, pn) as int) {
        Some(spec_oracle_bv(raw, pn))
    } else {
        first_qb_bv(raw, pn, 0)
    }
}

/// The step of sector `si` recovered at base 0 (used by the brute-force and
/// A-page oracles, which do not know `bv` yet).
pub open spec fn base_free_step(raw: Seq<u8>, si: int) -> u8 {
    spec_recover_step(sector_of(raw, si), 0)
}

/// Number of zero bytes in sector `si` decoded with candidate `bv` and the
/// base-free step.
pub open spec fn sector_zero_count(raw: Seq<u8>, pn: u64, bv: int, si: int) -> nat {
    count_decoded(
        sector_of(raw, si),
        sector_base(pn, si, bv) as int,
        base_free_step(raw, si) as int,
        0,
        sector_end(si) - sector_start(si),
    )
}

/// Zero bytes over the sectors `0..k`.
pub open spec fn zero_count_upto(raw: Seq<u8>, pn: u64, bv: int, k: int) -> nat
    decreases k,
{
    if k <= 0 {
        0
    } else {
        zero_count_upto(raw, pn, bv, k - 1) + sector_zero_count(raw, pn, bv, k - 1)
    }
}

/// Zero bytes in the whole page body decoded with candidate `bv`.
pub open spec fn brute_zero_count(raw: Seq<u8>, pn: u64, bv: int) -> nat {
    zero_count_upto(raw, pn, bv, 8)
}

/// The first candidate among `0..k` with the most zero bytes.
pub open spec fn brute_best_bv(raw: Seq<u8>, pn: u64, k: int) -> int
    decreases k,
{
    if k <= 1 {
        0
    } else {
        let b = brute_best_bv(raw, pn, k - 1);
        if brute_zero_count(raw, pn, k - 1) > brute_zero_count(raw, pn, b) {
            k - 1
        } else {
            b
        }
    }
}

/// Minimum number of plaintext zero bytes (5 % of the body) for a decode
/// to be accepted as standard cipher output.
pub open spec fn zero_threshold() -> int {
    TRAILER_START * 5 / 100
}

/// What the brute-force oracle returns: the first bv with the most zero
/// bytes, when that count reaches 5 % of the body.
pub open spec fn spec_recover_bv_brute(raw: Seq<u8>, pn: u64) -> Option<u8> {
    if raw.len() != PAGE {
        None
    } else {
        let b = brute_best_bv(raw, pn, 256);
        if brute_zero_count(raw, pn, b) >= zero_threshold() {
            Some(b as u8)
        } else {
            None
        }
    }
}

/// The page body decoded with candidate `bv` and the base-free steps.
pub open spec fn apage_body(raw: Seq<u8>, pn: u64, bv: int) -> Seq<u8> {
    Seq::new(
        TRAILER_START as nat,
        |j: int|
            unmix(
                raw[j],
                sector_base(pn, j / 512, bv) as int,
                sector_index(j),
                base_free_step(raw, j / 512) as int,
            ),
    )
}

/// Whether `needle` (non-empty) occurs contiguously in `hay`.
pub open spec fn seq_contains(hay: Seq<u8>, needle: Seq<u8>) -> bool {
    needle.len() > 0 && exists|p: int|
        0 <= p && p + needle.len() <= hay.len() && #[trigger] hay.subrange(p, p + needle.len()) == needle
}

/// The first candidate `bv` in `k..256` whose decoded body contains the
/// A-page magic.
pub open spec fn first_apage_bv(raw: Seq<u8>, pn: u64, k: int) -> Option<u8>
    decreases 256 - k,
{
    if k >= 256 || k < 0 {
        None
    } else if seq_contains(apage_body(raw, pn, k), APAGE_MAGIC@) {
        Some(k as u8)
    } else {
        first_apage_bv(raw, pn, k + 1)
    }
}

/// What the A-page oracle returns.
pub open spec fn spec_recover_bv_apage(raw: Seq<u8>, pn: u64) -> Option<u8> {
    if raw.len() != PAGE {
        None
    } else {
        first_apage_bv(raw, pn, 0)
    }
}

/// Number of zero bytes among the first `n` bytes of `s`.
pub open spec fn zeros_upto(s: Seq<u8>, n: int) -> nat
    decreases n,
{
    if n <= 0 {
        0
    } else {
        zeros_upto(s, n - 1) + if s[n - 1] == 0 { 1nat } else { 0nat }
    }
}

/// What the oracle cascade returns: the anchor oracle's answer; else the
/// first-byte oracle when its decode has at least 5 % zero bytes; else the
/// brute-force answer.
pub open spec fn spec_recover_bv_any(raw: Seq<u8>, pn: u64) -> Option<u8> {
    if spec_recover_bv_qb(raw, pn) is Some {
        spec_recover_bv_qb(raw, pn)
    } else if zeros_upto(spec_deobfuscate(raw, pn, spec_oracle_bv(raw, pn)), TRAILER_START as int) * 100
        / (TRAILER_START as nat) >= 5 {
        Some(spec_oracle_bv(raw, pn))
    } else {
        spec_recover_bv_brute(raw, pn)
    }
}

// ---------------------------------------------------------------------------
// Arithmetic lemmas
// ---------------------------------------------------------------------------

proof fn lemma_wrapping_u8(x: u8, y: u8)
    ensures
        vstd::wrapping::u8_specs::wrapping_add(x, y) == m256(x + y),
        vstd::wrapping::u8_specs::wrapping_sub(x, y) == m256(x - y),
{
    if x + y > 255 {
        assert((x + y) % 256 == x + y - 256);
    } else {
        assert((x + y) % 256 == x + y);
    }
    if x - y < 0 {
        assert((x - y) % 256 == x - y + 256);
    } else {
        assert((x - y) % 256 == x - y);
    }
}

proof fn lemma_m256_add(a: int, b: int)
    ensures
        m256(m256(a) + b) == m256(a + b),
        m256(m256(a) - b) == m256(a - b),
        m256(a - m256(b)) == m256(a - b),
{
    lemma_m256_add_left(a, b);
    lemma_m256_sub_left(a, b);
    lemma_m256_sub_right(a, b);
}

proof fn lemma_m256_add_left(a: int, b: int)
    ensures
        m256(m256(a) + b) == m256(a + b),
{
    assert(m256(a) as int == a % 256);
    lemma_add_mod_noop_right(b, a, 256);
}

proof fn lemma_m256_sub_left(a: int, b: int)
    ensures
        m256(m256(a) - b) == m256(a - b),
{
    assert(m256(a) as int == a % 256);
    lemma_add_mod_noop_right(-b, a, 256);
}

proof fn lemma_m256_sub_right(a: int, b: int)
    ensures
        m256(a - m256(b)) == m256(a - b),
{
    assert(m256(b) as int == b % 256);
    lemma_sub_mod_noop_right(a, b, 256);
}

proof fn lemma_usize_u8(i: usize)
    ensures
        (i as u8) as int == (i as int) % 256,
{
    assert((i as u8) == (i % 256) as u8) by (bit_vector);
}

proof fn lemma_u64_u8(i: u64)
    ensures
        (i as u8) as int == (i as int) % 256,
{
    assert((i as u8) == (i % 256) as u8) by (bit_vector);
}

/// `m256` only depends on its argument modulo 256.
proof fn lemma_m256_congruent(a: int, b: int, k: int)
    requires
        a == b + 256 * k,
    ensures
        m256(a) == m256(b),
{
    lemma_mod_multiples_vanish(k, b, 256);
}

proof fn lemma_mul_mod_left(i: int, step: int)
    ensures
        m256((i % 256) * step) == m256(i * step),
{
    lemma_mul_mod_noop_left(i, step, 256);
}

// ---------------------------------------------------------------------------
// Executable primitives
// ---------------------------------------------------------------------------

/// Decode one byte: `b - base - i * step (mod 256)`.
fn unmix_exec(b: u8, base: u8, i: usize, step: u8) -> (r: u8)
    ensures
        r == unmix(b, base as int, i as int, step as int),
{
    let i8 = i as u8;
    let prod = i8.wrapping_mul(step);
    let r = b.wrapping_sub(base).wrapping_sub(prod);
    proof {
        lemma_usize_u8(i);
        lemma_wrapping_u8(b, base);
        let x = m256(b - base);
        lemma_wrapping_u8(x, prod);
        assert(prod as int == ((i8 as nat * step as nat) % 256 as nat));
        assert(prod == m256(i8 * step));
        lemma_mul_mod_left(i as int, step as int);
        assert(prod == m256(i * step));
        lemma_m256_add(b - base, prod as int);
        lemma_m256_add(b - base, i * step);
        assert(r == m256(x - prod));
        assert(m256(x - prod) == m256((b - base) - prod));
        assert(m256((b - base) - prod) == m256((b - base) - m256(i * step)));
        assert(m256((b - base) - m256(i * step)) == m256((b - base) - i * step));
    }
    r
}

/// The page bias `4 * ((pn % 16) / 2)` as a byte.
fn page_bias_exec(pn: u64) -> (r: u8)
    ensures
        r as int == page_bias(pn),
        r <= 28,
{
    let p16 = (pn % 16) as u8;
    p16 / 2 * 4
}

/// The cipher base of sector `si` of page `pn` under parameter `bv`.
fn ap_base(pn: u64, si: usize, bv: u8) -> (r: u8)
    requires
        si < 8,
    ensures
        r == sector_base(pn, si as int, bv as int),
{
    let bias = page_bias_exec(pn);
    let pn8 = pn as u8;
    let si8 = si as u8;
    let a = bv.wrapping_add(pn8);
    let b = a.wrapping_add(si8);
    let r = b.wrapping_sub(bias);
    proof {
        lemma_u64_u8(pn);
        lemma_wrapping_u8(bv, pn8);
        lemma_wrapping_u8(a, si8);
        lemma_wrapping_u8(b, bias);
        lemma_m256_add(bv + pn8, pn8 as int);
        // a == m256(bv + pn)
        lemma_m256_congruent(bv + pn8, bv + pn, (pn8 - pn) / 256);
        lemma_fundamental_div_mod(pn as int, 256);
        assert(pn8 == pn - 256 * (pn as int / 256));
        lemma_m256_congruent(bv + pn8, bv + pn, -(pn as int / 256));
        assert(a == m256(bv + pn));
        lemma_m256_add(bv + pn, si as int);
        assert(b == m256(bv + pn + si));
        lemma_m256_add(bv + pn + si, bias as int);
        assert(r == m256(bv + pn + si - bias));
    }
    r
}

proof fn lemma_count_bound(sec: Seq<u8>, base: int, step: int, v: int, n: int)
    requires
        n >= 0,
    ensures
        count_decoded(sec, base, step, v, n) <= n,
    decreases n,
{
    if n > 0 {
        lemma_count_bound(sec, base, step, v, n - 1);
    }
}

proof fn lemma_sector_index(si: int, i: int)
    requires
        0 <= si < 8,
        0 <= i < 512,
    ensures
        (si * 512 + i) / 512 == si,
{
    lemma_fundamental_div_mod_converse(si * 512 + i, 512, si, i);
}

/// Histogram of the bytes of `raw[off..end]` decoded with `base` and `step`.
fn decoded_histogram(raw: &[u8], off: usize, end: usize, base: u8, step: u8) -> (hist: Vec<u16>)
    requires
        off <= end <= raw@.len(),
        end - off <= 512,
    ensures
        hist@.len() == 256,
        forall|v: int| 0 <= v < 256 ==> hist@[v] as nat == count_decoded(raw@.subrange(off as int, end as int), base as int, step as int, v, (end - off) as int),
{
    let ghost sec = raw@.subrange(off as int, end as int);
    let mut hist: Vec<u16> = vec![0u16; 256];
    let n = end - off;
    let mut i: usize = 0;
    while i < n
        invariant
            i <= n,
            n == end - off,
            off + n <= raw@.len(),
            n <= 512,
            sec == raw@.subrange(off as int, end as int),
            hist@.len() == 256,
            forall|v: int| 0 <= v < 256 ==> hist@[v] == count_decoded(sec, base as int, step as int, v, i as int),
        decreases n - i,
    {
        let x = unmix_exec(raw[off + i], base, i, step);
        proof {
            lemma_count_bound(sec, base as int, step as int, x as int, i as int);
            assert(sec[i as int] == raw@[off + i]);
        }
        let h = hist[x as usize];
        hist.set(x as usize, h + 1);
        i = i + 1;
        proof {
            assert forall|v: int| 0 <= v < 256 implies hist@[v] == count_decoded(sec, base as int, step as int, v, i as int) by {
                assert(count_decoded(sec, base as int, step as int, v, i as int)
                    == count_decoded(sec, base as int, step as int, v, i - 1) + if unmix(sec[i - 1], base as int, i - 1, step as int) == v { 1nat } else { 0nat });
            }
        }
    }
    hist
}

/// Height of the tallest histogram bucket of `raw[off..end]` decoded with
/// `base` and `step`.
fn step_peak_exec(raw: &[u8], off: usize, end: usize, base: u8, step: u8) -> (p: u16)
    requires
        off <= end <= raw@.len(),
        end - off <= 512,
    ensures
        p as nat == step_peak(raw@.subrange(off as int, end as int), base as int, step as int),
{
    let ghost sec = raw@.subrange(off as int, end as int);
    let hist = decoded_histogram(raw, off, end, base, step);
    let n = end - off;
    let mut m: u16 = 0;
    let mut k: usize = 0;
    while k < 256
        invariant
            k <= 256,
            hist@.len() == 256,
            sec.len() == n,
            sec == raw@.subrange(off as int, end as int),
            forall|v: int| 0 <= v < 256 ==> hist@[v] == count_decoded(sec, base as int, step as int, v, n as int),
            m as nat == peak_upto(sec, base as int, step as int, k as int),
        decreases 256 - k,
    {
        let c = hist[k];
        if c > m {
            m = c;
        }
        k = k + 1;
    }
    m
}

/// Recover the step of sector `raw[off..end]` for the given `base`: the
/// first candidate in `0..=255` whose decoded histogram has the tallest
/// peak.
fn recover_step(raw: &[u8], off: usize, end: usize, base: u8) -> (s: u8)
    requires
        off <= end <= raw@.len(),
        end - off <= 512,
    ensures
        s == spec_recover_step(raw@.subrange(off as int, end as int), base as int),
{
    let ghost sec = raw@.subrange(off as int, end as int);
    let mut best_step: u8 = 0;
    let mut best_peak: u16 = 0;
    let mut step: u16 = 0;
    while step < 256
        invariant
            step <= 256,
            off <= end <= raw@.len(),
            end - off <= 512,
            sec == raw@.subrange(off as int, end as int),
            step == 0 ==> best_step == 0 && best_peak == 0,
            step > 0 ==> best_step as int == first_best_step(sec, base as int, step as int)
                && best_peak as nat == step_peak(sec, base as int, best_step as int),
        decreases 256 - step,
    {
        let p = step_peak_exec(raw, off, end, base, step as u8);
        if p > best_peak {
            best_peak = p;
            best_step = step as u8;
        }
        step = step + 1;
    }
    best_step
}

/// Decode an obfuscated page with an explicit `bv` (the inverse of the
/// additive-progression cipher).
///
/// Returns a 4096-byte buffer: bytes `0..0xFF0` are the decoded body, bytes
/// `0xFF0..0x1000` are the trailer copied verbatim from `raw`.
pub fn deobfuscate_with_bv(raw: &[u8], pn: u64, bv: u8) -> (out: Vec<u8>)
    requires
        raw@.len() == PAGE,
    ensures
        out@ == spec_deobfuscate(raw@, pn, bv),
{
    let mut out: Vec<u8> = vec![0u8; PAGE];
    let mut si: usize = 0;
    while si < SECTORS
        invariant
            si <= SECTORS,
            raw@.len() == PAGE,
            out@.len() == PAGE,
            forall|j: int| 0 <= j < sector_start(si as int) && j < TRAILER_START ==> out@[j] == decoded_byte(raw@, pn, bv, j),
        decreases SECTORS - si,
    {
        let off = si * SECTOR;
        let end = if si == SECTORS - 1 { TRAILER_START } else { off + SECTOR };
        let base = ap_base(pn, si, bv);
        let step = recover_step(raw, off, end, base);
        let n = end - off;
        let mut i: usize = 0;
        while i < n
            invariant
                i <= n,
                si < SECTORS,
                off == si * 512,
                end == sector_end(si as int),
                n == end - off,
                raw@.len() == PAGE,
                out@.len() == PAGE,
                base == sector_base(pn, si as int, bv as int),
                step == spec_recover_step(raw@.subrange(off as int, end as int), base as int),
                forall|j: int| 0 <= j < off + i && j < TRAILER_START ==> out@[j] == decoded_byte(raw@, pn, bv, j),
            decreases n - i,
        {
            let x = unmix_exec(raw[off + i], base, i, step);
            proof {
                lemma_sector_index(si as int, i as int);
            }
            out.set(off + i, x);
            i = i + 1;
        }
        si = si + 1;
    }
    let mut j: usize = TRAILER_START;
    while j < PAGE
        invariant
            TRAILER_START <= j <= PAGE,
            raw@.len() == PAGE,
            out@.len() == PAGE,
            forall|k: int| 0 <= k < j ==> out@[k] == decoded_byte(raw@, pn, bv, k),
        decreases PAGE - j,
    {
        out.set(j, raw[j]);
        j = j + 1;
    }
    assert(out@ =~= spec_deobfuscate(raw@, pn, bv));
    out
}

/// Compute the E-page oracle bv assuming the plaintext page begins with a
/// zero byte: `bv = stored[0] - pn + 4 * ((pn % 16) / 2) (mod 256)`.
pub fn oracle_bv_e_page(pn: u64, raw_page: &[u8]) -> (bv: u8)
    requires
        raw_page@.len() >= 1,
    ensures
        bv == spec_oracle_bv(raw_page@, pn),
{
    let bias = page_bias_exec(pn);
    let pn8 = pn as u8;
    let a = raw_page[0].wrapping_sub(pn8);
    let r = a.wrapping_add(bias);
    proof {
        lemma_u64_u8(pn);
        lemma_wrapping_u8(raw_page[0], pn8);
        lemma_wrapping_u8(a, bias);
        lemma_fundamental_div_mod(pn as int, 256);
        lemma_m256_congruent(raw_page@[0] - pn8, raw_page@[0] - pn, pn as int / 256);
        lemma_m256_add(raw_page@[0] - pn, bias as int);
    }
    r
}

/// Build the anchor-oracle table: every body byte with its sector's step
/// progression and the bv-independent part of its base removed.
fn qb_partial_table(pn: u64, raw: &[u8], oracle_bv: u8) -> (c: Vec<u8>)
    requires
        raw@.len() == PAGE,
        oracle_bv == spec_oracle_bv(raw@, pn),
    ensures
        c@.len() == TRAILER_START,
        forall|j: int| 0 <= j < TRAILER_START ==> c@[j] == qb_partial(raw@, pn, j),
{
    let mut c: Vec<u8> = vec![0u8; TRAILER_START];
    let mut si: usize = 0;
    while si < SECTORS
        invariant
            si <= SECTORS,
            raw@.len() == PAGE,
            oracle_bv == spec_oracle_bv(raw@, pn),
            c@.len() == TRAILER_START,
            forall|j: int| 0 <= j < sector_start(si as int) && j < TRAILER_START ==> c@[j] == qb_partial(raw@, pn, j),
        decreases SECTORS - si,
    {
        let off = si * SECTOR;
        let end = if si == SECTORS - 1 { TRAILER_START } else { off + SECTOR };
        let oracle_base = ap_base(pn, si, oracle_bv);
        let step = recover_step(raw, off, end, oracle_base);
        let offset_no_bv = ap_base(pn, si, 0);
        let n = end - off;
        let mut i: usize = 0;
        while i < n
            invariant
                i <= n,
                si < SECTORS,
                off == si * 512,
                end == sector_end(si as int),
                n == end - off,
                raw@.len() == PAGE,
                c@.len() == TRAILER_START,
                offset_no_bv == sector_base(pn, si as int, 0),
                step == qb_step(raw@, pn, si as int),
                forall|j: int| 0 <= j < off + i && j < TRAILER_START ==> c@[j] == qb_partial(raw@, pn, j),
            decreases n - i,
        {
            let x = unmix_exec(raw[off + i], offset_no_bv, i, step);
            proof {
                lemma_sector_index(si as int, i as int);
            }
            c.set(off + i, x);
            i = i + 1;
        }
        si = si + 1;
    }
    c
}

/// For a candidate bv, search the decoded page body for the anchor
/// `[rc, 0x00, 0xD5, 0x0B]`.
fn anchor_present_with_bv(c: &Vec<u8>, bv: u8, rc: u8, Ghost(raw): Ghost<Seq<u8>>, pn: u64) -> (b: bool)
    requires
        c@.len() == TRAILER_START,
        raw.len() == PAGE,
        rc == raw[TRAILER_START as int],
        forall|j: int| 0 <= j < TRAILER_START ==> c@[j] == qb_partial(raw, pn, j),
    ensures
        b == qb_anchor_present(raw, pn, bv as int),
{
    let ghost body = qb_body(raw, pn, bv as int);
    let mut plain: Vec<u8> = vec![0u8; TRAILER_START];
    let mut k: usize = 0;
    while k < TRAILER_START
        invariant
            k <= TRAILER_START,
            plain@.len() == TRAILER_START,
            c@.len() == TRAILER_START,
            forall|j: int| 0 <= j < TRAILER_START ==> c@[j] == qb_partial(raw, pn, j),
            forall|j: int| 0 <= j < k ==> plain@[j] == qb_plain(raw, pn, bv as int, j),
        decreases TRAILER_START - k,
    {
        let x = c[k].wrapping_sub(bv);
        proof {
            lemma_wrapping_u8(c@[k as int], bv);
        }
        plain.set(k, x);
        k = k + 1;
    }
    assert(plain@ =~= body);
    let limit = TRAILER_START - 4;
    let mut i: usize = 0;
    while i <= limit
        invariant
            limit == TRAILER_START - 4,
            i <= limit + 1,
            body.len() == TRAILER_START,
            body == qb_body(raw, pn, bv as int),
            raw.len() == PAGE,
            rc == raw[TRAILER_START as int],
            plain@ == body,
            forall|p: int| 0 <= p < i ==> !anchor_at(body, rc, p),
        decreases limit + 1 - i,
    {
        if plain[i] == rc && plain[i + 1] == 0 && plain[i + 2] == 0xD5 && plain[i + 3] == 0x0B {
            assert(anchor_at(qb_body(raw, pn, bv as int), raw[TRAILER_START as int], i as int));
            return true;
        }
        i = i + 1;
    }
    false
}

/// Recover the bv of E-page `pn` from the QuickBooks page-trailer anchor:
/// the plaintext body carries `[trailer_rc, 0x00, 0xD5, 0x0B]` somewhere.
///
/// The oracle bv is tried first, then every other candidate in ascending
/// order. Returns `None` when no candidate decodes the anchor, or when the
/// page is not exactly 4096 bytes long.
pub fn recover_bv_qb_data(pn: u64, raw_page: &[u8]) -> (r: Option<u8>)
    ensures
        r == spec_recover_bv_qb(raw_page@, pn),
{
    if raw_page.len() != PAGE {
        return None;
    }
    let trailer_rc = raw_page[TRAILER_START];
    let oracle_bv = oracle_bv_e_page(pn, raw_page);
    let c = qb_partial_table(pn, raw_page, oracle_bv);
    if anchor_present_with_bv(&c, oracle_bv, trailer_rc, Ghost(raw_page@), pn) {
        return Some(oracle_bv);
    }
    let mut bv: u16 = 0;
    while bv <= 255
        invariant
            bv <= 256,
            raw_page@.len() == PAGE,
            trailer_rc == raw_page@[TRAILER_START as int],
            oracle_bv == spec_oracle_bv(raw_page@, pn),
            !qb_anchor_present(raw_page@, pn, oracle_bv as int),
            c@.len() == TRAILER_START,
            forall|j: int| 0 <= j < TRAILER_START ==> c@[j] == qb_partial(raw_page@, pn, j),
            first_qb_bv(raw_page@, pn, 0) == first_qb_bv(raw_page@, pn, bv as int),
        decreases 256 - bv,
    {
        let cand = bv as u8;
        if cand != oracle_bv {
            if anchor_present_with_bv(&c, cand, trailer_rc, Ghost(raw_page@), pn) {
                return Some(cand);
            }
        }
        bv = bv + 1;
    }
    None
}

/// Decoding at `base` equals decoding at base 0 followed by subtracting
/// `base`.
proof fn lemma_unmix_shift(b: u8, base: int, i: int, step: int, v: int)
    requires
        0 <= v < 256,
    ensures
        (unmix(b, base, i, step) == v) == (unmix(b, 0, i, step) == m256(v + base)),
{
    let x = b - i * step;
    assert(b - base - i * step == x - base);
    assert(b - 0 - i * step == x);
    lemma_m256_add(x, base);
    lemma_m256_add(x - base, -base);
    lemma_m256_add_left(x - base, base);
    lemma_m256_sub_left(v + base, base);
    assert(m256(v) == v);
    if unmix(b, base, i, step) == v {
        assert(m256(m256(x - base) + base) == m256(x - base + base));
    }
    if unmix(b, 0, i, step) == m256(v + base) {
        assert(m256(m256(x) - base) == m256(x - base));
        assert(m256(m256(v + base) - base) == m256(v + base - base));
    }
}

proof fn lemma_count_shift(sec: Seq<u8>, base: int, step: int, v: int, n: int)
    requires
        0 <= v < 256,
    ensures
        count_decoded(sec, base, step, v, n) == count_decoded(sec, 0, step, m256(v + base) as int, n),
    decreases n,
{
    if n > 0 {
        lemma_count_shift(sec, base, step, v, n - 1);
        lemma_unmix_shift(sec[n - 1], base, n - 1, step, v);
    }
}

/// Recover the page bv by exhaustive search: the candidate whose decode has
/// the most zero bytes (steps are recovered once per sector at base 0).
/// Returns `None` when the best count is below 5 % of the page body or the
/// page is not 4096 bytes long.
pub fn recover_bv_brute(pn: u64, raw: &[u8]) -> (r: Option<u8>)
    ensures
        r == spec_recover_bv_brute(raw@, pn),
{
    if raw.len() != PAGE {
        return None;
    }
    let mut hists: Vec<Vec<u16>> = Vec::new();
    let mut si: usize = 0;
    while si < SECTORS
        invariant
            si <= SECTORS,
            raw@.len() == PAGE,
            hists@.len() == si,
            forall|s: int| #![trigger hists@[s]] 0 <= s < si ==> hists@[s]@.len() == 256 && forall|v: int| 0 <= v < 256 ==>
                hists@[s]@[v] as nat == count_decoded(sector_of(raw@, s), 0, base_free_step(raw@, s) as int, v, sector_end(s) - sector_start(s)),
        decreases SECTORS - si,
    {
        let off = si * SECTOR;
        let end = if si == SECTORS - 1 { TRAILER_START } else { off + SECTOR };
        let step = recover_step(raw, off, end, 0);
        let h = decoded_histogram(raw, off, end, 0, step);
        hists.push(h);
        si = si + 1;
    }
    let mut best_bv: u8 = 0;
    let mut best_count: u32 = 0;
    let mut bv: u16 = 0;
    while bv <= 255
        invariant
            bv <= 256,
            raw@.len() == PAGE,
            hists@.len() == SECTORS,
            forall|s: int| #![trigger hists@[s]] 0 <= s < SECTORS ==> hists@[s]@.len() == 256 && forall|v: int| 0 <= v < 256 ==>
                hists@[s]@[v] as nat == count_decoded(sector_of(raw@, s), 0, base_free_step(raw@, s) as int, v, sector_end(s) - sector_start(s)),
            bv == 0 ==> best_bv == 0 && best_count == 0,
            bv > 0 ==> best_bv as int == brute_best_bv(raw@, pn, bv as int)
                && best_count as nat == brute_zero_count(raw@, pn, best_bv as int),
        decreases 256 - bv,
    {
        let cand = bv as u8;
        let mut total: u32 = 0;
        let mut s: usize = 0;
        while s < SECTORS
            invariant
                s <= SECTORS,
                raw@.len() == PAGE,
                hists@.len() == SECTORS,
                forall|s: int| #![trigger hists@[s]] 0 <= s < SECTORS ==> hists@[s]@.len() == 256 && forall|v: int| 0 <= v < 256 ==>
                    hists@[s]@[v] as nat == count_decoded(sector_of(raw@, s), 0, base_free_step(raw@, s) as int, v, sector_end(s) - sector_start(s)),
                total as nat == zero_count_upto(raw@, pn, cand as int, s as int),
                total <= s * 512,
            decreases SECTORS - s,
        {
            let target = ap_base(pn, s, cand);
            proof {
                let sec = sector_of(raw@, s as int);
                let st = base_free_step(raw@, s as int) as int;
                let n = sector_end(s as int) - sector_start(s as int);
                lemma_count_shift(sec, target as int, st, 0, n);
                assert(m256(0 + target) == target);
                lemma_count_bound(sec, target as int, st, 0, n);
            }
            let c = hists[s][target as usize];
            total = total + c as u32;
            s = s + 1;
        }
        if total > best_count {
            best_count = total;
            best_bv = cand;
        }
        bv = bv + 1;
    }
    if best_count >= (TRAILER_START as u32) * 5 / 100 {
        Some(best_bv)
    } else {
        None
    }
}

/// Whether `hay[i..i + needle.len()] == needle`.
pub(crate) fn matches_at(hay: &[u8], i: usize, needle: &[u8]) -> (b: bool)
    requires
        i + needle@.len() <= hay@.len(),
    ensures
        b == (hay@.subrange(i as int, i + needle@.len()) == needle@),
{
    let hl = hay.len();
    let mut k: usize = 0;
    while k < needle.len()
        invariant
            k <= needle@.len(),
            hl == hay@.len(),
            i + needle@.len() <= hay@.len(),
            forall|t: int| 0 <= t < k ==> hay@[i + t] == needle@[t],
        decreases needle@.len() - k,
    {
        if hay[i + k] != needle[k] {
            assert(hay@.subrange(i as int, i + needle@.len())[k as int] != needle@[k as int]);
            return false;
        }
        k = k + 1;
    }
    assert(hay@.subrange(i as int, i + needle@.len()) =~= needle@);
    true
}

/// Linear scan for a contiguous byte subsequence. An empty needle never
/// matches.
fn contains_subseq(hay: &[u8], needle: &[u8]) -> (b: bool)
    ensures
        b == seq_contains(hay@, needle@),
{
    if needle.len() == 0 || hay.len() < needle.len() {
        return false;
    }
    let limit = hay.len() - needle.len();
    let n0 = needle[0];
    let mut i: usize = 0;
    while i <= limit
        invariant
            limit == hay@.len() - needle@.len(),
            needle@.len() > 0,
            n0 == needle@[0],
            i <= limit + 1,
            forall|p: int| 0 <= p < i ==> #[trigger] hay@.subrange(p, p + needle@.len()) != needle@,
        decreases limit + 1 - i,
    {
        if hay[i] == n0 && matches_at(hay, i, needle) {
            return true;
        }
        if hay[i] != n0 {
            assert(hay@.subrange(i as int, i + needle@.len())[0] != needle@[0]);
        }
        i = i + 1;
    }
    false
}

/// Recover the bv of an A-page (allocation map) from the plaintext magic
/// [`APAGE_MAGIC`]: the first candidate in `0..=255` whose decode (with
/// base-free sector steps) contains the magic. Returns `None` when no
/// candidate does or the page is not 4096 bytes long.
pub fn recover_bv_apage(pn: u64, raw_page: &[u8]) -> (r: Option<u8>)
    ensures
        r == spec_recover_bv_apage(raw_page@, pn),
{
    if raw_page.len() != PAGE {
        return None;
    }
    let ghost raw = raw_page@;
    let mut c: Vec<u8> = vec![0u8; TRAILER_START];
    let mut steps: Vec<u8> = Vec::new();
    let mut si: usize = 0;
    while si < SECTORS
        invariant
            si <= SECTORS,
            raw == raw_page@,
            raw.len() == PAGE,
            c@.len() == TRAILER_START,
            steps@.len() == si,
            forall|s: int| 0 <= s < si ==> steps@[s] == base_free_step(raw, s),
            forall|j: int| 0 <= j < sector_start(si as int) && j < TRAILER_START ==>
                c@[j] == unmix(raw[j], 0, sector_index(j), base_free_step(raw, j / 512) as int),
        decreases SECTORS - si,
    {
        let off = si * SECTOR;
        let end = if si == SECTORS - 1 { TRAILER_START } else { off + SECTOR };
        let step = recover_step(raw_page, off, end, 0);
        let n = end - off;
        let mut i: usize = 0;
        while i < n
            invariant
                i <= n,
                si < SECTORS,
                off == si * 512,
                end == sector_end(si as int),
                n == end - off,
                raw == raw_page@,
                raw.len() == PAGE,
                c@.len() == TRAILER_START,
                step == base_free_step(raw, si as int),
                forall|j: int| 0 <= j < off + i && j < TRAILER_START ==>
                    c@[j] == unmix(raw[j], 0, sector_index(j), base_free_step(raw, j / 512) as int),
            decreases n - i,
        {
            let x = unmix_exec(raw_page[off + i], 0, i, step);
            proof {
                lemma_sector_index(si as int, i as int);
            }
            c.set(off + i, x);
            i = i + 1;
        }
        steps.push(step);
        si = si + 1;
    }
    let mut plain: Vec<u8> = vec![0u8; TRAILER_START];
    let mut bv: u16 = 0;
    while bv <= 255
        invariant
            bv <= 256,
            raw == raw_page@,
            raw.len() == PAGE,
            c@.len() == TRAILER_START,
            plain@.len() == TRAILER_START,
            forall|j: int| 0 <= j < TRAILER_START ==>
                c@[j] == unmix(raw[j], 0, sector_index(j), base_free_step(raw, j / 512) as int),
            first_apage_bv(raw, pn, 0) == first_apage_bv(raw, pn, bv as int),
        decreases 256 - bv,
    {
        let cand = bv as u8;
        let mut s: usize = 0;
        while s < SECTORS
            invariant
                s <= SECTORS,
                raw.len() == PAGE,
                c@.len() == TRAILER_START,
                plain@.len() == TRAILER_START,
                forall|j: int| 0 <= j < TRAILER_START ==>
                    c@[j] == unmix(raw[j], 0, sector_index(j), base_free_step(raw, j / 512) as int),
                forall|j: int| 0 <= j < sector_start(s as int) && j < TRAILER_START ==>
                    plain@[j] == apage_body(raw, pn, cand as int)[j],
            decreases SECTORS - s,
        {
            let off = s * SECTOR;
            let end = if s == SECTORS - 1 { TRAILER_START } else { off + SECTOR };
            let base = ap_base(pn, s, cand);
            let n = end - off;
            let mut i: usize = 0;
            while i < n
                invariant
                    i <= n,
                    s < SECTORS,
                    off == s * 512,
                    end == sector_end(s as int),
                    n == end - off,
                    raw.len() == PAGE,
                    c@.len() == TRAILER_START,
                    plain@.len() == TRAILER_START,
                    base == sector_base(pn, s as int, cand as int),
                    forall|j: int| 0 <= j < TRAILER_START ==>
                        c@[j] == unmix(raw[j], 0, sector_index(j), base_free_step(raw, j / 512) as int),
                    forall|j: int| 0 <= j < off + i && j < TRAILER_START ==>
                        plain@[j] == apage_body(raw, pn, cand as int)[j],
                decreases n - i,
            {
                let j = off + i;
                let x = c[j].wrapping_sub(base);
                proof {
                    lemma_sector_index(s as int, i as int);
                    lemma_wrapping_u8(c@[j as int], base);
                    let st = base_free_step(raw, s as int) as int;
                    let y = raw[j as int] - 0 - i * st;
                    lemma_m256_sub_left(y, base as int);
                    assert(raw[j as int] - base - i * st == y - base);
                }
                plain.set(j, x);
                i = i + 1;
            }
            s = s + 1;
        }
        assert(plain@ =~= apage_body(raw, pn, cand as int));
        if contains_subseq(plain.as_slice(), &APAGE_MAGIC) {
            return Some(cand);
        }
        bv = bv + 1;
    }
    None
}

/// Count the zero bytes among the first `n` bytes of `s`.
fn count_zeros(s: &[u8], n: usize) -> (z: usize)
    requires
        n <= s@.len(),
    ensures
        z as nat == zeros_upto(s@, n as int),
        z <= n,
{
    let mut z: usize = 0;
    let mut i: usize = 0;
    while i < n
        invariant
            i <= n,
            n <= s@.len(),
            z as nat == zeros_upto(s@, i as int),
            z <= i,
        decreases n - i,
    {
        if s[i] == 0 {
            z = z + 1;
        }
        i = i + 1;
    }
    z
}

/// Cascade of bv-recovery oracles in order of decreasing confidence: the
/// page-trailer anchor, then the first-byte oracle when its decode has at
/// least 5 % zero bytes, then the exhaustive zero-count search.
pub fn recover_bv_any(pn: u64, raw: &[u8]) -> (r: Option<u8>)
    requires
        raw@.len() == PAGE,
    ensures
        r == spec_recover_bv_any(raw@, pn),
{
    if let Some(bv) = recover_bv_qb_data(pn, raw) {
        return Some(bv);
    }
    let obv = oracle_bv_e_page(pn, raw);
    let plain = deobfuscate_with_bv(raw, pn, obv);
    let zeros = count_zeros(plain.as_slice(), TRAILER_START);
    if zeros * 100 / TRAILER_START >= 5 {
        return Some(obv);
    }
    recover_bv_brute(pn, raw)
}

// ---------------------------------------------------------------------------
// Laws
// ---------------------------------------------------------------------------

proof fn lemma_m256_def(x: int)
    ensures
        m256(x) == x - 256 * (x / 256),
{
    lemma_fundamental_div_mod(x, 256);
}

proof fn lemma_peak_upto_ge(sec: Seq<u8>, base: int, step: int, k: int, v: int)
    requires
        0 <= v < k,
    ensures
        count_decoded(sec, base, step, v, sec.len() as int) <= peak_upto(sec, base, step, k),
    decreases k,
{
    if v < k - 1 {
        lemma_peak_upto_ge(sec, base, step, k - 1, v);
    }
}

proof fn peak_witness(sec: Seq<u8>, base: int, step: int, k: int) -> (v: int)
    requires
        k >= 1,
    ensures
        0 <= v < k,
        count_decoded(sec, base, step, v, sec.len() as int) == peak_upto(sec, base, step, k),
    decreases k,
{
    if k == 1 {
        0
    } else {
        let w = peak_witness(sec, base, step, k - 1);
        if count_decoded(sec, base, step, k - 1, sec.len() as int) > peak_upto(sec, base, step, k - 1) {
            k - 1
        } else {
            w
        }
    }
}

proof fn lemma_step_peak_shift(sec: Seq<u8>, base: int, step: int)
    requires
        0 <= base < 256,
    ensures
        step_peak(sec, base, step) == step_peak(sec, 0, step),
{
    let n = sec.len() as int;
    let w = peak_witness(sec, base, step, 256);
    lemma_count_shift(sec, base, step, w, n);
    lemma_peak_upto_ge(sec, 0, step, 256, m256(w + base) as int);
    let w0 = peak_witness(sec, 0, step, 256);
    let v = m256(w0 - base) as int;
    lemma_count_shift(sec, base, step, v, n);
    lemma_m256_add_left(w0 - base, base);
    assert(m256(w0) == w0);
    assert(m256(v + base) == w0);
    lemma_peak_upto_ge(sec, base, step, 256, v);
}

proof fn lemma_first_best_step_shift(sec: Seq<u8>, base: int, k: int)
    requires
        0 <= base < 256,
    ensures
        first_best_step(sec, base, k) == first_best_step(sec, 0, k),
    decreases k,
{
    if k > 1 {
        lemma_first_best_step_shift(sec, base, k - 1);
        let b = first_best_step(sec, 0, k - 1);
        lemma_step_peak_shift(sec, base, k - 1);
        lemma_step_peak_shift(sec, base, b);
    }
}

/// The recovered step of a sector does not depend on the base it is
/// recovered at: shifting the base only permutes the histogram buckets, so
/// every candidate step keeps its peak height.
pub proof fn lemma_recover_step_base_invariant(sec: Seq<u8>, base: int)
    requires
        0 <= base < 256,
    ensures
        spec_recover_step(sec, base) == spec_recover_step(sec, 0),
{
    lemma_first_best_step_shift(sec, base, 256);
}

/// The first-byte oracle always decodes byte 0 of the page to zero, so a
/// check `plain[0] == 0` on its own decode cannot reject a wrong guess.
pub proof fn lemma_oracle_decodes_zero_first_byte(raw: Seq<u8>, pn: u64)
    requires
        raw.len() == PAGE,
    ensures
        spec_deobfuscate(raw, pn, spec_oracle_bv(raw, pn))[0] == 0,
{
    let obv = spec_oracle_bv(raw, pn) as int;
    let b0 = raw[0] as int;
    let base = sector_base(pn, 0, obv) as int;
    assert(0int / 512 == 0);
    lemma_m256_def(b0 - pn + page_bias(pn));
    lemma_m256_def(obv + pn - page_bias(pn));
    let q1 = (b0 - pn + page_bias(pn)) / 256;
    let q2 = (obv + pn - page_bias(pn)) / 256;
    assert(base == b0 - 256 * q1 - 256 * q2);
    assert(b0 - base - 0 * (spec_recover_step(sector_of(raw, 0), base) as int) == 256 * (q1 + q2));
    lemma_m256_congruent(256 * (q1 + q2), 0, q1 + q2);
}

/// Decoding with the anchor oracle's table yields exactly the body that
/// [`deobfuscate_with_bv`] produces for the same `bv`.
pub proof fn lemma_qb_body_is_deobfuscated(raw: Seq<u8>, pn: u64, bv: u8)
    requires
        raw.len() == PAGE,
    ensures
        qb_body(raw, pn, bv as int) == spec_deobfuscate(raw, pn, bv).subrange(0, TRAILER_START as int),
{
    assert forall|j: int| 0 <= j < TRAILER_START implies #[trigger] qb_body(raw, pn, bv as int)[j]
        == spec_deobfuscate(raw, pn, bv)[j] by {
        let si = j / 512;
        let i = j - sector_start(si);
        let sec = sector_of(raw, si);
        let b_or = sector_base(pn, si, spec_oracle_bv(raw, pn) as int) as int;
        let b_bv = sector_base(pn, si, bv as int) as int;
        let b_0 = sector_base(pn, si, 0) as int;
        lemma_recover_step_base_invariant(sec, b_or);
        lemma_recover_step_base_invariant(sec, b_bv);
        let st = spec_recover_step(sec, 0) as int;
        let r = raw[j] as int;
        let x = r - b_0 - i * st;
        lemma_m256_def(x);
        lemma_m256_def(pn + si - page_bias(pn));
        lemma_m256_def(bv + pn + si - page_bias(pn));
        let q0 = (pn + si - page_bias(pn)) / 256;
        let qb = (bv + pn + si - page_bias(pn)) / 256;
        let qx = x / 256;
        // qb_plain = m256(m256(x) - bv), decoded = m256(r - b_bv - i * st)
        assert(m256(x) - bv == (r - b_bv - i * st) + 256 * (q0 - qx - qb));
        lemma_m256_congruent(m256(x) - bv, r - b_bv - i * st, q0 - qx - qb);
    }
    assert(qb_body(raw, pn, bv as int) =~= spec_deobfuscate(raw, pn, bv).subrange(0, TRAILER_START as int));
}

/// Whenever the anchor oracle returns a bv, decoding the page with that bv
/// ([`deobfuscate_with_bv`]) yields a body that carries the anchor
/// `[trailer_rc, 0x00, 0xD5, 0x0B]`.
pub proof fn lemma_qb_result_decodes_anchor(raw: Seq<u8>, pn: u64)
    requires
        spec_recover_bv_qb(raw, pn) is Some,
    ensures
        exists|p: int|
            0 <= p <= TRAILER_START - 4 && anchor_at(
                spec_deobfuscate(raw, pn, spec_recover_bv_qb(raw, pn).unwrap()),
                raw[TRAILER_START as int],
                p,
            ),
{
    let bv = spec_recover_bv_qb(raw, pn).unwrap();
    lemma_first_qb_bv_sound(raw, pn, 0);
    lemma_qb_body_is_deobfuscated(raw, pn, bv);
    let body = qb_body(raw, pn, bv as int);
    let p = choose|p: int| 0 <= p <= TRAILER_START - 4 && anchor_at(body, raw[TRAILER_START as int], p);
    let page = spec_deobfuscate(raw, pn, bv);
    assert(body[p] == page[p] && body[p + 1] == page[p + 1] && body[p + 2] == page[p + 2] && body[p + 3] == page[p + 3]);
    assert(anchor_at(page, raw[TRAILER_START as int], p));
}

proof fn lemma_first_qb_bv_sound(raw: Seq<u8>, pn: u64, k: int)
    ensures
        first_qb_bv(raw, pn, k) matches Some(b) ==> qb_anchor_present(raw, pn, b as int),
    decreases 256 - k,
{
    if 0 <= k < 256 && !qb_anchor_present(raw, pn, k) {
        lemma_first_qb_bv_sound(raw, pn, k + 1);
    }
}

/// The A-page oracle's decode for candidate `bv` is exactly the body that
/// [`deobfuscate_with_bv`] produces for that `bv`.
pub proof fn lemma_apage_body_is_deobfuscated(raw: Seq<u8>, pn: u64, bv: u8)
    requires
        raw.len() == PAGE,
    ensures
        apage_body(raw, pn, bv as int) == spec_deobfuscate(raw, pn, bv).subrange(0, TRAILER_START as int),
{
    assert forall|j: int| 0 <= j < TRAILER_START implies #[trigger] apage_body(raw, pn, bv as int)[j]
        == spec_deobfuscate(raw, pn, bv)[j] by {
        let si = j / 512;
        lemma_recover_step_base_invariant(sector_of(raw, si), sector_base(pn, si, bv as int) as int);
    }
    assert(apage_body(raw, pn, bv as int) =~= spec_deobfuscate(raw, pn, bv).subrange(0, TRAILER_START as int));
}

proof fn lemma_first_apage_bv_sound(raw: Seq<u8>, pn: u64, k: int)
    ensures
        first_apage_bv(raw, pn, k) matches Some(b) ==> seq_contains(apage_body(raw, pn, b as int), APAGE_MAGIC@),
    decreases 256 - k,
{
    if 0 <= k < 256 && !seq_contains(apage_body(raw, pn, k), APAGE_MAGIC@) {
        lemma_first_apage_bv_sound(raw, pn, k + 1);
    }
}

/// Whenever the A-page oracle returns a bv, decoding the page with that bv
/// ([`deobfuscate_with_bv`]) yields a body that contains [`APAGE_MAGIC`].
pub proof fn lemma_apage_result_decodes_magic(raw: Seq<u8>, pn: u64)
    requires
        spec_recover_bv_apage(raw, pn) is Some,
    ensures
        seq_contains(
            spec_deobfuscate(raw, pn, spec_recover_bv_apage(raw, pn).unwrap()).subrange(0, TRAILER_START as int),
            APAGE_MAGIC@,
        ),
{
    let bv = spec_recover_bv_apage(raw, pn).unwrap();
    lemma_first_apage_bv_sound(raw, pn, 0);
    lemma_apage_body_is_deobfuscated(raw, pn, bv);
}

/// Encode a plaintext page: the body is mixed sector by sector with the
/// given steps, the trailer is stored verbatim.
pub open spec fn spec_encode(plain: Seq<u8>, pn: u64, bv: u8, steps: Seq<u8>) -> Seq<u8> {
    Seq::new(
        PAGE as nat,
        |j: int|
            if j < TRAILER_START {
                let si = j / 512;
                m256(plain[j] + sector_base(pn, si, bv as int) + sector_index(j) * steps[si])
            } else {
                plain[j]
            },
    )
}

/// Decoding undoes encoding: if a page was encoded with `bv` and per-sector
/// steps that the step recovery finds again, [`deobfuscate_with_bv`] with
/// the same `bv` returns the plaintext page.
pub proof fn lemma_deobfuscate_inverts_encode(plain: Seq<u8>, pn: u64, bv: u8, steps: Seq<u8>)
    requires
        plain.len() == PAGE,
        steps.len() == SECTORS,
        forall|si: int| 0 <= si < SECTORS ==> #[trigger] spec_recover_step(
            sector_of(spec_encode(plain, pn, bv, steps), si),
            sector_base(pn, si, bv as int) as int,
        ) == steps[si],
    ensures
        spec_deobfuscate(spec_encode(plain, pn, bv, steps), pn, bv) == plain,
{
    let enc = spec_encode(plain, pn, bv, steps);
    assert forall|j: int| 0 <= j < PAGE implies #[trigger] spec_deobfuscate(enc, pn, bv)[j] == plain[j] by {
        if j < TRAILER_START {
            let si = j / 512;
            let base = sector_base(pn, si, bv as int) as int;
            let st = steps[si] as int;
            let i = sector_index(j);
            let x = plain[j] + base + i * st;
            assert(0 <= si < 8);
            lemma_m256_def(x);
            lemma_m256_congruent(m256(x) - base - i * st, plain[j] as int, -(x / 256));
        }
    }
    assert(spec_deobfuscate(enc, pn, bv) =~= plain);
}

} // verus!
