//! Deduplication of catalog rows.
//!
//! The catalog scanners see the same row several times (catalog pages are
//! rewritten and old copies survive). A canonical catalog keeps the first
//! sighting of every key and orders the rows by key, the key comparing
//! its integers first and then its name bytes lexicographically.

use vstd::prelude::*;
use crate::sorting::{backwards, into_stack, lemma_backwards_front};

verus! {

/// Lexicographic order on byte strings (a proper prefix sorts first).
pub open spec fn bytes_lt(a: Seq<u8>, b: Seq<u8>) -> bool
    decreases a.len(),
{
    if a.len() == 0 {
        b.len() > 0
    } else if b.len() == 0 {
        false
    } else if a[0] < b[0] {
        true
    } else if a[0] > b[0] {
        false
    } else {
        bytes_lt(a.drop_first(), b.drop_first())
    }
}

/// A catalog key: two integers and a name.
pub type RowKey = (u32, u32, Seq<u8>);

/// The order of catalog keys: by the first integer, then the second, then
/// the name.
pub open spec fn key_lt(a: RowKey, b: RowKey) -> bool {
    a.0 < b.0 || (a.0 == b.0 && (a.1 < b.1 || (a.1 == b.1 && bytes_lt(a.2, b.2))))
}

pub proof fn lemma_bytes_lt_irreflexive(a: Seq<u8>)
    ensures
        !bytes_lt(a, a),
    decreases a.len(),
{
    if a.len() > 0 {
        lemma_bytes_lt_irreflexive(a.drop_first());
    }
}

pub proof fn lemma_bytes_lt_transitive(a: Seq<u8>, b: Seq<u8>, c: Seq<u8>)
    requires
        bytes_lt(a, b),
        bytes_lt(b, c),
    ensures
        bytes_lt(a, c),
    decreases a.len(),
{
    if a.len() > 0 && b.len() > 0 && c.len() > 0 && a[0] == b[0] && b[0] == c[0] {
        lemma_bytes_lt_transitive(a.drop_first(), b.drop_first(), c.drop_first());
    }
}

pub proof fn lemma_bytes_lt_total(a: Seq<u8>, b: Seq<u8>)
    requires
        a != b,
    ensures
        bytes_lt(a, b) || bytes_lt(b, a),
    decreases a.len(),
{
    if a.len() == 0 && b.len() == 0 {
        assert(a =~= b);
    }
    if a.len() > 0 && b.len() > 0 && a[0] == b[0] {
        if a.drop_first() == b.drop_first() {
            assert(a =~= seq![a[0]] + a.drop_first());
            assert(b =~= seq![b[0]] + b.drop_first());
        }
        lemma_bytes_lt_total(a.drop_first(), b.drop_first());
    }
}

pub proof fn lemma_bytes_lt_asymmetric(a: Seq<u8>, b: Seq<u8>)
    requires
        bytes_lt(a, b),
    ensures
        !bytes_lt(b, a),
{
    if bytes_lt(b, a) {
        lemma_bytes_lt_transitive(a, b, a);
        lemma_bytes_lt_irreflexive(a);
    }
}

/// `key_lt` is a strict total order.
pub proof fn lemma_key_order(a: RowKey, b: RowKey, c: RowKey)
    ensures
        !key_lt(a, a),
        key_lt(a, b) && key_lt(b, c) ==> key_lt(a, c),
        key_lt(a, b) ==> !key_lt(b, a),
        a != b ==> key_lt(a, b) || key_lt(b, a),
{
    lemma_bytes_lt_irreflexive(a.2);
    if key_lt(a, b) && key_lt(b, c) && a.0 == b.0 && b.0 == c.0 && a.1 == b.1 && b.1 == c.1 {
        lemma_bytes_lt_transitive(a.2, b.2, c.2);
    }
    if key_lt(a, b) && a.0 == b.0 && a.1 == b.1 {
        lemma_bytes_lt_asymmetric(a.2, b.2);
    }
    if a != b && a.0 == b.0 && a.1 == b.1 {
        lemma_bytes_lt_total(a.2, b.2);
    }
}

/// Compare two byte strings lexicographically.
pub fn bytes_lt_exec(a: &[u8], b: &[u8]) -> (r: bool)
    ensures
        r == bytes_lt(a@, b@),
{
    let la = a.len();
    let lb = b.len();
    let mut i: usize = 0;
    assert(a@.subrange(0, la as int) =~= a@);
    assert(b@.subrange(0, lb as int) =~= b@);
    while i < la && i < lb
        invariant
            la == a@.len(),
            lb == b@.len(),
            i <= la,
            i <= lb,
            bytes_lt(a@, b@) == bytes_lt(a@.subrange(i as int, la as int), b@.subrange(i as int, lb as int)),
        decreases la - i,
    {
        let ghost sa = a@.subrange(i as int, la as int);
        let ghost sb = b@.subrange(i as int, lb as int);
        if a[i] < b[i] {
            return true;
        }
        if a[i] > b[i] {
            return false;
        }
        assert(sa.drop_first() =~= a@.subrange(i + 1, la as int));
        assert(sb.drop_first() =~= b@.subrange(i + 1, lb as int));
        i = i + 1;
    }
    i < lb
}

/// A catalog row with a key.
pub trait KeyedRow: Sized {
    /// The key of the row.
    spec fn row_key(&self) -> RowKey;

    /// The parts of the key.
    fn key_parts(&self) -> (r: (u32, u32, &[u8]))
        ensures
            r.0 == self.row_key().0,
            r.1 == self.row_key().1,
            r.2@ == self.row_key().2;
}

/// Whether the keys of `s` are strictly increasing.
pub open spec fn keys_increasing<T: KeyedRow>(s: Seq<T>) -> bool {
    forall|i: int, j: int| 0 <= i < j < s.len() ==> key_lt(#[trigger] s[i].row_key(), #[trigger] s[j].row_key())
}

/// Whether `s[i]` is the first element of `s` with its key.
pub open spec fn first_with_key<T: KeyedRow>(s: Seq<T>, i: int) -> bool {
    &&& 0 <= i < s.len()
    &&& forall|j: int| 0 <= j < i ==> #[trigger] s[j].row_key() != s[i].row_key()
}

/// `out` is the canonical catalog of `input`: ordered by key, holding
/// only first sightings, and holding a row for every key of `input`.
pub open spec fn canonical_of<T: KeyedRow>(input: Seq<T>, out: Seq<T>) -> bool {
    summarises(input, input.len() as int, out)
}

/// Compare the keys of two rows.
fn key_lt_exec<T: KeyedRow>(a: &T, b: &T) -> (r: bool)
    ensures
        r == key_lt(a.row_key(), b.row_key()),
{
    let (a0, a1, a2) = a.key_parts();
    let (b0, b1, b2) = b.key_parts();
    a0 < b0 || (a0 == b0 && (a1 < b1 || (a1 == b1 && bytes_lt_exec(a2, b2))))
}

/// Whether some row of `out` has key `key`.
pub open spec fn has_key<T: KeyedRow>(out: Seq<T>, key: RowKey) -> bool {
    exists|m: int| 0 <= m < out.len() && #[trigger] out[m].row_key() == key
}

/// Whether `x` is the first sighting of its key among the first `k` rows
/// of `input`.
pub open spec fn sighted_first<T: KeyedRow>(input: Seq<T>, k: int, x: T) -> bool {
    exists|i: int| 0 <= i < k && first_with_key(input, i) && #[trigger] input[i] == x
}

/// The first `k` rows of `input` are summarised by `out`: `out` is
/// ordered by key, holds only first sightings among them, and holds a row
/// for each of their keys.
pub open spec fn summarises<T: KeyedRow>(input: Seq<T>, k: int, out: Seq<T>) -> bool {
    &&& keys_increasing(out)
    &&& forall|m: int| 0 <= m < out.len() ==> #[trigger] sighted_first(input, k, out[m])
    &&& forall|i: int| 0 <= i < k ==> #[trigger] has_key(out, input[i].row_key())
}

proof fn lemma_summarises_dup<T: KeyedRow>(input: Seq<T>, k: int, out: Seq<T>, p: int)
    requires
        summarises(input, k, out),
        0 <= k < input.len(),
        0 <= p < out.len(),
        out[p].row_key() == input[k].row_key(),
    ensures
        summarises(input, k + 1, out),
{
    assert forall|m: int| 0 <= m < out.len() implies #[trigger] sighted_first(input, k + 1, out[m]) by {
        assert(sighted_first(input, k, out[m]));
        let i = choose|i: int| 0 <= i < k && first_with_key(input, i) && #[trigger] input[i] == out[m];
        assert(0 <= i < k + 1 && first_with_key(input, i) && input[i] == out[m]);
    }
    assert forall|i: int| 0 <= i < k + 1 implies #[trigger] has_key(out, input[i].row_key()) by {
        if i == k {
            assert(out[p].row_key() == input[i].row_key());
        }
    }
}

proof fn lemma_summarises_insert<T: KeyedRow>(input: Seq<T>, k: int, before: Seq<T>, p: int)
    requires
        summarises(input, k, before),
        0 <= k < input.len(),
        0 <= p <= before.len(),
        forall|m: int| 0 <= m < p ==> key_lt(#[trigger] before[m].row_key(), input[k].row_key()),
        p < before.len() ==> key_lt(input[k].row_key(), before[p].row_key()),
    ensures
        summarises(input, k + 1, before.insert(p, input[k])),
{
    let e = input[k];
    let out = before.insert(p, e);
    assert forall|j: int| 0 <= j < k implies #[trigger] input[j].row_key() != input[k].row_key() by {
        assert(has_key(before, input[j].row_key()));
        let m = choose|m: int| 0 <= m < before.len() && #[trigger] before[m].row_key() == input[j].row_key();
        if m < p {
            lemma_key_order(before[m].row_key(), e.row_key(), e.row_key());
        } else {
            if m > p {
                assert(key_lt(before[p].row_key(), before[m].row_key()));
                lemma_key_order(e.row_key(), before[p].row_key(), before[m].row_key());
            }
            lemma_key_order(e.row_key(), before[m].row_key(), e.row_key());
        }
    }
    assert(first_with_key(input, k));
    assert forall|i: int, j: int| 0 <= i < j < out.len() implies key_lt(#[trigger] out[i].row_key(), #[trigger] out[j].row_key()) by {
        if i < p && j == p {
        } else if i == p && j > p {
            assert(out[j] == before[j - 1]);
            if j - 1 > p {
                assert(key_lt(before[p].row_key(), before[j - 1].row_key()));
                lemma_key_order(e.row_key(), before[p].row_key(), before[j - 1].row_key());
            }
        } else if i < p && j > p {
            assert(key_lt(before[i].row_key(), before[j - 1].row_key()));
        } else if i > p {
            assert(key_lt(before[i - 1].row_key(), before[j - 1].row_key()));
        } else {
            assert(key_lt(before[i].row_key(), before[j].row_key()));
        }
    }
    assert forall|m: int| 0 <= m < out.len() implies #[trigger] sighted_first(input, k + 1, out[m]) by {
        if m == p {
            assert(out[m] == input[k]);
            assert(0 <= k < k + 1 && first_with_key(input, k) && input[k] == out[m]);
        } else {
            let mb = if m < p { m } else { m - 1 };
            assert(out[m] == before[mb]);
            assert(sighted_first(input, k, before[mb]));
            let i = choose|i: int| 0 <= i < k && first_with_key(input, i) && #[trigger] input[i] == before[mb];
            assert(0 <= i < k + 1 && first_with_key(input, i) && input[i] == out[m]);
        }
    }
    assert forall|i: int| 0 <= i < k + 1 implies #[trigger] has_key(out, input[i].row_key()) by {
        if i == k {
            assert(out[p].row_key() == input[i].row_key());
        } else {
            assert(has_key(before, input[i].row_key()));
            let m0 = choose|m: int| 0 <= m < before.len() && #[trigger] before[m].row_key() == input[i].row_key();
            if m0 < p {
                assert(out[m0] == before[m0]);
            } else {
                assert(out[m0 + 1] == before[m0]);
            }
        }
    }
}

/// Keep the first row of each key and order the rows by key.
pub fn unique_by_key<T: KeyedRow>(rows: Vec<T>) -> (out: Vec<T>)
    ensures
        canonical_of(rows@, out@),
{
    let ghost input = rows@;
    let n = rows.len();
    let mut rest = into_stack(rows);
    let mut out: Vec<T> = Vec::new();
    let mut k: usize = 0;
    while rest.len() > 0
        invariant
            n == input.len(),
            k <= n,
            rest@ == backwards(input.subrange(k as int, n as int)),
            summarises(input, k as int, out@),
        decreases rest@.len(),
    {
        proof {
                lemma_backwards_front(input.subrange(k as int, n as int));
            }
            let e = rest.pop().unwrap();
        assert(e == input[k as int]);
        // The insertion point: the first row whose key is not below e's.
        let mut p: usize = 0;
        while p < out.len() && key_lt_exec(&out[p], &e)
            invariant
                p <= out@.len(),
                forall|m: int| 0 <= m < p ==> key_lt(#[trigger] out@[m].row_key(), e.row_key()),
            decreases out@.len() - p,
        {
            p = p + 1;
        }
        let dup = p < out.len() && !key_lt_exec(&e, &out[p]);
        if dup {
            proof {
                lemma_key_order(e.row_key(), out@[p as int].row_key(), e.row_key());
                lemma_summarises_dup(input, k as int, out@, p as int);
            }
        } else {
            proof {
                lemma_summarises_insert(input, k as int, out@, p as int);
            }
            out.insert(p, e);
        }
        k = k + 1;
        assert(input.subrange(k as int - 1, n as int).drop_first() =~= input.subrange(k as int, n as int));
    }
    out
}

} // verus!
