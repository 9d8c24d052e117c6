//! Stable sorting by a key, and removal of consecutive duplicates.

use vstd::prelude::*;

verus! {

/// The elements of `s` in reverse order.
pub open spec fn backwards<T>(s: Seq<T>) -> Seq<T> {
    Seq::new(s.len(), |i: int| s[s.len() - 1 - i])
}

/// Popping the reverse of a non-empty sequence yields its front, and
/// leaves the reverse of its tail.
pub proof fn lemma_backwards_front<T>(s: Seq<T>)
    requires
        s.len() > 0,
    ensures
        backwards(s).len() == s.len(),
        backwards(s).last() == s[0],
        backwards(s).drop_last() == backwards(s.drop_first()),
{
    assert(backwards(s).drop_last() =~= backwards(s.drop_first()));
}

/// Move the elements of `v` into a vector in reverse order, so that
/// popping it yields them front to back.
pub fn into_stack<T>(v: Vec<T>) -> (r: Vec<T>)
    ensures
        r@ == backwards(v@),
{
    let ghost input = v@;
    let mut v = v;
    let mut r: Vec<T> = Vec::new();
    while v.len() > 0
        invariant
            v@.len() <= input.len(),
            v@ == input.take(v@.len() as int),
            r@ == backwards(input.subrange(v@.len() as int, input.len() as int)),
        decreases v@.len(),
    {
        let ghost m = v@.len();
        let e = v.pop().unwrap();
        r.push(e);
        assert(v@ =~= input.take(v@.len() as int));
        assert(r@ =~= backwards(input.subrange(v@.len() as int, input.len() as int)));
    }
    r
}

/// Values ordered by a total preorder on a key.
pub trait SortKey: Sized {
    /// Whether the key of `self` is at most that of `other`.
    spec fn key_le(&self, other: &Self) -> bool;

    /// The order is total.
    proof fn lemma_key_le_total(a: &Self, b: &Self)
        ensures
            a.key_le(b) || b.key_le(a),
    ;

    /// The order is transitive.
    proof fn lemma_key_le_transitive(a: &Self, b: &Self, c: &Self)
        requires
            a.key_le(b),
            b.key_le(c),
        ensures
            a.key_le(c),
    ;

    /// Compare the keys of two values.
    fn key_le_exec(&self, other: &Self) -> (r: bool)
        ensures
            r == self.key_le(other),
    ;
}

impl SortKey for u32 {
    open spec fn key_le(&self, other: &Self) -> bool {
        *self <= *other
    }

    proof fn lemma_key_le_total(a: &Self, b: &Self) {
    }

    proof fn lemma_key_le_transitive(a: &Self, b: &Self, c: &Self) {
    }

    fn key_le_exec(&self, other: &Self) -> (r: bool) {
        *self <= *other
    }
}

/// Insert `e` into `s` behind every element whose key is at most `e`'s,
/// scanning from the back.
pub open spec fn insert_sorted<T: SortKey>(s: Seq<T>, e: T) -> Seq<T>
    decreases s.len(),
{
    if s.len() == 0 {
        seq![e]
    } else if s.last().key_le(&e) {
        s.push(e)
    } else {
        insert_sorted(s.drop_last(), e).push(s.last())
    }
}

/// The stable sort of `s` by key: equal keys keep their order.
pub open spec fn stable_sorted<T: SortKey>(s: Seq<T>) -> Seq<T>
    decreases s.len(),
{
    if s.len() == 0 {
        s
    } else {
        insert_sorted(stable_sorted(s.drop_last()), s.last())
    }
}

proof fn lemma_insert_sorted_len<T: SortKey>(s: Seq<T>, e: T)
    ensures
        insert_sorted(s, e).len() == s.len() + 1,
    decreases s.len(),
{
    if s.len() > 0 && !s.last().key_le(&e) {
        lemma_insert_sorted_len(s.drop_last(), e);
    }
}

/// Sorting keeps the number of elements.
pub proof fn lemma_stable_sorted_len<T: SortKey>(s: Seq<T>)
    ensures
        stable_sorted(s).len() == s.len(),
    decreases s.len(),
{
    if s.len() > 0 {
        lemma_stable_sorted_len(s.drop_last());
        lemma_insert_sorted_len(stable_sorted(s.drop_last()), s.last());
    }
}

/// Whether the keys of `s` never decrease.
pub open spec fn key_sorted<T: SortKey>(s: Seq<T>) -> bool {
    forall|i: int, j: int| #![trigger s[i], s[j]] 0 <= i < j < s.len() ==> s[i].key_le(&s[j])
}

proof fn lemma_insert_at<T: SortKey>(s: Seq<T>, e: T, p: int)
    requires
        0 <= p <= s.len(),
        forall|i: int| p <= i < s.len() ==> !(#[trigger] s[i]).key_le(&e),
        p > 0 ==> s[p - 1].key_le(&e),
    ensures
        insert_sorted(s, e) == s.insert(p, e),
    decreases s.len(),
{
    if s.len() == 0 {
        assert(s.insert(p, e) =~= seq![e]);
    } else if p == s.len() {
        assert(s.insert(p, e) =~= s.push(e));
    } else {
        assert(!s.last().key_le(&e));
        lemma_insert_at(s.drop_last(), e, p);
        assert(s.drop_last().insert(p, e).push(s.last()) =~= s.insert(p, e));
    }
}

proof fn lemma_insert_keeps_sorted<T: SortKey>(s: Seq<T>, e: T, p: int)
    requires
        key_sorted(s),
        0 <= p <= s.len(),
        forall|i: int| p <= i < s.len() ==> !(#[trigger] s[i]).key_le(&e),
        p > 0 ==> s[p - 1].key_le(&e),
    ensures
        key_sorted(s.insert(p, e)),
{
    let out = s.insert(p, e);
    assert forall|i: int, j: int| #![trigger out[i], out[j]] 0 <= i < j < out.len() implies out[i].key_le(&out[j]) by {
        if i < p && j == p {
            if i < p - 1 {
                T::lemma_key_le_transitive(&s[i], &s[p - 1], &e);
            }
        } else if i == p && j > p {
            T::lemma_key_le_total(&e, &s[j - 1]);
        } else if i < p && j > p {
            assert(s[i].key_le(&s[j - 1]));
        } else if i > p {
            assert(out[i] == s[i - 1] && out[j] == s[j - 1]);
        } else {
            assert(out[i] == s[i] && out[j] == s[j]);
        }
    }
}

/// The position behind the last element whose key is at most `e`'s,
/// searching from the end.
fn insertion_position<T: SortKey>(v: &Vec<T>, e: &T) -> (p: usize)
    ensures
        p <= v@.len(),
        forall|i: int| p <= i < v@.len() ==> !(#[trigger] v@[i]).key_le(e),
        p > 0 ==> v@[p - 1].key_le(e),
{
    let mut p = v.len();
    while p > 0 && !v[p - 1].key_le_exec(e)
        invariant
            p <= v@.len(),
            forall|i: int| p <= i < v@.len() ==> !(#[trigger] v@[i]).key_le(e),
        decreases p,
    {
        p = p - 1;
    }
    p
}

/// Sort by key, keeping the order of elements with equal keys.
pub fn stable_sort<T: SortKey>(v: Vec<T>) -> (out: Vec<T>)
    ensures
        out@ == stable_sorted(v@),
        key_sorted(out@),
{
    let ghost input = v@;
    let n = v.len();
    let mut rest = into_stack(v);
    let mut out: Vec<T> = Vec::new();
    let mut k: usize = 0;
    while rest.len() > 0
        invariant
            n == input.len(),
            k <= n,
            rest@ == backwards(input.subrange(k as int, n as int)),
            out@ == stable_sorted(input.take(k as int)),
            key_sorted(out@),
        decreases rest@.len(),
    {
        proof {
                lemma_backwards_front(input.subrange(k as int, n as int));
            }
            let e = rest.pop().unwrap();
        let p = insertion_position(&out, &e);
        proof {
            assert(e == input[k as int]);
            assert(input.take(k + 1).drop_last() =~= input.take(k as int));
            lemma_insert_at(out@, e, p as int);
            lemma_insert_keeps_sorted(out@, e, p as int);
        }
        out.insert(p, e);
        k = k + 1;
        assert(input.subrange(k as int - 1, n as int).drop_first() =~= input.subrange(k as int, n as int));
    }
    assert(input.take(n as int) =~= input);
    out
}

/// Values that can be compared for the removal of consecutive
/// duplicates.
pub trait SameAs: Sized {
    /// Whether two values are duplicates.
    spec fn same(&self, other: &Self) -> bool;

    /// Compare two values.
    fn same_exec(&self, other: &Self) -> (r: bool)
        ensures
            r == self.same(other),
    ;
}

/// `s` without every element that duplicates the last element kept
/// before it.
pub open spec fn dedup_consecutive<T: SameAs>(s: Seq<T>) -> Seq<T>
    decreases s.len(),
{
    if s.len() == 0 {
        s
    } else {
        let d = dedup_consecutive(s.drop_last());
        if d.len() > 0 && s.last().same(&d.last()) {
            d
        } else {
            d.push(s.last())
        }
    }
}

/// Remove every element that duplicates the last element kept before it.
pub fn dedup_consecutive_exec<T: SameAs>(v: Vec<T>) -> (out: Vec<T>)
    ensures
        out@ == dedup_consecutive(v@),
{
    let ghost input = v@;
    let n = v.len();
    let mut rest = into_stack(v);
    let mut out: Vec<T> = Vec::new();
    let mut k: usize = 0;
    while rest.len() > 0
        invariant
            n == input.len(),
            k <= n,
            rest@ == backwards(input.subrange(k as int, n as int)),
            out@ == dedup_consecutive(input.take(k as int)),
        decreases rest@.len(),
    {
        proof {
                lemma_backwards_front(input.subrange(k as int, n as int));
            }
            let e = rest.pop().unwrap();
        proof {
            assert(e == input[k as int]);
            assert(input.take(k + 1).drop_last() =~= input.take(k as int));
        }
        let dup = out.len() > 0 && e.same_exec(&out[out.len() - 1]);
        if !dup {
            out.push(e);
        }
        k = k + 1;
        assert(input.subrange(k as int - 1, n as int).drop_first() =~= input.subrange(k as int, n as int));
    }
    assert(input.take(n as int) =~= input);
    out
}

proof fn lemma_insert_sorted_props<T: SortKey>(s: Seq<T>, e: T)
    requires
        key_sorted(s),
    ensures
        key_sorted(insert_sorted(s, e)),
        forall|i: int|
            0 <= i < insert_sorted(s, e).len() ==> #[trigger] insert_sorted(s, e)[i] == e || s.contains(
                insert_sorted(s, e)[i],
            ),
    decreases s.len(),
{
    lemma_insert_sorted_len(s, e);
    if s.len() == 0 {
    } else if s.last().key_le(&e) {
        let r = s.push(e);
        assert forall|i: int, j: int| #![trigger r[i], r[j]] 0 <= i < j < r.len() implies r[i].key_le(&r[j]) by {
            if j == s.len() {
                if i < s.len() - 1 {
                    T::lemma_key_le_transitive(&s[i], &s[s.len() - 1], &e);
                }
            } else {
                assert(r[i] == s[i] && r[j] == s[j]);
            }
        }
        assert forall|i: int| 0 <= i < r.len() implies #[trigger] r[i] == e || s.contains(r[i]) by {
            if i < s.len() {
                assert(r[i] == s[i]);
            }
        }
    } else {
        let d = s.drop_last();
        let last = s.last();
        assert(key_sorted(d)) by {
            assert forall|i: int, j: int| #![trigger d[i], d[j]] 0 <= i < j < d.len() implies d[i].key_le(&d[j]) by {
                assert(d[i] == s[i] && d[j] == s[j]);
            }
        }
        lemma_insert_sorted_props(d, e);
        let q = insert_sorted(d, e);
        lemma_insert_sorted_len(d, e);
        let r = q.push(last);
        T::lemma_key_le_total(&last, &e);
        assert forall|i: int| 0 <= i < q.len() implies (#[trigger] q[i]).key_le(&last) by {
            if q[i] != e {
                assert(d.contains(q[i]));
                let j = choose|j: int| 0 <= j < d.len() && d[j] == q[i];
                assert(s[j] == d[j]);
                assert(s[j].key_le(&s[s.len() - 1]));
            }
        }
        assert forall|i: int, j: int| #![trigger r[i], r[j]] 0 <= i < j < r.len() implies r[i].key_le(&r[j]) by {
            if j == q.len() {
                assert(r[i] == q[i]);
            } else {
                assert(r[i] == q[i] && r[j] == q[j]);
            }
        }
        assert forall|i: int| 0 <= i < r.len() implies #[trigger] r[i] == e || s.contains(r[i]) by {
            if i < q.len() {
                assert(r[i] == q[i]);
                if q[i] != e {
                    assert(d.contains(q[i]));
                    let j = choose|j: int| 0 <= j < d.len() && d[j] == q[i];
                    assert(s[j] == q[i]);
                }
            } else {
                assert(s[s.len() - 1] == r[i]);
            }
        }
    }
}

/// The stable sort of any sequence has non-decreasing keys.
pub proof fn lemma_stable_sorted_is_sorted<T: SortKey>(s: Seq<T>)
    ensures
        key_sorted(stable_sorted(s)),
    decreases s.len(),
{
    if s.len() > 0 {
        lemma_stable_sorted_is_sorted(s.drop_last());
        lemma_insert_sorted_props(stable_sorted(s.drop_last()), s.last());
    }
}

/// Removing consecutive duplicates keeps only elements of the input,
/// keeps sorted keys sorted, and leaves no element that duplicates the
/// one before it.
pub proof fn lemma_dedup_consecutive_props<T: SameAs + SortKey>(s: Seq<T>)
    ensures
        forall|i: int| 0 <= i < dedup_consecutive(s).len() ==> s.contains(#[trigger] dedup_consecutive(s)[i]),
        key_sorted(s) ==> key_sorted(dedup_consecutive(s)),
        forall|i: int|
            0 <= i < dedup_consecutive(s).len() - 1 ==> !(#[trigger] dedup_consecutive(s)[i + 1]).same(
                &dedup_consecutive(s)[i],
            ),
    decreases s.len(),
{
    if s.len() > 0 {
        let d0 = s.drop_last();
        lemma_dedup_consecutive_props(d0);
        let d = dedup_consecutive(d0);
        let r = dedup_consecutive(s);
        let last = s.last();
        assert forall|i: int| 0 <= i < d.len() implies s.contains(#[trigger] d[i]) by {
            assert(d0.contains(d[i]));
            let j = choose|j: int| 0 <= j < d0.len() && d0[j] == d[i];
            assert(s[j] == d[i]);
        }
        if !(d.len() > 0 && last.same(&d.last())) {
            assert(r == d.push(last));
            assert forall|i: int| 0 <= i < r.len() implies s.contains(#[trigger] r[i]) by {
                if i < d.len() {
                    assert(r[i] == d[i]);
                } else {
                    assert(s[s.len() - 1] == r[i]);
                }
            }
            if key_sorted(s) {
                assert(key_sorted(d0)) by {
                    assert forall|i: int, j: int| #![trigger d0[i], d0[j]] 0 <= i < j < d0.len() implies d0[i].key_le(
                        &d0[j],
                    ) by {
                        assert(d0[i] == s[i] && d0[j] == s[j]);
                    }
                }
                assert forall|i: int, j: int| #![trigger r[i], r[j]] 0 <= i < j < r.len() implies r[i].key_le(&r[j]) by {
                    if j == d.len() {
                        assert(r[i] == d[i]);
                        assert(d0.contains(d[i]));
                        let k = choose|k: int| 0 <= k < d0.len() && d0[k] == d[i];
                        assert(s[k] == d[i]);
                        assert(s[k].key_le(&s[s.len() - 1]));
                    } else {
                        assert(r[i] == d[i] && r[j] == d[j]);
                    }
                }
            }
            assert forall|i: int| 0 <= i < r.len() - 1 implies !(#[trigger] r[i + 1]).same(&r[i]) by {
                if i + 1 < d.len() {
                    assert(r[i + 1] == d[i + 1] && r[i] == d[i]);
                } else {
                    assert(r[i] == d.last());
                }
            }
        } else {
            assert(r == d);
            if key_sorted(s) {
                assert(key_sorted(d0)) by {
                    assert forall|i: int, j: int| #![trigger d0[i], d0[j]] 0 <= i < j < d0.len() implies d0[i].key_le(
                        &d0[j],
                    ) by {
                        assert(d0[i] == s[i] && d0[j] == s[j]);
                    }
                }
            }
        }
    }
}

/// The stable sort of a sequence holds only elements of it.
pub proof fn lemma_stable_sorted_members<T: SortKey>(s: Seq<T>)
    ensures
        forall|i: int| 0 <= i < stable_sorted(s).len() ==> s.contains(#[trigger] stable_sorted(s)[i]),
    decreases s.len(),
{
    if s.len() > 0 {
        let d = s.drop_last();
        lemma_stable_sorted_members(d);
        lemma_stable_sorted_is_sorted(d);
        lemma_insert_sorted_props(stable_sorted(d), s.last());
        let r = stable_sorted(s);
        assert forall|i: int| 0 <= i < r.len() implies s.contains(#[trigger] r[i]) by {
            if r[i] == s.last() {
                assert(s[s.len() - 1] == r[i]);
            } else {
                assert(stable_sorted(d).contains(r[i]));
                let k = choose|k: int| 0 <= k < stable_sorted(d).len() && stable_sorted(d)[k] == r[i];
                assert(d.contains(stable_sorted(d)[k]));
                let j = choose|j: int| 0 <= j < d.len() && d[j] == r[i];
                assert(s[j] == r[i]);
            }
        }
    }
}

} // verus!
