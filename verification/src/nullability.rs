//! The nullability / default-marker byte of `SYSCOLUMN`.
//!
//! Each `SYSCOLUMN` row carries one byte (`nulls_flag`) that mixes SA17's
//! nullability, default presence and computed/identity markers. Its bit
//! layout is not known, so this module tallies the observed values and
//! keeps a few representative column names per value.

use vstd::prelude::*;
use opensqlany::{ApModel, PageStore};
use crate::codec::{bytes_equal, lemma_filter_push};
use crate::syscolumn::{columns_scanned_from, iter_syscolumns, SysColumn};
use crate::text::string_bytes;

verus! {

/// Most sample names kept per bucket.
pub const SAMPLE_LIMIT: usize = 4;

/// One bucket of the [`histogram`].
#[derive(Debug, Clone)]
pub struct NullsFlagBucket {
    /// The `nulls_flag` byte.
    pub flag: u8,
    /// How many `SYSCOLUMN` rows have this byte.
    pub count: usize,
    /// Up to four distinct names of such columns.
    pub sample_columns: Vec<String>,
}

/// The columns whose flag is `f`, in order.
pub open spec fn with_flag(cols: Seq<SysColumn>, f: u8) -> Seq<SysColumn> {
    cols.filter(|c: SysColumn| c.nulls_flag == f)
}

/// The first four distinct names of `names`, in order of appearance.
pub open spec fn first_distinct(names: Seq<Seq<u8>>) -> Seq<Seq<u8>>
    decreases names.len(),
{
    if names.len() == 0 {
        Seq::empty()
    } else {
        let p = first_distinct(names.drop_last());
        if p.len() < SAMPLE_LIMIT && !p.contains(names.last()) {
            p.push(names.last())
        } else {
            p
        }
    }
}

/// The names of the columns, as bytes.
pub open spec fn column_names(cols: Seq<SysColumn>) -> Seq<Seq<u8>> {
    cols.map_values(|c: SysColumn| string_bytes(c.name))
}

/// The bucket of flag `f`: its count and its sample names.
pub open spec fn bucket_matches(b: NullsFlagBucket, cols: Seq<SysColumn>) -> bool {
    &&& b.count == with_flag(cols, b.flag).len()
    &&& b.sample_columns@.map_values(|s: String| string_bytes(s)) == first_distinct(column_names(with_flag(cols, b.flag)))
}

/// `buckets` is the histogram of the flags of `cols`: one bucket per flag
/// that occurs, in increasing flag order.
pub open spec fn histogram_of_columns(cols: Seq<SysColumn>, buckets: Seq<NullsFlagBucket>) -> bool {
    &&& forall|i: int, j: int| 0 <= i < j < buckets.len() ==> (#[trigger] buckets[i]).flag < (#[trigger] buckets[j]).flag
    &&& forall|i: int| 0 <= i < buckets.len() ==> bucket_matches(#[trigger] buckets[i], cols) && buckets[i].count > 0
    &&& forall|f: u8| with_flag(cols, f).len() > 0 ==> exists|i: int| 0 <= i < buckets.len() && (#[trigger] buckets[i]).flag == f
}

/// Whether `names` holds `name`, comparing bytes.
fn holds_name(names: &Vec<String>, name: &String) -> (r: bool)
    ensures
        r == names@.map_values(|s: String| string_bytes(s)).contains(string_bytes(*name)),
{
    let ghost nb = names@.map_values(|s: String| string_bytes(s));
    let mut i: usize = 0;
    while i < names.len()
        invariant
            i <= names@.len(),
            nb == names@.map_values(|s: String| string_bytes(s)),
            forall|k: int| 0 <= k < i ==> nb[k] != string_bytes(*name),
        decreases names@.len() - i,
    {
        if bytes_equal(names[i].as_str().as_bytes(), name.as_str().as_bytes()) {
            assert(nb[i as int] == string_bytes(*name));
            return true;
        }
        i = i + 1;
    }
    false
}

/// The bucket of one flag.
fn bucket_for(cols: &[SysColumn], f: u8) -> (b: NullsFlagBucket)
    ensures
        b.flag == f,
        bucket_matches(b, cols@),
{
    let mut count: usize = 0;
    let mut samples: Vec<String> = Vec::new();
    let mut i: usize = 0;
    proof {
        reveal(Seq::filter);
        assert(cols@.take(0) =~= Seq::<SysColumn>::empty());
        assert(samples@.map_values(|s: String| string_bytes(s)) =~= Seq::<Seq<u8>>::empty());
    }
    while i < cols.len()
        invariant
            i <= cols@.len(),
            count == with_flag(cols@.take(i as int), f).len(),
            count <= i,
            samples@.map_values(|s: String| string_bytes(s)) == first_distinct(column_names(with_flag(cols@.take(i as int), f))),
        decreases cols@.len() - i,
    {
        let ghost pre = cols@.take(i as int);
        proof {
            assert(cols@.take(i + 1) =~= pre.push(cols@[i as int]));
            lemma_filter_push(pre, cols@[i as int], |c: SysColumn| c.nulls_flag == f);
        }
        if cols[i].nulls_flag == f {
            count = count + 1;
            let ghost names = column_names(with_flag(pre, f));
            proof {
                assert(column_names(with_flag(pre, f).push(cols@[i as int])) =~= names.push(string_bytes(cols@[i as int].name)));
                assert(names.push(string_bytes(cols@[i as int].name)).drop_last() =~= names);
            }
            if samples.len() < SAMPLE_LIMIT && !holds_name(&samples, &cols[i].name) {
                let ghost before = samples@;
                samples.push(cols[i].name.clone());
                proof {
                    assert(samples@.map_values(|s: String| string_bytes(s)) =~= before.map_values(|s: String| string_bytes(s)).push(
                        string_bytes(cols@[i as int].name),
                    ));
                }
            }
        }
        i = i + 1;
    }
    proof {
        assert(cols@.take(i as int) =~= cols@);
    }
    NullsFlagBucket { flag: f, count, sample_columns: samples }
}

/// The histogram of the `nulls_flag` byte over `columns`, one bucket per
/// occurring byte in increasing order.
pub fn histogram_of(columns: &[SysColumn]) -> (buckets: Vec<NullsFlagBucket>)
    ensures
        histogram_of_columns(columns@, buckets@),
{
    let mut buckets: Vec<NullsFlagBucket> = Vec::new();
    let mut f: u16 = 0;
    while f < 256
        invariant
            f <= 256,
            forall|i: int, j: int| 0 <= i < j < buckets@.len() ==> (#[trigger] buckets@[i]).flag < (#[trigger] buckets@[j]).flag,
            forall|i: int| 0 <= i < buckets@.len() ==> bucket_matches(#[trigger] buckets@[i], columns@) && buckets@[i].count > 0,
            forall|i: int| 0 <= i < buckets@.len() ==> (#[trigger] buckets@[i]).flag < f,
            forall|g: u8| g < f && with_flag(columns@, g).len() > 0 ==> exists|i: int| 0 <= i < buckets@.len() && (#[trigger] buckets@[i]).flag == g,
        decreases 256 - f,
    {
        let b = bucket_for(columns, f as u8);
        if b.count > 0 {
            let ghost before = buckets@;
            buckets.push(b);
            proof {
                assert(buckets@[before.len() as int] == b);
                assert forall|g: u8| g < f + 1 && with_flag(columns@, g).len() > 0 implies exists|i: int| 0 <= i < buckets@.len() && (#[trigger] buckets@[i]).flag == g by {
                    if g == f {
                        assert(buckets@[before.len() as int].flag == g);
                    } else {
                        let i = choose|i: int| 0 <= i < before.len() && (#[trigger] before[i]).flag == g;
                        assert(buckets@[i] == before[i]);
                    }
                }
            }
        } else {
            proof {
                assert forall|g: u8| g < f + 1 && with_flag(columns@, g).len() > 0 implies exists|i: int| 0 <= i < buckets@.len() && (#[trigger] buckets@[i]).flag == g by {
                    if g == f {
                        assert(with_flag(columns@, g).len() == b.count);
                    }
                }
            }
        }
        f = f + 1;
    }
    buckets
}

/// The histogram of the `nulls_flag` byte across every `SYSCOLUMN` row in
/// `store`, in increasing byte order.
pub fn histogram(store: &PageStore, model: &ApModel) -> (buckets: Vec<NullsFlagBucket>)
    ensures
        exists|cols: Seq<SysColumn>| columns_scanned_from(*store, cols) && histogram_of_columns(cols, buckets@),
{
    let cols = iter_syscolumns(store, model);
    histogram_of(cols.as_slice())
}

} // verus!
