//! Properties of `resolve` that hold across its variants.

use vstd::arithmetic::div_mod::{lemma_fundamental_div_mod, lemma_mod_bound};
use vstd::arithmetic::mul::{
    lemma_mul_is_commutative, lemma_mul_is_distributive_add, lemma_mul_strictly_positive,
};
use vstd::prelude::*;

use crate::table::{best_entry, bucket_index, lemma_bucket_index_in_range, ThresholdTable};

verus! {

/// Resolution is deterministic: two results obtained for the same table,
/// measurement and maximum are identical.
pub proof fn lemma_resolve_deterministic<T>(
    table: ThresholdTable<T>,
    value: u64,
    max: u64,
    r1: Option<T>,
    r2: Option<T>,
)
    requires
        r1 == table.spec_resolve(value as int, max as int),
        r2 == table.spec_resolve(value as int, max as int),
    ensures
        r1 == r2,
{
}

/// A table with nothing configured resolves to nothing: a `Dynamic` table
/// with no entries, or a `Manual` table with no boundaries, yields `None`
/// for every measurement and every maximum.
pub proof fn lemma_empty_table_resolves_none<T>(table: ThresholdTable<T>, value: u64, max: u64)
    requires
        (table is Dynamic && table->Dynamic_0@.len() == 0) || (table is Manual
            && table->Manual_0@.len() == 0),
    ensures
        table.spec_resolve(value as int, max as int) is None,
{
}

/// For a non-empty `Dynamic` table and a measurement within `[0, max]`, the
/// selected bucket index always lies in `[0, N)`, and the result is exactly
/// the entry at that index — never `None`, never out of range.
pub proof fn lemma_dynamic_resolve_in_range<T>(table: ThresholdTable<T>, value: u64, max: u64)
    requires
        table is Dynamic,
        table->Dynamic_0@.len() > 0,
        value <= max,
    ensures
        ({
            let entries = table->Dynamic_0@;
            let i = bucket_index(value as int, max as int, entries.len() as int);
            0 <= i < entries.len() && table.spec_resolve(value as int, max as int) == Some(
                entries[i],
            )
        }),
{
    if value > 0 {
        lemma_bucket_index_in_range(value as int, max as int, table->Dynamic_0@.len() as int);
    }
}

/// The bucket index is the exact integer counterpart of dividing `[0, max]`
/// into `n` equal-width buckets: for a measurement between 1 and `max` it is
/// the unique `i` with `i * max < value * n <= (i + 1) * max`, so each
/// bucket covers the interval above its lower edge up to and including its
/// upper edge.
pub proof fn lemma_bucket_index_interval(value: int, max: int, n: int)
    requires
        1 <= value,
        value <= max,
        1 <= n,
    ensures
        ({
            let i = bucket_index(value, max, n);
            i * max < value * n && value * n <= (i + 1) * max
        }),
{
    let i = bucket_index(value, max, n);
    let a = value * n - 1;
    lemma_mul_strictly_positive(value, n);
    lemma_fundamental_div_mod(a, max);
    lemma_mod_bound(a, max);
    lemma_mul_is_distributive_add(max, i, 1);
    lemma_mul_is_commutative(i, max);
    lemma_mul_is_commutative(i + 1, max);
}

/// A `Manual` table selects by floor semantics: the chosen entry is one of
/// the configured pairs, its boundary does not exceed the measurement, and
/// no qualifying boundary is greater; when no boundary is at or below the
/// measurement, nothing is selected.
pub proof fn lemma_best_entry_greatest<T>(entries: Seq<(u32, T)>, value: int)
    ensures
        best_entry(entries, value) is None ==> forall|j: int|
            0 <= j < entries.len() ==> (#[trigger] entries[j]).0 > value,
        best_entry(entries, value) matches Some(best) ==> {
            &&& best.0 <= value
            &&& exists|j: int| 0 <= j < entries.len() && entries[j] == best
            &&& forall|j: int|
                0 <= j < entries.len() && (#[trigger] entries[j]).0 <= value ==> entries[j].0
                    <= best.0
        },
    decreases entries.len(),
{
    if entries.len() > 0 {
        lemma_best_entry_greatest(entries.drop_last(), value);
        let rest = entries.drop_last();
        assert(forall|j: int| 0 <= j < rest.len() ==> rest[j] == entries[j]);
        match best_entry(entries, value) {
            Some(best) => {
                if best == entries.last() {
                    assert(entries[entries.len() - 1] == best);
                }
            },
            None => {},
        }
    }
}

} // verus!
