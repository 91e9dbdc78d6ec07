//! The threshold table: one of three configured mappings from measurement
//! ranges to payload values, and its `resolve` lookup.

use vstd::arithmetic::div_mod::{
    lemma_div_is_ordered, lemma_div_pos_is_pos, lemma_fundamental_div_mod_converse_div,
};
use vstd::arithmetic::mul::{
    lemma_mul_inequality, lemma_mul_is_distributive_sub, lemma_mul_strictly_positive,
    lemma_mul_upper_bound,
};
use vstd::prelude::*;

verus! {

/// A representation of numeric thresholds mapped in various forms to values
/// of type `T`, for example low/medium/high icons selected as a volume level
/// changes.
///
/// The table is chosen once at configuration time and read-only afterwards;
/// the payloads are opaque to the table, which only hands back references to
/// them.
pub enum ThresholdTable<T> {
    /// Three fixed slots dividing `[0, max]` into three equal intervals.
    Basic { low: T, medium: T, high: T },
    /// An ordered list of `N` payloads standing for `N` equal-width buckets
    /// across `[0, max]`.
    Dynamic(Vec<T>),
    /// Explicit boundaries: each pair maps an integer boundary to the payload
    /// that applies from that boundary upward, until the next one.
    Manual(Vec<(u32, T)>),
}

/// The bucket a measurement falls in when `[0, max]` is split into `n`
/// equal-width buckets: the `i` with `i * max < value * n <= (i + 1) * max`,
/// with a measurement of zero in bucket zero. Each bucket thus owns the
/// interval above its lower edge up to and including its upper edge, so a
/// measurement sitting exactly on an edge falls into the lower bucket, and
/// `value == max` lands in bucket `n - 1` rather than one past the end.
pub open spec fn bucket_index(value: int, max: int, n: int) -> int {
    if value <= 0 {
        0
    } else {
        (value * n - 1) / max
    }
}

/// The entry of `entries` with the greatest boundary at most `value`, if any
/// boundary qualifies; of entries with equal boundaries the later one wins.
pub open spec fn best_entry<T>(entries: Seq<(u32, T)>, value: int) -> Option<(u32, T)>
    decreases entries.len(),
{
    if entries.len() == 0 {
        None
    } else {
        let last = entries.last();
        let rest = best_entry(entries.drop_last(), value);
        if last.0 > value {
            rest
        } else {
            match rest {
                None => Some(last),
                Some(best) => if last.0 >= best.0 {
                    Some(last)
                } else {
                    Some(best)
                },
            }
        }
    }
}

/// The payload a returned reference points at, for comparing an
/// `Option<&T>` result against the mathematical model.
pub open spec fn opt_deref<T>(r: Option<&T>) -> Option<T> {
    match r {
        None => None,
        Some(t) => Some(*t),
    }
}

impl<T> ThresholdTable<T> {
    /// The mathematical model of `resolve`: which payload, if any, the table
    /// associates with a measurement `value` against an upper bound `max`.
    ///
    /// - `Basic`: `[0, max]` splits into three equal intervals; `low` covers
    ///   ratios in `[0, 1)` of an interval, `medium` ratios in `[1, 2)`, and
    ///   `high` everything from ratio 2 upward, which also makes `high` the
    ///   fallback for measurements above `max`.
    /// - `Dynamic`: the payload of the bucket the measurement falls in, the
    ///   last payload for measurements above `max`, and nothing when the
    ///   list is empty.
    /// - `Manual`: the payload at the greatest boundary not above the
    ///   measurement, and nothing when no boundary qualifies.
    pub open spec fn spec_resolve(self, value: int, max: int) -> Option<T> {
        match self {
            ThresholdTable::Basic { low, medium, high } => Some(
                if 3 * value < max {
                    low
                } else if 3 * value < 2 * max {
                    medium
                } else {
                    high
                },
            ),
            ThresholdTable::Dynamic(entries) => {
                if entries@.len() == 0 {
                    None
                } else if value > max {
                    Some(entries@.last())
                } else {
                    Some(entries@[bucket_index(value, max, entries@.len() as int)])
                }
            },
            ThresholdTable::Manual(pairs) => match best_entry(pairs@, value) {
                None => None,
                Some(best) => Some(best.1),
            },
        }
    }
}

/// For a measurement between 1 and `max`, the bucket index stays inside
/// `[0, n)`: in particular a measurement equal to `max` lands in the last
/// bucket, not one past the end.
pub proof fn lemma_bucket_index_in_range(value: int, max: int, n: int)
    requires
        1 <= value,
        value <= max,
        1 <= n,
    ensures
        0 <= bucket_index(value, max, n) < n,
{
    lemma_mul_strictly_positive(value, n);
    lemma_div_pos_is_pos(value * n - 1, max);
    lemma_mul_inequality(value, max, n);
    lemma_div_is_ordered(value * n - 1, max * n - 1, max);
    lemma_mul_is_distributive_sub(max, n, 1);
    assert(max * n - 1 == (n - 1) * max + (max - 1));
    lemma_fundamental_div_mod_converse_div(max * n - 1, max, n - 1, max - 1);
}

/// Extending a prefix of `s` by one element: the new last element is `s[i]`
/// and what remains below it is the prefix of length `i`.
proof fn lemma_take_succ<T>(s: Seq<(u32, T)>, i: int)
    requires
        0 <= i < s.len(),
    ensures
        s.take(i + 1).drop_last() == s.take(i),
        s.take(i + 1).last() == s[i],
{
    assert(s.take(i + 1).drop_last() =~= s.take(i));
}

impl<T> ThresholdTable<T> {
    /// Selects the payload associated with the measurement `value` against
    /// the upper bound `max`, exactly as `spec_resolve` states it. A pure
    /// read: the table is not changed, and no input is rejected.
    pub fn resolve(&self, value: u64, max: u64) -> (r: Option<&T>)
        ensures
            opt_deref(r) == self.spec_resolve(value as int, max as int),
    {
        match self {
            ThresholdTable::Basic { low, medium, high } => {
                if (value as u128) * 3 < (max as u128) {
                    Some(low)
                } else if (value as u128) * 3 < (max as u128) * 2 {
                    Some(medium)
                } else {
                    Some(high)
                }
            },
            ThresholdTable::Dynamic(entries) => {
                let n = entries.len();
                if n == 0 {
                    None
                } else if value > max {
                    Some(&entries[n - 1])
                } else if value == 0 {
                    Some(&entries[0])
                } else {
                    proof {
                        lemma_mul_upper_bound(
                            value as int,
                            u64::MAX as int,
                            n as int,
                            usize::MAX as int,
                        );
                        lemma_mul_strictly_positive(value as int, n as int);
                    }
                    let scaled: u128 = (value as u128) * (n as u128);
                    let index_wide: u128 = (scaled - 1) / (max as u128);
                    proof {
                        lemma_bucket_index_in_range(value as int, max as int, n as int);
                    }
                    let index: usize = index_wide as usize;
                    Some(&entries[index])
                }
            },
            ThresholdTable::Manual(pairs) => {
                let n = pairs.len();
                let mut found = false;
                let mut best_idx: usize = 0;
                let mut i: usize = 0;
                while i < n
                    invariant
                        n == pairs@.len(),
                        i <= n,
                        found ==> best_idx < i,
                        best_entry(pairs@.take(i as int), value as int) == (if found {
                            Some(pairs@[best_idx as int])
                        } else {
                            None::<(u32, T)>
                        }),
                    decreases n - i,
                {
                    let key = pairs[i].0;
                    proof {
                        lemma_take_succ(pairs@, i as int);
                    }
                    if key as u64 <= value && (!found || key >= pairs[best_idx].0) {
                        best_idx = i;
                        found = true;
                    }
                    i += 1;
                }
                proof {
                    assert(pairs@.take(n as int) =~= pairs@);
                }
                if found {
                    Some(&pairs[best_idx].1)
                } else {
                    None
                }
            },
        }
    }
}

} // verus!
