//! Counting the buckets of a table by their length, and the arithmetic that bounds how many
//! different lengths a table can have.
use vstd::prelude::*;

use crate::buckets::{total, Buckets};

verus! {

/// The number of buckets of length `l`.
pub open spec fn len_count<K, V>(bs: Buckets<K, V>, l: nat) -> nat
    decreases bs.len(),
{
    if bs.len() == 0 {
        0
    } else {
        len_count(bs.drop_last(), l) + if bs.last().len() == l {
            1nat
        } else {
            0nat
        }
    }
}

/// For every bucket length above one that occurs, how many buckets have that length.
pub open spec fn collision_map<K, V>(bs: Buckets<K, V>) -> Map<u64, u64> {
    Map::new(
        |l: u64| l > 1 && len_count(bs, l as nat) > 0,
        |l: u64| len_count(bs, l as nat) as u64,
    )
}

/// The sum of a sequence of numbers.
pub open spec fn seq_sum(s: Seq<u64>) -> int
    decreases s.len(),
{
    if s.len() == 0 {
        0
    } else {
        seq_sum(s.drop_last()) + s.last()
    }
}

/// No more buckets have a given length than there are buckets.
pub proof fn lemma_len_count_bounded<K, V>(bs: Buckets<K, V>, l: nat)
    ensures
        len_count(bs, l) <= bs.len(),
    decreases bs.len(),
{
    if bs.len() > 0 {
        lemma_len_count_bounded(bs.drop_last(), l);
    }
}

/// The position of a smallest element.
proof fn min_index(s: Seq<u64>) -> (j: int)
    requires
        s.len() > 0,
    ensures
        0 <= j < s.len(),
        forall|i: int| 0 <= i < s.len() ==> s[j] <= #[trigger] s[i],
    decreases s.len(),
{
    if s.len() == 1 {
        0
    } else {
        let j0 = min_index(s.drop_last());
        assert forall|i: int| 0 <= i < s.len() - 1 implies s[j0] <= #[trigger] s[i] by {
            assert(s[i] == s.drop_last()[i]);
        }
        if s.last() < s[j0] {
            s.len() - 1
        } else {
            j0
        }
    }
}

/// Taking one element out of a sequence takes its value off the sum.
proof fn lemma_seq_sum_remove(s: Seq<u64>, j: int)
    requires
        0 <= j < s.len(),
    ensures
        seq_sum(s) == seq_sum(s.remove(j)) + s[j],
    decreases s.len(),
{
    if j == s.len() - 1 {
        assert(s.remove(j) =~= s.drop_last());
    } else {
        assert(s.remove(j).drop_last() =~= s.drop_last().remove(j));
        assert(s.remove(j).last() == s.last());
        lemma_seq_sum_remove(s.drop_last(), j);
    }
}

/// `n` different numbers, none below `t`, add up to at least `n * t + n * (n - 1) / 2`.
pub proof fn lemma_distinct_sum(s: Seq<u64>, t: int)
    requires
        s.no_duplicates(),
        forall|i: int| 0 <= i < s.len() ==> #[trigger] s[i] >= t,
    ensures
        seq_sum(s) >= s.len() * t + s.len() * (s.len() - 1) / 2,
    decreases s.len(),
{
    let n = s.len() as int;
    if n > 0 {
        let j = min_index(s);
        let r = s.remove(j);
        assert forall|i: int| 0 <= i < r.len() implies #[trigger] r[i] >= t + 1 by {
            if i < j {
                assert(r[i] == s[i]);
            } else {
                assert(r[i] == s[i + 1]);
            }
        }
        assert(r.no_duplicates()) by {
            assert forall|a: int, b: int| 0 <= a < r.len() && 0 <= b < r.len() && a != b implies r[a]
                != r[b] by {
                let a2 = if a < j {
                    a
                } else {
                    a + 1
                };
                let b2 = if b < j {
                    b
                } else {
                    b + 1
                };
                assert(r[a] == s[a2]);
                assert(r[b] == s[b2]);
            }
        }
        lemma_distinct_sum(r, t + 1);
        lemma_seq_sum_remove(s, j);
        let m = n - 1;
        assert(m * (t + 1) + m * (m - 1) / 2 + t == n * t + n * (n - 1) / 2) by (nonlinear_arith)
            requires
                m == n - 1,
        {
            assert(m * (m - 1) + 2 * m == m * (m + 1));
            assert((m * (m - 1) + 2 * m) / 2 == m * (m - 1) / 2 + m) by {
                assert((m * (m - 1) + 2 * m) == (m * (m - 1)) + 2 * m);
            }
        }
    }
}

/// A map of `d` different lengths above one, which add up to no more than a `usize` can
/// hold, has `d * 1000` within a `usize`.
pub proof fn lemma_distinct_lengths_fit(s: Seq<u64>)
    requires
        s.no_duplicates(),
        forall|i: int| 0 <= i < s.len() ==> #[trigger] s[i] >= 2,
        seq_sum(s) <= usize::MAX,
    ensures
        s.len() * 1000 <= usize::MAX,
{
    lemma_distinct_sum(s, 2);
    let n = s.len() as int;
    assert(usize::MAX >= 4294967295) by {
        assert(usize::BITS == 32 || usize::BITS == 64);
    }
    if n > 2000 {
        assert(n * 1000 <= n * 2 + n * (n - 1) / 2) by (nonlinear_arith)
            requires
                n > 2000,
        {
            assert(n * (n - 1) >= n * 2000);
            assert(n * (n - 1) / 2 >= n * 1000);
        }
    }
}

/// A prefix with one bucket more counts that bucket too.
pub proof fn lemma_len_count_take<K, V>(bs: Buckets<K, V>, i: int, l: nat)
    requires
        0 <= i < bs.len(),
    ensures
        len_count(bs.take(i + 1), l) == len_count(bs.take(i), l) + if bs[i].len() == l {
            1nat
        } else {
            0nat
        },
{
    assert(bs.take(i + 1).drop_last() =~= bs.take(i));
}

} // verus!
