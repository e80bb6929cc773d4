use vstd::prelude::*;

verus! {

/// How many of `keys` are greater than `k`.
pub open spec fn count_above(keys: Seq<u64>, k: u64) -> nat
    decreases keys.len(),
{
    if keys.len() == 0 {
        0
    } else {
        count_above(keys.drop_last(), k) + if keys.last() > k { 1nat } else { 0nat }
    }
}

/// How many of `keys` are equal to `k`.
pub open spec fn count_equal(keys: Seq<u64>, k: u64) -> nat
    decreases keys.len(),
{
    if keys.len() == 0 {
        0
    } else {
        count_equal(keys.drop_last(), k) + if keys.last() == k { 1nat } else { 0nat }
    }
}

/// The position of entry `i` once the first `m` entries of `keys` are
/// ordered from the largest key to the smallest, entries with equal keys
/// keeping their relative order (`i < m`).
pub open spec fn rank_within(keys: Seq<u64>, m: int, i: int) -> nat {
    count_above(keys.take(m), keys[i]) + count_equal(keys.take(i), keys[i])
}

/// The position of entry `i` once all of `keys` are ordered from the
/// largest key to the smallest, entries with equal keys keeping their
/// relative order: the position that a stable descending sort gives it.
pub open spec fn descending_rank(keys: Seq<u64>, i: int) -> nat {
    count_above(keys, keys[i]) + count_equal(keys.take(i), keys[i])
}

proof fn lemma_take_step(keys: Seq<u64>, j: int, k: u64)
    requires
        0 <= j < keys.len(),
    ensures
        count_above(keys.take(j + 1), k) == count_above(keys.take(j), k) + if keys[j] > k {
            1nat
        } else {
            0nat
        },
        count_equal(keys.take(j + 1), k) == count_equal(keys.take(j), k) + if keys[j] == k {
            1nat
        } else {
            0nat
        },
{
    assert(keys.take(j + 1).drop_last() =~= keys.take(j));
}

proof fn lemma_counts_bounded(keys: Seq<u64>, k: u64)
    ensures
        count_above(keys, k) + count_equal(keys, k) <= keys.len(),
    decreases keys.len(),
{
    if keys.len() > 0 {
        lemma_counts_bounded(keys.drop_last(), k);
    }
}

proof fn lemma_equal_grows(keys: Seq<u64>, a: int, b: int, k: u64)
    requires
        0 <= a <= b <= keys.len(),
    ensures
        count_equal(keys.take(a), k) <= count_equal(keys.take(b), k),
    decreases b - a,
{
    if a < b {
        lemma_equal_grows(keys, a, b - 1, k);
        lemma_take_step(keys, b - 1, k);
    }
}

pub(crate) proof fn lemma_above_dominates(keys: Seq<u64>, lo: u64, hi: u64)
    requires
        lo < hi,
    ensures
        count_above(keys, lo) >= count_above(keys, hi) + count_equal(keys, hi),
    decreases keys.len(),
{
    if keys.len() > 0 {
        lemma_above_dominates(keys.drop_last(), lo, hi);
    }
}

/// Entries of the first `m` keys that are at least `keys[m]` come before the
/// place where `keys[m]` goes; smaller ones come at or after it.
proof fn lemma_split_at_insert(keys: Seq<u64>, m: int, i: int)
    requires
        0 <= i < m < keys.len(),
    ensures
        keys[i] >= keys[m] ==> rank_within(keys, m, i) < count_above(keys.take(m), keys[m])
            + count_equal(keys.take(m), keys[m]),
        keys[i] < keys[m] ==> rank_within(keys, m, i) >= count_above(keys.take(m), keys[m])
            + count_equal(keys.take(m), keys[m]),
{
    let km = keys[m];
    let ki = keys[i];
    let pre = keys.take(m);
    lemma_take_step(keys, i, ki);
    lemma_equal_grows(keys, i + 1, m, ki);
    if ki > km {
        lemma_above_dominates(pre, km, ki);
    } else if ki < km {
        lemma_above_dominates(pre, ki, km);
    }
}

/// Taking one more entry into account moves an earlier entry down by one
/// exactly when the new entry has a larger key.
proof fn lemma_rank_step(keys: Seq<u64>, m: int, i: int)
    requires
        0 <= i < m < keys.len(),
    ensures
        rank_within(keys, m + 1, i) == rank_within(keys, m, i) + if keys[m] > keys[i] {
            1nat
        } else {
            0nat
        },
{
    lemma_take_step(keys, m, keys[i]);
}

/// The new entry lands after every earlier entry with a key at least its own.
proof fn lemma_rank_of_new(keys: Seq<u64>, m: int)
    requires
        0 <= m < keys.len(),
    ensures
        rank_within(keys, m + 1, m) == count_above(keys.take(m), keys[m]) + count_equal(
            keys.take(m),
            keys[m],
        ),
{
    lemma_take_step(keys, m, keys[m]);
}

/// Stable descending ranks are distinct positions below the number of keys.
pub proof fn lemma_descending_rank_injective(keys: Seq<u64>, i: int, j: int)
    requires
        0 <= i < keys.len(),
        0 <= j < keys.len(),
    ensures
        descending_rank(keys, i) < keys.len(),
        descending_rank(keys, i) == descending_rank(keys, j) ==> i == j,
{
    let ki = keys[i];
    let kj = keys[j];
    lemma_take_step(keys, i, ki);
    lemma_take_step(keys, j, kj);
    lemma_equal_grows(keys, i + 1, keys.len() as int, ki);
    lemma_equal_grows(keys, j + 1, keys.len() as int, kj);
    assert(keys.take(keys.len() as int) =~= keys);
    lemma_counts_bounded(keys, ki);
    if ki < kj {
        lemma_above_dominates(keys, ki, kj);
    } else if kj < ki {
        lemma_above_dominates(keys, kj, ki);
    } else if i < j {
        lemma_equal_grows(keys, i + 1, j, ki);
    } else if j < i {
        lemma_equal_grows(keys, j + 1, i, ki);
    }
}

/// An entry placed before another by a stable descending sort has a key at
/// least as large.
pub proof fn lemma_descending_rank_orders(keys: Seq<u64>, i: int, j: int)
    requires
        0 <= i < keys.len(),
        0 <= j < keys.len(),
        descending_rank(keys, i) < descending_rank(keys, j),
    ensures
        keys[i] >= keys[j],
{
    let ki = keys[i];
    let kj = keys[j];
    if ki < kj {
        lemma_above_dominates(keys, ki, kj);
        lemma_take_step(keys, j, kj);
        lemma_equal_grows(keys, j + 1, keys.len() as int, kj);
        assert(keys.take(keys.len() as int) =~= keys);
    }
}

/// The indices of the first `limit` entries of `keys` in stable descending
/// order of key: position `k` of the result holds the entry whose stable
/// descending rank is `k`.
pub fn descending_order(keys: &Vec<u64>, limit: usize) -> (r: Vec<usize>)
    ensures
        r.len() == if keys.len() < limit { keys.len() as nat } else { limit as nat },
        forall|k: int|
            0 <= k < r.len() ==> r[k] < keys.len() && descending_rank(keys@, r[k] as int) == k,
{
    let n = keys.len();
    let mut out: Vec<usize> = Vec::new();
    let mut m: usize = 0;
    while m < n
        invariant
            n == keys.len(),
            m <= n,
            out.len() == if m < limit { m as nat } else { limit as nat },
            forall|k: int|
                0 <= k < out.len() ==> out[k] < m && rank_within(keys@, m as int, out[k] as int)
                    == k,
        decreases n - m,
    {
        let km = keys[m];
        let ghost p = count_above(keys@.take(m as int), km) + count_equal(
            keys@.take(m as int),
            km,
        );
        proof {
            lemma_counts_bounded(keys@.take(m as int), km);
        }
        // The first place holding a smaller key.
        let mut q: usize = 0;
        while q < out.len() && keys[out[q]] >= km
            invariant
                n == keys.len(),
                m < n,
                km == keys@[m as int],
                q <= out.len(),
                forall|k: int|
                    0 <= k < out.len() ==> out[k] < m && rank_within(keys@, m as int, out[k] as int)
                        == k,
                forall|k: int| 0 <= k < q ==> keys@[out[k] as int] >= km,
            decreases out.len() - q,
        {
            q += 1;
        }
        proof {
            assert forall|k: int| 0 <= k < q implies rank_within(
                keys@,
                m as int,
                #[trigger] out@[k] as int,
            ) < p by {
                lemma_split_at_insert(keys@, m as int, out[k] as int);
            }
            if q > 0 {
                assert(rank_within(keys@, m as int, out@[q - 1] as int) < p);
            }
            if q < out.len() {
                lemma_split_at_insert(keys@, m as int, out[q as int] as int);
                assert(q == p);
            } else {
                assert(q <= p);
            }
        }
        let ghost before = out@;
        if q < limit {
            out.insert(q, m);
            if out.len() > limit {
                out.pop();
            }
        }
        proof {
            assert forall|k: int| 0 <= k < out.len() implies out[k] < m + 1 && rank_within(
                keys@,
                m + 1,
                out[k] as int,
            ) == k by {
                if k < q {
                    assert(out[k] == before[k]);
                    lemma_split_at_insert(keys@, m as int, before[k] as int);
                    lemma_rank_step(keys@, m as int, before[k] as int);
                } else if k == q {
                    assert(out[k] == m);
                    lemma_rank_of_new(keys@, m as int);
                } else {
                    assert(out[k] == before[k - 1]);
                    lemma_split_at_insert(keys@, m as int, before[k - 1] as int);
                    lemma_rank_step(keys@, m as int, before[k - 1] as int);
                }
            }
        }
        m += 1;
    }
    assert(keys@.take(n as int) =~= keys@);
    out
}

/// The stable descending rank of entry `i` lies among the places of the
/// entries with its key: after all larger keys, before the end of the equal
/// ones.
pub(crate) proof fn lemma_rank_among_equals(keys: Seq<u64>, i: int)
    requires
        0 <= i < keys.len(),
    ensures
        count_above(keys, keys[i]) <= descending_rank(keys, i),
        descending_rank(keys, i) < count_above(keys, keys[i]) + count_equal(keys, keys[i]),
{
    lemma_take_step(keys, i, keys[i]);
    lemma_equal_grows(keys, i + 1, keys.len() as int, keys[i]);
    assert(keys.take(keys.len() as int) =~= keys);
}

} // verus!
