//! Frequency-weighted candidate sampling.
//!
//! A draw maps one uniform number `x` below the candidates' total
//! weight to a candidate: candidate `i` owns the contiguous block of
//! draws `[w_0 + .. + w_(i-1), w_0 + .. + w_i)`, whose length is its
//! own weight. Over a uniform `x`, each candidate is therefore picked
//! with probability proportional to its learned frequency, which is
//! the distribution the collapser needs; drawing from the not-yet-
//! tried candidates only renormalizes the same weights.

use vstd::prelude::*;

use crate::rng::RngSource;
use crate::rules::{freq_val, keys_of, lookup, sorted_strict, sum_freq, Rule, RuleSet};
use crate::rules::{lemma_lookup_some_index, lemma_sum_freq_nonneg};

verus! {

/// Total learned frequency of the tile types in `cands`.
pub open spec fn sum_weights(cands: Seq<usize>, es: Seq<(usize, Rule)>) -> int
    decreases cands.len(),
{
    if cands.len() == 0 {
        0
    } else {
        freq_val(es, cands[0]) + sum_weights(cands.skip(1), es)
    }
}

pub proof fn lemma_sum_weights_nonneg(cands: Seq<usize>, es: Seq<(usize, Rule)>)
    ensures
        sum_weights(cands, es) >= 0,
    decreases cands.len(),
{
    if cands.len() > 0 {
        lemma_sum_weights_nonneg(cands.skip(1), es);
    }
}

pub proof fn lemma_sorted_skip(s: Seq<usize>)
    requires
        sorted_strict(s),
        s.len() > 0,
    ensures
        sorted_strict(s.skip(1)),
{
    assert forall|i: int, j: int| 0 <= i < j < s.skip(1).len() implies #[trigger] s.skip(1)[i]
        < #[trigger] s.skip(1)[j] by {
        assert(s.skip(1)[i] == s[i + 1]);
        assert(s.skip(1)[j] == s[j + 1]);
    }
}

/// The total weight of a strictly sorted selection of keys is at most
/// the total weight of any strictly sorted superset of it.
pub proof fn lemma_sum_weights_le(a: Seq<usize>, b: Seq<usize>, es: Seq<(usize, Rule)>)
    requires
        sorted_strict(a),
        sorted_strict(b),
        forall|x: usize| a.contains(x) ==> b.contains(x),
    ensures
        sum_weights(a, es) <= sum_weights(b, es),
    decreases b.len(),
{
    if a.len() == 0 {
        lemma_sum_weights_nonneg(b, es);
    } else {
        assert(a.contains(a[0]));
        assert(b.contains(a[0]));
        let j = choose|j: int| 0 <= j < b.len() && b[j] == a[0];
        assert(b[0] <= a[0]);
        lemma_sorted_skip(a);
        lemma_sorted_skip(b);
        if b[0] == a[0] {
            assert forall|x: usize| a.skip(1).contains(x) implies b.skip(1).contains(x) by {
                let i = choose|i: int| 0 <= i < a.skip(1).len() && a.skip(1)[i] == x;
                assert(a.skip(1)[i] == a[i + 1]);
                assert(a[0] < x);
                assert(a.contains(x));
                assert(b.contains(x));
                let k = choose|k: int| 0 <= k < b.len() && b[k] == x;
                assert(k >= 1);
                assert(b.skip(1)[k - 1] == x);
            }
            lemma_sum_weights_le(a.skip(1), b.skip(1), es);
            assert(freq_val(es, a[0]) == freq_val(es, b[0]));
        } else {
            assert forall|x: usize| a.contains(x) implies b.skip(1).contains(x) by {
                let i = choose|i: int| 0 <= i < a.len() && a[i] == x;
                assert(a[0] <= x);
                assert(b[0] < x);
                let k = choose|k: int| 0 <= k < b.len() && b[k] == x;
                assert(k >= 1);
                assert(b.skip(1)[k - 1] == x);
            }
            lemma_sum_weights_le(a, b.skip(1), es);
            assert(freq_val(es, b[0]) >= 0);
        }
    }
}

/// If two tables record the same frequency for every candidate, the
/// candidates' total weight is the same under both.
pub proof fn lemma_sum_weights_congruent(
    cands: Seq<usize>,
    es1: Seq<(usize, Rule)>,
    es2: Seq<(usize, Rule)>,
)
    requires
        forall|x: usize| cands.contains(x) ==> freq_val(es1, x) == freq_val(es2, x),
    ensures
        sum_weights(cands, es1) == sum_weights(cands, es2),
    decreases cands.len(),
{
    if cands.len() > 0 {
        assert(cands.contains(cands[0]));
        assert forall|x: usize| cands.skip(1).contains(x) implies freq_val(es1, x) == freq_val(
            es2,
            x,
        ) by {
            let i = choose|i: int| 0 <= i < cands.skip(1).len() && cands.skip(1)[i] == x;
            assert(cands[i + 1] == x);
            assert(cands.contains(x));
        }
        lemma_sum_weights_congruent(cands.skip(1), es1, es2);
    }
}

/// Summing the keys' own frequencies gives the table's total.
pub proof fn lemma_sum_weights_all_keys(es: Seq<(usize, Rule)>)
    requires
        sorted_strict(keys_of(es)),
    ensures
        sum_weights(keys_of(es), es) == sum_freq(es),
    decreases es.len(),
{
    if es.len() > 0 {
        let ks = keys_of(es);
        assert(ks[0] == es[0].0);
        assert(ks.skip(1) =~= keys_of(es.skip(1)));
        lemma_sorted_skip(ks);
        lemma_sum_weights_all_keys(es.skip(1));
        assert forall|x: usize| keys_of(es.skip(1)).contains(x) implies freq_val(es, x)
            == freq_val(es.skip(1), x) by {
            let i = choose|i: int| 0 <= i < keys_of(es.skip(1)).len() && keys_of(es.skip(1))[i] == x;
            assert(ks.skip(1)[i] == x);
            assert(ks[i + 1] == x);
            assert(ks[0] < ks[i + 1]);
            assert(es[0].0 != x);
        }
        lemma_sum_weights_congruent(keys_of(es.skip(1)), es, es.skip(1));
    }
}

/// Prefix sums of the weights grow by exactly one candidate's weight
/// per step: candidate `i`'s block of draws has length `freq(cands[i])`.
pub proof fn lemma_sum_weights_take_step(cands: Seq<usize>, es: Seq<(usize, Rule)>, i: int)
    requires
        0 <= i < cands.len(),
    ensures
        sum_weights(cands.take(i + 1), es) == sum_weights(cands.take(i), es) + freq_val(
            es,
            cands[i],
        ),
    decreases i,
{
    if i == 0 {
        assert(cands.take(1)[0] == cands[0]);
        assert(cands.take(1).skip(1) =~= cands.take(0));
    } else {
        assert(cands.take(i + 1)[0] == cands[0]);
        assert(cands.take(i)[0] == cands[0]);
        assert(cands.take(i + 1).skip(1) =~= cands.skip(1).take(i));
        assert(cands.take(i).skip(1) =~= cands.skip(1).take(i - 1));
        lemma_sum_weights_take_step(cands.skip(1), es, i - 1);
        assert(cands.skip(1)[i - 1] == cands[i]);
    }
}

/// A candidate list whose entries all have a rule has positive total
/// weight, since an observed tile occurs at least once.
pub proof fn lemma_sum_weights_pos(cands: Seq<usize>, rs: RuleSet)
    requires
        rs.wf(),
        cands.len() > 0,
        forall|x: usize| cands.contains(x) ==> rs.contains_tile(x),
    ensures
        sum_weights(cands, rs.entries@) >= 1,
{
    assert(cands.contains(cands[0]));
    lemma_lookup_some_index(rs.entries@, cands[0]);
    let i = choose|i: int|
        0 <= i < rs.entries@.len() && (#[trigger] rs.entries@[i]).0 == cands[0]
            && rs.entries@[i].1 == lookup(rs.entries@, cands[0])->Some_0;
    assert(rs.entries@[i].1.wf());
    assert(freq_val(rs.entries@, cands[0]) >= 1);
    lemma_sum_weights_nonneg(cands.skip(1), rs.entries@);
}

/// The candidates' total weight, exactly; it fits a machine word
/// because the table's total does.
pub fn total_weight(cands: &Vec<usize>, rs: &RuleSet) -> (total: usize)
    requires
        rs.wf(),
        sorted_strict(cands@),
        forall|x: usize| cands@.contains(x) ==> rs.contains_tile(x),
    ensures
        total as int == sum_weights(cands@, rs.entries@),
{
    proof {
        assert forall|x: usize| cands@.contains(x) implies rs.keys().contains(x) by {
            assert(rs.contains_tile(x));
            lemma_lookup_some_index(rs.entries@, x);
            let i = choose|i: int|
                0 <= i < rs.entries@.len() && (#[trigger] rs.entries@[i]).0 == x && rs.entries@[i].1
                    == lookup(rs.entries@, x)->Some_0;
            assert(rs.keys()[i] == x);
        }
        lemma_sum_weights_le(cands@, rs.keys(), rs.entries@);
        lemma_sum_weights_all_keys(rs.entries@);
    }
    let n = cands.len();
    let mut total: usize = 0;
    let mut i: usize = 0;
    proof {
        assert(cands@.take(0) =~= Seq::<usize>::empty());
    }
    while i < n
        invariant
            n == cands@.len(),
            i <= n,
            rs.wf(),
            sorted_strict(cands@),
            forall|x: usize| cands@.contains(x) ==> rs.contains_tile(x),
            total as int == sum_weights(cands@.take(i as int), rs.entries@),
            sum_weights(cands@, rs.entries@) <= usize::MAX,
        decreases n - i,
    {
        proof {
            lemma_sum_weights_take_step(cands@, rs.entries@, i as int);
            // the prefix including cands[i] still weighs at most the whole list
            lemma_sorted_take(cands@, i as int + 1);
            assert forall|x: usize| cands@.take(i as int + 1).contains(x) implies cands@.contains(
                x,
            ) by {
                let k = choose|k: int|
                    0 <= k < cands@.take(i as int + 1).len() && #[trigger] cands@.take(
                        i as int + 1,
                    )[k] == x;
                assert(cands@[k] == x);
            }
            lemma_sum_weights_le(cands@.take(i as int + 1), cands@, rs.entries@);
        }
        let f = rs.freq(cands[i]);
        total = total + f;
        i += 1;
    }
    proof {
        assert(cands@.take(n as int) =~= cands@);
    }
    total
}

pub proof fn lemma_sorted_take(s: Seq<usize>, n: int)
    requires
        sorted_strict(s),
        0 <= n <= s.len(),
    ensures
        sorted_strict(s.take(n)),
{
    assert forall|i: int, j: int| 0 <= i < j < s.take(n).len() implies #[trigger] s.take(n)[i]
        < #[trigger] s.take(n)[j] by {
        assert(s.take(n)[i] == s[i]);
        assert(s.take(n)[j] == s[j]);
    }
}

/// Map a uniform draw `x` to a candidate: the one whose block of the
/// cumulative weights contains `x`. The block bounds in the `ensures`
/// pin the result and carry the weighted-draw law.
pub fn pick_by_weight(cands: &Vec<usize>, rs: &RuleSet, x: usize) -> (idx: usize)
    requires
        rs.wf(),
        sorted_strict(cands@),
        forall|t: usize| cands@.contains(t) ==> rs.contains_tile(t),
        (x as int) < sum_weights(cands@, rs.entries@),
        sum_weights(cands@, rs.entries@) <= usize::MAX,
    ensures
        idx < cands@.len(),
        sum_weights(cands@.take(idx as int), rs.entries@) <= x as int,
        (x as int) < sum_weights(cands@.take(idx as int), rs.entries@) + freq_val(
            rs.entries@,
            cands@[idx as int],
        ),
{
    let n = cands.len();
    let mut acc: usize = 0;
    let mut i: usize = 0;
    proof {
        assert(cands@.take(0) =~= Seq::<usize>::empty());
        assert(cands@.take(n as int) =~= cands@);
        if n == 0 {
            assert(sum_weights(cands@, rs.entries@) == 0);
        }
    }
    loop
        invariant
            n == cands@.len(),
            i < n,
            rs.wf(),
            sorted_strict(cands@),
            forall|t: usize| cands@.contains(t) ==> rs.contains_tile(t),
            (x as int) < sum_weights(cands@, rs.entries@),
            sum_weights(cands@, rs.entries@) <= usize::MAX,
            acc as int == sum_weights(cands@.take(i as int), rs.entries@),
            acc <= x,
        decreases n - i,
    {
        proof {
            lemma_sum_weights_take_step(cands@, rs.entries@, i as int);
            lemma_take_suffix_bound(cands@, rs.entries@, i as int + 1);
            lemma_sum_weights_nonneg(cands@.skip(i as int + 1), rs.entries@);
        }
        let f = rs.freq(cands[i]);
        if x < acc + f || i + 1 == n {
            proof {
                if !(x < acc + f) {
                    // the last block must reach the total, so x lies in it
                    assert(i + 1 == n);
                    assert(cands@.take(i as int + 1) =~= cands@);
                }
            }
            return i;
        }
        acc = acc + f;
        i += 1;
    }
}

/// The weight of a prefix plus the weight of the rest is the whole:
/// blocks never overrun the total.
pub proof fn lemma_take_suffix_bound(cands: Seq<usize>, es: Seq<(usize, Rule)>, k: int)
    requires
        0 <= k <= cands.len(),
    ensures
        sum_weights(cands.take(k), es) + sum_weights(cands.skip(k), es) == sum_weights(cands, es),
    decreases k,
{
    if k == 0 {
        assert(cands.take(0) =~= Seq::<usize>::empty());
        assert(cands.skip(0) =~= cands);
    } else {
        lemma_sum_weights_take_step(cands, es, k - 1);
        lemma_take_suffix_bound(cands, es, k - 1);
        // peeling one element off the suffix at position k-1
        assert(cands.skip(k - 1)[0] == cands[k - 1]);
        assert(cands.skip(k - 1).skip(1) =~= cands.skip(k));
    }
}

/// Prefix weights never shrink as candidates are added.
pub proof fn lemma_sum_weights_take_mono(
    cands: Seq<usize>,
    es: Seq<(usize, Rule)>,
    a: int,
    b: int,
)
    requires
        0 <= a <= b <= cands.len(),
    ensures
        sum_weights(cands.take(a), es) <= sum_weights(cands.take(b), es),
    decreases b - a,
{
    if a < b {
        lemma_sum_weights_take_step(cands, es, b - 1);
        lemma_sum_weights_take_mono(cands, es, a, b - 1);
    }
}

/// The weighted-draw law. The draws below the candidates' total
/// weight split into consecutive blocks, one per candidate in order:
/// candidate `i` owns draws `[w(take i), w(take i) + freq_i)`, a
/// block of exactly its frequency's worth of the total, and every
/// block is non-empty and lies inside the total. A uniform draw
/// mapped through these blocks therefore selects each candidate with
/// probability `freq_i` over the total weight, which renormalizes to
/// the not-yet-drawn candidates as draws are removed.
pub proof fn lemma_weighted_blocks(cands: Seq<usize>, rs: RuleSet, i: int)
    requires
        rs.wf(),
        sorted_strict(cands),
        forall|t: usize| cands.contains(t) ==> rs.contains_tile(t),
        0 <= i < cands.len(),
    ensures
        sum_weights(cands.take(i), rs.entries@) + freq_val(rs.entries@, cands[i]) == sum_weights(
            cands.take(i + 1),
            rs.entries@,
        ),
        0 <= sum_weights(cands.take(i), rs.entries@),
        sum_weights(cands.take(i + 1), rs.entries@) <= sum_weights(cands, rs.entries@),
        freq_val(rs.entries@, cands[i]) >= 1,
{
    lemma_sum_weights_take_step(cands, rs.entries@, i);
    lemma_sum_weights_nonneg(cands.take(i), rs.entries@);
    lemma_take_suffix_bound(cands, rs.entries@, i + 1);
    lemma_sum_weights_nonneg(cands.skip(i + 1), rs.entries@);
    assert(cands.contains(cands[i]));
    lemma_lookup_some_index(rs.entries@, cands[i]);
    let j = choose|j: int|
        0 <= j < rs.entries@.len() && (#[trigger] rs.entries@[j]).0 == cands[i] && rs.entries@[j].1
            == lookup(rs.entries@, cands[i])->Some_0;
    assert(rs.entries@[j].1.wf());
}

/// No draw lies in two blocks: the candidate a draw selects is
/// unique.
pub proof fn lemma_weighted_pick_unique(cands: Seq<usize>, rs: RuleSet, x: int, i: int, j: int)
    requires
        0 <= i < cands.len(),
        0 <= j < cands.len(),
        sum_weights(cands.take(i), rs.entries@) <= x < sum_weights(cands.take(i), rs.entries@)
            + freq_val(rs.entries@, cands[i]),
        sum_weights(cands.take(j), rs.entries@) <= x < sum_weights(cands.take(j), rs.entries@)
            + freq_val(rs.entries@, cands[j]),
    ensures
        i == j,
{
    if i < j {
        lemma_sum_weights_take_step(cands, rs.entries@, i);
        lemma_sum_weights_take_mono(cands, rs.entries@, i + 1, j);
        assert(false);
    }
    if j < i {
        lemma_sum_weights_take_step(cands, rs.entries@, j);
        lemma_sum_weights_take_mono(cands, rs.entries@, j + 1, i);
        assert(false);
    }
}

/// Draw one candidate, each with likelihood proportional to its
/// learned frequency: take a uniform number below the total weight
/// and map it through the cumulative blocks.
pub fn draw_weighted(cands: &Vec<usize>, rs: &RuleSet, rng: &mut RngSource) -> (v: usize)
    requires
        rs.wf(),
        sorted_strict(cands@),
        cands@.len() > 0,
        forall|t: usize| cands@.contains(t) ==> rs.contains_tile(t),
    ensures
        cands@.contains(v),
{
    proof {
        lemma_sum_weights_pos(cands@, *rs);
    }
    let total = total_weight(cands, rs);
    let x = rng.next_below(total as u64);
    let idx = pick_by_weight(cands, rs, x as usize);
    proof {
        assert(cands@.contains(cands@[idx as int]));
    }
    cands[idx]
}

} // verus!
