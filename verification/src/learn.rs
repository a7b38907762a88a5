//! The rule learner: from a sample grid to the rule table.
//!
//! Pass one counts how often each tile type occurs. Pass two gathers,
//! for every tile type and direction, the set of tile types observed
//! next to it. The resulting table is pinned exactly: frequencies are
//! the occurrence counts, neighbor lists are the observation sets in
//! strictly sorted order, so the table is a function of the sample.

use vstd::prelude::*;

use crate::rules::{keys_of, lemma_lookup_at_key, lemma_lookup_some_index, lookup, sorted_strict,
    Dir, Rule, RuleSet};
use crate::rules::sum_freq;
use crate::parse::total_cells;

verus! {

/// Occurrences of `v` in one row.
pub open spec fn count_row(row: Seq<usize>, v: usize) -> int
    decreases row.len(),
{
    if row.len() == 0 {
        0
    } else {
        count_row(row.drop_last(), v) + if row.last() == v {
            1int
        } else {
            0int
        }
    }
}

/// Occurrences of `v` in the whole sample.
pub open spec fn count_rows(g: Seq<Seq<usize>>, v: usize) -> int
    decreases g.len(),
{
    if g.len() == 0 {
        0
    } else {
        count_rows(g.drop_last(), v) + count_row(g.last(), v)
    }
}

/// Whether the cell in direction `d` of `(r, c)` exists in `g`; rows
/// may be ragged, each lookup goes by the looked-up row's own length.
pub open spec fn neighbor_exists(g: Seq<Seq<usize>>, r: int, c: int, d: Dir) -> bool {
    match d {
        Dir::North => r >= 1 && c < g[r - 1].len(),
        Dir::South => r + 1 < g.len() && c < g[r + 1].len(),
        Dir::West => c >= 1,
        Dir::East => c + 1 < g[r].len(),
    }
}

/// The tile type in direction `d` of `(r, c)`.
pub open spec fn neighbor_value(g: Seq<Seq<usize>>, r: int, c: int, d: Dir) -> usize {
    match d {
        Dir::North => g[r - 1][c],
        Dir::South => g[r + 1][c],
        Dir::West => g[r][c - 1],
        Dir::East => g[r][c + 1],
    }
}

/// Whether the cell `(r, c)` holds `v` and sees `u` in direction `d`.
pub open spec fn obs_at(g: Seq<Seq<usize>>, v: usize, d: Dir, u: usize, r: int, c: int) -> bool {
    &&& 0 <= r < g.len()
    &&& 0 <= c < g[r].len()
    &&& g[r][c] == v
    &&& neighbor_exists(g, r, c, d)
    &&& neighbor_value(g, r, c, d) == u
}

/// Whether some occurrence of `v` in the sample has `u` as its
/// neighbor in direction `d`.
pub open spec fn observed(g: Seq<Seq<usize>>, v: usize, d: Dir, u: usize) -> bool {
    exists|r: int, c: int| #[trigger] obs_at(g, v, d, u, r, c)
}

/// As [`observed`], but only from cells before `(r, c)` in row-major
/// order.
pub open spec fn observed_before(
    g: Seq<Seq<usize>>,
    v: usize,
    d: Dir,
    u: usize,
    r: int,
    c: int,
) -> bool {
    exists|r2: int, c2: int|
        #[trigger] obs_at(g, v, d, u, r2, c2) && (r2 < r || (r2 == r && c2 < c))
}

/// What the learner promises: the table's tile types are exactly
/// those occurring in the sample; each rule's frequency is the
/// occurrence count; each direction list holds, strictly sorted,
/// exactly the tile types observed in that direction; and the total
/// frequency is the sample's cell count, within the machine word.
pub open spec fn learned_from(g: Seq<Seq<usize>>, rs: RuleSet) -> bool {
    &&& sorted_strict(rs.keys())
    &&& forall|v: usize| #[trigger] rs.contains_tile(v) <==> count_rows(g, v) >= 1
    &&& forall|i: int|
        0 <= i < rs.entries@.len() ==> {
            let v = (#[trigger] rs.entries@[i]).0;
            let rule = rs.entries@[i].1;
            &&& rule.freq as int == count_rows(g, v)
            &&& sorted_strict(rule.north@)
            &&& sorted_strict(rule.south@)
            &&& sorted_strict(rule.east@)
            &&& sorted_strict(rule.west@)
            &&& forall|u: usize|
                #[trigger] rule.north@.contains(u) <==> observed(g, v, Dir::North, u)
            &&& forall|u: usize|
                #[trigger] rule.south@.contains(u) <==> observed(g, v, Dir::South, u)
            &&& forall|u: usize| #[trigger] rule.east@.contains(u) <==> observed(g, v, Dir::East, u)
            &&& forall|u: usize| #[trigger] rule.west@.contains(u) <==> observed(g, v, Dir::West, u)
        }
    &&& sum_freq(rs.entries@) == total_cells(g)
}

/// The keys of a count table, in entry order.
pub open spec fn fst_keys(s: Seq<(usize, usize)>) -> Seq<usize> {
    s.map_values(|e: (usize, usize)| e.0)
}

/// Count recorded for `w`; zero for an absent key.
pub open spec fn count_of(s: Seq<(usize, usize)>, w: usize) -> int
    decreases s.len(),
{
    if s.len() == 0 {
        0
    } else if s[0].0 == w {
        s[0].1 as int
    } else {
        count_of(s.skip(1), w)
    }
}

/// Sum of all recorded counts.
pub open spec fn sum_counts(s: Seq<(usize, usize)>) -> int
    decreases s.len(),
{
    if s.len() == 0 {
        0
    } else {
        s[0].1 + sum_counts(s.skip(1))
    }
}

proof fn lemma_count_of_at_key(s: Seq<(usize, usize)>, j: int)
    requires
        sorted_strict(fst_keys(s)),
        0 <= j < s.len(),
    ensures
        count_of(s, s[j].0) == s[j].1 as int,
    decreases s.len(),
{
    if j > 0 {
        assert(fst_keys(s)[0] == s[0].0);
        assert(fst_keys(s)[j] == s[j].0);
        assert(fst_keys(s.skip(1)) =~= fst_keys(s).skip(1));
        lemma_count_of_at_key(s.skip(1), j - 1);
        assert(s.skip(1)[j - 1] == s[j]);
    }
}

proof fn lemma_count_of_absent(s: Seq<(usize, usize)>, w: usize)
    requires
        !fst_keys(s).contains(w),
    ensures
        count_of(s, w) == 0,
    decreases s.len(),
{
    if s.len() > 0 {
        assert(fst_keys(s)[0] == s[0].0);
        assert(s[0].0 != w);
        assert forall|y: usize| fst_keys(s.skip(1)).contains(y) implies fst_keys(s).contains(
            y,
        ) by {
            let j = choose|j: int| 0 <= j < s.skip(1).len() && #[trigger] fst_keys(s.skip(1))[j] == y;
            assert(fst_keys(s)[j + 1] == s[j + 1].0);
            assert(s.skip(1)[j] == s[j + 1]);
        }
        lemma_count_of_absent(s.skip(1), w);
    }
}

proof fn lemma_count_of_update(s: Seq<(usize, usize)>, i: int, e: (usize, usize), w: usize)
    requires
        0 <= i < s.len(),
        e.0 == s[i].0,
        sorted_strict(fst_keys(s)),
    ensures
        count_of(s.update(i, e), w) == if w == e.0 {
            e.1 as int
        } else {
            count_of(s, w)
        },
    decreases s.len(),
{
    assert(fst_keys(s.update(i, e)) =~= fst_keys(s).update(i, e.0));
    if i == 0 {
        assert(s.update(0, e).skip(1) =~= s.skip(1));
    } else {
        assert(s.update(i, e).skip(1) =~= s.skip(1).update(i - 1, e));
        assert(fst_keys(s.skip(1)) =~= fst_keys(s).skip(1));
        if w == s[0].0 {
            assert(fst_keys(s)[0] == s[0].0);
            assert(fst_keys(s)[i] == s[i].0);
            assert(s[0].0 != e.0);
        } else {
            lemma_count_of_update(s.skip(1), i - 1, e, w);
        }
    }
}

proof fn lemma_sum_counts_update(s: Seq<(usize, usize)>, i: int, e: (usize, usize))
    requires
        0 <= i < s.len(),
    ensures
        sum_counts(s.update(i, e)) == sum_counts(s) - s[i].1 + e.1,
    decreases s.len(),
{
    if i == 0 {
        assert(s.update(0, e).skip(1) =~= s.skip(1));
    } else {
        assert(s.update(i, e).skip(1) =~= s.skip(1).update(i - 1, e));
        lemma_sum_counts_update(s.skip(1), i - 1, e);
    }
}

proof fn lemma_count_of_insert(s: Seq<(usize, usize)>, i: int, e: (usize, usize), w: usize)
    requires
        0 <= i <= s.len(),
        forall|j: int| 0 <= j < i ==> (#[trigger] s[j]).0 != e.0,
    ensures
        count_of(s.insert(i, e), w) == if w == e.0 {
            e.1 as int
        } else {
            count_of(s, w)
        },
    decreases s.len(), i,
{
    if i == 0 {
        assert(s.insert(0, e)[0] == e);
        assert(s.insert(0, e).skip(1) =~= s);
    } else {
        assert(s.insert(i, e)[0] == s[0]);
        assert(s.insert(i, e).skip(1) =~= s.skip(1).insert(i - 1, e));
        if w == s[0].0 {
            assert(s[0].0 != e.0);
        } else {
            assert(forall|j: int| 0 <= j < i - 1 ==> (#[trigger] s.skip(1)[j]).0 == s[j + 1].0);
            lemma_count_of_insert(s.skip(1), i - 1, e, w);
        }
    }
}

proof fn lemma_sum_counts_insert(s: Seq<(usize, usize)>, i: int, e: (usize, usize))
    requires
        0 <= i <= s.len(),
    ensures
        sum_counts(s.insert(i, e)) == sum_counts(s) + e.1,
    decreases i,
{
    if i == 0 {
        assert(s.insert(0, e)[0] == e);
        assert(s.insert(0, e).skip(1) =~= s);
    } else {
        assert(s.insert(i, e)[0] == s[0]);
        assert(s.insert(i, e).skip(1) =~= s.skip(1).insert(i - 1, e));
        lemma_sum_counts_insert(s.skip(1), i - 1, e);
    }
}

proof fn lemma_count_of_pos_key(s: Seq<(usize, usize)>, w: usize)
    requires
        count_of(s, w) != 0,
    ensures
        fst_keys(s).contains(w),
    decreases s.len(),
{
    if s.len() > 0 {
        if s[0].0 == w {
            assert(fst_keys(s)[0] == w);
        } else {
            lemma_count_of_pos_key(s.skip(1), w);
            let j = choose|j: int| 0 <= j < s.skip(1).len() && #[trigger] fst_keys(s.skip(1))[j] == w;
            assert(s.skip(1)[j] == s[j + 1]);
            assert(fst_keys(s)[j + 1] == w);
        }
    }
}

/// Record one more occurrence of tile type `u`.
fn bump_count(freqs: &mut Vec<(usize, usize)>, u: usize)
    requires
        sorted_strict(fst_keys(old(freqs)@)),
        count_of(old(freqs)@, u) < usize::MAX,
        forall|j: int| 0 <= j < old(freqs)@.len() ==> (#[trigger] old(freqs)@[j]).1 >= 1,
    ensures
        sorted_strict(fst_keys(final(freqs)@)),
        forall|w: usize|
            #[trigger] count_of(final(freqs)@, w) == count_of(old(freqs)@, w) + if w == u {
                1int
            } else {
                0int
            },
        sum_counts(final(freqs)@) == sum_counts(old(freqs)@) + 1,
        forall|j: int| 0 <= j < final(freqs)@.len() ==> (#[trigger] final(freqs)@[j]).1 >= 1,
{
    let n = freqs.len();
    let mut i: usize = 0;
    while i < n && freqs[i].0 < u
        invariant
            n == freqs@.len(),
            i <= n,
            freqs@ == old(freqs)@,
            forall|j: int| 0 <= j < i ==> (#[trigger] freqs@[j]).0 < u,
        decreases n - i,
    {
        i += 1;
    }
    if i < n && freqs[i].0 == u {
        let f = freqs[i].1;
        proof {
            lemma_count_of_at_key(freqs@, i as int);
            lemma_count_of_update(freqs@, i as int, (u, (f + 1) as usize), u);
            assert forall|w: usize| w != u implies #[trigger] count_of(
                freqs@.update(i as int, (u, (f + 1) as usize)),
                w,
            ) == count_of(freqs@, w) by {
                lemma_count_of_update(freqs@, i as int, (u, (f + 1) as usize), w);
            }
            lemma_sum_counts_update(freqs@, i as int, (u, (f + 1) as usize));
            assert(fst_keys(freqs@.update(i as int, (u, (f + 1) as usize))) =~= fst_keys(freqs@));
        }
        freqs.set(i, (u, f + 1));
    } else {
        proof {
            // u has no entry yet, so its count is zero
            if fst_keys(freqs@).contains(u) {
                let j = choose|j: int| 0 <= j < n && #[trigger] fst_keys(freqs@)[j] == u;
                assert(freqs@[j].0 == u);
                assert(j >= i);
                if j > i {
                    assert(fst_keys(freqs@)[i as int] < fst_keys(freqs@)[j]);
                    assert(false);
                } else {
                    assert(false);
                }
            }
            lemma_count_of_absent(freqs@, u);
            lemma_count_of_insert(freqs@, i as int, (u, 1usize), u);
            assert forall|w: usize| w != u implies #[trigger] count_of(
                freqs@.insert(i as int, (u, 1usize)),
                w,
            ) == count_of(freqs@, w) by {
                lemma_count_of_insert(freqs@, i as int, (u, 1usize), w);
            }
            lemma_sum_counts_insert(freqs@, i as int, (u, 1usize));
            let ghost ins = freqs@.insert(i as int, (u, 1usize));
            assert forall|a: int, b: int| 0 <= a < b < ins.len() implies #[trigger] fst_keys(
                ins,
            )[a] < #[trigger] fst_keys(ins)[b] by {
                assert(fst_keys(ins)[a] == ins[a].0);
                assert(fst_keys(ins)[b] == ins[b].0);
                assert(forall|x: int|
                    0 <= x < freqs@.len() ==> #[trigger] fst_keys(freqs@)[x] == freqs@[x].0);
                assert(ins[a] == if a < i {
                    freqs@[a]
                } else if a == i {
                    (u, 1usize)
                } else {
                    freqs@[a - 1]
                });
                assert(ins[b] == if b < i {
                    freqs@[b]
                } else if b == i {
                    (u, 1usize)
                } else {
                    freqs@[b - 1]
                });
                if i < n {
                    assert(freqs@[i as int].0 > u);
                }
                if a < i && b < i {
                    assert(fst_keys(freqs@)[a] < fst_keys(freqs@)[b]);
                } else if a > i && b > i {
                    assert(fst_keys(freqs@)[a - 1] < fst_keys(freqs@)[b - 1]);
                } else if b > i && b - 1 > i {
                    assert(fst_keys(freqs@)[i as int] < fst_keys(freqs@)[b - 1]);
                }
            }
        }
        freqs.insert(i, (u, 1));
    }
}

proof fn lemma_count_row_bounds(row: Seq<usize>, v: usize)
    ensures
        0 <= count_row(row, v) <= row.len(),
    decreases row.len(),
{
    if row.len() > 0 {
        lemma_count_row_bounds(row.drop_last(), v);
    }
}

proof fn lemma_total_cells_nonneg(g: Seq<Seq<usize>>)
    ensures
        total_cells(g) >= 0,
    decreases g.len(),
{
    if g.len() > 0 {
        lemma_total_cells_nonneg(g.skip(1));
    }
}

proof fn lemma_total_cells_snoc(g: Seq<Seq<usize>>)
    requires
        g.len() > 0,
    ensures
        total_cells(g) == total_cells(g.drop_last()) + g.last().len(),
    decreases g.len(),
{
    if g.len() == 1 {
        assert(g.drop_last() =~= Seq::<Seq<usize>>::empty());
        assert(g.skip(1) =~= Seq::<Seq<usize>>::empty());
    } else {
        lemma_total_cells_snoc(g.skip(1));
        assert(g.drop_last()[0] == g[0]);
        assert(g.drop_last().skip(1) =~= g.skip(1).drop_last());
        assert(g.skip(1).last() == g.last());
    }
}

proof fn lemma_count_rows_bounds(g: Seq<Seq<usize>>, v: usize)
    ensures
        0 <= count_rows(g, v) <= total_cells(g),
    decreases g.len(),
{
    if g.len() > 0 {
        lemma_count_rows_bounds(g.drop_last(), v);
        lemma_count_row_bounds(g.last(), v);
        lemma_total_cells_snoc(g);
    }
}

proof fn lemma_total_cells_split(g: Seq<Seq<usize>>, m: int)
    requires
        0 <= m <= g.len(),
    ensures
        total_cells(g) == total_cells(g.take(m)) + total_cells(g.skip(m)),
    decreases m,
{
    if m == 0 {
        assert(g.take(0) =~= Seq::<Seq<usize>>::empty());
        assert(g.skip(0) =~= g);
    } else {
        lemma_total_cells_split(g, m - 1);
        lemma_total_cells_snoc(g.take(m));
        assert(g.take(m).drop_last() =~= g.take(m - 1));
        assert(g.take(m).last() == g[m - 1]);
        assert(g.skip(m - 1)[0] == g[m - 1]);
        assert(g.skip(m - 1).skip(1) =~= g.skip(m));
    }
}

proof fn lemma_sum_counts_take_step(s: Seq<(usize, usize)>, i: int)
    requires
        0 <= i < s.len(),
    ensures
        sum_counts(s.take(i + 1)) == sum_counts(s.take(i)) + s[i].1,
    decreases i,
{
    if i == 0 {
        assert(s.take(1)[0] == s[0]);
        assert(s.take(1).skip(1) =~= s.take(0));
    } else {
        assert(s.take(i + 1)[0] == s[0]);
        assert(s.take(i)[0] == s[0]);
        assert(s.take(i + 1).skip(1) =~= s.skip(1).take(i));
        assert(s.take(i).skip(1) =~= s.skip(1).take(i - 1));
        lemma_sum_counts_take_step(s.skip(1), i - 1);
        assert(s.skip(1)[i - 1] == s[i]);
    }
}

proof fn lemma_sum_freq_snoc(es: Seq<(usize, Rule)>)
    requires
        es.len() > 0,
    ensures
        sum_freq(es) == sum_freq(es.drop_last()) + es.last().1.freq,
    decreases es.len(),
{
    if es.len() == 1 {
        assert(es.drop_last() =~= Seq::<(usize, Rule)>::empty());
        assert(es.skip(1) =~= Seq::<(usize, Rule)>::empty());
    } else {
        lemma_sum_freq_snoc(es.skip(1));
        assert(es.drop_last()[0] == es[0]);
        assert(es.drop_last().skip(1) =~= es.skip(1).drop_last());
        assert(es.skip(1).last() == es.last());
    }
}

/// Add `u` to a strictly sorted list if it is not there yet.
fn insert_sorted_unique(vec: &mut Vec<usize>, u: usize)
    requires
        sorted_strict(old(vec)@),
    ensures
        sorted_strict(final(vec)@),
        forall|y: usize| #[trigger] final(vec)@.contains(y) <==> old(vec)@.contains(y) || y == u,
{
    let n = vec.len();
    let mut i: usize = 0;
    while i < n && vec[i] < u
        invariant
            n == vec@.len(),
            i <= n,
            vec@ == old(vec)@,
            forall|j: int| 0 <= j < i ==> (#[trigger] vec@[j]) < u,
        decreases n - i,
    {
        i += 1;
    }
    if i < n && vec[i] == u {
        proof {
            assert(vec@.contains(u));
        }
        return ;
    }
    let ghost oldv = vec@;
    vec.insert(i, u);
    proof {
        assert forall|a: int, b: int| 0 <= a < b < vec@.len() implies #[trigger] vec@[a]
            < #[trigger] vec@[b] by {
            assert(vec@[a] == if a < i {
                oldv[a]
            } else if a == i {
                u
            } else {
                oldv[a - 1]
            });
            assert(vec@[b] == if b < i {
                oldv[b]
            } else if b == i {
                u
            } else {
                oldv[b - 1]
            });
            if i < n {
                assert(oldv[i as int] > u);
            }
        }
        assert forall|y: usize| #[trigger] vec@.contains(y) implies oldv.contains(y) || y == u by {
            let k = choose|k: int| 0 <= k < vec@.len() && vec@[k] == y;
            if k < i {
                assert(oldv[k] == y);
            } else if k > i {
                assert(oldv[k - 1] == y);
            }
        }
        assert forall|y: usize| oldv.contains(y) || y == u implies #[trigger] vec@.contains(y) by {
            if y == u {
                assert(vec@[i as int] == u);
            } else {
                let k = choose|k: int| 0 <= k < oldv.len() && oldv[k] == y;
                if k < i {
                    assert(vec@[k] == y);
                } else {
                    assert(vec@[k + 1] == y);
                }
            }
        }
    }
}

/// The tile types observed next to `v` in direction `d`, strictly
/// sorted: one row-major scan of the sample.
fn collect_allowed(sample: &Vec<Vec<usize>>, v: usize, d: Dir) -> (res: Vec<usize>)
    ensures
        sorted_strict(res@),
        forall|u: usize| #[trigger] res@.contains(u) <==> observed(sample.deep_view(), v, d, u),
{
    let ghost g = sample.deep_view();
    let nr = sample.len();
    let mut res: Vec<usize> = Vec::new();
    let mut r: usize = 0;
    while r < nr
        invariant
            nr == sample@.len(),
            g == sample.deep_view(),
            r <= nr,
            sorted_strict(res@),
            forall|u: usize|
                #[trigger] res@.contains(u) <==> observed_before(g, v, d, u, r as int, 0),
        decreases nr - r,
    {
        let rowlen = sample[r].len();
        proof {
            assert(g[r as int] =~= sample@[r as int]@);
        }
        let mut c: usize = 0;
        while c < rowlen
            invariant
                nr == sample@.len(),
                g == sample.deep_view(),
                r < nr,
                c <= rowlen,
                rowlen == g[r as int].len(),
                sorted_strict(res@),
                forall|u: usize|
                    #[trigger] res@.contains(u) <==> observed_before(g, v, d, u, r as int, c as int),
            decreases rowlen - c,
        {
            proof {
                assert(g[r as int] =~= sample@[r as int]@);
            }
            let ghost old_res = res@;
            if sample[r][c] == v {
                let mut has: bool = false;
                let mut uval: usize = 0;
                match d {
                    Dir::North => {
                        if r >= 1 {
                            proof {
                                assert(g[r as int - 1] =~= sample@[r as int - 1]@);
                            }
                            if c < sample[r - 1].len() {
                                has = true;
                                uval = sample[r - 1][c];
                            }
                        }
                    },
                    Dir::South => {
                        if r + 1 < nr {
                            proof {
                                assert(g[r as int + 1] =~= sample@[r as int + 1]@);
                            }
                            if c < sample[r + 1].len() {
                                has = true;
                                uval = sample[r + 1][c];
                            }
                        }
                    },
                    Dir::West => {
                        if c >= 1 {
                            has = true;
                            uval = sample[r][c - 1];
                        }
                    },
                    Dir::East => {
                        if c + 1 < rowlen {
                            has = true;
                            uval = sample[r][c + 1];
                        }
                    },
                }
                if has {
                    proof {
                        assert(obs_at(g, v, d, uval, r as int, c as int));
                    }
                    insert_sorted_unique(&mut res, uval);
                } else {
                    proof {
                        assert(!neighbor_exists(g, r as int, c as int, d));
                    }
                }
            }
            proof {
                assert forall|u: usize| #[trigger] res@.contains(u) implies observed_before(
                    g,
                    v,
                    d,
                    u,
                    r as int,
                    c as int + 1,
                ) by {
                    if old_res.contains(u) {
                        let (r2, c2) = choose|r2: int, c2: int|
                            #[trigger] obs_at(g, v, d, u, r2, c2) && (r2 < r as int || (r2
                                == r as int && c2 < c as int));
                        assert(obs_at(g, v, d, u, r2, c2) && (r2 < r as int || (r2 == r as int && c2
                            < c as int + 1)));
                    } else {
                        assert(obs_at(g, v, d, u, r as int, c as int));
                    }
                }
                assert forall|u: usize|
                    observed_before(g, v, d, u, r as int, c as int + 1) implies #[trigger] res@.contains(
                    u,
                ) by {
                    let (r2, c2) = choose|r2: int, c2: int|
                        #[trigger] obs_at(g, v, d, u, r2, c2) && (r2 < r as int || (r2 == r as int
                            && c2 < c as int + 1));
                    if r2 == r as int && c2 == c as int {
                        assert(g[r as int][c as int] == v);
                        assert(neighbor_exists(g, r as int, c as int, d));
                    } else {
                        assert(observed_before(g, v, d, u, r as int, c as int));
                    }
                }
            }
            c += 1;
        }
        proof {
            assert forall|u: usize| #[trigger] res@.contains(u) implies observed_before(
                g,
                v,
                d,
                u,
                r as int + 1,
                0,
            ) by {
                let (r2, c2) = choose|r2: int, c2: int|
                    #[trigger] obs_at(g, v, d, u, r2, c2) && (r2 < r as int || (r2 == r as int && c2
                        < rowlen as int));
                assert(r2 < r as int + 1);
            }
            assert forall|u: usize| observed_before(g, v, d, u, r as int + 1, 0) implies (
            #[trigger] res@.contains(u)) by {
                let (r2, c2) = choose|r2: int, c2: int|
                    #[trigger] obs_at(g, v, d, u, r2, c2) && (r2 < r as int + 1 || (r2 == r as int
                        + 1 && c2 < 0));
                assert(r2 < r as int || (r2 == r as int && c2 < g[r as int].len()));
            }
        }
        r += 1;
    }
    proof {
        assert forall|u: usize| #[trigger] res@.contains(u) implies observed(g, v, d, u) by {
            let (r2, c2) = choose|r2: int, c2: int|
                #[trigger] obs_at(g, v, d, u, r2, c2) && (r2 < nr as int || (r2 == nr as int && c2
                    < 0));
        }
        assert forall|u: usize| observed(g, v, d, u) implies #[trigger] res@.contains(u) by {
            let (r2, c2) = choose|r2: int, c2: int| #[trigger] obs_at(g, v, d, u, r2, c2);
            assert(obs_at(g, v, d, u, r2, c2) && (r2 < nr as int || (r2 == nr as int && c2 < 0)));
        }
    }
    res
}

/// Two strictly sorted lists with the same members are the same list.
pub proof fn lemma_sorted_unique(a: Seq<usize>, b: Seq<usize>)
    requires
        sorted_strict(a),
        sorted_strict(b),
        forall|x: usize| a.contains(x) <==> b.contains(x),
    ensures
        a == b,
    decreases a.len(),
{
    if a.len() == 0 {
        if b.len() > 0 {
            assert(b.contains(b[0]));
            assert(false);
        }
        assert(a =~= b);
    } else {
        assert(a.contains(a[0]));
        assert(b.contains(a[0]));
        if b.len() == 0 {
            assert(false);
        }
        let jb = choose|k: int| 0 <= k < b.len() && b[k] == a[0];
        assert(b[0] <= a[0]);
        assert(b.contains(b[0]));
        assert(a.contains(b[0]));
        let ja = choose|k: int| 0 <= k < a.len() && a[k] == b[0];
        assert(a[0] <= b[0]);
        assert(a[0] == b[0]);
        assert forall|x: usize| a.skip(1).contains(x) <==> b.skip(1).contains(x) by {
            if a.skip(1).contains(x) {
                let k = choose|k: int| 0 <= k < a.skip(1).len() && a.skip(1)[k] == x;
                assert(a[k + 1] == x);
                assert(a[0] < x);
                assert(a.contains(x));
                assert(b.contains(x));
                let m = choose|m: int| 0 <= m < b.len() && b[m] == x;
                assert(m >= 1);
                assert(b.skip(1)[m - 1] == x);
            }
            if b.skip(1).contains(x) {
                let k = choose|k: int| 0 <= k < b.skip(1).len() && b.skip(1)[k] == x;
                assert(b[k + 1] == x);
                assert(b[0] < x);
                assert(b.contains(x));
                assert(a.contains(x));
                let m = choose|m: int| 0 <= m < a.len() && a[m] == x;
                assert(m >= 1);
                assert(a.skip(1)[m - 1] == x);
            }
        }
        assert forall|p: int, q: int| 0 <= p < q < a.skip(1).len() implies #[trigger] a.skip(1)[p]
            < #[trigger] a.skip(1)[q] by {
            assert(a.skip(1)[p] == a[p + 1]);
            assert(a.skip(1)[q] == a[q + 1]);
        }
        assert forall|p: int, q: int| 0 <= p < q < b.skip(1).len() implies #[trigger] b.skip(1)[p]
            < #[trigger] b.skip(1)[q] by {
            assert(b.skip(1)[p] == b[p + 1]);
            assert(b.skip(1)[q] == b[q + 1]);
        }
        lemma_sorted_unique(a.skip(1), b.skip(1));
        assert(a.len() == b.len());
        assert forall|p: int| 0 <= p < a.len() implies a[p] == b[p] by {
            if p > 0 {
                assert(a.skip(1)[p - 1] == a[p]);
                assert(b.skip(1)[p - 1] == b[p]);
            }
        }
        assert(a =~= b);
    }
}

/// The learner is a pure function of its input: any two rule tables
/// meeting the learner's contract for the same sample are identical,
/// entry for entry and field for field. Learning twice from the same
/// sample therefore yields the same table both times.
pub proof fn lemma_learn_deterministic(g: Seq<Seq<usize>>, rs1: RuleSet, rs2: RuleSet)
    requires
        learned_from(g, rs1),
        learned_from(g, rs2),
    ensures
        rs1.entries@.len() == rs2.entries@.len(),
        forall|i: int|
            0 <= i < rs1.entries@.len() ==> {
                let e1 = #[trigger] rs1.entries@[i];
                let e2 = rs2.entries@[i];
                &&& e1.0 == e2.0
                &&& e1.1.freq == e2.1.freq
                &&& e1.1.north@ == e2.1.north@
                &&& e1.1.south@ == e2.1.south@
                &&& e1.1.east@ == e2.1.east@
                &&& e1.1.west@ == e2.1.west@
            },
{
    assert forall|x: usize| rs1.keys().contains(x) <==> rs2.keys().contains(x) by {
        if rs1.keys().contains(x) {
            let j = choose|j: int| 0 <= j < rs1.keys().len() && #[trigger] rs1.keys()[j] == x;
            assert(rs1.entries@[j].0 == x);
            lemma_lookup_at_key(rs1.entries@, j);
            assert(rs1.contains_tile(x));
            assert(rs2.contains_tile(x));
            lemma_lookup_some_index(rs2.entries@, x);
            let k = choose|k: int|
                0 <= k < rs2.entries@.len() && (#[trigger] rs2.entries@[k]).0 == x
                    && rs2.entries@[k].1 == lookup(rs2.entries@, x)->Some_0;
            assert(rs2.keys()[k] == x);
        }
        if rs2.keys().contains(x) {
            let j = choose|j: int| 0 <= j < rs2.keys().len() && #[trigger] rs2.keys()[j] == x;
            assert(rs2.entries@[j].0 == x);
            lemma_lookup_at_key(rs2.entries@, j);
            assert(rs2.contains_tile(x));
            assert(rs1.contains_tile(x));
            lemma_lookup_some_index(rs1.entries@, x);
            let k = choose|k: int|
                0 <= k < rs1.entries@.len() && (#[trigger] rs1.entries@[k]).0 == x
                    && rs1.entries@[k].1 == lookup(rs1.entries@, x)->Some_0;
            assert(rs1.keys()[k] == x);
        }
    }
    lemma_sorted_unique(rs1.keys(), rs2.keys());
    assert(rs1.entries@.len() == rs1.keys().len());
    assert(rs2.entries@.len() == rs2.keys().len());
    assert forall|i: int| 0 <= i < rs1.entries@.len() implies {
        let e1 = #[trigger] rs1.entries@[i];
        let e2 = rs2.entries@[i];
        &&& e1.0 == e2.0
        &&& e1.1.freq == e2.1.freq
        &&& e1.1.north@ == e2.1.north@
        &&& e1.1.south@ == e2.1.south@
        &&& e1.1.east@ == e2.1.east@
        &&& e1.1.west@ == e2.1.west@
    } by {
        assert(rs1.keys()[i] == rs1.entries@[i].0);
        assert(rs2.keys()[i] == rs2.entries@[i].0);
        let v = rs1.entries@[i].0;
        let r1 = rs1.entries@[i].1;
        let r2 = rs2.entries@[i].1;
        assert(r1.freq as int == count_rows(g, v));
        assert(r2.freq as int == count_rows(g, v));
        assert forall|u: usize| r1.north@.contains(u) <==> r2.north@.contains(u) by {
            assert(r1.north@.contains(u) <==> observed(g, v, Dir::North, u));
            assert(r2.north@.contains(u) <==> observed(g, v, Dir::North, u));
        }
        lemma_sorted_unique(r1.north@, r2.north@);
        assert forall|u: usize| r1.south@.contains(u) <==> r2.south@.contains(u) by {
            assert(r1.south@.contains(u) <==> observed(g, v, Dir::South, u));
            assert(r2.south@.contains(u) <==> observed(g, v, Dir::South, u));
        }
        lemma_sorted_unique(r1.south@, r2.south@);
        assert forall|u: usize| r1.east@.contains(u) <==> r2.east@.contains(u) by {
            assert(r1.east@.contains(u) <==> observed(g, v, Dir::East, u));
            assert(r2.east@.contains(u) <==> observed(g, v, Dir::East, u));
        }
        lemma_sorted_unique(r1.east@, r2.east@);
        assert forall|u: usize| r1.west@.contains(u) <==> r2.west@.contains(u) by {
            assert(r1.west@.contains(u) <==> observed(g, v, Dir::West, u));
            assert(r2.west@.contains(u) <==> observed(g, v, Dir::West, u));
        }
        lemma_sorted_unique(r1.west@, r2.west@);
    }
}

/// Learn the rule table from a sample grid: occurrence frequencies
/// and, per tile type and direction, the observed neighbor types.
pub fn learn(sample: &Vec<Vec<usize>>) -> (rs: RuleSet)
    requires
        total_cells(sample.deep_view()) <= usize::MAX,
    ensures
        rs.wf(),
        learned_from(sample.deep_view(), rs),
{
    let ghost g = sample.deep_view();
    let nr = sample.len();
    let mut freqs: Vec<(usize, usize)> = Vec::new();
    let mut r: usize = 0;
    proof {
        assert(g.take(0) =~= Seq::<Seq<usize>>::empty());
    }
    while r < nr
        invariant
            nr == sample@.len(),
            g == sample.deep_view(),
            total_cells(g) <= usize::MAX,
            r <= nr,
            sorted_strict(fst_keys(freqs@)),
            forall|j: int| 0 <= j < freqs@.len() ==> (#[trigger] freqs@[j]).1 >= 1,
            forall|w: usize| #[trigger] count_of(freqs@, w) == count_rows(g.take(r as int), w),
            sum_counts(freqs@) == total_cells(g.take(r as int)),
        decreases nr - r,
    {
        let rowlen = sample[r].len();
        proof {
            assert(g[r as int] =~= sample@[r as int]@);
            assert(g[r as int].take(0) =~= Seq::<usize>::empty());
        }
        let mut c: usize = 0;
        while c < rowlen
            invariant
                nr == sample@.len(),
                g == sample.deep_view(),
                total_cells(g) <= usize::MAX,
                r < nr,
                c <= rowlen,
                rowlen == g[r as int].len(),
                sorted_strict(fst_keys(freqs@)),
                forall|j: int| 0 <= j < freqs@.len() ==> (#[trigger] freqs@[j]).1 >= 1,
                forall|w: usize|
                    #[trigger] count_of(freqs@, w) == count_rows(g.take(r as int), w) + count_row(
                        g[r as int].take(c as int),
                        w,
                    ),
                sum_counts(freqs@) == total_cells(g.take(r as int)) + c,
            decreases rowlen - c,
        {
            let u = sample[r][c];
            proof {
                assert(g[r as int] =~= sample@[r as int]@);
                assert(g[r as int][c as int] == u);
                // the running count stays below the total cell count
                lemma_count_rows_bounds(g.take(r as int), u);
                lemma_count_row_bounds(g[r as int].take(c as int), u);
                lemma_total_cells_split(g, r as int + 1);
                lemma_total_cells_nonneg(g.skip(r as int + 1));
                lemma_total_cells_snoc(g.take(r as int + 1));
                assert(g.take(r as int + 1).drop_last() =~= g.take(r as int));
                assert(g.take(r as int + 1).last() == g[r as int]);
                assert(total_cells(g.take(r as int)) + rowlen <= total_cells(g));
                lemma_total_cells_nonneg(g.take(r as int));
            }
            bump_count(&mut freqs, u);
            proof {
                assert forall|w: usize| #[trigger] count_of(freqs@, w) == count_rows(
                    g.take(r as int),
                    w,
                ) + count_row(g[r as int].take(c as int + 1), w) by {
                    assert(g[r as int].take(c as int + 1).drop_last() =~= g[r as int].take(
                        c as int,
                    ));
                    assert(g[r as int].take(c as int + 1).last() == g[r as int][c as int]);
                }
            }
            c += 1;
        }
        proof {
            assert(g[r as int].take(rowlen as int) =~= g[r as int]);
            assert(g.take(r as int + 1).drop_last() =~= g.take(r as int));
            assert(g.take(r as int + 1).last() == g[r as int]);
            lemma_total_cells_snoc(g.take(r as int + 1));
        }
        r += 1;
    }
    proof {
        assert(g.take(nr as int) =~= g);
    }
    let m = freqs.len();
    let mut entries: Vec<(usize, Rule)> = Vec::new();
    let mut i: usize = 0;
    proof {
        assert(freqs@.take(0) =~= Seq::<(usize, usize)>::empty());
    }
    while i < m
        invariant
            m == freqs@.len(),
            g == sample.deep_view(),
            total_cells(g) <= usize::MAX,
            sorted_strict(fst_keys(freqs@)),
            forall|j: int| 0 <= j < freqs@.len() ==> (#[trigger] freqs@[j]).1 >= 1,
            forall|w: usize| #[trigger] count_of(freqs@, w) == count_rows(g, w),
            sum_counts(freqs@) == total_cells(g),
            i <= m,
            entries@.len() == i,
            forall|j: int|
                0 <= j < i ==> (#[trigger] entries@[j]).0 == freqs@[j].0 && entries@[j].1.freq
                    == freqs@[j].1,
            forall|j: int|
                0 <= j < i ==> {
                    let v = (#[trigger] entries@[j]).0;
                    let rule = entries@[j].1;
                    &&& sorted_strict(rule.north@)
                    &&& sorted_strict(rule.south@)
                    &&& sorted_strict(rule.east@)
                    &&& sorted_strict(rule.west@)
                    &&& forall|u: usize|
                        #[trigger] rule.north@.contains(u) <==> observed(g, v, Dir::North, u)
                    &&& forall|u: usize|
                        #[trigger] rule.south@.contains(u) <==> observed(g, v, Dir::South, u)
                    &&& forall|u: usize|
                        #[trigger] rule.east@.contains(u) <==> observed(g, v, Dir::East, u)
                    &&& forall|u: usize|
                        #[trigger] rule.west@.contains(u) <==> observed(g, v, Dir::West, u)
                },
            sum_freq(entries@) == sum_counts(freqs@.take(i as int)),
        decreases m - i,
    {
        let t = freqs[i].0;
        let f = freqs[i].1;
        let north = collect_allowed(sample, t, Dir::North);
        let south = collect_allowed(sample, t, Dir::South);
        let east = collect_allowed(sample, t, Dir::East);
        let west = collect_allowed(sample, t, Dir::West);
        let ghost old_entries = entries@;
        entries.push((t, Rule { freq: f, north, south, east, west }));
        proof {
            assert(entries@.drop_last() =~= old_entries);
            lemma_sum_freq_snoc(entries@);
            lemma_sum_counts_take_step(freqs@, i as int);
        }
        i += 1;
    }
    proof {
        assert(freqs@.take(m as int) =~= freqs@);
    }
    let rs = RuleSet { entries };
    proof {
        assert(keys_of(rs.entries@) =~= fst_keys(freqs@));
        assert forall|v: usize| #[trigger] rs.contains_tile(v) implies count_rows(g, v) >= 1 by {
            lemma_lookup_some_index(rs.entries@, v);
            let j = choose|j: int|
                0 <= j < rs.entries@.len() && (#[trigger] rs.entries@[j]).0 == v && rs.entries@[j].1
                    == lookup(rs.entries@, v)->Some_0;
            lemma_count_of_at_key(freqs@, j);
        }
        assert forall|v: usize| count_rows(g, v) >= 1 implies #[trigger] rs.contains_tile(v) by {
            lemma_count_of_pos_key(freqs@, v);
            let j = choose|j: int| 0 <= j < freqs@.len() && #[trigger] fst_keys(freqs@)[j] == v;
            assert(rs.entries@[j].0 == freqs@[j].0);
            lemma_lookup_at_key(rs.entries@, j);
        }
        assert forall|j: int| 0 <= j < rs.entries@.len() implies (#[trigger] rs.entries@[j]).1.freq
            as int == count_rows(g, rs.entries@[j].0) by {
            lemma_count_of_at_key(freqs@, j);
        }
        assert(rs.wf());
        assert(learned_from(g, rs));
    }
    rs
}

} // verus!
