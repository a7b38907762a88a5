//! The backtracking collapser: tentative collapse, one-hop constraint
//! propagation, validation, recursion, and rollback.

use vstd::prelude::*;

use crate::board::{
    count_none, lemma_count_none_congruent, lemma_count_none_update, lemma_rowmajor_in_range,
    Board, Neighbors, Tile,
};
use crate::rng::RngSource;
use crate::rules::{copy_vals, sorted_strict, Dir, RuleSet};
use crate::sampler::draw_weighted;

verus! {

/// Whether `(r, c)` is one of the four direct neighbors of `pos`.
pub open spec fn adjacent_to(pos: (usize, usize), r: int, c: int) -> bool {
    ||| (r == pos.0 - 1 && c == pos.1)
    ||| (r == pos.0 + 1 && c == pos.1)
    ||| (r == pos.0 && c == pos.1 - 1)
    ||| (r == pos.0 && c == pos.1 + 1)
}

/// Cell `t1` is cell `t0` with its superposition filtered to
/// `allowed`: same place, same concreteness, candidates narrowed.
pub open spec fn narrowed(t0: Tile, t1: Tile, allowed: Seq<usize>) -> bool {
    &&& t1.coords == t0.coords
    &&& t1.t == t0.t
    &&& sorted_strict(t1.position@)
    &&& forall|x: usize|
        #[trigger] t1.position@.contains(x) <==> t0.position@.contains(x) && allowed.contains(x)
}

/// Positionwise facts about cells carry over to the flat cell list:
/// if two same-sized boards agree at every position on whether a cell
/// is collapsed, their cell lists agree on it entrywise.
pub proof fn lemma_t_levelwise(b1: Board, b2: Board)
    requires
        b1.height == b2.height,
        b1.width == b2.width,
        b1.tiles@.len() == b1.height as int * b1.width as int,
        b2.tiles@.len() == b1.tiles@.len(),
        forall|r: int, c: int| b1.in_bounds(r, c) ==> (#[trigger] b1.at(r, c)).t == b2.at(r, c).t,
    ensures
        forall|j: int| 0 <= j < b1.tiles@.len() ==> (#[trigger] b1.tiles@[j]).t == b2.tiles@[j].t,
{
    let h = b1.height as int;
    let w = b1.width as int;
    assert forall|j: int| 0 <= j < b1.tiles@.len() implies (#[trigger] b1.tiles@[j]).t
        == b2.tiles@[j].t by {
        assert(w > 0) by (nonlinear_arith)
            requires
                0 <= j < h * w,
                w >= 0,
        ;
        let r = j / w;
        let c = j % w;
        vstd::arithmetic::div_mod::lemma_fundamental_div_mod(j, w);
        vstd::arithmetic::div_mod::lemma_mod_division_less_than_divisor(j, w);
        assert(0 <= r && r < h) by (nonlinear_arith)
            requires
                0 <= j < h * w,
                0 < w,
                0 <= c < w,
                j == w * r + c,
        ;
        assert(b1.in_bounds(r, c));
        assert(r * w + c == j) by (nonlinear_arith)
            requires
                j == w * r + c,
        ;
        assert(b1.at(r, c) == b1.tiles@[j]);
        assert(b2.at(r, c) == b2.tiles@[j]);
    }
}

/// The elements of `pos` that the rule table allows as neighbors of
/// `v` in direction `d`, keeping their relative order.
fn filter_allowed(rules: &RuleSet, v: usize, d: Dir, pos: &Vec<usize>) -> (r: Vec<usize>)
    requires
        sorted_strict(pos@),
    ensures
        sorted_strict(r@),
        forall|x: usize|
            #[trigger] r@.contains(x) <==> pos@.contains(x) && rules.allowed_of(v, d).contains(x),
{
    let n = pos.len();
    let mut r: Vec<usize> = Vec::new();
    let mut i: usize = 0;
    proof {
        assert(pos@.take(0) =~= Seq::<usize>::empty());
    }
    while i < n
        invariant
            n == pos@.len(),
            i <= n,
            sorted_strict(pos@),
            sorted_strict(r@),
            forall|x: usize|
                #[trigger] r@.contains(x) <==> pos@.take(i as int).contains(x)
                    && rules.allowed_of(v, d).contains(x),
        decreases n - i,
    {
        proof {
            assert(pos@.take(i as int + 1) =~= pos@.take(i as int).push(pos@[i as int]));
            assert forall|j: int| 0 <= j < i implies #[trigger] pos@.take(i as int)[j] == pos@.take(
                i as int + 1,
            )[j] by {}
        }
        let ghost prev = r@;
        if rules.allowed_contains(v, d, pos[i]) {
            proof {
                assert forall|k: int| 0 <= k < r@.len() implies r@[k] < pos@[i as int] by {
                    assert(r@.contains(r@[k]));
                    assert(pos@.take(i as int).contains(r@[k]));
                    let j = choose|j: int| 0 <= j < i && #[trigger] pos@[j] == r@[k];
                    assert(pos@[j] < pos@[i as int]);
                }
            }
            r.push(pos[i]);
            proof {
                assert forall|x: usize| #[trigger] r@.contains(x) implies pos@.take(
                    i as int + 1,
                ).contains(x) && rules.allowed_of(v, d).contains(x) by {
                    let k = choose|k: int| 0 <= k < r@.len() && r@[k] == x;
                    if k < prev.len() {
                        assert(prev[k] == x);
                        assert(prev.contains(x));
                        assert(pos@.take(i as int).contains(x));
                        let j = choose|j: int| 0 <= j < i && #[trigger] pos@.take(i as int)[j] == x;
                        assert(pos@.take(i as int + 1)[j] == x);
                    } else {
                        assert(x == pos@[i as int]);
                        assert(pos@.take(i as int + 1)[i as int] == x);
                    }
                }
                assert forall|x: usize|
                    pos@.take(i as int + 1).contains(x) && rules.allowed_of(v, d).contains(
                        x,
                    ) implies #[trigger] r@.contains(x) by {
                    let k = choose|k: int| 0 <= k <= i && #[trigger] pos@.take(i as int + 1)[k] == x;
                    if k < i {
                        assert(pos@.take(i as int)[k] == x);
                        assert(pos@.take(i as int).contains(x));
                        assert(prev.contains(x));
                        let m = choose|m: int| 0 <= m < prev.len() && prev[m] == x;
                        assert(r@[m] == x);
                    } else {
                        assert(x == pos@[i as int]);
                        assert(r@[r@.len() - 1] == x);
                    }
                }
            }
        } else {
            proof {
                assert forall|x: usize| #[trigger] r@.contains(x) implies pos@.take(
                    i as int + 1,
                ).contains(x) && rules.allowed_of(v, d).contains(x) by {
                    assert(pos@.take(i as int).contains(x));
                    let j = choose|j: int| 0 <= j < i && #[trigger] pos@.take(i as int)[j] == x;
                    assert(pos@.take(i as int + 1)[j] == x);
                }
                assert forall|x: usize|
                    pos@.take(i as int + 1).contains(x) && rules.allowed_of(v, d).contains(
                        x,
                    ) implies #[trigger] r@.contains(x) by {
                    let k = choose|k: int| 0 <= k <= i && #[trigger] pos@.take(i as int + 1)[k] == x;
                    if k < i {
                        assert(pos@.take(i as int)[k] == x);
                        assert(pos@.take(i as int).contains(x));
                    } else {
                        assert(x == pos@[i as int]);
                    }
                }
            }
        }
        i += 1;
    }
    proof {
        assert(pos@.take(n as int) =~= pos@);
    }
    r
}

/// Remove the single occurrence of `x` from a strictly sorted list.
fn remove_val(v: &mut Vec<usize>, x: usize)
    requires
        sorted_strict(old(v)@),
        old(v)@.contains(x),
    ensures
        sorted_strict(final(v)@),
        final(v)@.len() + 1 == old(v)@.len(),
        forall|y: usize| #[trigger] final(v)@.contains(y) <==> old(v)@.contains(y) && y != x,
{
    let n = v.len();
    let mut i: usize = 0;
    while i < n
        invariant
            n == v@.len(),
            i <= n,
            v@ == old(v)@,
            sorted_strict(v@),
            v@.contains(x),
            forall|j: int| 0 <= j < i ==> v@[j] != x,
        decreases n - i,
    {
        if v[i] == x {
            let ghost oldv = v@;
            v.remove(i);
            proof {
                assert(v@ =~= oldv.subrange(0, i as int) + oldv.subrange(
                    i as int + 1,
                    oldv.len() as int,
                ));
                assert forall|a: int, b: int| 0 <= a < b < v@.len() implies #[trigger] v@[a]
                    < #[trigger] v@[b] by {
                    assert(v@[a] == if a < i {
                        oldv[a]
                    } else {
                        oldv[a + 1]
                    });
                    assert(v@[b] == if b < i {
                        oldv[b]
                    } else {
                        oldv[b + 1]
                    });
                }
                assert forall|y: usize| #[trigger] v@.contains(y) implies oldv.contains(y) && y
                    != x by {
                    let k = choose|k: int| 0 <= k < v@.len() && v@[k] == y;
                    if k < i {
                        assert(oldv[k] == y);
                    } else {
                        assert(oldv[k + 1] == y);
                        assert(oldv[k + 1] != oldv[i as int]);
                    }
                }
                assert forall|y: usize| oldv.contains(y) && y != x implies v@.contains(y) by {
                    let k = choose|k: int| 0 <= k < oldv.len() && oldv[k] == y;
                    if k < i {
                        assert(v@[k] == y);
                    } else {
                        assert(k != i);
                        assert(v@[k - 1] == y);
                    }
                }
            }
            return ;
        }
        i += 1;
    }
    proof {
        let k = choose|k: int| 0 <= k < v@.len() && v@[k] == x;
        assert(false);
    }
}

impl Board {
    /// Narrow each in-bounds neighbor of `pos` to the tile types that
    /// the rule of `v` allows in that neighbor's direction. Concrete
    /// neighbors keep their (empty) superpositions, so propagation is
    /// a no-op on them.
    pub fn propagate(&mut self, pos: (usize, usize), v: usize)
        requires
            old(self).wf(),
            pos.0 < old(self).height,
            pos.1 < old(self).width,
        ensures
            final(self).wf(),
            final(self).height == old(self).height,
            final(self).width == old(self).width,
            final(self).rules == old(self).rules,
            final(self).tiles@.len() == old(self).tiles@.len(),
            forall|j: int|
                0 <= j < old(self).tiles@.len() ==> (#[trigger] final(self).tiles@[j]).t == old(
                    self,
                ).tiles@[j].t,
            forall|r: int, c: int|
                old(self).in_bounds(r, c) && !adjacent_to(pos, r, c) ==> #[trigger] final(self).at(
                    r,
                    c,
                ) == old(self).at(r, c),
            pos.0 > 0 ==> narrowed(
                old(self).at(pos.0 as int - 1, pos.1 as int),
                final(self).at(pos.0 as int - 1, pos.1 as int),
                old(self).rules.allowed_of(v, Dir::North),
            ),
            pos.0 + 1 < old(self).height ==> narrowed(
                old(self).at(pos.0 as int + 1, pos.1 as int),
                final(self).at(pos.0 as int + 1, pos.1 as int),
                old(self).rules.allowed_of(v, Dir::South),
            ),
            pos.1 > 0 ==> narrowed(
                old(self).at(pos.0 as int, pos.1 as int - 1),
                final(self).at(pos.0 as int, pos.1 as int - 1),
                old(self).rules.allowed_of(v, Dir::West),
            ),
            pos.1 + 1 < old(self).width ==> narrowed(
                old(self).at(pos.0 as int, pos.1 as int + 1),
                final(self).at(pos.0 as int, pos.1 as int + 1),
                old(self).rules.allowed_of(v, Dir::East),
            ),
    {
        if pos.0 > 0 {
            let nr = pos.0 - 1;
            let nc = pos.1;
            let (tcopy, newpos) = {
                let ot = self.get_at(nr, nc);
                (ot.t, filter_allowed(&self.rules, v, Dir::North, &ot.position))
            };
            self.set_at(nr, nc, Tile { coords: (nr, nc), t: tcopy, position: newpos });
        }
        if pos.0 + 1 < self.height {
            let nr = pos.0 + 1;
            let nc = pos.1;
            let (tcopy, newpos) = {
                let ot = self.get_at(nr, nc);
                (ot.t, filter_allowed(&self.rules, v, Dir::South, &ot.position))
            };
            self.set_at(nr, nc, Tile { coords: (nr, nc), t: tcopy, position: newpos });
        }
        if pos.1 > 0 {
            let nr = pos.0;
            let nc = pos.1 - 1;
            let (tcopy, newpos) = {
                let ot = self.get_at(nr, nc);
                (ot.t, filter_allowed(&self.rules, v, Dir::West, &ot.position))
            };
            self.set_at(nr, nc, Tile { coords: (nr, nc), t: tcopy, position: newpos });
        }
        if pos.1 + 1 < self.width {
            let nr = pos.0;
            let nc = pos.1 + 1;
            let (tcopy, newpos) = {
                let ot = self.get_at(nr, nc);
                (ot.t, filter_allowed(&self.rules, v, Dir::East, &ot.position))
            };
            self.set_at(nr, nc, Tile { coords: (nr, nc), t: tcopy, position: newpos });
        }
        proof {
            assert forall|r: int, c: int| self.in_bounds(r, c) implies (#[trigger] self.at(r, c)).t
                == old(self).at(r, c).t by {}
            lemma_t_levelwise(*old(self), *self);
        }
    }

    /// Put the snapshot copies of the four neighbors of `pos` back on
    /// the board, undoing a propagation.
    pub fn restore_neighbors(&mut self, snap: &Neighbors, pos: (usize, usize))
        requires
            old(self).wf(),
            pos.0 < old(self).height,
            pos.1 < old(self).width,
            match snap.north {
                Some(t) => pos.0 > 0 && t.coords == (((pos.0 - 1) as usize, pos.1)) && sorted_strict(
                    t.position@,
                ) && (forall|x: usize|
                    t.position@.contains(x) ==> old(self).rules.contains_tile(x)) && t.t == old(
                    self,
                ).at(pos.0 as int - 1, pos.1 as int).t,
                None => true,
            },
            match snap.south {
                Some(t) => pos.0 + 1 < old(self).height && t.coords == (((pos.0 + 1) as usize, pos.1))
                    && sorted_strict(t.position@) && (forall|x: usize|
                    t.position@.contains(x) ==> old(self).rules.contains_tile(x)) && t.t == old(
                    self,
                ).at(pos.0 as int + 1, pos.1 as int).t,
                None => true,
            },
            match snap.west {
                Some(t) => pos.1 > 0 && t.coords == ((pos.0, (pos.1 - 1) as usize)) && sorted_strict(
                    t.position@,
                ) && (forall|x: usize|
                    t.position@.contains(x) ==> old(self).rules.contains_tile(x)) && t.t == old(
                    self,
                ).at(pos.0 as int, pos.1 as int - 1).t,
                None => true,
            },
            match snap.east {
                Some(t) => pos.1 + 1 < old(self).width && t.coords == ((pos.0, (pos.1 + 1) as usize))
                    && sorted_strict(t.position@) && (forall|x: usize|
                    t.position@.contains(x) ==> old(self).rules.contains_tile(x)) && t.t == old(
                    self,
                ).at(pos.0 as int, pos.1 as int + 1).t,
                None => true,
            },
        ensures
            final(self).wf(),
            final(self).height == old(self).height,
            final(self).width == old(self).width,
            final(self).rules == old(self).rules,
            final(self).tiles@.len() == old(self).tiles@.len(),
            forall|j: int|
                0 <= j < old(self).tiles@.len() ==> (#[trigger] final(self).tiles@[j]).t == old(
                    self,
                ).tiles@[j].t,
            snap.north is Some ==> final(self).at(pos.0 as int - 1, pos.1 as int).eqv(
                snap.north->0,
            ),
            snap.south is Some ==> final(self).at(pos.0 as int + 1, pos.1 as int).eqv(
                snap.south->0,
            ),
            snap.west is Some ==> final(self).at(pos.0 as int, pos.1 as int - 1).eqv(snap.west->0),
            snap.east is Some ==> final(self).at(pos.0 as int, pos.1 as int + 1).eqv(snap.east->0),
            forall|r: int, c: int|
                old(self).in_bounds(r, c) && !((r == pos.0 - 1 && c == pos.1 && snap.north is Some)
                    || (r == pos.0 + 1 && c == pos.1 && snap.south is Some) || (r == pos.0 && c
                    == pos.1 - 1 && snap.west is Some) || (r == pos.0 && c == pos.1 + 1
                    && snap.east is Some)) ==> #[trigger] final(self).at(r, c) == old(self).at(
                    r,
                    c,
                ),
    {
        if let Some(t) = &snap.north {
            self.set_at(pos.0 - 1, pos.1, t.duplicate());
        }
        if let Some(t) = &snap.south {
            self.set_at(pos.0 + 1, pos.1, t.duplicate());
        }
        if let Some(t) = &snap.west {
            self.set_at(pos.0, pos.1 - 1, t.duplicate());
        }
        if let Some(t) = &snap.east {
            self.set_at(pos.0, pos.1 + 1, t.duplicate());
        }
        proof {
            assert forall|r: int, c: int| self.in_bounds(r, c) implies (#[trigger] self.at(r, c)).t
                == old(self).at(r, c).t by {}
            lemma_t_levelwise(*old(self), *self);
        }
    }

    /// Collapse the cell at `center_tile` to a concrete type and
    /// recursively solve the rest of the board, backtracking on
    /// contradiction.
    ///
    /// Candidates are tried in a frequency-weighted random order
    /// without replacement. Each tentative value is propagated one
    /// hop to the cell's neighbors; an invalid board rolls the
    /// neighbors back and tries the next candidate. A `true` result
    /// means the board is solved; on `false` every cell is exactly as
    /// collapsed as before, though failed attempts may leave some
    /// superpositions narrowed. Cells that were already concrete are
    /// never changed, and any newly concrete value comes from the
    /// cell's own prior superposition. A board of one cell with a
    /// candidate (or already concrete) always solves.
    #[verifier::rlimit(100)]
    pub fn collapse(&mut self, center_tile: (usize, usize), rng: &mut RngSource) -> (r: bool)
        requires
            old(self).wf(),
            center_tile.0 < old(self).height,
            center_tile.1 < old(self).width,
        ensures
            final(self).wf(),
            final(self).height == old(self).height,
            final(self).width == old(self).width,
            final(self).rules == old(self).rules,
            r ==> final(self).spec_solved(),
            !r ==> forall|r2: int, c2: int|
                old(self).in_bounds(r2, c2) ==> (#[trigger] final(self).at(r2, c2)).t
                    == old(self).at(r2, c2).t,
            forall|r2: int, c2: int|
                old(self).in_bounds(r2, c2) && old(self).at(r2, c2).t is Some
                    ==> (#[trigger] final(self).at(r2, c2)).t == old(self).at(r2, c2).t,
            forall|r2: int, c2: int|
                old(self).in_bounds(r2, c2) && old(self).at(r2, c2).t is None
                    && (#[trigger] final(self).at(r2, c2)).t is Some
                    ==> old(self).at(r2, c2).position@.contains(final(self).at(r2, c2).t->0),
            forall|r2: int, c2: int, x: usize|
                old(self).in_bounds(r2, c2)
                    && #[trigger] final(self).at(r2, c2).position@.contains(x)
                    ==> old(self).at(r2, c2).position@.contains(x),
            old(self).spec_solved() ==> r,
            (old(self).height == 1 && old(self).width == 1 && center_tile.0 == 0 && center_tile.1
                == 0 && (old(self).at(0, 0).t is Some || old(self).at(0, 0).position@.len() > 0))
                ==> r,
        decreases count_none(self.tiles@),
    {
        let ghost hyp = old(self).height == 1 && old(self).width == 1 && center_tile.0 == 0
            && center_tile.1 == 0 && (old(self).at(0, 0).t is Some || old(self).at(
            0,
            0,
        ).position@.len() > 0);
        if self.is_solved() {
            return true;
        }
        proof {
            if old(self).height == 1 && old(self).width == 1 && old(self).at(0, 0).t is Some {
                // a single concrete cell has no neighbors to disagree with
                assert forall|r2: int, c2: int| old(self).in_bounds(r2, c2) implies old(
                    self,
                ).cell_consistent(r2, c2) && (#[trigger] old(self).at(r2, c2)).t is Some by {
                    assert(r2 == 0 && c2 == 0);
                }
                assert(old(self).spec_solved());
            }
        }
        let cr = center_tile.0;
        let cc = center_tile.1;
        let (is_conc, backup) = {
            let cell = self.get_at(cr, cc);
            (cell.t.is_some(), copy_vals(&cell.position))
        };
        if is_conc {
            // a collapsed cell cannot pivot on an unsolved board
            return false;
        }
        proof {
            assert(sorted_strict(backup@));
            assert(hyp ==> backup@.len() > 0);
        }
        // mark the cell in progress: its superposition moves aside
        self.set_at(cr, cc, Tile { coords: (cr, cc), t: None, position: Vec::new() });
        proof {
            lemma_rowmajor_in_range(
                self.height as int,
                self.width as int,
                cr as int,
                cc as int,
            );
            lemma_count_none_congruent(old(self).tiles@, self.tiles@);
        }
        let mut remaining = copy_vals(&backup);
        let n = backup.len();
        let mut i: usize = 0;
        while i < n
            invariant
                self.wf(),
                self.height == old(self).height,
                self.width == old(self).width,
                self.rules == old(self).rules,
                cr == center_tile.0 && cc == center_tile.1,
                cr < self.height,
                cc < self.width,
                old(self).at(cr as int, cc as int).t is None,
                backup@ == old(self).at(cr as int, cc as int).position@,
                sorted_strict(backup@),
                forall|x: usize| backup@.contains(x) ==> old(self).rules.contains_tile(x),
                n == backup@.len(),
                i <= n,
                sorted_strict(remaining@),
                remaining@.len() + i == n,
                forall|y: usize| #[trigger] remaining@.contains(y) ==> backup@.contains(y),
                self.at(cr as int, cc as int).position@.len() == 0,
                count_none(self.tiles@) + (if self.at(cr as int, cc as int).t is Some {
                    1int
                } else {
                    0int
                }) == count_none(old(self).tiles@),
                forall|r2: int, c2: int|
                    old(self).in_bounds(r2, c2) && !(r2 == cr && c2 == cc) ==> (#[trigger] self.at(
                        r2,
                        c2,
                    )).t == old(self).at(r2, c2).t,
                forall|r2: int, c2: int, x: usize|
                    old(self).in_bounds(r2, c2) && #[trigger] self.at(r2, c2).position@.contains(x)
                        ==> old(self).at(r2, c2).position@.contains(x),
                i > 0 ==> !hyp,
                !old(self).spec_solved(),
                hyp == (old(self).height == 1 && old(self).width == 1 && center_tile.0 == 0
                    && center_tile.1 == 0 && (old(self).at(0, 0).t is Some || old(self).at(
                    0,
                    0,
                ).position@.len() > 0)),
            decreases n - i,
        {
            let v = draw_weighted(&remaining, &self.rules, rng);
            remove_val(&mut remaining, v);
            let ghost before_set = *self;
            // tentatively make the cell concrete
            self.set_at(cr, cc, Tile { coords: (cr, cc), t: Some(v), position: Vec::new() });
            proof {
                let w = self.width as int;
                let idx = cr as int * w + cc as int;
                lemma_rowmajor_in_range(self.height as int, w, cr as int, cc as int);
                if before_set.at(cr as int, cc as int).t is None {
                    lemma_count_none_update(before_set.tiles@, idx, self.tiles@[idx]);
                } else {
                    lemma_count_none_congruent(before_set.tiles@, self.tiles@);
                }
            }
            let ghost pre = *self;
            let old_neighbors = self.get_neighbors(center_tile);
            self.propagate(center_tile, v);
            proof {
                lemma_count_none_congruent(pre.tiles@, self.tiles@);
                // positions everywhere are still narrowed from the start
                assert forall|r2: int, c2: int, x: usize|
                    old(self).in_bounds(r2, c2) && #[trigger] self.at(r2, c2).position@.contains(
                        x,
                    ) implies old(self).at(r2, c2).position@.contains(x) by {
                    if adjacent_to(center_tile, r2, c2) {
                        assert(pre.at(r2, c2).position@.contains(x));
                        assert(before_set.at(r2, c2).position@.contains(x));
                    } else {
                        assert(self.at(r2, c2) == pre.at(r2, c2));
                    }
                }
            }
            if self.valid_position() {
                let next = self.choose_tile_to_collapse();
                let ghost before_rec = *self;
                if self.collapse(next, rng) {
                    proof {
                        assert forall|r2: int, c2: int, x: usize|
                            old(self).in_bounds(r2, c2) && #[trigger] before_rec.at(
                                r2,
                                c2,
                            ).position@.contains(x) implies old(self).at(r2, c2).position@.contains(
                            x,
                        ) by {
                            if !(r2 == cr && c2 == cc) && adjacent_to(center_tile, r2, c2) {
                                assert(pre.at(r2, c2).position@.contains(x));
                            }
                        }
                        assert forall|r2: int, c2: int|
                            old(self).in_bounds(r2, c2) && old(self).at(r2, c2).t is Some implies (
                        #[trigger] self.at(r2, c2)).t == old(self).at(r2, c2).t by {
                            assert(!(r2 == cr && c2 == cc));
                            assert(before_rec.at(r2, c2).t == old(self).at(r2, c2).t);
                        }
                        assert forall|r2: int, c2: int|
                            old(self).in_bounds(r2, c2) && old(self).at(r2, c2).t is None && (
                            #[trigger] self.at(r2, c2)).t is Some implies old(self).at(
                            r2,
                            c2,
                        ).position@.contains(self.at(r2, c2).t->0) by {
                            if r2 == cr && c2 == cc {
                                assert(before_rec.at(r2, c2).t == Some(v));
                                assert(backup@.contains(v));
                            } else {
                                assert(before_rec.at(r2, c2).t == old(self).at(r2, c2).t);
                            }
                        }
                    }
                    return true;
                }
                proof {
                    lemma_t_levelwise(before_rec, *self);
                    lemma_count_none_congruent(before_rec.tiles@, self.tiles@);
                    assert(self.at(cr as int, cc as int).t == Some(v));
                    if self.at(cr as int, cc as int).position@.len() > 0 {
                        let ghost p = self.at(cr as int, cc as int).position@;
                        assert(p.contains(p[0]));
                        assert(before_rec.at(cr as int, cc as int).position@.contains(p[0]));
                        assert(false);
                    }
                    if hyp {
                        // a 1-by-1 board is solved once its cell is concrete,
                        // so the recursion cannot have failed
                        assert forall|r2: int, c2: int|
                            before_rec.in_bounds(r2, c2) implies before_rec.cell_consistent(
                            r2,
                            c2,
                        ) && (#[trigger] before_rec.at(r2, c2)).t is Some by {
                            assert(r2 == 0 && c2 == 0);
                        }
                        assert(before_rec.spec_solved());
                        assert(false);
                    }
                }
            } else {
                proof {
                    if hyp {
                        // a 1-by-1 board with a concrete cell is always valid
                        assert forall|r2: int, c2: int|
                            self.in_bounds(r2, c2) implies #[trigger] self.cell_consistent(
                            r2,
                            c2,
                        ) by {
                            assert(r2 == 0 && c2 == 0);
                        }
                        assert(false);
                    }
                }
                self.restore_neighbors(&old_neighbors, center_tile);
                proof {
                    lemma_count_none_congruent(pre.tiles@, self.tiles@);
                }
            }
            i += 1;
        }
        // every candidate failed: put the cell back as it was
        self.set_at(cr, cc, Tile { coords: (cr, cc), t: None, position: backup });
        false
    }
}

} // verus!
