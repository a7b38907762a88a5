//! The mutable board: a grid of cells, each collapsed to a concrete
//! tile type or in superposition over the still-possible types.

use vstd::prelude::*;

use crate::rules::{copy_vals, lemma_lookup_at_key, sorted_strict, Dir, RuleSet};

verus! {

/// The value forced onto cell `(r, c)` by a seed list: the last seed
/// naming that position wins, as later seeds overwrite earlier ones.
pub open spec fn seed_at(seeds: Seq<(usize, (usize, usize))>, r: int, c: int) -> Option<usize>
    decreases seeds.len(),
{
    if seeds.len() == 0 {
        None
    } else if seeds.last().1.0 == r && seeds.last().1.1 == c {
        Some(seeds.last().0)
    } else {
        seed_at(seeds.drop_last(), r, c)
    }
}

/// The seed list as a sequence; no seeding means no seeds.
pub open spec fn spec_seeds(seeding: Option<Vec<(usize, (usize, usize))>>) -> Seq<
    (usize, (usize, usize)),
> {
    match seeding {
        Some(v) => v@,
        None => Seq::empty(),
    }
}

/// One cell of the board.
///
/// A cell either has a concrete type `t` (collapsed, empty candidate
/// list), or no concrete type and a candidate list `position` of the
/// still-possible tile types. A cell with neither is contradictory
/// and makes the board invalid.
#[derive(Debug)]
pub struct Tile {
    /// The cell's fixed `(row, col)` position on its board.
    pub coords: (usize, usize),
    /// The concrete tile type, once the cell has collapsed.
    pub t: Option<usize>,
    /// The superposition: candidate tile types, strictly sorted.
    pub position: Vec<usize>,
}

impl Tile {
    /// Field-wise equality of two cells.
    pub open spec fn eqv(self, o: Tile) -> bool {
        &&& self.coords == o.coords
        &&& self.t == o.t
        &&& self.position@ == o.position@
    }

    /// Entropy: how undetermined the cell is. A collapsed cell is
    /// never selected, so its entropy is the maximum; otherwise it is
    /// the number of candidates.
    pub open spec fn spec_entropy(self) -> int {
        if self.t is Some {
            usize::MAX as int
        } else {
            self.position@.len() as int
        }
    }

    /// A fresh cell in full superposition over `full`.
    pub fn fresh(coords: (usize, usize), full: Vec<usize>) -> (r: Tile)
        ensures
            r.coords == coords,
            r.t is None,
            r.position@ == full@,
    {
        Tile { coords, t: None, position: full }
    }

    /// A cell forced concrete to type `t`, with no candidates left.
    pub fn set(coords: (usize, usize), t: usize) -> (r: Tile)
        ensures
            r.coords == coords,
            r.t == Some(t),
            r.position@.len() == 0,
    {
        Tile { coords, t: Some(t), position: Vec::new() }
    }

    /// Executable counterpart of [`Tile::spec_entropy`].
    pub fn entropy(&self) -> (r: usize)
        ensures
            r as int == self.spec_entropy(),
    {
        if self.t.is_some() {
            usize::MAX
        } else {
            self.position.len()
        }
    }

    /// A fresh copy of the cell.
    pub fn duplicate(&self) -> (r: Tile)
        ensures
            r.eqv(*self),
    {
        Tile { coords: self.coords, t: self.t, position: copy_vals(&self.position) }
    }
}

/// The in-bounds cells around one position, copied out of the board;
/// an out-of-bounds direction holds nothing.
#[derive(Debug)]
pub struct Neighbors {
    /// Copy of the cell at `(row - 1, col)`, if any.
    pub north: Option<Tile>,
    /// Copy of the cell at `(row + 1, col)`, if any.
    pub south: Option<Tile>,
    /// Copy of the cell at `(row, col + 1)`, if any.
    pub east: Option<Tile>,
    /// Copy of the cell at `(row, col - 1)`, if any.
    pub west: Option<Tile>,
}

/// A present neighbor as one list element: its direction from the
/// center, the direction back, and the cell itself.
pub open spec fn opt_elem(o: Option<Tile>, d: Dir) -> Seq<(Dir, Dir, Tile)> {
    match o {
        Some(t) => seq![(d, d.spec_opposite(), t)],
        None => Seq::empty(),
    }
}

impl Neighbors {
    /// An empty set of neighbors.
    pub fn new() -> (r: Neighbors)
        ensures
            r.north is None,
            r.south is None,
            r.east is None,
            r.west is None,
    {
        Neighbors { north: None, south: None, east: None, west: None }
    }

    /// The present neighbors in a fixed order, each with its
    /// direction from the center and the direction pointing back.
    pub fn into_elements(self) -> (r: Vec<(Dir, Dir, Tile)>)
        ensures
            r@ == opt_elem(self.north, Dir::North) + opt_elem(self.south, Dir::South) + opt_elem(
                self.east,
                Dir::East,
            ) + opt_elem(self.west, Dir::West),
    {
        let mut r: Vec<(Dir, Dir, Tile)> = Vec::new();
        let Neighbors { north, south, east, west } = self;
        if let Some(t) = north {
            r.push((Dir::North, Dir::South, t));
        }
        if let Some(t) = south {
            r.push((Dir::South, Dir::North, t));
        }
        if let Some(t) = east {
            r.push((Dir::East, Dir::West, t));
        }
        if let Some(t) = west {
            r.push((Dir::West, Dir::East, t));
        }
        proof {
            assert(r@ =~= opt_elem(self.north, Dir::North) + opt_elem(self.south, Dir::South)
                + opt_elem(self.east, Dir::East) + opt_elem(self.west, Dir::West));
        }
        r
    }
}

/// Number of not-yet-collapsed cells: the solver's termination
/// measure.
pub open spec fn count_none(s: Seq<Tile>) -> nat
    decreases s.len(),
{
    if s.len() == 0 {
        0
    } else {
        (if s[0].t is None {
            1nat
        } else {
            0nat
        }) + count_none(s.skip(1))
    }
}

/// Collapsing one cell lowers the measure by one.
pub proof fn lemma_count_none_update(s: Seq<Tile>, i: int, tile: Tile)
    requires
        0 <= i < s.len(),
        s[i].t is None,
        tile.t is Some,
    ensures
        count_none(s.update(i, tile)) + 1 == count_none(s),
    decreases s.len(),
{
    if i == 0 {
        assert(s.update(0, tile).skip(1) =~= s.skip(1));
    } else {
        assert(s.update(i, tile).skip(1) =~= s.skip(1).update(i - 1, tile));
        lemma_count_none_update(s.skip(1), i - 1, tile);
    }
}

/// The measure only depends on which cells are collapsed.
pub proof fn lemma_count_none_congruent(s1: Seq<Tile>, s2: Seq<Tile>)
    requires
        s1.len() == s2.len(),
        forall|i: int| 0 <= i < s1.len() ==> ((#[trigger] s1[i]).t is None <==> s2[i].t is None),
    ensures
        count_none(s1) == count_none(s2),
    decreases s1.len(),
{
    if s1.len() > 0 {
        assert(forall|i: int|
            0 <= i < s1.skip(1).len() ==> (#[trigger] s1.skip(1)[i]) == s1[i + 1] && s2.skip(1)[i]
                == s2[i + 1]);
        lemma_count_none_congruent(s1.skip(1), s2.skip(1));
    }
}

/// Positions `(r1, c1)` and `(r2, c2)` of one row-major grid share an
/// index only if they are the same position.
pub proof fn lemma_rowmajor_injective(w: int, r1: int, c1: int, r2: int, c2: int)
    requires
        0 <= c1 < w,
        0 <= c2 < w,
        0 <= r1,
        0 <= r2,
        r1 * w + c1 == r2 * w + c2,
    ensures
        r1 == r2 && c1 == c2,
{
    assert(r1 == r2 && c1 == c2) by (nonlinear_arith)
        requires
            0 <= c1 < w,
            0 <= c2 < w,
            0 <= r1,
            0 <= r2,
            r1 * w + c1 == r2 * w + c2,
    ;
}

/// A position's row-major index lies inside the grid's cell count.
pub proof fn lemma_rowmajor_in_range(h: int, w: int, r: int, c: int)
    requires
        0 <= r < h,
        0 <= c < w,
    ensures
        0 <= r * w + c < h * w,
{
    assert(0 <= r * w + c < h * w) by (nonlinear_arith)
        requires
            0 <= r < h,
            0 <= c < w,
    ;
}

/// The board: a `height` by `width` row-major grid of cells plus the
/// learned rule table it is being solved against.
#[derive(Debug)]
pub struct Board {
    /// Number of rows.
    pub height: usize,
    /// Number of columns.
    pub width: usize,
    /// The cells, row-major: `(r, c)` lives at `r * width + c`.
    pub tiles: Vec<Tile>,
    /// The learned rules.
    pub rules: RuleSet,
}

impl Board {
    /// Whether `(r, c)` lies on the board.
    pub open spec fn in_bounds(self, r: int, c: int) -> bool {
        0 <= r < self.height && 0 <= c < self.width
    }

    /// The cell at `(r, c)`.
    pub open spec fn at(self, r: int, c: int) -> Tile {
        self.tiles@[r * self.width + c]
    }

    /// A cell's candidates are strictly sorted and known tile types.
    pub open spec fn tile_wf(self, tile: Tile) -> bool {
        &&& sorted_strict(tile.position@)
        &&& forall|x: usize| tile.position@.contains(x) ==> self.rules.contains_tile(x)
    }

    /// Structural well-formedness of the board.
    pub open spec fn wf(self) -> bool {
        &&& self.rules.wf()
        &&& (self.height as int) * (self.width as int) <= usize::MAX
        &&& self.tiles@.len() == (self.height as int) * (self.width as int)
        &&& forall|r: int, c: int|
            self.in_bounds(r, c) ==> (#[trigger] self.at(r, c)).coords == (r as usize, c as usize)
        &&& forall|r: int, c: int| self.in_bounds(r, c) ==> self.tile_wf(#[trigger] self.at(r, c))
    }

    /// Whether the cell at `(r, c)` is consistent: not contradictory,
    /// and, if concrete, allowed by each concrete neighbor's rule for
    /// the direction pointing back at it.
    pub open spec fn cell_consistent(self, r: int, c: int) -> bool {
        let tile = self.at(r, c);
        &&& (tile.t is None ==> tile.position@.len() > 0)
        &&& (tile.t is Some ==> {
            let v = tile.t->0;
            &&& (r > 0 && self.at(r - 1, c).t is Some ==> self.rules.allowed_of(
                self.at(r - 1, c).t->0,
                Dir::South,
            ).contains(v))
            &&& (r + 1 < self.height && self.at(r + 1, c).t is Some ==> self.rules.allowed_of(
                self.at(r + 1, c).t->0,
                Dir::North,
            ).contains(v))
            &&& (c > 0 && self.at(r, c - 1).t is Some ==> self.rules.allowed_of(
                self.at(r, c - 1).t->0,
                Dir::East,
            ).contains(v))
            &&& (c + 1 < self.width && self.at(r, c + 1).t is Some ==> self.rules.allowed_of(
                self.at(r, c + 1).t->0,
                Dir::West,
            ).contains(v))
        })
    }

    /// Whether every cell is consistent.
    pub open spec fn spec_valid(self) -> bool {
        forall|r: int, c: int| self.in_bounds(r, c) ==> #[trigger] self.cell_consistent(r, c)
    }

    /// Whether every cell has collapsed.
    pub open spec fn spec_all_concrete(self) -> bool {
        forall|r: int, c: int| self.in_bounds(r, c) ==> (#[trigger] self.at(r, c)).t is Some
    }

    /// A solved board is valid and fully concrete.
    pub open spec fn spec_solved(self) -> bool {
        self.spec_valid() && self.spec_all_concrete()
    }

    /// Row-major index of `(r, c)`.
    fn idx(&self, r: usize, c: usize) -> (i: usize)
        requires
            self.wf(),
            r < self.height,
            c < self.width,
        ensures
            i as int == r as int * self.width as int + c as int,
            i < self.tiles@.len(),
    {
        proof {
            assert(r as int * self.width as int + c < self.height as int
                * self.width as int) by (nonlinear_arith)
                requires
                    r < self.height,
                    c < self.width,
            ;
            assert(r as int * self.width as int >= 0) by (nonlinear_arith)
                requires
                    0 <= r,
                    0 < self.width,
            ;
        }
        r * self.width + c
    }

    /// Borrow the cell at `(r, c)`.
    pub fn get_at(&self, r: usize, c: usize) -> (tile: &Tile)
        requires
            self.wf(),
            r < self.height,
            c < self.width,
        ensures
            *tile == self.at(r as int, c as int),
    {
        let i = self.idx(r, c);
        &self.tiles[i]
    }

    /// Replace the cell at `(r, c)`. The new cell must belong there
    /// and keep the board well formed.
    pub fn set_at(&mut self, r: usize, c: usize, tile: Tile)
        requires
            old(self).wf(),
            r < old(self).height,
            c < old(self).width,
            tile.coords == (r, c),
            old(self).tile_wf(tile),
        ensures
            final(self).wf(),
            final(self).height == old(self).height,
            final(self).width == old(self).width,
            final(self).rules == old(self).rules,
            final(self).at(r as int, c as int) == tile,
            forall|r2: int, c2: int|
                old(self).in_bounds(r2, c2) && (r2 != r || c2 != c) ==> #[trigger] final(self).at(
                    r2,
                    c2,
                ) == old(self).at(r2, c2),
            final(self).tiles@ == old(self).tiles@.update(
                r as int * old(self).width as int + c as int,
                tile,
            ),
    {
        let i = self.idx(r, c);
        self.tiles.set(i, tile);
        proof {
            let w = self.width as int;
            assert forall|r2: int, c2: int|
                self.in_bounds(r2, c2) && (r2 != r || c2 != c) implies #[trigger] self.at(r2, c2)
                == old(self).at(r2, c2) by {
                lemma_rowmajor_in_range(self.height as int, w, r2, c2);
                if r2 * w + c2 == i as int {
                    lemma_rowmajor_injective(w, r2, c2, r as int, c as int);
                }
            }
            assert forall|r2: int, c2: int| self.in_bounds(r2, c2) implies (#[trigger] self.at(
                r2,
                c2,
            )).coords == (r2 as usize, c2 as usize) && self.tile_wf(self.at(r2, c2)) by {
                if r2 != r || c2 != c {
                    assert(self.at(r2, c2) == old(self).at(r2, c2));
                }
            }
        }
    }

    /// Whether no cell on the board breaks the rules: no cell is
    /// contradictory, and every pair of adjacent concrete cells is
    /// allowed by the neighbor's rule for the direction pointing back.
    /// A full rescan of the board.
    pub fn valid_position(&self) -> (r: bool)
        requires
            self.wf(),
        ensures
            r == self.spec_valid(),
    {
        let h = self.height;
        let w = self.width;
        let mut r: usize = 0;
        while r < h
            invariant
                self.wf(),
                h == self.height,
                w == self.width,
                r <= h,
                forall|r2: int, c2: int|
                    0 <= r2 < r && 0 <= c2 < w ==> #[trigger] self.cell_consistent(r2, c2),
            decreases h - r,
        {
            let mut c: usize = 0;
            while c < w
                invariant
                    self.wf(),
                    h == self.height,
                    w == self.width,
                    r < h,
                    c <= w,
                    forall|r2: int, c2: int|
                        0 <= r2 < r && 0 <= c2 < w ==> #[trigger] self.cell_consistent(r2, c2),
                    forall|c2: int| 0 <= c2 < c ==> #[trigger] self.cell_consistent(r as int, c2),
                decreases w - c,
            {
                let tile = self.get_at(r, c);
                if tile.t.is_none() && tile.position.len() == 0 {
                    proof {
                        assert(!self.cell_consistent(r as int, c as int));
                    }
                    return false;
                }
                if let Some(v) = tile.t {
                    if r > 0 {
                        let n = self.get_at(r - 1, c);
                        if let Some(nt) = n.t {
                            if !self.rules.allowed_contains(nt, Dir::South, v) {
                                proof {
                                    assert(!self.cell_consistent(r as int, c as int));
                                }
                                return false;
                            }
                        }
                    }
                    if r + 1 < h {
                        let n = self.get_at(r + 1, c);
                        if let Some(nt) = n.t {
                            if !self.rules.allowed_contains(nt, Dir::North, v) {
                                proof {
                                    assert(!self.cell_consistent(r as int, c as int));
                                }
                                return false;
                            }
                        }
                    }
                    if c > 0 {
                        let n = self.get_at(r, c - 1);
                        if let Some(nt) = n.t {
                            if !self.rules.allowed_contains(nt, Dir::East, v) {
                                proof {
                                    assert(!self.cell_consistent(r as int, c as int));
                                }
                                return false;
                            }
                        }
                    }
                    if c + 1 < w {
                        let n = self.get_at(r, c + 1);
                        if let Some(nt) = n.t {
                            if !self.rules.allowed_contains(nt, Dir::West, v) {
                                proof {
                                    assert(!self.cell_consistent(r as int, c as int));
                                }
                                return false;
                            }
                        }
                    }
                }
                proof {
                    assert(self.cell_consistent(r as int, c as int));
                }
                c += 1;
            }
            r += 1;
        }
        true
    }

    /// Whether the board is solved: valid and fully collapsed.
    pub fn is_solved(&self) -> (r: bool)
        requires
            self.wf(),
        ensures
            r == self.spec_solved(),
    {
        if !self.valid_position() {
            return false;
        }
        let h = self.height;
        let w = self.width;
        let mut r: usize = 0;
        while r < h
            invariant
                self.wf(),
                h == self.height,
                w == self.width,
                r <= h,
                forall|r2: int, c2: int|
                    0 <= r2 < r && 0 <= c2 < w ==> (#[trigger] self.at(r2, c2)).t is Some,
            decreases h - r,
        {
            let mut c: usize = 0;
            while c < w
                invariant
                    self.wf(),
                    h == self.height,
                    w == self.width,
                    r < h,
                    c <= w,
                    forall|r2: int, c2: int|
                        0 <= r2 < r && 0 <= c2 < w ==> (#[trigger] self.at(r2, c2)).t is Some,
                    forall|c2: int| 0 <= c2 < c ==> (#[trigger] self.at(r as int, c2)).t is Some,
                decreases w - c,
            {
                if self.get_at(r, c).t.is_none() {
                    return false;
                }
                c += 1;
            }
            r += 1;
        }
        true
    }

    /// The position of the cell with minimum entropy; ties go to the
    /// first such cell in row-major scan order.
    pub fn choose_tile_to_collapse(&self) -> (pos: (usize, usize))
        requires
            self.wf(),
            self.height >= 1,
            self.width >= 1,
        ensures
            self.in_bounds(pos.0 as int, pos.1 as int),
            forall|r: int, c: int|
                self.in_bounds(r, c) ==> self.at(pos.0 as int, pos.1 as int).spec_entropy() <= (
                #[trigger] self.at(r, c)).spec_entropy(),
            forall|r: int, c: int|
                self.in_bounds(r, c) && (r < pos.0 || (r == pos.0 && c < pos.1)) ==> (
                #[trigger] self.at(r, c)).spec_entropy() > self.at(
                    pos.0 as int,
                    pos.1 as int,
                ).spec_entropy(),
    {
        let h = self.height;
        let w = self.width;
        let mut br: usize = 0;
        let mut bc: usize = 0;
        let mut be: usize = self.get_at(0, 0).entropy();
        let mut r: usize = 0;
        while r < h
            invariant
                self.wf(),
                h == self.height,
                w == self.width,
                r <= h,
                br < h,
                bc < w,
                be as int == self.at(br as int, bc as int).spec_entropy(),
                br < r || (br == 0 && bc == 0),
                forall|r2: int, c2: int|
                    0 <= r2 < r && 0 <= c2 < w ==> be as int <= (#[trigger] self.at(
                        r2,
                        c2,
                    )).spec_entropy(),
                forall|r2: int, c2: int|
                    0 <= r2 < r && 0 <= c2 < w && (r2 < br || (r2 == br && c2 < bc)) ==> (
                    #[trigger] self.at(r2, c2)).spec_entropy() > be as int,
            decreases h - r,
        {
            let mut c: usize = 0;
            while c < w
                invariant
                    self.wf(),
                    h == self.height,
                    w == self.width,
                    r < h,
                    c <= w,
                    br < h,
                    bc < w,
                    be as int == self.at(br as int, bc as int).spec_entropy(),
                    br < r || (br == r && bc < c) || (br == 0 && bc == 0),
                    forall|r2: int, c2: int|
                        0 <= r2 < r && 0 <= c2 < w ==> be as int <= (#[trigger] self.at(
                            r2,
                            c2,
                        )).spec_entropy(),
                    forall|c2: int|
                        0 <= c2 < c ==> be as int <= (#[trigger] self.at(
                            r as int,
                            c2,
                        )).spec_entropy(),
                    forall|r2: int, c2: int|
                        0 <= r2 < r && 0 <= c2 < w && (r2 < br || (r2 == br && c2 < bc)) ==> (
                        #[trigger] self.at(r2, c2)).spec_entropy() > be as int,
                    forall|c2: int|
                        0 <= c2 < c && ((r as int) < br || (r as int == br && c2 < bc)) ==> (
                        #[trigger] self.at(r as int, c2)).spec_entropy() > be as int,
                decreases w - c,
            {
                let e = self.get_at(r, c).entropy();
                if e < be {
                    br = r;
                    bc = c;
                    be = e;
                }
                c += 1;
            }
            r += 1;
        }
        (br, bc)
    }

    /// A fresh board: every cell in full superposition over the known
    /// tile types, then each seed forcing its in-bounds cell concrete
    /// (later seeds overwrite earlier ones); out-of-bounds seed
    /// positions are ignored without error.
    pub fn new(
        size: (usize, usize),
        rules: RuleSet,
        tile_types: Vec<usize>,
        seeding: Option<Vec<(usize, (usize, usize))>>,
    ) -> (b: Board)
        requires
            rules.wf(),
            (size.0 as int) * (size.1 as int) <= usize::MAX,
            tile_types@ == rules.keys(),
        ensures
            b.wf(),
            b.height == size.0,
            b.width == size.1,
            b.rules == rules,
            forall|r: int, c: int|
                b.in_bounds(r, c) ==> match seed_at(spec_seeds(seeding), r, c) {
                    Some(v) => (#[trigger] b.at(r, c)).t == Some(v) && b.at(r, c).position@.len()
                        == 0,
                    None => b.at(r, c).t is None && b.at(r, c).position@ == rules.keys(),
                },
    {
        let h = size.0;
        let w = size.1;
        let mut tiles: Vec<Tile> = Vec::new();
        let mut r: usize = 0;
        while r < h
            invariant
                (h as int) * (w as int) <= usize::MAX,
                r <= h,
                tiles@.len() == r as int * w as int,
                forall|r2: int, c2: int|
                    0 <= r2 < r && 0 <= c2 < w ==> {
                        let t = #[trigger] tiles@[r2 * w + c2];
                        t.coords == (r2 as usize, c2 as usize) && t.t is None && t.position@
                            == tile_types@
                    },
            decreases h - r,
        {
            proof {
                assert((r as int + 1) * (w as int) <= (h as int) * (w as int)) by (nonlinear_arith)
                    requires
                        r < h,
                        0 <= w,
                ;
            }
            let mut c: usize = 0;
            while c < w
                invariant
                    (h as int) * (w as int) <= usize::MAX,
                    r < h,
                    c <= w,
                    (r as int + 1) * (w as int) <= (h as int) * (w as int),
                    tiles@.len() == r as int * w as int + c as int,
                    forall|r2: int, c2: int|
                        0 <= r2 < r && 0 <= c2 < w ==> {
                            let t = #[trigger] tiles@[r2 * w + c2];
                            t.coords == (r2 as usize, c2 as usize) && t.t is None && t.position@
                                == tile_types@
                        },
                    forall|c2: int|
                        0 <= c2 < c ==> {
                            let t = #[trigger] tiles@[r as int * w as int + c2];
                            t.coords == (r as usize, c2 as usize) && t.t is None && t.position@
                                == tile_types@
                        },
                decreases w - c,
            {
                tiles.push(Tile::fresh((r, c), copy_vals(&tile_types)));
                proof {
                    assert forall|r2: int, c2: int| 0 <= r2 < r && 0 <= c2 < w implies {
                        let t = #[trigger] tiles@[r2 * w + c2];
                        t.coords == (r2 as usize, c2 as usize) && t.t is None && t.position@
                            == tile_types@
                    } by {
                        lemma_rowmajor_in_range(r as int, w as int, r2, c2);
                        assert(r2 * w + c2 < r as int * w as int);
                    }
                }
                c += 1;
            }
            proof {
                assert((r as int + 1) * (w as int) == r as int * w as int
                    + w as int) by (nonlinear_arith);
            }
            r += 1;
        }
        proof {
            assert(tiles@.len() == h as int * w as int);
        }
        let mut b = Board { height: h, width: w, tiles, rules };
        proof {
            assert forall|r2: int, c2: int| b.in_bounds(r2, c2) implies {
                let t = #[trigger] b.at(r2, c2);
                t.coords == (r2 as usize, c2 as usize) && t.t is None && t.position@ == tile_types@
            } by {
                lemma_rowmajor_in_range(h as int, w as int, r2, c2);
            }
            assert forall|x: usize| tile_types@.contains(x) implies b.rules.contains_tile(x) by {
                let i = choose|i: int| 0 <= i < tile_types@.len() && tile_types@[i] == x;
                assert(b.rules.keys()[i] == x);
                assert(b.rules.entries@[i].0 == x);
                lemma_lookup_at_key(b.rules.entries@, i);
            }
            assert(b.wf());
        }
        match seeding {
            Some(seeds) => {
                let n = seeds.len();
                let mut i: usize = 0;
                proof {
                    assert(seeds@.take(0) =~= Seq::<(usize, (usize, usize))>::empty());
                }
                while i < n
                    invariant
                        n == seeds@.len(),
                        i <= n,
                        b.wf(),
                        b.height == h,
                        b.width == w,
                        b.rules == rules,
                        tile_types@ == rules.keys(),
                        forall|r2: int, c2: int|
                            b.in_bounds(r2, c2) ==> match seed_at(seeds@.take(i as int), r2, c2) {
                                Some(v) => (#[trigger] b.at(r2, c2)).t == Some(v) && b.at(
                                    r2,
                                    c2,
                                ).position@.len() == 0,
                                None => b.at(r2, c2).t is None && b.at(r2, c2).position@
                                    == rules.keys(),
                            },
                    decreases n - i,
                {
                    let (tv, (sr, sc)) = seeds[i];
                    proof {
                        assert(seeds@.take(i as int + 1).last() == seeds@[i as int]);
                        assert(seeds@.take(i as int + 1).drop_last() =~= seeds@.take(i as int));
                    }
                    if sr < h && sc < w {
                        b.set_at(sr, sc, Tile::set((sr, sc), tv));
                    }
                    i += 1;
                }
                proof {
                    assert(seeds@.take(n as int) =~= seeds@);
                }
            },
            None => {},
        }
        b
    }

    /// Copies of the four in-bounds cells around `pos`.
    pub fn get_neighbors(&self, pos: (usize, usize)) -> (n: Neighbors)
        requires
            self.wf(),
            pos.0 < self.height,
            pos.1 < self.width,
        ensures
            match n.north {
                Some(t) => pos.0 > 0 && t.eqv(self.at(pos.0 as int - 1, pos.1 as int)),
                None => pos.0 == 0,
            },
            match n.south {
                Some(t) => pos.0 + 1 < self.height && t.eqv(
                    self.at(pos.0 as int + 1, pos.1 as int),
                ),
                None => pos.0 + 1 >= self.height,
            },
            match n.west {
                Some(t) => pos.1 > 0 && t.eqv(self.at(pos.0 as int, pos.1 as int - 1)),
                None => pos.1 == 0,
            },
            match n.east {
                Some(t) => pos.1 + 1 < self.width && t.eqv(self.at(pos.0 as int, pos.1 as int + 1)),
                None => pos.1 + 1 >= self.width,
            },
    {
        let mut n = Neighbors::new();
        if pos.0 > 0 {
            n.north = Some(self.get_at(pos.0 - 1, pos.1).duplicate());
        }
        if pos.0 + 1 < self.height {
            n.south = Some(self.get_at(pos.0 + 1, pos.1).duplicate());
        }
        if pos.1 > 0 {
            n.west = Some(self.get_at(pos.0, pos.1 - 1).duplicate());
        }
        if pos.1 + 1 < self.width {
            n.east = Some(self.get_at(pos.0, pos.1 + 1).duplicate());
        }
        n
    }
}

} // verus!
