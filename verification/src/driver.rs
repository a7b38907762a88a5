//! The driver: one full generation run, from sample text to a
//! concrete output grid.

use vstd::prelude::*;

use crate::board::{seed_at, spec_seeds, Board};
use crate::learn::{count_rows, learn, learned_from, observed};
use crate::parse::{lemma_parse_grid_cells, parse_grid, parse_sample, total_cells};
use crate::rng::RngSource;
use crate::rules::{lemma_lookup_some_index, lookup, Dir, RuleSet};
use crate::WfcError;

verus! {

/// Learn the rule table from sample text: parse, then count and
/// gather neighbor observations.
pub fn rulegen(text: &Vec<u8>) -> (r: Result<RuleSet, WfcError>)
    ensures
        match r {
            Ok(rs) => parse_grid(text@) is Some && rs.wf() && learned_from(
                parse_grid(text@)->Some_0,
                rs,
            ),
            Err(e) => e == WfcError::Parse && parse_grid(text@) is None,
        },
{
    match parse_sample(text) {
        Ok(sample) => {
            let n = text.len();
            proof {
                lemma_parse_grid_cells(text@);
                assert(parse_grid(text@)->Some_0 == sample.deep_view());
                assert(n == text@.len());
            }
            Ok(learn(&sample))
        },
        Err(e) => Err(e),
    }
}

/// The output has `height` rows of `width` cells each.
pub open spec fn grid_dims(out: Seq<Seq<usize>>, height: int, width: int) -> bool {
    &&& out.len() == height
    &&& forall|r: int| 0 <= r < height ==> (#[trigger] out[r]).len() == width
}

/// Every adjacent pair of the output was observed adjacent in the
/// sample, checked as the solver checks it: each cell must be allowed
/// by its neighbor's rule for the direction pointing back at it.
pub open spec fn grid_obeys_sample(
    out: Seq<Seq<usize>>,
    g: Seq<Seq<usize>>,
    height: int,
    width: int,
) -> bool {
    forall|r: int, c: int|
        #![trigger out[r][c]]
        0 <= r < height && 0 <= c < width ==> {
            let v = out[r][c];
            &&& (r > 0 ==> observed(g, out[r - 1][c], Dir::South, v))
            &&& (r + 1 < height ==> observed(g, out[r + 1][c], Dir::North, v))
            &&& (c > 0 ==> observed(g, out[r][c - 1], Dir::East, v))
            &&& (c + 1 < width ==> observed(g, out[r][c + 1], Dir::West, v))
        }
}

/// Each output cell is its seed's value where one was given in
/// bounds, and a tile type of the sample everywhere else.
pub open spec fn grid_cells_ok(
    out: Seq<Seq<usize>>,
    g: Seq<Seq<usize>>,
    seeds: Seq<(usize, (usize, usize))>,
    height: int,
    width: int,
) -> bool {
    forall|r: int, c: int|
        #![trigger out[r][c]]
        0 <= r < height && 0 <= c < width ==> match seed_at(seeds, r, c) {
            Some(v) => out[r][c] == v,
            None => count_rows(g, out[r][c]) >= 1,
        }
}

/// One full generation run: learn rules from the sample text, build
/// a `height` by `width` board with the optional seeds, collapse it,
/// and extract the concrete grid.
///
/// A parse failure is reported exactly when the text is malformed; an
/// exhausted search is reported as `Unsolvable` rather than as a
/// partially filled grid. On success the grid has the requested
/// dimensions, keeps every in-bounds seed, uses only tile types of
/// the sample elsewhere, and satisfies the learned adjacency rules.
/// A one-cell request succeeds whenever the sample parses and shows
/// at least one tile (or the cell is seeded).
pub fn wfc(
    text: &Vec<u8>,
    height: usize,
    width: usize,
    seeding: Option<Vec<(usize, (usize, usize))>>,
    rng: &mut RngSource,
) -> (r: Result<Vec<Vec<usize>>, WfcError>)
    requires
        (height as int) * (width as int) <= usize::MAX,
    ensures
        (r == Result::<Vec<Vec<usize>>, WfcError>::Err(WfcError::Parse)) <==> parse_grid(
            text@,
        ) is None,
        match r {
            Ok(out) => {
                let g = parse_grid(text@)->Some_0;
                &&& parse_grid(text@) is Some
                &&& grid_dims(out.deep_view(), height as int, width as int)
                &&& grid_cells_ok(
                    out.deep_view(),
                    g,
                    spec_seeds(seeding),
                    height as int,
                    width as int,
                )
                &&& grid_obeys_sample(out.deep_view(), g, height as int, width as int)
            },
            Err(e) => e == WfcError::Parse || e == WfcError::Unsolvable,
        },
        (parse_grid(text@) is Some && height == 1 && width == 1 && (seed_at(
            spec_seeds(seeding),
            0,
            0,
        ) is Some || exists|v: usize| count_rows(parse_grid(text@)->Some_0, v) >= 1)) ==> r is Ok,
{
    let sample = match parse_sample(text) {
        Ok(s) => s,
        Err(e) => {
            return Err(e);
        },
    };
    let n = text.len();
    proof {
        lemma_parse_grid_cells(text@);
        assert(parse_grid(text@)->Some_0 == sample.deep_view());
        assert(n == text@.len());
    }
    let ghost g = parse_grid(text@)->Some_0;
    let rules = learn(&sample);
    let tile_types = rules.tile_types();
    let ghost rs = rules;
    let mut board = Board::new((height, width), rules, tile_types, seeding);
    if height > 0 && width > 0 {
        proof {
            if height == 1 && width == 1 && seed_at(spec_seeds(seeding), 0, 0) is None && (exists|
                v: usize,
            | count_rows(g, v) >= 1) {
                // a known tile type gives the single fresh cell a candidate
                let v = choose|v: usize| count_rows(g, v) >= 1;
                assert(rs.contains_tile(v));
                lemma_lookup_some_index(rs.entries@, v);
                let j = choose|j: int|
                    0 <= j < rs.entries@.len() && (#[trigger] rs.entries@[j]).0 == v
                        && rs.entries@[j].1 == lookup(rs.entries@, v)->Some_0;
                assert(rs.keys()[j] == v);
                assert(board.at(0, 0).position@.len() > 0);
            }
        }
        // the first point to collapse: minimum entropy, which on a
        // fresh board is the first cell in row-major order
        let start = board.choose_tile_to_collapse();
        proof {
            if height == 1 && width == 1 {
                assert(start == (0usize, 0usize));
            }
        }
        let solved = board.collapse(start, rng);
        if !solved {
            return Err(WfcError::Unsolvable);
        }
    }
    let mut out: Vec<Vec<usize>> = Vec::new();
    let mut r: usize = 0;
    while r < height
        invariant
            board.wf(),
            board.height == height,
            board.width == width,
            r <= height,
            out@.len() == r,
            width > 0 && height > 0 ==> board.spec_solved(),
            forall|r2: int| 0 <= r2 < r ==> (#[trigger] out@[r2])@.len() == width,
            forall|r2: int, c2: int|
                #![trigger out@[r2]@[c2]]
                0 <= r2 < r && 0 <= c2 < width ==> out@[r2]@[c2] == board.at(r2, c2).t->0,
        decreases height - r,
    {
        let mut row: Vec<usize> = Vec::new();
        let mut c: usize = 0;
        while c < width
            invariant
                board.wf(),
                board.height == height,
                board.width == width,
                r < height,
                c <= width,
                row@.len() == c,
                width > 0 && height > 0 ==> board.spec_solved(),
                forall|c2: int| 0 <= c2 < c ==> row@[c2] == board.at(r as int, c2).t->0,
            decreases width - c,
        {
            let tile = board.get_at(r, c);
            proof {
                assert(board.cell_consistent(r as int, c as int));
                assert(board.at(r as int, c as int).t is Some);
            }
            row.push(tile.t.unwrap());
            c += 1;
        }
        out.push(row);
        r += 1;
    }
    proof {
        let dv = out.deep_view();
        assert(dv.len() == height);
        assert forall|r2: int| 0 <= r2 < height implies (#[trigger] dv[r2]).len() == width by {
            assert(dv[r2] =~= out@[r2]@);
        }
        assert forall|r2: int, c2: int|
            #![trigger dv[r2][c2]]
            0 <= r2 < height && 0 <= c2 < width implies dv[r2][c2] == board.at(r2, c2).t->0 by {
            assert(dv[r2] =~= out@[r2]@);
        }
        // each cell keeps its seed or comes from the sample's types
        assert forall|r2: int, c2: int|
            #![trigger dv[r2][c2]]
            0 <= r2 < height && 0 <= c2 < width implies match seed_at(
            spec_seeds(seeding),
            r2,
            c2,
        ) {
            Some(v) => dv[r2][c2] == v,
            None => count_rows(g, dv[r2][c2]) >= 1,
        } by {
            match seed_at(spec_seeds(seeding), r2, c2) {
                Some(v) => {},
                None => {
                    let w = board.at(r2, c2).t->0;
                    assert(rs.keys().contains(w));
                    let j = choose|j: int| 0 <= j < rs.keys().len() && #[trigger] rs.keys()[j] == w;
                    assert(rs.entries@[j].0 == w);
                    crate::rules::lemma_lookup_at_key(rs.entries@, j);
                    assert(rs.contains_tile(w));
                },
            }
        }
        // adjacency: read the solver's validity through the learned rules
        assert forall|r2: int, c2: int|
            #![trigger dv[r2][c2]]
            0 <= r2 < height && 0 <= c2 < width implies {
            let v = dv[r2][c2];
            &&& (r2 > 0 ==> observed(g, dv[r2 - 1][c2], Dir::South, v))
            &&& (r2 + 1 < height ==> observed(g, dv[r2 + 1][c2], Dir::North, v))
            &&& (c2 > 0 ==> observed(g, dv[r2][c2 - 1], Dir::East, v))
            &&& (c2 + 1 < width ==> observed(g, dv[r2][c2 + 1], Dir::West, v))
        } by {
            assert(board.cell_consistent(r2, c2));
            let v = board.at(r2, c2).t->0;
            if r2 > 0 {
                let nv = board.at(r2 - 1, c2).t->0;
                assert(rs.allowed_of(nv, Dir::South).contains(v));
                lemma_lookup_some_index(rs.entries@, nv);
            }
            if r2 + 1 < height {
                let nv = board.at(r2 + 1, c2).t->0;
                assert(rs.allowed_of(nv, Dir::North).contains(v));
                lemma_lookup_some_index(rs.entries@, nv);
            }
            if c2 > 0 {
                let nv = board.at(r2, c2 - 1).t->0;
                assert(rs.allowed_of(nv, Dir::East).contains(v));
                lemma_lookup_some_index(rs.entries@, nv);
            }
            if c2 + 1 < width {
                let nv = board.at(r2, c2 + 1).t->0;
                assert(rs.allowed_of(nv, Dir::West).contains(v));
                lemma_lookup_some_index(rs.entries@, nv);
            }
        }
    }
    Ok(out)
}

} // verus!
