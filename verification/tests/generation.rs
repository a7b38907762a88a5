use wfc::board::{Board, Neighbors, Tile};
use wfc::driver::{rulegen, wfc};
use wfc::rng::RngSource;
use wfc::rules::{Dir, RuleSet};
use wfc::sampler::draw_weighted;
use wfc::WfcError;

fn learn_text(text: &str) -> RuleSet {
    rulegen(&text.as_bytes().to_vec()).expect("sample must parse")
}

fn rule_of(rs: &RuleSet, t: usize) -> &wfc::rules::Rule {
    let i = rs.find(t).expect("tile must have a rule");
    &rs.entries[i].1
}

#[test]
fn learner_checkerboard_sample() {
    let rs = learn_text("0 1\n1 0");
    assert_eq!(rs.entries.len(), 2);
    assert_eq!(rs.entries[0].0, 0);
    assert_eq!(rs.entries[1].0, 1);
    let r0 = rule_of(&rs, 0);
    assert_eq!(r0.freq, 2);
    assert_eq!(r0.north, vec![1]);
    assert_eq!(r0.south, vec![1]);
    assert_eq!(r0.east, vec![1]);
    assert_eq!(r0.west, vec![1]);
    let r1 = rule_of(&rs, 1);
    assert_eq!(r1.freq, 2);
    assert_eq!(r1.north, vec![0]);
    assert_eq!(r1.south, vec![0]);
    assert_eq!(r1.east, vec![0]);
    assert_eq!(r1.west, vec![0]);
}

#[test]
fn learner_counts_frequencies() {
    let rs = learn_text("0 0 0 1");
    assert_eq!(rule_of(&rs, 0).freq, 3);
    assert_eq!(rule_of(&rs, 1).freq, 1);
    assert_eq!(rule_of(&rs, 0).east, vec![0, 1]);
    assert_eq!(rule_of(&rs, 0).west, vec![0]);
    assert_eq!(rule_of(&rs, 1).west, vec![0]);
    assert_eq!(rule_of(&rs, 1).east, Vec::<usize>::new());
    assert_eq!(rule_of(&rs, 1).north, Vec::<usize>::new());
}

#[test]
fn learner_is_pure() {
    let a = learn_text("3 1 4\n1 5 9\n2 6 5");
    let b = learn_text("3 1 4\n1 5 9\n2 6 5");
    assert_eq!(a.entries.len(), b.entries.len());
    for (ea, eb) in a.entries.iter().zip(b.entries.iter()) {
        assert_eq!(ea.0, eb.0);
        assert_eq!(ea.1.freq, eb.1.freq);
        assert_eq!(ea.1.north, eb.1.north);
        assert_eq!(ea.1.south, eb.1.south);
        assert_eq!(ea.1.east, eb.1.east);
        assert_eq!(ea.1.west, eb.1.west);
    }
}

#[test]
fn parse_rejects_stray_token() {
    let r = rulegen(&b"0 x\n1 0".to_vec());
    assert_eq!(r.unwrap_err(), WfcError::Parse);
}

#[test]
fn parse_rejects_double_space() {
    let r = rulegen(&b"0  1".to_vec());
    assert_eq!(r.unwrap_err(), WfcError::Parse);
}

#[test]
fn parse_rejects_huge_number() {
    let r = rulegen(&b"99999999999999999999999999999999".to_vec());
    assert_eq!(r.unwrap_err(), WfcError::Parse);
}

#[test]
fn parse_accepts_trailing_newline_and_crlf() {
    let rs = learn_text("0 1\r\n1 0\n");
    assert_eq!(rs.entries.len(), 2);
    assert_eq!(rule_of(&rs, 0).freq, 2);
}

#[test]
fn empty_sample_learns_nothing() {
    let rs = learn_text("");
    assert_eq!(rs.entries.len(), 0);
}

fn checkerboard_ok(grid: &Vec<Vec<usize>>, h: usize, w: usize) {
    assert_eq!(grid.len(), h);
    for r in 0..h {
        assert_eq!(grid[r].len(), w);
        for c in 0..w {
            assert!(grid[r][c] == 0 || grid[r][c] == 1);
            if r + 1 < h {
                assert_ne!(grid[r][c], grid[r + 1][c]);
            }
            if c + 1 < w {
                assert_ne!(grid[r][c], grid[r][c + 1]);
            }
        }
    }
}

#[test]
fn generates_valid_checkerboard() {
    let text = b"0 1\n1 0".to_vec();
    let mut rng = RngSource::seeded(7);
    let grid = wfc(&text, 4, 5, None, &mut rng).expect("solvable");
    checkerboard_ok(&grid, 4, 5);
}

#[test]
fn one_by_one_with_single_type() {
    let text = b"5".to_vec();
    let mut rng = RngSource::seeded(1);
    let grid = wfc(&text, 1, 1, None, &mut rng).expect("trivially solvable");
    assert_eq!(grid, vec![vec![5usize]]);
}

#[test]
fn consistent_seed_is_kept() {
    let text = b"0 1\n1 0".to_vec();
    let seeds = vec![(1usize, (0usize, 0usize)), (1usize, (1usize, 1usize))];
    let mut rng = RngSource::seeded(99);
    let grid = wfc(&text, 3, 3, Some(seeds), &mut rng).expect("solvable with seeds");
    assert_eq!(grid[0][0], 1);
    assert_eq!(grid[1][1], 1);
    checkerboard_ok(&grid, 3, 3);
}

#[test]
fn unsolvable_reports_failure() {
    // a single observed tile with no observed neighbors cannot fill
    // two adjacent cells
    let text = b"7".to_vec();
    let mut rng = RngSource::seeded(3);
    let r = wfc(&text, 1, 2, None, &mut rng);
    assert_eq!(r.unwrap_err(), WfcError::Unsolvable);
}

#[test]
fn contradictory_seed_reports_failure() {
    // 8 was never observed next to anything, so a board seeded with
    // it next to another cell cannot be completed
    let text = b"0 1\n1 0".to_vec();
    let seeds = vec![(8usize, (0usize, 0usize))];
    let mut rng = RngSource::seeded(5);
    let r = wfc(&text, 2, 2, Some(seeds), &mut rng);
    assert_eq!(r.unwrap_err(), WfcError::Unsolvable);
}

#[test]
fn out_of_bounds_seed_is_ignored() {
    let text = b"0 1\n1 0".to_vec();
    let seeds = vec![(9usize, (10usize, 10usize))];
    let mut rng = RngSource::seeded(11);
    let grid = wfc(&text, 2, 2, Some(seeds), &mut rng).expect("seed out of range is ignored");
    checkerboard_ok(&grid, 2, 2);
}

#[test]
fn empty_sample_makes_boards_unsolvable() {
    let text = b"".to_vec();
    let mut rng = RngSource::seeded(2);
    let r = wfc(&text, 1, 1, None, &mut rng);
    assert_eq!(r.unwrap_err(), WfcError::Unsolvable);
}

#[test]
fn zero_sized_board_is_empty() {
    let text = b"0 1\n1 0".to_vec();
    let mut rng = RngSource::seeded(2);
    let grid = wfc(&text, 0, 4, None, &mut rng).expect("no cells to fill");
    assert_eq!(grid.len(), 0);
}

#[test]
fn deterministic_runs_with_same_seed() {
    let text = b"0 1 0\n1 0 1\n0 1 0".to_vec();
    let mut rng1 = RngSource::seeded(1234);
    let mut rng2 = RngSource::seeded(1234);
    let g1 = wfc(&text, 6, 6, None, &mut rng1).expect("solvable");
    let g2 = wfc(&text, 6, 6, None, &mut rng2).expect("solvable");
    assert_eq!(g1, g2);
}

#[test]
fn differing_seeds_eventually_differ() {
    let text = b"0 1\n1 0".to_vec();
    let mut seen = std::collections::BTreeSet::new();
    for seed in 0..32u64 {
        let mut rng = RngSource::seeded(seed);
        let grid = wfc(&text, 2, 2, None, &mut rng).expect("solvable");
        seen.insert(grid);
    }
    // both 2x2 checkerboards must come up over 32 seeds
    assert_eq!(seen.len(), 2);
}

#[test]
fn weighted_draws_follow_frequencies() {
    // tile 0 occurs three times, tile 1 once: first draws should
    // split roughly 3:1
    let rs = learn_text("0 0 0 1");
    let cands = vec![0usize, 1usize];
    let mut rng = RngSource::seeded(4242);
    let rounds = 20000;
    let mut zero_draws = 0usize;
    for _ in 0..rounds {
        if draw_weighted(&cands, &rs, &mut rng) == 0 {
            zero_draws += 1;
        }
    }
    let share = zero_draws as f64 / rounds as f64;
    assert!(share > 0.72 && share < 0.78, "share was {share}");
}

#[test]
fn tile_entropy_rules() {
    let fresh = Tile::fresh((2, 3), vec![4, 5, 6]);
    assert_eq!(fresh.coords, (2, 3));
    assert_eq!(fresh.t, None);
    assert_eq!(fresh.entropy(), 3);
    let set = Tile::set((0, 0), 9);
    assert_eq!(set.t, Some(9));
    assert_eq!(set.position.len(), 0);
    assert_eq!(set.entropy(), usize::MAX);
}

#[test]
fn neighbors_new_is_empty() {
    let n = Neighbors::new();
    assert!(n.north.is_none() && n.south.is_none() && n.east.is_none() && n.west.is_none());
}

#[test]
fn board_basics() {
    let rs = learn_text("0 1\n1 0");
    let types = rs.tile_types();
    assert_eq!(types, vec![0, 1]);
    let board = Board::new((2, 3), rs, types, None);
    assert!(board.valid_position());
    assert!(!board.is_solved());
    // all entropies equal: the first cell in scan order wins
    assert_eq!(board.choose_tile_to_collapse(), (0, 0));
    let n = board.get_neighbors((0, 0));
    assert!(n.north.is_none() && n.west.is_none());
    assert_eq!(n.south.unwrap().coords, (1, 0));
    assert_eq!(n.east.unwrap().coords, (0, 1));
}

#[test]
fn seeded_board_state() {
    let rs = learn_text("0 1\n1 0");
    let types = rs.tile_types();
    let seeds = vec![(1usize, (0usize, 1usize))];
    let board = Board::new((1, 2), rs, types, Some(seeds));
    assert!(board.valid_position());
    assert!(!board.is_solved());
    let n = board.get_neighbors((0, 0));
    assert_eq!(n.east.unwrap().t, Some(1));
    // the seeded cell is collapsed, so the fresh cell is chosen
    assert_eq!(board.choose_tile_to_collapse(), (0, 0));
}

#[test]
fn unknown_seed_alone_still_solves() {
    // seeds are not checked against the rules; with no neighbors a
    // foreign tile type survives to the output
    let text = b"0 1\n1 0".to_vec();
    let seeds = vec![(42usize, (0usize, 0usize))];
    let mut rng = RngSource::seeded(6);
    let grid = wfc(&text, 1, 1, Some(seeds), &mut rng).expect("single cell is never checked");
    assert_eq!(grid, vec![vec![42usize]]);
}

#[test]
fn neighbor_elements_carry_directions() {
    let rs = learn_text("0 1\n1 0");
    let types = rs.tile_types();
    let board = Board::new((2, 2), rs, types, None);
    let elems = board.get_neighbors((0, 0)).into_elements();
    assert_eq!(elems.len(), 2);
    assert_eq!(elems[0].0, Dir::South);
    assert_eq!(elems[0].1, Dir::North);
    assert_eq!(elems[0].2.coords, (1, 0));
    assert_eq!(elems[1].0, Dir::East);
    assert_eq!(elems[1].1, Dir::West);
    assert_eq!(elems[1].2.coords, (0, 1));
}
