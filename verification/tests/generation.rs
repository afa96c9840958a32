use lib::bb::BitBoard;
use lib::fill::{random_solution, random_solution_with, Strategy};
use lib::generate::{generate_unique, strip_to_minimal, strip_to_minimal_singles};
use lib::grid::Board;
use lib::kinds::NUM;
use lib::pelanek::{is_inconsistent, simple_moves, solution_of};
use lib::probe::techniques::hidden_singles;
use lib::probe::toolbox::{probe_all, SCALAR, SIMT, TOOLBOXES};
use lib::rng::Rng;
use lib::spec::Spec;
use lib::{drill_union, train_union};

const PUZZLE: &str = "\
    53..7....\
    6..195...\
    .98....6.\
    8...6...3\
    4..8.3..1\
    7...2...6\
    .6....28.\
    ...419..5\
    ....8..79";
const SOLUTION: &str = "\
    534678912\
    672195348\
    198342567\
    859761423\
    426853791\
    713924856\
    961537284\
    287419635\
    345286179";

fn board(s: &str) -> Board {
    Board::parse(s).expect("valid grid")
}

fn cells(s: &str) -> [u8; 81] {
    *board(s).cells()
}

fn state(s: &str) -> BitBoard {
    BitBoard::from_board(&board(s))
}

fn search_count(g: &[u8; 81], cap: usize) -> usize {
    let b = lib::generator::board_from_cells(g);
    lib::probe::search::count_completions(BitBoard::from_board(&b), cap)
}

fn is_unique(g: &[u8; 81]) -> bool {
    search_count(g, 2) == 1
}

fn peers(cell: usize) -> Vec<usize> {
    (0..81).filter(|&p| lib::grid::peer_of(cell, p)).collect()
}

#[test]
fn single_target_reduces_to_train_and_drill() {
    for t in 0..NUM {
        let (tu, st) = (train_union(&[t]), Spec::train(t));
        assert_eq!(tu.baseline_mask(), st.baseline_mask(), "train baseline [{t}]");
        assert_eq!(tu.in_scope_mask(), st.in_scope_mask(), "train in_scope [{t}]");
        assert_eq!(tu.forced_mask(), st.forced_mask(), "train forced [{t}]");
        let (du, sd) = (drill_union(&[t]), Spec::drill(t));
        assert_eq!(du.baseline_mask(), sd.baseline_mask(), "drill baseline [{t}]");
        assert_eq!(du.in_scope_mask(), sd.in_scope_mask(), "drill in_scope [{t}]");
        assert_eq!(du.forced_mask(), sd.forced_mask(), "drill forced [{t}]");
    }
}

#[test]
fn solution_of_recovers_the_known_answer() {
    let sol = solution_of(&cells(PUZZLE)).expect("solvable");
    assert_eq!(lib::generator::board_from_cells(&sol).to_line(), board(SOLUTION).to_line());
}

#[test]
fn detects_empty_cell_contradiction() {
    let mut p = cells(SOLUTION);
    p[0] = 0;
    let mut b = lib::generator::board_from_cells(&p);
    let d = cells(SOLUTION)[0];
    b.eliminate(0, d);
    assert!(is_inconsistent(&b));
}

#[test]
fn detects_homeless_digit_contradiction() {
    let mut p = cells(SOLUTION);
    p[40] = 0;
    let mut b = lib::generator::board_from_cells(&p);
    let d = cells(SOLUTION)[40];
    b.eliminate(40, d);
    assert!(is_inconsistent(&b));
}

#[test]
fn consistent_board_is_not_inconsistent() {
    assert!(!is_inconsistent(&board(PUZZLE)));
}

#[test]
fn simple_moves_are_deduped_and_forced() {
    let b = board(PUZZLE);
    let mut moves = Vec::new();
    simple_moves(&b, &mut moves);
    assert!(!moves.is_empty(), "the classic puzzle has singles");
    let sol = cells(SOLUTION);
    let mut cells_seen = std::collections::HashSet::new();
    for &(c, d) in &moves {
        assert!(b.candidates(c) & (1 << (d - 1)) != 0, "move places a candidate");
        assert_eq!(sol[c], d, "forced move matches the solution");
        assert!(cells_seen.insert(c), "cell {c} appears once");
    }
}

#[test]
fn counts_known_puzzles() {
    let empty = ".".repeat(81);
    assert_eq!(lib::probe::search::count_completions(state(PUZZLE), 2), 1);
    assert_eq!(lib::probe::search::count_completions(state(SOLUTION), 2), 1);
    assert_eq!(lib::probe::search::count_completions(state(&empty), 2), 2);
}

#[test]
fn packing_strategy_and_depth_agnostic() {
    let empty = ".".repeat(81);
    for s in [PUZZLE, SOLUTION, &empty] {
        let baseline = lib::probe::search::count_completions(state(s), 2);
        assert_eq!(lib::probe::singles::count_completions(board(s), 2), baseline);
        assert_eq!(lib::probe::search::count_completions(state(s), 2), baseline);
        assert_eq!(state(s).count_up_to(2), baseline);
    }
}

#[test]
fn agrees_with_search_prober() {
    let via_board = lib::probe::singles::count_completions(board(PUZZLE), 2);
    let via_state = state(PUZZLE).count_up_to(2);
    let via_search = lib::probe::search::count_completions(state(PUZZLE), 2);
    assert_eq!(via_board, 1);
    assert_eq!(via_state, 1);
    assert_eq!(via_search, 1);
}

#[test]
fn hidden_singles_place_correctly() {
    let mut b = board(PUZZLE);
    let mut fired = false;
    while hidden_singles(&mut b) {
        fired = true;
    }
    assert!(fired, "no hidden single fired — test is vacuous");
    let solution = cells(SOLUTION);
    for c in 0..81 {
        let d = b.cell(c);
        if d != 0 {
            assert_eq!(d, solution[c], "cell {c}");
        }
    }
}

#[test]
fn strips_to_a_minimal_unique_puzzle() {
    for seed in 0..6 {
        let mut rng = Rng::from_seed(seed);
        let solution = random_solution(&mut rng);
        let puzzle = strip_to_minimal(&mut rng, &solution);
        for c in 0..81 {
            if puzzle[c] != 0 {
                assert_eq!(puzzle[c], solution[c], "seed {seed} cell {c} off-solution");
            }
        }
        assert!(is_unique(&puzzle), "seed {seed} not unique");
        for c in 0..81 {
            if puzzle[c] != 0 {
                let mut without = puzzle;
                without[c] = 0;
                assert!(!is_unique(&without), "seed {seed} clue {c} was removable — not minimal");
            }
        }
    }
}

#[test]
fn search_and_singles_strip_identically() {
    for seed in 0..3 {
        let mut r_search = Rng::from_seed(seed);
        let mut r_singles = Rng::from_seed(seed);
        let sol_search = random_solution(&mut r_search);
        let sol_singles = random_solution(&mut r_singles);
        let via_search = strip_to_minimal(&mut r_search, &sol_search);
        let via_singles = strip_to_minimal_singles(&mut r_singles, &sol_singles);
        assert_eq!(via_search, via_singles, "seed {seed}");
    }
}

#[test]
fn generate_unique_is_unique() {
    let mut rng = Rng::from_seed(42);
    let puzzle = generate_unique(&mut rng);
    assert!(is_unique(&puzzle));
}

#[test]
fn diagonal_fill_is_valid() {
    for seed in 0..300u64 {
        let mut rd = Rng::from_seed(seed);
        let g = random_solution(&mut rd);
        assert!(g.iter().all(|&d| d != 0), "diagonal grid incomplete, seed {seed}");
        for cell in 0..81 {
            let d = g[cell];
            for p in peers(cell) {
                assert!(g[p] != d, "peer conflict at {cell}, seed {seed}");
            }
        }
        for bx in [0usize, 4, 8] {
            let (r0, c0) = ((bx / 3) * 3, (bx % 3) * 3);
            let mut seen = [false; 9];
            for r in r0..r0 + 3 {
                for c in c0..c0 + 3 {
                    seen[(g[r * 9 + c] - 1) as usize] = true;
                }
            }
            assert!(seen.iter().all(|&s| s), "box {bx} not a permutation, seed {seed}");
        }
        let mut rm = Rng::from_seed(seed);
        let mrv = random_solution_with(&mut rm, Strategy::Mrv);
        assert_ne!(g, mrv, "diagonal == mrv, seed {seed}");
    }
}

#[test]
fn bivalue_strategy_swaps_in() {
    for seed in 0..50 {
        let mut rb = Rng::from_seed(seed);
        let g = random_solution_with(&mut rb, Strategy::Bivalue);
        assert_eq!(g.iter().filter(|&&d| d != 0).count(), 81, "bivalue grid incomplete, seed {seed}");
        for cell in 0..81 {
            let d = g[cell];
            for p in peers(cell) {
                assert!(g[p] != d, "peer conflict at {cell}, seed {seed}");
            }
        }
        let mut rm = Rng::from_seed(seed);
        let mrv = random_solution_with(&mut rm, Strategy::Mrv);
        assert_ne!(g, mrv, "bivalue == mrv, seed {seed}");
    }
}

#[test]
fn hidden_singles_agree_across_packings() {
    let mut scalar = board(PUZZLE);
    let mut fired = false;
    while hidden_singles(&mut scalar) {
        fired = true;
    }
    let mut banded = state(PUZZLE);
    while banded.hidden_single() {}
    assert!(fired, "no hidden single fired — test is vacuous");
    for c in 0..81 {
        let open = scalar.cell(c) == 0;
        assert_eq!(open, banded.is_open(c), "cell {c}");
        if open {
            assert_eq!(scalar.candidates(c), banded.cell_candidates(c), "cell {c}");
        }
    }
}

#[test]
fn all_toolboxes_agree_on_verdict() {
    let empty = ".".repeat(81);
    for s in [PUZZLE, empty.as_str()] {
        let r = probe_all(&state(s), u32::MAX, 50_000_000);
        let truth = r[TOOLBOXES - 1].exists;
        for (t, res) in r.iter().enumerate() {
            assert!(!res.capped, "toolbox {t} capped on a tractable board");
            assert_eq!(res.exists, truth, "toolbox {t} disagrees on verdict");
        }
    }
}

#[test]
fn more_singles_never_cost_more_nodes() {
    let r = probe_all(&state(PUZZLE), u32::MAX, 0);
    assert!(r[SIMT].nodes <= r[SCALAR].nodes);
    assert!(r[SCALAR].nodes <= r[0x01].nodes);
    assert!(r[0x01].nodes <= r[0x00].nodes);
}

fn singles_count(g: &[u8; 81], cap: usize) -> usize {
    lib::probe::singles::count_completions(lib::generator::board_from_cells(g), cap)
}

#[test]
fn singles_strip_is_minimal_unique() {
    for seed in 0..3 {
        let mut rng = Rng::from_seed(seed);
        let solution = random_solution(&mut rng);
        let puzzle = strip_to_minimal_singles(&mut rng, &solution);
        assert_eq!(singles_count(&puzzle, 2), 1, "seed {seed} not unique");
        for c in 0..81 {
            if puzzle[c] != 0 {
                assert_eq!(puzzle[c], solution[c], "seed {seed} cell {c} off-solution");
                let mut without = puzzle;
                without[c] = 0;
                assert_eq!(singles_count(&without, 2), 2, "seed {seed} clue {c} was removable");
            }
        }
    }
}

#[test]
fn singles_count_finds_the_known_solution_only() {
    let p = cells(PUZZLE);
    assert_eq!(singles_count(&p, 2), 1);
    assert_eq!(singles_count(&p, 1), 1);
    let mut open = p;
    for c in 0..81 {
        open[c] = 0;
    }
    assert_eq!(singles_count(&open, 5), 5);
    assert_eq!(singles_count(&cells(SOLUTION), 3), 1);
}

#[test]
fn sisus_run_logs_one_step_per_empty_cell() {
    let puzzle = cells(PUZZLE);
    let solution = cells(SOLUTION);
    let empties = puzzle.iter().filter(|&&d| d == 0).count();
    let mut rng = Rng::from_seed(11);
    let log = lib::pelanek::sisus_run(&puzzle, &solution, &mut rng);
    assert_eq!(log.possibilities.len(), empties);
    assert!(log.recorded_scores.len() <= log.possibilities.len());
}

#[test]
fn shuffle_swaps_from_the_back_with_range_draws() {
    let mut v: Vec<u8> = (0..9).collect();
    let mut rng = Rng::from_seed(2024);
    rng.shuffle(&mut v);
    let mut w: Vec<u8> = (0..9).collect();
    let mut draws = Rng::from_seed(2024);
    let mut i = w.len();
    while i > 1 {
        let j = draws.range(i);
        w.swap(i - 1, j);
        i -= 1;
    }
    assert_eq!(v, w);
    assert_eq!(rng.next_u64(), draws.next_u64());
}

#[test]
fn rollout_scores_zero_exactly_when_refuted_at_once() {
    let b = board(PUZZLE);
    let solution = cells(SOLUTION);
    let mut rng = Rng::from_seed(5);
    let mut scratch: Vec<(usize, u8)> = Vec::new();
    for c in 0..81usize {
        if b.cell(c) != 0 {
            continue;
        }
        let m = b.candidates(c);
        let mut all_at_once = true;
        for v in 1..=9u8 {
            if m & (1u16 << (v - 1)) == 0 {
                continue;
            }
            let mut p = b;
            p.place(c, v);
            let at_once = is_inconsistent(&p);
            let r = lib::pelanek::ref_v(&b, c, v, &mut rng, &mut scratch);
            assert_eq!(r == Some(0), at_once);
            if v != solution[c] && !at_once {
                all_at_once = false;
            }
        }
        let score = lib::pelanek::refutation_score(&b, c, &solution, &mut rng, &mut scratch);
        assert_eq!(score == Some(0), all_at_once);
    }
}

#[test]
fn sisus_run_scores_every_stalled_step() {
    let puzzle = cells(PUZZLE);
    let solution = cells(SOLUTION);
    for seed in 0..4u64 {
        let log = lib::pelanek::sisus_run(&puzzle, &solution, &mut Rng::from_seed(seed));
        let stalls = log.possibilities.iter().filter(|&&p| p == 0).count();
        assert_eq!(log.recorded_scores.len(), stalls);
    }
}

#[test]
fn simple_moves_cover_the_naked_singles() {
    let b = board(PUZZLE);
    let mut out: Vec<(usize, u8)> = Vec::new();
    simple_moves(&b, &mut out);
    for c in 0..81usize {
        if b.cell(c) == 0 && b.candidates(c).count_ones() == 1 {
            assert!(out.iter().any(|&(x, _)| x == c));
        }
    }
}
