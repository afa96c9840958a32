use lib::bb::{BitBoard, Placed};
use lib::cli::{build_spec, parse_force, spec_label, FindArgs, Toolbox};
use lib::fingerprint::{grid_fp, fnv_fold_cells, FNV_OFFSET};
use lib::generator::{board_from_cells, Stats, StripState};
use lib::grade::{band_name3, band_name5, bottleneck_key, bottleneck_mask, trunk_seed};
use lib::grid::Board;
use lib::kinds::{HIDDEN_QUAD, NAKED_PAIR, NUM, W_WING, X_WING, NAKED_TRIPLE};
use lib::probe::toolbox::{tb_name, Tb};
use lib::rng::Rng;
use lib::spec::Spec;
use lib::{expert_spec, subset_spec_for_mode};

const PUZZLE: &str = "\
    53..7....\
    6..195...\
    .98....6.\
    8...6...3\
    4..8.3..1\
    7...2...6\
    .6....28.\
    ...419..5\
    ....8..79";
const SOLUTION: &str = "\
    534678912\
    672195348\
    198342567\
    859761423\
    426853791\
    713924856\
    961537284\
    287419635\
    345286179";

fn board(s: &str) -> Board {
    Board::parse(s).expect("valid grid")
}

#[test]
fn clear_then_place_restores_the_bitboard() {
    let b = board(PUZZLE);
    let base = BitBoard::from_board(&b);
    let mut bb = base;
    let mut placed = Placed::from_board(&b);
    let cell = 0;
    let d = b.cell(cell);
    let mask = bb.apply_clear(cell, d, &mut placed);
    assert!(mask & (1 << (d - 1)) != 0, "the cleared digit is a candidate again");
    let mut empty = *b.cells();
    empty[cell] = 0;
    assert_eq!(bb.export_r(), BitBoard::from_board(&board_from_cells(&empty)).export_r());
    bb.apply_place(cell, d, &mut placed);
    assert_eq!(bb.export_r(), base.export_r());
}

#[test]
fn strip_and_revert_track_the_grid() {
    let sol = board(SOLUTION);
    let mut st = StripState::new(&sol);
    let alts = st.strip(10, sol.cell(10));
    assert_eq!(alts, 0, "a lone hole in a full grid is a naked single");
    assert_eq!(st.cells[10], 0);
    st.revert(10, sol.cell(10));
    assert_eq!(st.cells, *sol.cells());
}

#[test]
fn baseline_solves_the_classic_puzzle_with_singles() {
    let bb = BitBoard::from_board(&board(PUZZLE));
    let t = bb.baseline(0b11, 0);
    assert!(t.solved);
    assert!(t.counts[0] > 0);
    assert!(t.counts.iter().skip(2).all(|&c| c == 0));
    let discrete = bb.baseline(0b11, 0b1);
    assert!(discrete.solved);
}

#[test]
fn parse_force_reads_names_and_counts() {
    assert_eq!(parse_force("x-wing"), Ok((X_WING, 1)));
    assert_eq!(parse_force("naked-triple:2"), Ok((NAKED_TRIPLE, 2)));
    assert_eq!(parse_force("w-wing:zz"), Ok((W_WING, 1)));
    let err = parse_force("bogus").unwrap_err();
    assert!(err.starts_with("unknown kind \"bogus\"; known: naked-single, hidden-single"), "{err}");
}

#[test]
fn toolbox_tokens_round_trip() {
    for t in [Toolbox::Train, Toolbox::Drill, Toolbox::Full] {
        assert_eq!(Toolbox::parse(Some(t.label_short())), t);
    }
    assert_eq!(Toolbox::parse(Some("drill-union")), Toolbox::Train);
    assert_eq!(Toolbox::parse(None), Toolbox::Train);
    assert_eq!(Toolbox::Full.label(), "full");
}

#[test]
fn labels_name_counts_after_x() {
    assert_eq!(spec_label(&[(W_WING, 1), (NAKED_TRIPLE, 2)]), "w-wing + naked-triplex2");
    let args = FindArgs { forces: vec![(X_WING, 1)], toolbox: Toolbox::Drill, base_seed: 1, count: 1, max: 10 };
    assert_eq!(args.label(), "x-wing");
    assert_eq!(args.spec().forced_mask(), 1 << X_WING);
}

#[test]
fn full_toolbox_allows_every_kind() {
    let s = build_spec(&[(HIDDEN_QUAD, 3)], Toolbox::Full);
    assert_eq!(s.baseline_mask(), (1 << NUM) - 1);
    assert_eq!(s.forced(), vec![(HIDDEN_QUAD, 3)]);
}

#[test]
fn requirement_counts_forced_kinds() {
    let s = Spec::train(NAKED_PAIR).force(NAKED_PAIR, 2);
    let mut counts = [0u16; 16];
    counts[NAKED_PAIR] = 1;
    assert!(!s.requirement_met(&counts));
    counts[NAKED_PAIR] = 2;
    assert!(s.requirement_met(&counts));
}

#[test]
fn subset_and_expert_specs() {
    assert_eq!(subset_spec_for_mode(0).forced_mask(), 1 << HIDDEN_QUAD);
    assert_eq!(subset_spec_for_mode(1).forced_mask(), 1 << HIDDEN_QUAD);
    assert_eq!(expert_spec(X_WING, true).baseline_mask(), Spec::drill(X_WING).baseline_mask());
}

#[test]
fn bottleneck_key_is_the_hardest_forced_kind() {
    let s = build_spec(&[(NAKED_PAIR, 1), (X_WING, 1)], Toolbox::Train);
    assert_eq!(bottleneck_key(&s), Some(X_WING));
    assert_eq!(bottleneck_mask(&s), (1 << NAKED_PAIR) | (1 << X_WING));
    assert_eq!(bottleneck_key(&Spec::train(1)), None);
}

#[test]
fn band_names() {
    assert_eq!(band_name3(0), "gentle");
    assert_eq!(band_name3(7), "spicy");
    assert_eq!(band_name5(1), "mild");
    assert_eq!(band_name5(9), "fiery");
}

#[test]
fn fingerprints_fold_fnv() {
    assert_eq!(grid_fp(&[0u8; 81]), 0x0edbe9edbe9a769f);
    let g = *board(PUZZLE).cells();
    let mut fp = FNV_OFFSET;
    fnv_fold_cells(&mut fp, &g);
    assert_eq!(fp, grid_fp(&g));
    assert_eq!(trunk_seed(&g), grid_fp(&g));
}

#[test]
fn rng_is_splitmix() {
    let mut r = Rng::from_seed(0);
    assert_eq!(r.next_u64(), 0xe220a8397b1dcdaf);
    let mut v: Vec<u8> = (0..9).collect();
    r.shuffle(&mut v);
    let mut sorted = v.clone();
    sorted.sort();
    assert_eq!(sorted, (0..9).collect::<Vec<u8>>());
    assert!(r.range(5) < 5);
}

#[test]
fn toolbox_names() {
    assert_eq!(tb_name(0), "none");
    assert_eq!(tb_name(5), "N+RB (scalar)");
    assert_eq!(tb_name(7), "N+C+RB (simt)");
    assert_eq!(tb_name(0x18), "LCr+LCc");
    let tb = Tb::from_idx(0x15);
    assert!(tb.nk && !tb.col && tb.rb && !tb.lcr && tb.lcc);
}

#[test]
fn stats_add_sums_fields() {
    let mut a = Stats { attempts: 1, successes: 2, never_fired: 3, not_forced: 4, total_givens: 5 };
    a.add(&Stats { attempts: 10, successes: 20, never_fired: 30, not_forced: 40, total_givens: 50 });
    assert_eq!(a, Stats { attempts: 11, successes: 22, never_fired: 33, not_forced: 44, total_givens: 55 });
}

#[test]
fn count_empties_counts_empty_cells() {
    assert_eq!(BitBoard::from_board(&Board::empty()).count_empties(), 81);
    let b = Board::parse(PUZZLE).expect("valid grid");
    let empties = b.cells().iter().filter(|&&d| d == 0).count() as u32;
    assert_eq!(BitBoard::from_board(&b).count_empties(), empties);
}

#[test]
fn toolbox_names_read_the_low_five_bits() {
    assert_eq!(tb_name(37), "N+RB");
    assert_eq!(tb_name(32), "none");
}
