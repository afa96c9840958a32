use lib::fill::random_solution;
use lib::rng::Rng;
use lib::generate::{baseline_fast_applicable, collect_probes, defer_stat, reforce_stat, run_attempts, run_attempts_ua, ua_build_cost, ua_catch_stat, verify_share};
use lib::kinds::NAKED_PAIR;
use lib::spec::Spec;
use lib::ua::{enumerate_2digit_uas, UaFilter, UaTier, UA_CAP};

/// Each set's sorted cell list, rebuilt from the cell -> set index; every set's
/// count on the full grid equals its size.
fn cellsets(f: &UaFilter) -> Vec<Vec<usize>> {
    let mut sets: Vec<Vec<usize>> = vec![Vec::new(); f.len()];
    for cell in 0..81 {
        for id in f.sets_of(cell) {
            sets[id as usize].push(cell);
        }
    }
    for (id, s) in sets.iter_mut().enumerate() {
        s.sort_unstable();
        assert_eq!(f.count_of(id) as usize, s.len(), "UA {id} count != membership");
    }
    sets
}

fn sorted(mut v: Vec<Vec<usize>>) -> Vec<Vec<usize>> {
    v.sort();
    v
}

fn unit_cell(kind: usize, u: usize, k: usize) -> usize {
    match kind {
        0 => u * 9 + k,
        1 => k * 9 + u,
        _ => ((u / 3) * 3 + k / 3) * 9 + ((u % 3) * 3 + k % 3),
    }
}

fn is_valid_complete(g: &[u8; 81]) -> bool {
    for kind in 0..3 {
        for u in 0..9 {
            let mut seen = [false; 10];
            for k in 0..9 {
                let d = g[unit_cell(kind, u, k)] as usize;
                if d == 0 || seen[d] {
                    return false;
                }
                seen[d] = true;
            }
        }
    }
    true
}

fn swap_is_genuine(sol: &[u8; 81], cells: &[usize], seed: u64) {
    let mut digs: Vec<u8> = cells.iter().map(|&c| sol[c]).collect();
    digs.sort_unstable();
    digs.dedup();
    assert_eq!(digs.len(), 2, "seed {seed}: UA spans {} digits", digs.len());
    let (a, b) = (digs[0], digs[1]);
    let mut swapped = *sol;
    for &c in cells {
        swapped[c] = if sol[c] == a { b } else { a };
    }
    assert!(is_valid_complete(&swapped), "seed {seed}: UA swap is not a valid grid");
    assert_ne!(swapped, *sol, "seed {seed}: UA swap is the identity");
}

#[test]
fn ua4_equals_full_size4() {
    for seed in 0..50 {
        let mut rng = Rng::from_seed(seed);
        let sol = random_solution(&mut rng);
        let ua4 = sorted(cellsets(&UaFilter::of_grid(&sol, UaTier::Ua4)));
        let full = UaFilter::of_grid(&sol, UaTier::Full);
        let full_s4 = sorted(cellsets(&full).into_iter().filter(|s| s.len() == 4).collect());
        assert!(ua4.iter().all(|s| s.len() == 4), "seed {seed}: non-size-4 UA in UA4 tier");
        assert_eq!(ua4, full_s4, "seed {seed}: UA4 rectangle set != full size-4 components");
    }
}

#[test]
fn full_uas_are_genuine() {
    for seed in 0..30 {
        let mut rng = Rng::from_seed(seed);
        let sol = random_solution(&mut rng);
        let f = UaFilter::of_grid(&sol, UaTier::Full);
        assert!(f.len() > 0, "seed {seed}: empty full library");
        for cells in cellsets(&f) {
            assert!(cells.len() >= 4 && cells.len() % 2 == 0, "seed {seed}: bad UA size");
            swap_is_genuine(&sol, &cells, seed);
        }
    }
}

#[test]
fn library_sizes_match_anchors() {
    let mut rng = Rng::from_seed(1);
    let (mut ua4, mut full, mut max_nua) = (0usize, 0usize, 0usize);
    let n = 400;
    for _ in 0..n {
        let sol = random_solution(&mut rng);
        ua4 += UaFilter::of_grid(&sol, UaTier::Ua4).len();
        let f = UaFilter::of_grid(&sol, UaTier::Full);
        full += f.len();
        max_nua = max_nua.max(f.len());
    }
    let (a4, af) = (ua4 as f64 / n as f64, full as f64 / n as f64);
    assert!((9.0..12.5).contains(&a4), "UA4/board {a4} off the ~10.7 anchor");
    assert!((50.0..60.0).contains(&af), "UA/board {af} off the ~55 anchor");
    assert!(max_nua < UA_CAP, "max UAs/board {max_nua} >= UA_CAP (would truncate)");
}

#[test]
fn enumerated_uas_are_genuine_unavoidable_sets() {
    for seed in 0..40 {
        let mut rng = Rng::from_seed(seed);
        let sol = random_solution(&mut rng);
        let lib = enumerate_2digit_uas(&sol);
        assert!(!lib.uas.is_empty(), "seed {seed}: empty library");
        for (cells, size) in &lib.uas {
            assert_eq!(*size, cells.len());
            assert!(*size >= 4 && *size % 2 == 0, "seed {seed}: odd/small UA size {size}");
            swap_is_genuine(&sol, cells, seed);
        }
    }
}

#[test]
fn off_tier_carries_no_sets() {
    let mut rng = Rng::from_seed(7);
    let sol = random_solution(&mut rng);
    assert_eq!(UaFilter::of_grid(&sol, UaTier::Off).len(), 0);
}

#[test]
fn prefilter_leaves_the_run_unchanged() {
    let spec = Spec::train(NAKED_PAIR);
    let mut fps = Vec::new();
    for tier in [UaTier::Off, UaTier::Ua4, UaTier::Full] {
        let mut rng = Rng::from_seed(11);
        fps.push(run_attempts_ua(&mut rng, &spec, 3, tier));
    }
    assert_eq!(fps[0], fps[1]);
    assert_eq!(fps[0], fps[2]);
    assert_eq!(fps[0].0.attempts, 3);
}

#[test]
fn reforce_skips_are_sound() {
    let spec = Spec::train(NAKED_PAIR);
    let s = reforce_stat(3, &spec, 4);
    assert_eq!(s.attempts, 4);
    assert!(s.gates > 0);
    assert_eq!(s.accepted + s.rejected_nonunique + s.rejected_unsolvable, s.gates);
    assert_eq!(s.hit_nonunique, 0);
    assert_eq!(s.hit_unsolvable, 0);
    assert_eq!(s.hit_req_drift, 0);
}

#[test]
fn library_catches_only_nonunique_gates() {
    let spec = lib::subset_spec_for_mode(0);
    assert!(baseline_fast_applicable(&spec));
    let s = ua_catch_stat(5, &spec, 3);
    assert_eq!(s.attempts, 3);
    assert_eq!(s.boards, 3);
    assert_eq!(s.false_positive, 0);
    assert!(s.lib_uas >= s.lib_ua4 && s.lib_ua4 > 0);
    for g in 0..2 {
        assert!(s.caught_ua4_ct[g] <= s.caught_all_ct[g] && s.caught_all_ct[g] <= s.reverts[g]);
    }
    assert!(s.locked_n.iter().sum::<u64>() > 0);
}

#[test]
fn verify_share_split_matches_run_attempts() {
    let spec = Spec::train(NAKED_PAIR);
    let vs = verify_share(9, &spec, 3);
    let (stats, _) = run_attempts(&mut Rng::from_seed(9), &spec, 3);
    assert_eq!(vs.attempts, 3);
    assert_eq!(vs.successes, stats.successes);
    assert_eq!(vs.not_forced, stats.not_forced);
    assert_eq!(vs.attempts - vs.reached_verify, stats.never_fired);
    assert!(vs.verify_nanos <= vs.total_nanos);
}

#[test]
fn build_cost_counts_the_libraries() {
    let (_, none) = ua_build_cost(2, 5, UaTier::Off);
    assert_eq!(none, 0);
    let mut rng = Rng::from_seed(2);
    let mut expected = 0u64;
    for _ in 0..5 {
        let sol = random_solution(&mut rng);
        expected += UaFilter::of_grid(&sol, UaTier::Ua4).len() as u64;
    }
    let (_, n) = ua_build_cost(2, 5, UaTier::Ua4);
    assert_eq!(n, expected);
}

#[test]
fn collected_probes_match_the_timed_walk() {
    let spec = Spec::train(NAKED_PAIR);
    let probes = collect_probes(13, &spec, 2);
    let vs = verify_share(13, &spec, 2);
    let reverts = probes.iter().filter(|p| p.1).count();
    assert_eq!(reverts, vs.revert_probes);
    assert_eq!(probes.len() - reverts, vs.keep_probes);
    assert!(probes.iter().all(|(p, _)| p.cell < 81 && p.alts != 0 && p.r.iter().all(|b| b[3] == 0)));
}

#[test]
fn deferred_walk_tallies_agree_with_the_catch_walk() {
    let spec = lib::subset_spec_for_mode(0);
    let d = defer_stat(21, &spec, 2);
    let c = ua_catch_stat(21, &spec, 2);
    assert_eq!(d.attempts, 2);
    let reverts: u64 = d.reverts.iter().sum();
    assert_eq!(reverts, c.reverts[0] + c.reverts[1]);
    for k in 0..82 {
        assert_eq!(d.keeps[k] + d.reverts[k], d.posed[k]);
        assert!(d.baseline_revert[k] <= d.keeps[k]);
    }
    let witnesses: u64 = d.witness_size.iter().map(|g| g.iter().sum::<u64>()).sum();
    assert_eq!(witnesses, reverts);
    for g in 0..2 {
        assert!(d.witness_size[g][..4].iter().all(|&n| n == 0), "an alternate completion differs in at least four cells");
    }
}

#[test]
fn two_digit_library_lists_match_and_cover_every_pair() {
    for seed in 0..5u64 {
        let sol = random_solution(&mut Rng::from_seed(seed));
        let lib = enumerate_2digit_uas(&sol);
        assert!(!lib.uas.is_empty());
        for (i, (cells, _)) in lib.uas.iter().enumerate() {
            for c in 0..81usize {
                assert_eq!(cells.contains(&c), lib.cell_uas[c].contains(&i));
            }
        }
        for a in 1..=9u8 {
            for b in (a + 1)..=9u8 {
                for x in 0..81usize {
                    if sol[x] == a || sol[x] == b {
                        assert!(lib.uas.iter().any(|(cells, _)| cells.contains(&x)
                            && cells.iter().all(|&y| sol[y] == a || sol[y] == b)));
                    }
                }
            }
        }
    }
}

#[test]
fn filter_sets_are_distinct() {
    for seed in 0..5u64 {
        let sol = random_solution(&mut Rng::from_seed(seed));
        for tier in [UaTier::Ua4, UaTier::Full] {
            let sets = cellsets(&UaFilter::of_grid(&sol, tier));
            for i in 0..sets.len() {
                for j in (i + 1)..sets.len() {
                    if sets[i].len() == 4 || tier == UaTier::Ua4 {
                        assert_ne!(sets[i], sets[j]);
                    }
                }
            }
        }
    }
}

#[test]
fn empty_runs_fold_to_the_offset() {
    let spec = Spec::train(NAKED_PAIR);
    let (stats, fp) = run_attempts(&mut Rng::from_seed(1), &spec, 0);
    assert_eq!(stats.attempts, 0);
    assert_eq!(fp, lib::fingerprint::FNV_OFFSET);
    assert!(collect_probes(3, &spec, 0).is_empty());
    assert_eq!(lib::generate::determinism_fp(&mut Rng::from_seed(2), 0), lib::fingerprint::FNV_OFFSET);
}

#[test]
fn probes_pose_undecided_cells() {
    let spec = Spec::train(NAKED_PAIR);
    for (p, _) in collect_probes(7, &spec, 2) {
        assert!(p.unsolved[p.cell / 27] & (1u32 << (p.cell % 27)) != 0);
    }
}
