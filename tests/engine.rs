use balanced_rand::engine::{BalancedRand, WeightInput};
use balanced_rand::ident::{generate_id, list_universe, range_universe};
use balanced_rand::store::{BalancedRandDataManager, DataKind, Snapshot};
use balanced_rand::DrawError;

fn first(_v: &Vec<WeightInput>) -> usize {
    0
}

fn weight(input: &WeightInput, universe_len: usize, boost: f64, decay: f64) -> f64 {
    let _ = universe_len;
    let mut w = decay.powi(input.draw_count as i32);
    if input.never_drawn {
        w *= boost;
    } else if input.stale_gap > 0 {
        w *= 1.0 + ((input.stale_gap as f64) + 1.0).ln() / 10.0;
    }
    w *= 1.0 / (input.draw_count as f64 + 1.0);
    if input.extension {
        w *= boost;
    }
    w.max(0.01)
}

#[test]
fn range_rejects_start_after_end() {
    assert!(matches!(BalancedRand::new_from_range(5, 1, 3, 5), Err(DrawError::InvalidConfiguration)));
}

#[test]
fn zero_pool_size_rejected() {
    assert!(matches!(BalancedRand::new_from_range(1, 5, 0, 5), Err(DrawError::InvalidConfiguration)));
    assert!(matches!(BalancedRand::new_from_list(&[1, 2], 0, 5), Err(DrawError::InvalidConfiguration)));
}

#[test]
fn empty_list_rejected() {
    assert!(matches!(BalancedRand::new_from_list(&[], 3, 5), Err(DrawError::InvalidConfiguration)));
}

#[test]
fn list_is_sorted_and_deduplicated() {
    let e = BalancedRand::new_from_list(&[7, 3, 7, 1, 3], 2, 5).unwrap();
    assert_eq!(e.numbers(), vec![1, 3, 7]);
    assert_eq!(list_universe(&[4, 4, 2]), vec![2, 4]);
    assert_eq!(range_universe(3, 6), vec![3, 4, 5, 6]);
}

#[test]
fn generate_id_joins_with_underscores() {
    let id = generate_id("BalancedRand_Range", &["1", "5", "3", "5", "2", "0.7"]);
    assert_eq!(id, "BalancedRand_Range_1_5_3_5_2_0.7");
    assert_eq!(generate_id("T", &[]), "T_");
    assert_eq!(generate_id("T", &["a"]), "T_a");
}

#[test]
fn fresh_engine_pool_is_whole_universe() {
    let e = BalancedRand::new_from_range(1, 5, 3, 5).unwrap();
    assert_eq!(e.candidate_pool(), vec![1, 2, 3, 4, 5]);
    assert_eq!(e.current_round(), 0);
    assert_eq!(e.total_draws(), 0);
    assert_eq!(e.last_draw_round(3), -1);
}

#[test]
fn draw_multiple_zero_is_invalid_count() {
    let mut e = BalancedRand::new_from_range(1, 5, 3, 5).unwrap();
    assert!(matches!(e.draw_multiple(0, &first), Err(DrawError::InvalidCount)));
    assert_eq!(e.total_draws(), 0);
}

#[test]
fn draw_multiple_above_pool_is_pool_too_small() {
    let mut e = BalancedRand::new_from_range(1, 5, 3, 5).unwrap();
    assert!(matches!(e.draw_multiple(6, &first), Err(DrawError::PoolTooSmall)));
    assert_eq!(e.total_draws(), 0);
}

#[test]
fn draw_multiple_draws_count_ids() {
    let mut e = BalancedRand::new_from_range(1, 5, 3, 5).unwrap();
    let v = e.draw_multiple(3, &first).unwrap();
    assert_eq!(v.len(), 3);
    assert_eq!(e.total_draws(), 3);
    assert_eq!(e.current_round(), 3);
}

#[test]
fn first_draw_weights_equal_then_chosen_drops() {
    let mut e = BalancedRand::new_from_range(1, 5, 3, 5).unwrap();
    let inputs = e.weight_inputs();
    assert_eq!(inputs.len(), 5);
    for i in &inputs {
        assert_eq!(i.draw_count, 0);
        assert!(i.never_drawn);
        assert_eq!(i.stale_gap, 0);
        assert!(!i.extension);
        assert!((weight(i, 5, 2.0, 0.7) - 2.0).abs() < 1e-12);
    }
    let id = e.draw(&|v: &Vec<WeightInput>| {
        assert_eq!(v.len(), 5);
        2
    }).unwrap();
    assert_eq!(id, 3);
    assert_eq!(e.draw_count(3), 1);
    assert_eq!(e.last_draw_round(3), 1);
    let after = e.weight_inputs();
    let chosen = after.iter().find(|w| w.id == 3).unwrap();
    assert!((weight(chosen, 5, 2.0, 0.7) - 0.35).abs() < 1e-12);
    for w in after.iter().filter(|w| w.id != 3) {
        assert!((weight(w, 5, 2.0, 0.7) - 2.0).abs() < 1e-12);
    }
}

#[test]
fn out_of_range_pick_is_selection_impossible() {
    let mut e = BalancedRand::new_from_range(1, 3, 1, 5).unwrap();
    let r = e.draw(&|v: &Vec<WeightInput>| v.len());
    assert!(matches!(r, Err(DrawError::SelectionImpossible)));
    assert_eq!(e.total_draws(), 0);
}

#[test]
fn fully_blacklisted_universe_cannot_draw() {
    let mut e = BalancedRand::new_from_range(1, 3, 1, 5).unwrap();
    e.set_blacklist(&[1, 2, 3]);
    assert!(e.candidate_pool().is_empty());
    let r = e.draw(&first);
    assert!(matches!(r, Err(DrawError::SelectionImpossible)));
}

#[test]
fn blacklist_leaves_pool_immediately() {
    let mut e = BalancedRand::new_from_range(1, 5, 3, 5).unwrap();
    e.add_to_blacklist(&[2, 99]);
    assert_eq!(e.get_blacklist(), vec![2]);
    assert!(e.is_in_blacklist(2));
    assert!(!e.candidate_pool().contains(&2));
    assert!(e.weight_inputs().iter().all(|w| w.id != 2));
    e.remove_from_blacklist(&[2]);
    assert!(e.candidate_pool().contains(&2));
    e.set_blacklist(&[4]);
    assert_eq!(e.get_blacklist(), vec![4]);
    e.clear_blacklist();
    assert!(e.get_blacklist().is_empty());
}

#[test]
fn drawn_ids_never_blacklisted() {
    let mut e = BalancedRand::new_from_range(0, 9, 4, 2).unwrap();
    e.set_blacklist(&[0, 5]);
    for k in 0..50usize {
        let id = e.draw(&|v: &Vec<WeightInput>| k % v.len()).unwrap();
        assert!(id != 0 && id != 5 && id <= 9);
    }
}

#[test]
fn whitelist_extends_universe() {
    let mut e = BalancedRand::new_from_range(1, 3, 1, 5).unwrap();
    e.set_whitelist(&[10]);
    assert!(e.is_in_whitelist(10));
    assert!(e.candidate_pool().contains(&10));
    let w = e.weight_inputs().into_iter().find(|w| w.id == 10).unwrap();
    assert!(w.extension);
    let stats = e.get_statistics();
    assert_eq!(stats, vec![(1, 0), (2, 0), (3, 0), (10, 0)]);
    e.add_to_whitelist(&[11]);
    assert_eq!(e.get_whitelist(), vec![10, 11]);
    e.remove_from_whitelist(&[10]);
    assert_eq!(e.get_whitelist(), vec![11]);
    e.clear_whitelist();
    assert!(e.get_whitelist().is_empty());
}

#[test]
fn whitelist_only_mode_restricts_pool() {
    let mut e = BalancedRand::new_from_range(1, 5, 1, 5).unwrap();
    e.set_whitelist(&[2, 4]);
    e.set_whitelist_only_mode(true);
    assert!(e.get_whitelist_only_mode());
    assert_eq!(e.candidate_pool(), vec![2, 4]);
    e.set_whitelist_only_mode(false);
    assert_eq!(e.candidate_pool().len(), 5);
}

#[test]
fn blacklist_overrides_whitelist() {
    let mut e = BalancedRand::new_from_range(1, 5, 1, 5).unwrap();
    e.set_whitelist(&[2]);
    e.set_whitelist_only_mode(true);
    e.set_blacklist(&[2]);
    assert!(!e.candidate_pool().contains(&2));
}

#[test]
fn average_filter_and_backfill() {
    let mut e = BalancedRand::new_from_range(1, 4, 3, 5).unwrap();
    e.draw(&first).unwrap(); // id 1
    // mean 1/4 rounds up to 1: every id stays.
    assert_eq!(e.candidate_pool(), vec![1, 2, 3, 4]);
    let pick_id = |target: u32| move |v: &Vec<WeightInput>| v.iter().position(|w| w.id == target).unwrap();
    e.draw(&pick_id(1)).unwrap();
    // counts 2,0,0,0: mean 1/2 rounds up to 1, so id 1 leaves; the pool keeps 3.
    assert_eq!(e.candidate_pool(), vec![2, 3, 4]);
}

#[test]
fn backfill_takes_least_drawn() {
    let mut e = BalancedRand::new_from_range(1, 3, 3, 5).unwrap();
    let pick_id = |target: u32| move |v: &Vec<WeightInput>| v.iter().position(|w| w.id == target).unwrap();
    e.draw(&pick_id(1)).unwrap();
    e.draw(&pick_id(1)).unwrap();
    e.draw(&pick_id(2)).unwrap();
    // counts 2,1,0: mean 1, so id 1 is filtered out, then backfilled.
    assert_eq!(e.candidate_pool(), vec![2, 3, 1]);
}

#[test]
fn outlier_exclusion_drops_extremes() {
    let mut e = BalancedRand::new_from_range(1, 4, 1, 2).unwrap();
    let snap = Snapshot {
        data_type: DataKind::Range,
        rows: 0,
        cols: 0,
        draw_counts: vec![(1, 3), (2, 1), (3, 1), (4, 0)],
        last_draw_round: vec![(1, 5), (2, 2), (3, 3)],
        current_round: 5,
        total_draws: 5,
        min_pool_size: 1,
        max_gap_threshold: 2,
        blacklist: vec![],
        whitelist: vec![],
        whitelist_only_mode: false,
    };
    e.apply_snapshot(&snap);
    // Spread 3 exceeds 2: ids at the extremes (1 and 4) leave the pool.
    assert_eq!(e.get_max_draw_count_gap(), 3);
    assert_eq!(e.candidate_pool(), vec![2, 3]);
}

#[test]
fn outlier_exclusion_can_empty_then_backfill() {
    let mut e = BalancedRand::new_from_range(1, 5, 1, 1).unwrap();
    let pick_id = |target: u32| move |v: &Vec<WeightInput>| v.iter().position(|w| w.id == target).unwrap();
    e.draw(&pick_id(1)).unwrap();
    e.draw(&pick_id(1)).unwrap();
    // Counts 2,0,0,0,0: every remaining id sits at the minimum, so the
    // filter leaves nothing and backfill restores one least-ranked id.
    assert_eq!(e.candidate_pool(), vec![2]);
}

#[test]
fn reset_clears_history() {
    let mut e = BalancedRand::new_from_range(1, 5, 3, 5).unwrap();
    e.draw_multiple(3, &first).unwrap();
    e.reset_draw_counts();
    assert_eq!(e.total_draws(), 0);
    assert_eq!(e.current_round(), 0);
    for id in 1..=5 {
        assert_eq!(e.draw_count(id), 0);
        assert_eq!(e.last_draw_round(id), -1);
    }
}

#[test]
fn counts_converge_with_full_pool() {
    let n: u32 = 6;
    let mut e = BalancedRand::new_from_range(1, n, n, 2).unwrap();
    let least = |v: &Vec<WeightInput>| {
        let mut best = 0;
        for (i, w) in v.iter().enumerate() {
            if w.draw_count < v[best].draw_count {
                best = i;
            }
        }
        best
    };
    for _ in 0..(20 * n) {
        e.draw(&least).unwrap();
    }
    assert!(e.get_max_draw_count_gap() <= 2);
}

#[test]
fn save_then_load_reproduces_history() {
    let mut e = BalancedRand::new_from_range(1, 6, 2, 5).unwrap();
    e.set_whitelist(&[20]);
    e.set_blacklist(&[3]);
    for k in 0..7usize {
        e.draw(&|v: &Vec<WeightInput>| k % v.len()).unwrap();
    }
    let snap = e.to_snapshot(DataKind::Range, 0, 0);
    let mut f = BalancedRand::new_from_range(1, 6, 2, 5).unwrap();
    f.apply_snapshot(&snap);
    for id in [1, 2, 3, 4, 5, 6, 20] {
        assert_eq!(f.draw_count(id), e.draw_count(id));
        assert_eq!(f.last_draw_round(id), e.last_draw_round(id));
    }
    assert_eq!(f.current_round(), e.current_round());
    assert_eq!(f.total_draws(), e.total_draws());
    assert_eq!(f.get_blacklist(), vec![3]);
    assert_eq!(f.candidate_pool(), e.candidate_pool());
}

#[test]
fn snapshot_drops_unknown_ids_and_bad_blacklist() {
    let mut e = BalancedRand::new_from_range(1, 3, 1, 5).unwrap();
    let snap = Snapshot {
        data_type: DataKind::Range,
        rows: 0,
        cols: 0,
        draw_counts: vec![(1, 4), (9, 7)],
        last_draw_round: vec![(1, 2)],
        current_round: 4,
        total_draws: 4,
        min_pool_size: 0,
        max_gap_threshold: 8,
        blacklist: vec![2, 50],
        whitelist: vec![],
        whitelist_only_mode: false,
    };
    e.apply_snapshot(&snap);
    assert_eq!(e.draw_count(1), 4);
    assert_eq!(e.draw_count(9), 0);
    assert_eq!(e.last_draw_round(1), 2);
    assert_eq!(e.get_blacklist(), vec![2]);
    assert_eq!(e.min_pool_size(), 1);
    assert_eq!(e.max_gap_threshold(), 8);
}

#[test]
fn headroom_reflects_counters() {
    let e = BalancedRand::new_from_range(1, 3, 1, 5).unwrap();
    assert!(e.has_headroom(10));
    assert!(!e.has_headroom(0x8000_0000));
}

#[test]
fn draw_at_records_the_indexed_candidate() {
    let mut e = BalancedRand::new_from_range(1, 5, 3, 5).unwrap();
    e.start_round();
    assert_eq!(e.current_round(), 1);
    let pool = e.candidate_pool();
    assert_eq!(e.draw_at(3), Ok(pool[3]));
    assert_eq!(e.draw_count(pool[3]), 1);
    assert_eq!(e.last_draw_round(pool[3]), 1);
    assert_eq!(e.total_draws(), 1);
    let before = e.candidate_pool();
    assert_eq!(e.draw_at(before.len()), Err(DrawError::SelectionImpossible));
    assert_eq!(e.total_draws(), 1);
    assert_eq!(e.candidate_pool(), before);
}

#[test]
fn draw_returns_the_picked_candidate() {
    let mut e = BalancedRand::new_from_range(1, 5, 3, 5).unwrap();
    let pool = e.candidate_pool();
    let id = e.draw(&|v: &Vec<WeightInput>| v.len() - 1).unwrap();
    assert_eq!(id, pool[pool.len() - 1]);
}

#[test]
fn huge_batch_is_pool_too_small() {
    let mut e = BalancedRand::new_from_range(1, 5, 3, 5).unwrap();
    assert!(matches!(e.draw_multiple(u32::MAX, &first), Err(DrawError::PoolTooSmall)));
    assert_eq!(e.total_draws(), 0);
}

#[test]
fn key_sample_takes_first_ten() {

    let v: Vec<u32> = (1..=12).collect();
    assert_eq!(BalancedRandDataManager::key_sample(&v), (1..=10).collect::<Vec<u32>>());
    assert_eq!(BalancedRandDataManager::key_sample(&vec![4, 2]), vec![4, 2]);
}

#[test]
fn weighted_random_draws_converge() {
    use_rand_convergence();
}

fn use_rand_convergence() {
    let n: u32 = 8;
    // With a pool floor of 1 the average filter bounds the spread; with a
    // floor of `n` every id stays eligible and, once the weights reach their
    // 0.01 floor, draws are uniform and the spread is not bounded.
    let mut e = BalancedRand::new_from_range(1, n, 1, 5).unwrap();
    let rng = std::cell::RefCell::new(<rand::rngs::StdRng as rand::SeedableRng>::seed_from_u64(7));
    let pick = |v: &Vec<WeightInput>| {
        let weights: Vec<f64> = v.iter().map(|i| weight(i, n as usize, 2.0, 0.7)).collect();
        let dist = rand::distributions::WeightedIndex::new(&weights).unwrap();
        rand::distributions::Distribution::sample(&dist, &mut *rng.borrow_mut())
    };
    for _ in 0..(50 * n) {
        e.draw(&pick).unwrap();
    }
    assert_eq!(e.total_draws(), 50 * n);
    assert!(e.get_max_draw_count_gap() <= 5);
}
