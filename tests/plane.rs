use balanced_rand::engine::WeightInput;
use balanced_rand::plane::{linear_id, to_position, BalancedRandPlane};
use balanced_rand::store::{BalancedRandDataManager, DataKind};
use balanced_rand::DrawError;

fn first(_v: &Vec<WeightInput>) -> usize {
    0
}

#[test]
fn linear_five_is_row_two_col_two() {
    assert_eq!(to_position(5, 4), (2, 2));
    assert_eq!(linear_id(2, 2, 4), Some(5));
    assert_eq!(linear_id(0, 2, 4), None);
    assert_eq!(to_position(u32::MAX, 1), (u32::MAX, 1));
}

#[test]
fn blacklisting_first_position_blacklists_id_zero() {
    let mut p = BalancedRandPlane::new(3, 4, 3, 5).unwrap();
    p.set_blacklist_positions(&[(1, 1), (9, 9)]);
    assert!(p.engine_ref().is_in_blacklist(0));
    assert_eq!(p.engine_ref().get_blacklist(), vec![0]);
    assert!(p.is_position_in_blacklist(1, 1));
    assert!(!p.is_position_in_blacklist(1, 2));
    p.add_to_blacklist_positions(&[(2, 3)]);
    assert!(p.engine_ref().is_in_blacklist(6));
    p.remove_from_blacklist_positions(&[(1, 1)]);
    assert!(!p.is_position_in_blacklist(1, 1));
}

#[test]
fn plane_rejects_empty_grid() {
    assert!(matches!(BalancedRandPlane::new(0, 4, 3, 5), Err(DrawError::InvalidConfiguration)));
    assert!(matches!(BalancedRandPlane::new(3, 4, 0, 5), Err(DrawError::InvalidConfiguration)));
}

#[test]
fn plane_draws_positions_inside_grid() {
    let mut p = BalancedRandPlane::new(3, 4, 3, 5).unwrap();
    p.set_blacklist_positions(&[(1, 1), (2, 3)]);
    for _ in 0..5 {
        let (r, c) = p.draw_position(&first).unwrap();
        assert!((1..=3).contains(&r) && (1..=4).contains(&c));
        assert!(!((r, c) == (1, 1) || (r, c) == (2, 3)));
    }
    let v = p.draw_multiple_positions(2, &first).unwrap();
    assert_eq!(v.len(), 2);
    assert!(matches!(p.draw_multiple_positions(0, &first), Err(DrawError::InvalidCount)));
}

#[test]
fn position_counts_zero_for_blacklisted() {
    let mut p = BalancedRandPlane::new(2, 2, 1, 5).unwrap();
    p.draw_position(&first).unwrap(); // id 0, position (1, 1)
    let counts = p.get_position_draw_counts_dict();
    assert_eq!(counts, vec![((1, 1), 1), ((1, 2), 0), ((2, 1), 0), ((2, 2), 0)]);
    p.set_blacklist_positions(&[(1, 1)]);
    let counts = p.get_position_draw_counts_dict();
    assert_eq!(counts[0], ((1, 1), 0));
    let hist = p.get_position_history();
    assert_eq!(hist[0], ((1, 1), 0, -1));
    assert_eq!(p.get_max_draw_count_gap(), 1);
}

#[test]
fn plane_whitelist_positions() {
    let mut p = BalancedRandPlane::new(2, 2, 1, 5).unwrap();
    p.set_whitelist_positions(&[(3, 1)]);
    assert!(p.is_position_in_whitelist(3, 1));
    assert!(p.engine_ref().is_in_whitelist(4));
    p.add_to_whitelist_positions(&[(1, 2)]);
    assert!(p.is_position_in_whitelist(1, 2));
    p.remove_from_whitelist_positions(&[(3, 1)]);
    assert!(!p.is_position_in_whitelist(3, 1));
    p.set_whitelist_only_mode(true);
    assert!(p.get_whitelist_only_mode());
    assert_eq!(p.engine_ref().candidate_pool(), vec![1]);
}

#[test]
fn plane_snapshot_query_by_range() {
    let mut p = BalancedRandPlane::new(2, 3, 1, 5).unwrap();
    p.draw_position(&first).unwrap();
    p.set_blacklist_positions(&[(2, 3)]);
    let snap = p.to_snapshot();
    assert_eq!(snap.data_type, DataKind::Plane);
    let all = vec![snap];
    let counts = BalancedRandDataManager::get_draw_counts_by_plane_range(&[2, 3], &all).unwrap();
    assert_eq!(counts.len(), 6);
    assert_eq!(counts[0], ((1, 1), 1));
    assert_eq!(counts[5], ((2, 3), 0));
    assert!(matches!(
        BalancedRandDataManager::get_draw_counts_by_plane_range(&[2], &all),
        Err(DrawError::InvalidConfiguration)
    ));
    assert!(matches!(
        BalancedRandDataManager::get_draw_counts_by_plane_range(&[3, 3], &all),
        Err(DrawError::NoMatchingData)
    ));
    let mut q = BalancedRandPlane::new(2, 3, 1, 5).unwrap();
    q.apply_snapshot(&all[0]);
    assert_eq!(q.engine_ref().draw_count(0), 1);
}

#[test]
fn manager_generate_id() {
    assert_eq!(BalancedRandDataManager::generate_id("BalancedRandPlane", &["3", "4"]), "BalancedRandPlane_3_4");
}

#[test]
fn non_grid_snapshot_is_rejected() {
    let e = balanced_rand::engine::BalancedRand::new_from_range(0, 3, 1, 5).unwrap();
    let snap = e.to_snapshot(DataKind::Range, 0, 0);
    assert!(matches!(
        BalancedRandDataManager::get_plane_config_draw_counts_dict(&snap),
        Err(DrawError::InvalidConfiguration)
    ));
    let grid = e.to_snapshot(DataKind::Plane, 2, 2);
    let counts = BalancedRandDataManager::get_plane_config_draw_counts_dict(&grid).unwrap();
    assert_eq!(counts, vec![((1, 1), 0), ((1, 2), 0), ((2, 1), 0), ((2, 2), 0)]);
}

#[test]
fn single_open_cell_is_drawn() {
    let mut p = BalancedRandPlane::new(3, 4, 3, 5).unwrap();
    let mut cells = Vec::new();
    for r in 1..=3 {
        for c in 1..=4 {
            if (r, c) != (2, 2) {
                cells.push((r, c));
            }
        }
    }
    p.set_blacklist_positions(&cells);
    assert_eq!(p.engine_ref().candidate_pool(), vec![5]);
    assert_eq!(p.draw_position(&first), Ok((2, 2)));
}
