//! Snapshots of engine state as they are persisted, and queries over a
//! loaded collection of them.

use vstd::prelude::*;
use crate::DrawError;
use crate::engine::{find_last, pair_last, vec_contains};
use crate::ident::{generate_id as join_id, id_text, str_views};
use crate::plane::{lemma_row_in_grid, position_u32, to_position};

verus! {

/// The kind of engine a snapshot was taken from.
#[derive(Debug, Clone, Copy, PartialEq, Eq, Structural)]
pub enum DataKind {
    /// An engine over a range of ids.
    Range,
    /// An engine over an explicit list of ids.
    List,
    /// A two-dimensional grid engine.
    Plane,
}

/// The integer state of an engine, as stored under its persistence key.
#[derive(Debug)]
pub struct Snapshot {
    pub data_type: DataKind,
    /// Grid dimensions (0 for one-dimensional engines).
    pub rows: u32,
    pub cols: u32,
    pub draw_counts: Vec<(u32, u32)>,
    pub last_draw_round: Vec<(u32, i32)>,
    pub current_round: u32,
    pub total_draws: u32,
    pub min_pool_size: u32,
    pub max_gap_threshold: u32,
    pub blacklist: Vec<u32>,
    pub whitelist: Vec<u32>,
    pub whitelist_only_mode: bool,
}

/// The stored draw count of linear id `i` of a grid snapshot: 0 where the
/// id is blacklisted or has no stored count.
pub open spec fn stored_grid_count(data: &Snapshot, i: u32) -> u32 {
    if data.blacklist@.contains(i) {
        0
    } else {
        match pair_last(data.draw_counts@, i) {
            Some(c) => c,
            None => 0,
        }
    }
}

/// `data` is a grid snapshot of the given dimensions.
pub open spec fn is_plane(data: &Snapshot, rows: u32, cols: u32) -> bool {
    data.data_type == DataKind::Plane && data.rows == rows && data.cols == cols
}

/// Queries over the snapshots of a persistent store.
pub struct BalancedRandDataManager;

impl BalancedRandDataManager {
    /// The persistence key `"{data_type}_{p1}_{p2}_..."` of a configuration.
    pub fn generate_id(data_type: &str, params: &[&str]) -> (r: String)
        ensures
            r@ == id_text(data_type@, str_views(params@)),
    {
        join_id(data_type, params)
    }

    /// The ids that stand for a list universe in its persistence key: the
    /// first ten, or all where there are fewer.
    pub fn key_sample(numbers: &Vec<u32>) -> (r: Vec<u32>)
        ensures
            r@ == numbers@.take(if numbers@.len() < 10 { numbers@.len() as int } else { 10 }),
    {
        let n: usize = if numbers.len() < 10 { numbers.len() } else { 10 };
        let mut r: Vec<u32> = Vec::new();
        let mut i: usize = 0;
        while i < n
            invariant
                0 <= i <= n,
                n <= numbers@.len(),
                r@ == numbers@.take(i as int),
            decreases n - i,
        {
            assert(numbers@.take(i + 1) =~= numbers@.take(i as int).push(numbers@[i as int]));
            r.push(numbers[i]);
            i = i + 1;
        }
        r
    }

    /// The draw count of every position of a grid snapshot, row by row.
    pub fn get_plane_config_draw_counts_dict(data: &Snapshot) -> (r: Result<Vec<((u32, u32), u32)>, DrawError>)
        ensures
            r is Err <==> (data.data_type != DataKind::Plane || data.rows * data.cols > 0x1_0000_0000),
            r is Err ==> r == Err::<Vec<((u32, u32), u32)>, DrawError>(DrawError::InvalidConfiguration),
            r matches Ok(v) ==> v@.len() == data.rows * data.cols && forall|i: int|
                #![trigger v@[i]]
                0 <= i < v@.len() ==> v@[i] == (position_u32(i as u32, data.cols as int), stored_grid_count(
                    data,
                    i as u32,
                )),
    {
        if data.data_type != DataKind::Plane {
            return Err(DrawError::InvalidConfiguration);
        }
        assert(data.rows * data.cols <= 0xffff_ffff * 0xffff_ffff) by (nonlinear_arith)
            requires
                data.rows <= 0xffff_ffff,
                data.cols <= 0xffff_ffff,
        ;
        let n: u64 = data.rows as u64 * data.cols as u64;
        if n > 0x1_0000_0000 {
            return Err(DrawError::InvalidConfiguration);
        }
        let mut r: Vec<((u32, u32), u32)> = Vec::new();
        let mut i: u64 = 0;
        while i < n
            invariant
                n == data.rows * data.cols,
                n <= 0x1_0000_0000,
                0 <= i <= n,
                r@.len() == i,
                forall|k: int|
                    #![trigger r@[k]]
                    0 <= k < i ==> r@[k] == (position_u32(k as u32, data.cols as int), stored_grid_count(
                        data,
                        k as u32,
                    )),
            decreases n - i,
        {
            let id = i as u32;
            assert(data.cols > 0) by (nonlinear_arith)
                requires
                    i < data.rows * data.cols,
                    data.rows >= 0,
                    data.cols >= 0,
            ;
            let p = to_position(id, data.cols);
            let c = if vec_contains(&data.blacklist, id) {
                0
            } else {
                match find_last(&data.draw_counts, id) {
                    Some(c) => c,
                    None => 0,
                }
            };
            r.push((p, c));
            i = i + 1;
        }
        Ok(r)
    }

    /// The draw count of every position of the first grid snapshot of
    /// `all` whose dimensions are `range = [rows, cols]`, row by row.
    pub fn get_draw_counts_by_plane_range(range: &[u32], all: &Vec<Snapshot>) -> (r: Result<
        Vec<((u32, u32), u32)>,
        DrawError,
    >)
        ensures
            range@.len() != 2 ==> r == Err::<Vec<((u32, u32), u32)>, DrawError>(DrawError::InvalidConfiguration),
            range@.len() == 2 && (forall|j: int| 0 <= j < all@.len() ==> !is_plane(#[trigger] &all@[j], range@[0], range@[1]))
                ==> r == Err::<Vec<((u32, u32), u32)>, DrawError>(DrawError::NoMatchingData),
            range@.len() == 2 ==> forall|j: int|
                #![trigger all@[j]]
                0 <= j < all@.len() && is_plane(&all@[j], range@[0], range@[1]) && (forall|k: int|
                    0 <= k < j ==> !is_plane(#[trigger] &all@[k], range@[0], range@[1])) ==> (r is Err
                    <==> all@[j].rows * all@[j].cols > 0x1_0000_0000) && (r matches Ok(v) ==> v@.len()
                    == all@[j].rows * all@[j].cols && forall|i: int|
                    #![trigger v@[i]]
                    0 <= i < v@.len() ==> v@[i] == (position_u32(i as u32, all@[j].cols as int), stored_grid_count(
                        &all@[j],
                        i as u32,
                    ))),
    {
        if range.len() != 2 {
            return Err(DrawError::InvalidConfiguration);
        }
        let rows = range[0];
        let cols = range[1];
        let mut j: usize = 0;
        while j < all.len()
            invariant
                0 <= j <= all@.len(),
                range@.len() == 2,
                rows == range@[0],
                cols == range@[1],
                forall|k: int| 0 <= k < j ==> !is_plane(#[trigger] &all@[k], rows, cols),
            decreases all@.len() - j,
        {
            let data = &all[j];
            if data.data_type == DataKind::Plane && data.rows == rows && data.cols == cols {
                let r = Self::get_plane_config_draw_counts_dict(data);
                proof {
                    assert forall|j2: int|
                        #![trigger all@[j2]]
                        0 <= j2 < all@.len() && is_plane(&all@[j2], rows, cols) && (forall|k: int|
                            0 <= k < j2 ==> !is_plane(#[trigger] &all@[k], rows, cols)) implies j2 == j by {
                        if j2 > j {
                            assert(!is_plane(&all@[j as int], rows, cols));
                        }
                    }
                }
                return r;
            }
            j = j + 1;
        }
        Err(DrawError::NoMatchingData)
    }
}

} // verus!
