//! A row-major grid of positions projected onto an engine over the linear
//! ids `0..rows * cols`. Positions are 1-based `(row, col)` pairs.

use vstd::prelude::*;
use crate::DrawError;
use crate::engine::{picks_in_range, BalancedRand, WeightInput};
use crate::store::{DataKind, Snapshot};

verus! {

/// The linear id of a 1-based position in a grid with `cols` columns.
pub open spec fn linear_of(row: int, col: int, cols: int) -> int {
    (row - 1) * cols + (col - 1)
}

/// The 1-based position of a linear id in a grid with `cols` columns.
pub open spec fn position_of(id: int, cols: int) -> (int, int) {
    (id / cols + 1, id % cols + 1)
}

/// A position inside a `rows` by `cols` grid.
pub open spec fn in_grid(p: (u32, u32), rows: int, cols: int) -> bool {
    1 <= p.0 <= rows && 1 <= p.1 <= cols
}

/// A position whose linear id is a `u32`.
pub open spec fn addressable(p: (u32, u32), cols: int) -> bool {
    p.0 >= 1 && p.1 >= 1 && linear_of(p.0 as int, p.1 as int, cols) <= 0xffff_ffff
}

/// `r` is the draw result `er` with the id turned into its position.
pub open spec fn position_result(er: Result<u32, DrawError>, r: Result<(u32, u32), DrawError>, cols: int) -> bool {
    match er {
        Ok(id) => r == Ok::<(u32, u32), DrawError>(position_u32(id, cols)),
        Err(e) => r == Err::<(u32, u32), DrawError>(e),
    }
}

/// The positions of `ids`, in order.
pub open spec fn positions_of(ids: Seq<u32>, cols: int) -> Seq<(u32, u32)> {
    Seq::new(ids.len(), |k: int| position_u32(ids[k], cols))
}

/// `r` is the batch result `er` with each id turned into its position.
pub open spec fn positions_result(
    er: Result<Vec<u32>, DrawError>,
    r: Result<Vec<(u32, u32)>, DrawError>,
    cols: int,
) -> bool {
    match er {
        Ok(ids) => match r {
            Ok(v) => v@ == positions_of(ids@, cols),
            Err(_) => false,
        },
        Err(e) => r == Err::<Vec<(u32, u32)>, DrawError>(e),
    }
}

/// `p` is the position of a linear id outside `black`.
pub open spec fn drawn_position(p: (u32, u32), black: Seq<u32>, cols: int) -> bool {
    exists|id: u32| p == position_u32(id, cols) && !black.contains(id)
}

/// Each of `v` is the position of a linear id outside `black`.
pub open spec fn drawn_positions(v: Seq<(u32, u32)>, black: Seq<u32>, cols: int) -> bool {
    forall|i: int| 0 <= i < v.len() ==> drawn_position(#[trigger] v[i], black, cols)
}

/// The linear id of a position, where it has one.
pub fn linear_id(row: u32, col: u32, cols: u32) -> (r: Option<u32>)
    ensures
        r is Some <==> addressable((row, col), cols as int),
        r matches Some(id) ==> id == linear_of(row as int, col as int, cols as int),
{
    if row < 1 || col < 1 {
        return None;
    }
    assert((row - 1) * cols <= 0xffff_ffff * 0xffff_ffff) by (nonlinear_arith)
        requires
            row >= 1,
            row <= 0xffff_ffff,
            cols <= 0xffff_ffff,
    ;
    let v: u64 = (row as u64 - 1) * cols as u64 + (col as u64 - 1);
    if v > 0xffff_ffff {
        None
    } else {
        Some(v as u32)
    }
}

/// The position of a linear id as a pair of `u32`, the row saturating at
/// `u32::MAX`.
pub open spec fn position_u32(id: u32, cols: int) -> (u32, u32) {
    let p = position_of(id as int, cols);
    (if p.0 <= 0xffff_ffff { p.0 as u32 } else { 0xffff_ffff }, p.1 as u32)
}

/// The 1-based position of a linear id; a row past the largest `u32`
/// saturates at `u32::MAX`.
pub fn to_position(id: u32, cols: u32) -> (r: (u32, u32))
    requires
        cols > 0,
    ensures
        r == position_u32(id, cols as int),
        position_of(id as int, cols as int).0 <= 0xffff_ffff ==> linear_of(r.0 as int, r.1 as int, cols as int)
            == id,
{
    let q = id / cols;
    let col = id % cols + 1;
    if q == 0xffff_ffff {
        return (0xffff_ffff, col);
    }
    let row = q + 1;
    assert((row - 1) * cols + (col - 1) == id) by (nonlinear_arith)
        requires
            row == id / cols + 1,
            col == id % cols + 1,
            cols > 0,
    ;
    (row, col)
}

/// A linear id inside a grid has a row inside it.
pub proof fn lemma_row_in_grid(id: int, rows: int, cols: int)
    requires
        0 <= id < rows * cols,
        cols > 0,
    ensures
        id / cols < rows,
        id / cols >= 0,
{
    assert(id / cols < rows) by (nonlinear_arith)
        requires
            0 <= id < rows * cols,
            cols > 0,
    ;
    assert(id / cols >= 0) by (nonlinear_arith)
        requires
            0 <= id,
            cols > 0,
    ;
}

/// The linear ids of the positions of `ps` that are addressable, and also
/// inside the grid where `in_grid_only` is set.
fn linear_ids(ps: &[(u32, u32)], rows: u32, cols: u32, in_grid_only: bool) -> (r: Vec<u32>)
    ensures
        forall|x: u32|
            #![trigger r@.contains(x)]
            r@.contains(x) <==> exists|i: int|
                0 <= i < ps@.len() && addressable(ps@[i], cols as int) && (!in_grid_only || in_grid(
                    ps@[i],
                    rows as int,
                    cols as int,
                )) && linear_of(ps@[i].0 as int, ps@[i].1 as int, cols as int) == x,
{
    let mut r: Vec<u32> = Vec::new();
    let mut i: usize = 0;
    while i < ps.len()
        invariant
            0 <= i <= ps@.len(),
            forall|x: u32|
                #![trigger r@.contains(x)]
                r@.contains(x) <==> exists|k: int|
                    0 <= k < i && addressable(ps@[k], cols as int) && (!in_grid_only || in_grid(
                        ps@[k],
                        rows as int,
                        cols as int,
                    )) && linear_of(ps@[k].0 as int, ps@[k].1 as int, cols as int) == x,
        decreases ps@.len() - i,
    {
        let (row, col) = ps[i];
        let ghost prev = r@;
        let inside = row >= 1 && row <= rows && col >= 1 && col <= cols;
        if !in_grid_only || inside {
            if let Some(id) = linear_id(row, col, cols) {
                r.push(id);
            }
        }
        assert forall|x: u32|
            #![trigger r@.contains(x)]
            r@.contains(x) <==> exists|k: int|
                0 <= k < i + 1 && addressable(ps@[k], cols as int) && (!in_grid_only || in_grid(
                    ps@[k],
                    rows as int,
                    cols as int,
                )) && linear_of(ps@[k].0 as int, ps@[k].1 as int, cols as int) == x by {
            if r@.len() > prev.len() {
                assert(r@ == prev.push(r@.last()));
                crate::seqs::lemma_push_contains(prev, r@.last(), x);
            }
            if prev.contains(x) {
                let k = choose|k: int|
                    0 <= k < i && addressable(ps@[k], cols as int) && (!in_grid_only || in_grid(
                        ps@[k],
                        rows as int,
                        cols as int,
                    )) && linear_of(ps@[k].0 as int, ps@[k].1 as int, cols as int) == x;
                assert(k < i + 1);
            }
        }
        i = i + 1;
    }
    r
}

/// The draw engine over a `rows` by `cols` grid.
pub struct BalancedRandPlane {
    balanced_rand: BalancedRand,
    rows: u32,
    cols: u32,
}

impl BalancedRandPlane {
    /// The engine over the linear ids.
    pub closed spec fn engine(&self) -> BalancedRand {
        self.balanced_rand
    }

    pub closed spec fn rows(&self) -> int {
        self.rows as int
    }

    pub closed spec fn cols(&self) -> int {
        self.cols as int
    }

    /// The grid is non-empty and its engine's universe is `0..rows * cols`.
    pub open spec fn wf(&self) -> bool {
        &&& self.engine().wf()
        &&& self.rows() > 0
        &&& self.cols() > 0
        &&& self.rows() * self.cols() <= 0x1_0000_0000
        &&& self.engine().universe().len() == self.rows() * self.cols()
        &&& forall|i: int| 0 <= i < self.engine().universe().len() ==> self.engine().universe()[i] == i
    }

    /// A grid engine with `rows` rows and `cols` columns.
    pub fn new(rows: u32, cols: u32, min_pool_size: u32, max_gap_threshold: u32) -> (r: Result<Self, DrawError>)
        ensures
            r is Err <==> (rows == 0 || cols == 0 || rows * cols > 0x1_0000_0000 || min_pool_size == 0),
            r is Err ==> r == Err::<Self, DrawError>(DrawError::InvalidConfiguration),
            r matches Ok(p) ==> p.wf() && p.rows() == rows && p.cols() == cols && p.engine().fresh(
                min_pool_size,
                max_gap_threshold,
            ),
    {
        if rows == 0 || cols == 0 || min_pool_size == 0 {
            return Err(DrawError::InvalidConfiguration);
        }
        assert(rows * cols <= 0xffff_ffff * 0xffff_ffff) by (nonlinear_arith)
            requires
                rows <= 0xffff_ffff,
                cols <= 0xffff_ffff,
        ;
        let n: u64 = rows as u64 * cols as u64;
        if n > 0x1_0000_0000 {
            return Err(DrawError::InvalidConfiguration);
        }
        assert(rows * cols >= 1) by (nonlinear_arith)
            requires
                rows >= 1,
                cols >= 1,
        ;
        let balanced_rand = match BalancedRand::new_from_range(0, (n - 1) as u32, min_pool_size, max_gap_threshold) {
            Ok(e) => e,
            Err(e) => {
                return Err(e);
            },
        };
        Ok(BalancedRandPlane { balanced_rand, rows, cols })
    }

    /// The engine over the linear ids.
    pub fn engine_ref(&self) -> (r: &BalancedRand)
        ensures
            *r == self.engine(),
    {
        &self.balanced_rand
    }

    /// Draws one position, as `BalancedRand::draw` draws an id.
    pub fn draw_position<F: Fn(&Vec<WeightInput>) -> usize>(&mut self, pick: &F) -> (r: Result<(u32, u32), DrawError>)
        requires
            old(self).wf(),
            old(self).engine().headroom(1),
            forall|v: &Vec<WeightInput>| pick.requires((v,)),
        ensures
            final(self).wf(),
            final(self).rows() == old(self).rows(),
            final(self).cols() == old(self).cols(),
            exists|er: Result<u32, DrawError>|
                #![trigger final(self).engine().draw_result(&old(self).engine(), pick, er)]
                final(self).engine().draw_result(&old(self).engine(), pick, er) && position_result(
                    er,
                    r,
                    old(self).cols(),
                ),
            picks_in_range(pick) && old(self).engine().has_candidate() ==> r is Ok,
            r is Err ==> r == Err::<(u32, u32), DrawError>(DrawError::SelectionImpossible),
            r matches Ok(p) ==> exists|id: u32|
                {
                    &&& p == position_u32(id, old(self).cols())
                    &&& !old(self).engine().black().contains(id)
                    &&& old(self).engine().universe().contains(id) || old(self).engine().white().contains(id)
                    &&& final(self).engine().count_of(id) == old(self).engine().base_count(id) + 1
                },
    {
        let er = self.balanced_rand.draw(pick);
        let r = match er {
            Ok(id) => Ok(to_position(id, self.cols)),
            Err(e) => Err(e),
        };
        assert(position_result(er, r, old(self).cols()));
        r
    }

    /// Draws `count` positions, as `BalancedRand::draw_multiple` draws ids.
    pub fn draw_multiple_positions<F: Fn(&Vec<WeightInput>) -> usize>(&mut self, count: u32, pick: &F) -> (r: Result<
        Vec<(u32, u32)>,
        DrawError,
    >)
        requires
            old(self).wf(),
            0 < count <= old(self).engine().pool().len() ==> old(self).engine().headroom(count as int),
            forall|v: &Vec<WeightInput>| pick.requires((v,)),
        ensures
            final(self).wf(),
            final(self).rows() == old(self).rows(),
            final(self).cols() == old(self).cols(),
            exists|er: Result<Vec<u32>, DrawError>|
                #![trigger final(self).engine().batch_result(&old(self).engine(), count, pick, er)]
                final(self).engine().batch_result(&old(self).engine(), count, pick, er) && positions_result(
                    er,
                    r,
                    old(self).cols(),
                ),
            0 < count <= old(self).engine().pool().len() && picks_in_range(pick) ==> r is Ok,
            count == 0 ==> r == Err::<Vec<(u32, u32)>, DrawError>(DrawError::InvalidCount),
            count > 0 && count > old(self).engine().pool().len() ==> r == Err::<Vec<(u32, u32)>, DrawError>(
                DrawError::PoolTooSmall,
            ),
            r matches Ok(v) ==> v@.len() == count && drawn_positions(v@, old(self).engine().black(), old(self).cols()),
    {
        let er = self.balanced_rand.draw_multiple(count, pick);
        let ghost er_v = er;
        assert(self.engine().batch_result(&old(self).engine(), count, pick, er_v));
        let ids = match er {
            Ok(ids) => ids,
            Err(e) => {
                assert(positions_result(er_v, Err::<Vec<(u32, u32)>, DrawError>(e), old(self).cols()));
                return Err(e);
            },
        };
        let mut r: Vec<(u32, u32)> = Vec::new();
        let mut i: usize = 0;
        while i < ids.len()
            invariant
                0 <= i <= ids@.len(),
                self.cols() > 0,
                self.cols() == old(self).cols(),
                r@.len() == i,
                forall|k: int|
                    #![trigger r@[k]]
                    0 <= k < i ==> r@[k] == position_u32(ids@[k], self.cols()),
                forall|k: int|
                    0 <= k < ids@.len() ==> !old(self).engine().black().contains(#[trigger] ids@[k]),
                ids@.len() == count,
            decreases ids@.len() - i,
        {
            let p = to_position(ids[i], self.cols);
            r.push(p);
            i = i + 1;
        }
        let ghost c = old(self).cols();
        let ghost bl = old(self).engine().black();
        assert forall|k: int| 0 <= k < r@.len() implies drawn_position(#[trigger] r@[k], bl, c) by {
            let id = ids@[k];
            assert(r@[k] == position_u32(id, c) && !bl.contains(id));
        }
        assert(drawn_positions(r@, old(self).engine().black(), old(self).cols()));
        assert(r@ =~= positions_of(ids@, c));
        let out = Ok(r);
        assert(positions_result(er_v, out, c));
        out
    }

    /// The draw count of every position, row by row; 0 for blacklisted ones.
    pub fn get_position_draw_counts_dict(&self) -> (r: Vec<((u32, u32), u32)>)
        requires
            self.wf(),
        ensures
            r@.len() == self.rows() * self.cols(),
            forall|i: int|
                #![trigger r@[i]]
                0 <= i < r@.len() ==> r@[i].0 == position_u32(i as u32, self.cols())
                    && r@[i].1 == if self.engine().black().contains(i as u32) {
                    0
                } else {
                    self.engine().count_of(i as u32)
                },
    {
        let n: u64 = self.rows as u64 * self.cols as u64;
        let mut r: Vec<((u32, u32), u32)> = Vec::new();
        let mut i: u64 = 0;
        while i < n
            invariant
                self.wf(),
                n == self.rows() * self.cols(),
                0 <= i <= n,
                r@.len() == i,
                forall|k: int|
                    #![trigger r@[k]]
                    0 <= k < i ==> r@[k].0 == position_u32(k as u32, self.cols())
                        && r@[k].1 == if self.engine().black().contains(k as u32) {
                        0
                    } else {
                        self.engine().count_of(k as u32)
                    },
            decreases n - i,
        {
            let id = i as u32;
            proof {
                lemma_row_in_grid(i as int, self.rows(), self.cols());
            }
            let p = to_position(id, self.cols);
            let c = if self.balanced_rand.is_in_blacklist(id) { 0 } else { self.balanced_rand.draw_count(id) };
            r.push((p, c));
            i = i + 1;
        }
        r
    }

    /// The draw count and last draw round of every position, row by row;
    /// 0 and -1 for blacklisted ones.
    pub fn get_position_history(&self) -> (r: Vec<((u32, u32), u32, i32)>)
        requires
            self.wf(),
        ensures
            r@.len() == self.rows() * self.cols(),
            forall|i: int|
                #![trigger r@[i]]
                0 <= i < r@.len() ==> r@[i].0 == position_u32(i as u32, self.cols())
                    && r@[i].1 == (if self.engine().black().contains(i as u32) {
                    0
                } else {
                    self.engine().count_of(i as u32)
                }) && r@[i].2 == (if self.engine().black().contains(i as u32) {
                    -1
                } else {
                    self.engine().last_round_of(i as u32)
                }),
    {
        let n: u64 = self.rows as u64 * self.cols as u64;
        let mut r: Vec<((u32, u32), u32, i32)> = Vec::new();
        let mut i: u64 = 0;
        while i < n
            invariant
                self.wf(),
                n == self.rows() * self.cols(),
                0 <= i <= n,
                r@.len() == i,
                forall|k: int|
                    #![trigger r@[k]]
                    0 <= k < i ==> r@[k].0 == position_u32(k as u32, self.cols())
                        && r@[k].1 == (if self.engine().black().contains(k as u32) {
                        0
                    } else {
                        self.engine().count_of(k as u32)
                    }) && r@[k].2 == (if self.engine().black().contains(k as u32) {
                        -1
                    } else {
                        self.engine().last_round_of(k as u32)
                    }),
            decreases n - i,
        {
            let id = i as u32;
            proof {
                lemma_row_in_grid(i as int, self.rows(), self.cols());
            }
            let p = to_position(id, self.cols);
            let black = self.balanced_rand.is_in_blacklist(id);
            let c = if black { 0 } else { self.balanced_rand.draw_count(id) };
            let lr = if black { -1 } else { self.balanced_rand.last_draw_round(id) };
            r.push((p, c, lr));
            i = i + 1;
        }
        r
    }

    /// The spread of draw counts over the active ids.
    pub fn get_max_draw_count_gap(&self) -> (r: u32)
        requires
            self.wf(),
        ensures
            r == self.engine().max_count(self.engine().active()) - self.engine().min_count(self.engine().active()),
    {
        self.balanced_rand.get_max_draw_count_gap()
    }

    /// Replaces the blacklist by the grid positions of `positions`.
    pub fn set_blacklist_positions(&mut self, positions: &[(u32, u32)])
        requires
            old(self).wf(),
        ensures
            final(self).wf(),
            final(self).rows() == old(self).rows(),
            final(self).cols() == old(self).cols(),
            forall|x: u32|
                final(self).engine().black().contains(x) <==> exists|i: int|
                    0 <= i < positions@.len() && in_grid(positions@[i], old(self).rows(), old(self).cols())
                        && linear_of(positions@[i].0 as int, positions@[i].1 as int, old(self).cols()) == x,
    {
        let ids = linear_ids(positions, self.rows, self.cols, true);
        self.balanced_rand.set_blacklist(ids.as_slice());
        proof {
            old(self).lemma_grid_ids(positions);
            assert forall|x: u32|
                self.engine().black().contains(x) <==> exists|i: int|
                    0 <= i < positions@.len() && in_grid(positions@[i], old(self).rows(), old(self).cols())
                        && linear_of(positions@[i].0 as int, positions@[i].1 as int, old(self).cols()) == x by {
                assert(ids@.contains(x) <==> exists|i: int|
                    0 <= i < positions@.len() && addressable(positions@[i], old(self).cols()) && in_grid(
                        positions@[i], old(self).rows(), old(self).cols())
                        && linear_of(positions@[i].0 as int, positions@[i].1 as int, old(self).cols()) == x);
                old(self).lemma_grid_addressable(positions);
            }
        }
    }

    /// Adds the grid positions of `positions` to the blacklist.
    pub fn add_to_blacklist_positions(&mut self, positions: &[(u32, u32)])
        requires
            old(self).wf(),
        ensures
            final(self).wf(),
            final(self).rows() == old(self).rows(),
            final(self).cols() == old(self).cols(),
            forall|x: u32|
                final(self).engine().black().contains(x) <==> (old(self).engine().black().contains(x) || exists|i: int|
                    0 <= i < positions@.len() && in_grid(positions@[i], old(self).rows(), old(self).cols())
                        && linear_of(positions@[i].0 as int, positions@[i].1 as int, old(self).cols()) == x),
    {
        let ids = linear_ids(positions, self.rows, self.cols, true);
        self.balanced_rand.add_to_blacklist(ids.as_slice());
        proof {
            old(self).lemma_grid_ids(positions);
            assert forall|x: u32|
                self.engine().black().contains(x) <==> (old(self).engine().black().contains(x) || exists|i: int|
                    0 <= i < positions@.len() && in_grid(positions@[i], old(self).rows(), old(self).cols())
                        && linear_of(positions@[i].0 as int, positions@[i].1 as int, old(self).cols()) == x) by {
                assert(ids@.contains(x) <==> exists|i: int|
                    0 <= i < positions@.len() && addressable(positions@[i], old(self).cols()) && in_grid(
                        positions@[i], old(self).rows(), old(self).cols())
                        && linear_of(positions@[i].0 as int, positions@[i].1 as int, old(self).cols()) == x);
                old(self).lemma_grid_addressable(positions);
            }
        }
    }

    /// Removes the grid positions of `positions` from the blacklist.
    pub fn remove_from_blacklist_positions(&mut self, positions: &[(u32, u32)])
        requires
            old(self).wf(),
        ensures
            final(self).wf(),
            final(self).rows() == old(self).rows(),
            final(self).cols() == old(self).cols(),
            forall|x: u32|
                final(self).engine().black().contains(x) <==> (old(self).engine().black().contains(x) && !exists|i: int|
                    0 <= i < positions@.len() && in_grid(positions@[i], old(self).rows(), old(self).cols())
                        && linear_of(positions@[i].0 as int, positions@[i].1 as int, old(self).cols()) == x),
    {
        let ids = linear_ids(positions, self.rows, self.cols, true);
        self.balanced_rand.remove_from_blacklist(ids.as_slice());
        proof {
            assert forall|x: u32|
                self.engine().black().contains(x) <==> (old(self).engine().black().contains(x) && !exists|i: int|
                    0 <= i < positions@.len() && in_grid(positions@[i], old(self).rows(), old(self).cols())
                        && linear_of(positions@[i].0 as int, positions@[i].1 as int, old(self).cols()) == x) by {
                assert(ids@.contains(x) <==> exists|i: int|
                    0 <= i < positions@.len() && addressable(positions@[i], old(self).cols()) && in_grid(
                        positions@[i], old(self).rows(), old(self).cols())
                        && linear_of(positions@[i].0 as int, positions@[i].1 as int, old(self).cols()) == x);
                old(self).lemma_grid_addressable(positions);
            }
        }
    }

    /// Whether the grid position `(row, col)` is blacklisted.
    pub fn is_position_in_blacklist(&self, row: u32, col: u32) -> (r: bool)
        requires
            self.wf(),
        ensures
            r == (in_grid((row, col), self.rows(), self.cols()) && self.engine().black().contains(
                linear_of(row as int, col as int, self.cols()) as u32,
            )),
    {
        if row < 1 || row > self.rows || col < 1 || col > self.cols {
            return false;
        }
        match linear_id(row, col, self.cols) {
            Some(id) => self.balanced_rand.is_in_blacklist(id),
            None => {
                proof {
                    self.lemma_in_grid_addressable((row, col));
                }
                false
            },
        }
    }

    /// Replaces the whitelist by the linear ids of `positions` (positions
    /// outside the grid extend the universe).
    pub fn set_whitelist_positions(&mut self, positions: &[(u32, u32)])
        requires
            old(self).wf(),
        ensures
            final(self).wf(),
            final(self).rows() == old(self).rows(),
            final(self).cols() == old(self).cols(),
            forall|x: u32|
                final(self).engine().white().contains(x) <==> exists|i: int|
                    0 <= i < positions@.len() && addressable(positions@[i], old(self).cols())
                        && linear_of(positions@[i].0 as int, positions@[i].1 as int, old(self).cols()) == x,
    {
        let ids = linear_ids(positions, self.rows, self.cols, false);
        self.balanced_rand.set_whitelist(ids.as_slice());
        proof {
            assert forall|x: u32| self.engine().white().contains(x) <==> exists|i: int|
                    0 <= i < positions@.len() && addressable(positions@[i], old(self).cols())
                        && linear_of(positions@[i].0 as int, positions@[i].1 as int, old(self).cols()) == x by {
                assert(ids@.contains(x) <==> exists|i: int|
                    0 <= i < positions@.len() && addressable(positions@[i], old(self).cols())
                        && linear_of(positions@[i].0 as int, positions@[i].1 as int, old(self).cols()) == x);
            }
        }
    }

    /// Adds the linear ids of `positions` to the whitelist.
    pub fn add_to_whitelist_positions(&mut self, positions: &[(u32, u32)])
        requires
            old(self).wf(),
        ensures
            final(self).wf(),
            final(self).rows() == old(self).rows(),
            final(self).cols() == old(self).cols(),
            forall|x: u32|
                final(self).engine().white().contains(x) <==> (old(self).engine().white().contains(x) || exists|i: int|
                    0 <= i < positions@.len() && addressable(positions@[i], old(self).cols())
                        && linear_of(positions@[i].0 as int, positions@[i].1 as int, old(self).cols()) == x),
    {
        let ids = linear_ids(positions, self.rows, self.cols, false);
        self.balanced_rand.add_to_whitelist(ids.as_slice());
        proof {
            assert forall|x: u32| self.engine().white().contains(x) <==> (old(self).engine().white().contains(x) || exists|i: int|
                    0 <= i < positions@.len() && addressable(positions@[i], old(self).cols())
                        && linear_of(positions@[i].0 as int, positions@[i].1 as int, old(self).cols()) == x) by {
                assert(ids@.contains(x) <==> exists|i: int|
                    0 <= i < positions@.len() && addressable(positions@[i], old(self).cols())
                        && linear_of(positions@[i].0 as int, positions@[i].1 as int, old(self).cols()) == x);
            }
        }
    }

    /// Removes the linear ids of `positions` from the whitelist.
    pub fn remove_from_whitelist_positions(&mut self, positions: &[(u32, u32)])
        requires
            old(self).wf(),
        ensures
            final(self).wf(),
            final(self).rows() == old(self).rows(),
            final(self).cols() == old(self).cols(),
            forall|x: u32|
                final(self).engine().white().contains(x) <==> (old(self).engine().white().contains(x) && !exists|i: int|
                    0 <= i < positions@.len() && addressable(positions@[i], old(self).cols())
                        && linear_of(positions@[i].0 as int, positions@[i].1 as int, old(self).cols()) == x),
    {
        let ids = linear_ids(positions, self.rows, self.cols, false);
        self.balanced_rand.remove_from_whitelist(ids.as_slice());
        proof {
            assert forall|x: u32| self.engine().white().contains(x) <==> (old(self).engine().white().contains(x) && !exists|i: int|
                    0 <= i < positions@.len() && addressable(positions@[i], old(self).cols())
                        && linear_of(positions@[i].0 as int, positions@[i].1 as int, old(self).cols()) == x) by {
                assert(ids@.contains(x) <==> exists|i: int|
                    0 <= i < positions@.len() && addressable(positions@[i], old(self).cols())
                        && linear_of(positions@[i].0 as int, positions@[i].1 as int, old(self).cols()) == x);
            }
        }
    }

    /// Whether the linear id of `(row, col)` is whitelisted.
    pub fn is_position_in_whitelist(&self, row: u32, col: u32) -> (r: bool)
        requires
            self.wf(),
        ensures
            r == (addressable((row, col), self.cols()) && self.engine().white().contains(
                linear_of(row as int, col as int, self.cols()) as u32,
            )),
    {
        match linear_id(row, col, self.cols) {
            Some(id) => self.balanced_rand.is_in_whitelist(id),
            None => false,
        }
    }

    /// Restricts the candidate pool to the whitelist, or lifts that restriction.
    pub fn set_whitelist_only_mode(&mut self, whitelist_only: bool)
        requires
            old(self).wf(),
        ensures
            final(self).wf(),
            final(self).rows() == old(self).rows(),
            final(self).cols() == old(self).cols(),
            final(self).engine().white_only() == whitelist_only,
    {
        self.balanced_rand.set_whitelist_only_mode(whitelist_only);
    }

    /// Whether the candidate pool is restricted to the whitelist.
    pub fn get_whitelist_only_mode(&self) -> (r: bool)
        ensures
            r == self.engine().white_only(),
    {
        self.balanced_rand.get_whitelist_only_mode()
    }

    /// The grid engine's state as a snapshot.
    pub fn to_snapshot(&self) -> (r: Snapshot)
        ensures
            self.engine().stored_in(&r),
            r.data_type == DataKind::Plane,
            r.rows == self.rows(),
            r.cols == self.cols(),
    {
        self.balanced_rand.to_snapshot(DataKind::Plane, self.rows, self.cols)
    }

    /// Takes over a stored snapshot, as `BalancedRand::apply_snapshot` does.
    pub fn apply_snapshot(&mut self, snap: &Snapshot)
        requires
            old(self).wf(),
        ensures
            final(self).wf(),
            final(self).rows() == old(self).rows(),
            final(self).cols() == old(self).cols(),
            final(self).engine().applied_from(&old(self).engine(), snap),
    {
        self.balanced_rand.apply_snapshot(snap);
    }

    /// A grid position has a linear id.
    proof fn lemma_in_grid_addressable(&self, p: (u32, u32))
        requires
            self.wf(),
            in_grid(p, self.rows(), self.cols()),
        ensures
            addressable(p, self.cols()),
            linear_of(p.0 as int, p.1 as int, self.cols()) < self.rows() * self.cols(),
    {
        let r = self.rows();
        let c = self.cols();
        assert((p.0 - 1) * c + (p.1 - 1) < r * c) by (nonlinear_arith)
            requires
                1 <= p.0 <= r,
                1 <= p.1 <= c,
        ;
        assert((p.0 - 1) * c + (p.1 - 1) >= 0) by (nonlinear_arith)
            requires
                1 <= p.0,
                1 <= p.1,
                c > 0,
        ;
    }

    /// Grid positions are addressable.
    proof fn lemma_grid_addressable(&self, positions: &[(u32, u32)])
        requires
            self.wf(),
        ensures
            forall|i: int|
                0 <= i < positions@.len() && in_grid(positions@[i], self.rows(), self.cols()) ==> addressable(
                    #[trigger] positions@[i],
                    self.cols(),
                ),
    {
        assert forall|i: int|
            0 <= i < positions@.len() && in_grid(positions@[i], self.rows(), self.cols()) implies addressable(
                #[trigger] positions@[i],
                self.cols(),
            ) by {
            self.lemma_in_grid_addressable(positions@[i]);
        }
    }

    /// The linear ids of grid positions lie in the universe.
    proof fn lemma_grid_ids(&self, positions: &[(u32, u32)])
        requires
            self.wf(),
        ensures
            forall|x: u32|
                (exists|i: int|
                    0 <= i < positions@.len() && in_grid(positions@[i], self.rows(), self.cols())
                        && linear_of(positions@[i].0 as int, positions@[i].1 as int, self.cols()) == x)
                    ==> self.engine().universe().contains(x),
    {
        assert forall|x: u32|
            (exists|i: int|
                0 <= i < positions@.len() && in_grid(positions@[i], self.rows(), self.cols())
                    && linear_of(positions@[i].0 as int, positions@[i].1 as int, self.cols()) == x)
                implies self.engine().universe().contains(x) by {
            let i = choose|i: int|
                0 <= i < positions@.len() && in_grid(positions@[i], self.rows(), self.cols())
                    && linear_of(positions@[i].0 as int, positions@[i].1 as int, self.cols()) == x;
            self.lemma_in_grid_addressable(positions@[i]);
            assert(self.engine().universe()[x as int] == x);
        }
    }
}

} // verus!
