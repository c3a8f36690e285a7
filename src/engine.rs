//! The draw engine: per-id history, candidate pool maintenance, blacklist and
//! whitelist, and the integer inputs of each candidate's weight.

use vstd::prelude::*;
use crate::DrawError;
use crate::store::{DataKind, Snapshot};
use crate::ident::{list_universe, range_universe, strictly_sorted};
use crate::seqs::{
    keep, lemma_concat_contains, lemma_keep_contains, lemma_keep_no_dups, lemma_keep_step,
    lemma_push_contains,
};
use vstd::slice::slice_to_vec;

verus! {

/// The draw history of one id.
#[derive(Debug, Clone, Copy, PartialEq, Eq, Structural)]
pub struct Record {
    pub id: u32,
    pub count: u32,
    /// The round of the id's last draw, or -1 if it was never drawn.
    pub last_round: i32,
}

/// What the weight of one candidate depends on.
#[derive(Debug, Clone, Copy, PartialEq, Eq, Structural)]
pub struct WeightInput {
    pub id: u32,
    pub draw_count: u32,
    /// The id was never drawn (cold start).
    pub never_drawn: bool,
    /// Rounds since the id's last draw where that exceeds half the number of
    /// active ids (the staleness boost applies), 0 otherwise.
    pub stale_gap: u32,
    /// The id is whitelisted but outside the universe.
    pub extension: bool,
}

/// The fairness-balanced draw engine over a fixed universe of ids.
pub struct BalancedRand {
    all_numbers: Vec<u32>,
    records: Vec<Record>,
    candidate_pool: Vec<u32>,
    current_round: u32,
    total_draws: u32,
    min_pool_size: u32,
    max_gap_threshold: u32,
    blacklist: Vec<u32>,
    whitelist: Vec<u32>,
    whitelist_only_mode: bool,
}

/// Ids that do not occur in `t`.
pub open spec fn not_in(t: Seq<u32>) -> spec_fn(u32) -> bool {
    |x: u32| !t.contains(x)
}

/// The rank used to backfill the pool from a draw count and a last round:
/// fewer draws first, then earlier last draws, never-drawn ids last.
pub open spec fn rank_of(count: int, last_round: int) -> int {
    count * 0x1_0000_0000 + if last_round < 0 { 0xffff_ffff } else { last_round }
}

/// `recs` holds a record of `id`.
pub open spec fn known_in(recs: Seq<Record>, id: u32) -> bool {
    exists|i: int| 0 <= i < recs.len() && (#[trigger] recs[i]).id == id
}

pub open spec fn index_in(recs: Seq<Record>, id: u32) -> int {
    choose|i: int| 0 <= i < recs.len() && (#[trigger] recs[i]).id == id
}

/// The draw count that `recs` gives `id` (0 without a record).
pub open spec fn count_in(recs: Seq<Record>, id: u32) -> int {
    if known_in(recs, id) {
        recs[index_in(recs, id)].count as int
    } else {
        0
    }
}

/// The last draw round that `recs` gives `id` (-1 without a record).
pub open spec fn last_round_in(recs: Seq<Record>, id: u32) -> int {
    if known_in(recs, id) {
        recs[index_in(recs, id)].last_round as int
    } else {
        -1
    }
}

/// The total draw count over `s`.
pub open spec fn sum_in(recs: Seq<Record>, s: Seq<u32>) -> int
    decreases s.len(),
{
    if s.len() == 0 {
        0
    } else {
        sum_in(recs, s.drop_last()) + count_in(recs, s.last())
    }
}

/// The largest draw count over `s`.
pub open spec fn max_in(recs: Seq<Record>, s: Seq<u32>) -> int
    decreases s.len(),
{
    if s.len() == 0 {
        0
    } else if s.len() == 1 {
        count_in(recs, s[0])
    } else {
        let m = max_in(recs, s.drop_last());
        if count_in(recs, s.last()) > m { count_in(recs, s.last()) } else { m }
    }
}

/// The smallest draw count over `s`.
pub open spec fn min_in(recs: Seq<Record>, s: Seq<u32>) -> int
    decreases s.len(),
{
    if s.len() == 0 {
        0
    } else if s.len() == 1 {
        count_in(recs, s[0])
    } else {
        let m = min_in(recs, s.drop_last());
        if count_in(recs, s.last()) < m { count_in(recs, s.last()) } else { m }
    }
}

/// No two records share an id.
pub open spec fn unique_ids(recs: Seq<Record>) -> bool {
    forall|i: int, j: int|
        0 <= i < recs.len() && 0 <= j < recs.len() && (#[trigger] recs[i]).id == (#[trigger] recs[j]).id ==> i == j
}

/// The universe, then the whitelist ids outside it.
pub open spec fn active_of(universe: Seq<u32>, white: Seq<u32>) -> Seq<u32> {
    universe + keep(white, not_in(universe))
}

/// Well-formedness of an engine's state but its candidate pool.
pub open spec fn state_ok(
    universe: Seq<u32>,
    recs: Seq<Record>,
    black: Seq<u32>,
    white: Seq<u32>,
    min_pool: int,
) -> bool {
    &&& universe.len() > 0
    &&& strictly_sorted(universe)
    &&& unique_ids(recs)
    &&& forall|x: u32| active_of(universe, white).contains(x) ==> known_in(recs, x)
    &&& black.no_duplicates()
    &&& forall|x: u32| black.contains(x) ==> universe.contains(x)
    &&& white.no_duplicates()
    &&& min_pool > 0
}

/// Ids drawn at most `bound` times.
pub open spec fn le_in(recs: Seq<Record>, bound: int) -> spec_fn(u32) -> bool {
    |x: u32| count_in(recs, x) <= bound
}

/// Ids whose draw count is neither `hi` nor `lo`.
pub open spec fn mid_in(recs: Seq<Record>, hi: int, lo: int) -> spec_fn(u32) -> bool {
    |x: u32| count_in(recs, x) != hi && count_in(recs, x) != lo
}

/// Ids neither blacklisted nor in `f`.
pub open spec fn avail_in(black: Seq<u32>, f: Seq<u32>) -> spec_fn(u32) -> bool {
    |x: u32| !black.contains(x) && !f.contains(x)
}

impl BalancedRand {
    /// The universe, sorted and without duplicates.
    pub closed spec fn universe(&self) -> Seq<u32> {
        self.all_numbers@
    }

    pub closed spec fn recs(&self) -> Seq<Record> {
        self.records@
    }

    /// The current candidate pool.
    pub closed spec fn pool(&self) -> Seq<u32> {
        self.candidate_pool@
    }

    pub closed spec fn round(&self) -> int {
        self.current_round as int
    }

    pub closed spec fn total(&self) -> int {
        self.total_draws as int
    }

    pub closed spec fn min_pool(&self) -> int {
        self.min_pool_size as int
    }

    pub closed spec fn max_gap(&self) -> int {
        self.max_gap_threshold as int
    }

    pub closed spec fn black(&self) -> Seq<u32> {
        self.blacklist@
    }

    pub closed spec fn white(&self) -> Seq<u32> {
        self.whitelist@
    }

    pub closed spec fn white_only(&self) -> bool {
        self.whitelist_only_mode
    }

    /// The id has a history record.
    pub open spec fn known(&self, id: u32) -> bool {
        known_in(self.recs(), id)
    }

    pub open spec fn rec_index(&self, id: u32) -> int {
        index_in(self.recs(), id)
    }

    /// How often the id was drawn (0 for an id without history).
    pub open spec fn count_of(&self, id: u32) -> int {
        count_in(self.recs(), id)
    }

    /// The round of the id's last draw (-1 for never drawn).
    pub open spec fn last_round_of(&self, id: u32) -> int {
        last_round_in(self.recs(), id)
    }

    pub open spec fn rank(&self, id: u32) -> int {
        rank_of(self.count_of(id), self.last_round_of(id))
    }

    /// The active ids: the universe, then the whitelist ids outside it.
    pub open spec fn active(&self) -> Seq<u32> {
        active_of(self.universe(), self.white())
    }

    pub open spec fn sum_counts(&self, s: Seq<u32>) -> int {
        sum_in(self.recs(), s)
    }

    /// The mean draw count over `s`, rounded up.
    pub open spec fn ceil_mean(&self, s: Seq<u32>) -> int {
        if s.len() == 0 {
            0
        } else {
            (self.sum_counts(s) + s.len() - 1) / (s.len() as int)
        }
    }

    pub open spec fn max_count(&self, s: Seq<u32>) -> int {
        max_in(self.recs(), s)
    }

    pub open spec fn min_count(&self, s: Seq<u32>) -> int {
        min_in(self.recs(), s)
    }

    pub open spec fn le_pred(&self, bound: int) -> spec_fn(u32) -> bool {
        le_in(self.recs(), bound)
    }

    pub open spec fn mid_pred(&self, hi: int, lo: int) -> spec_fn(u32) -> bool {
        mid_in(self.recs(), hi, lo)
    }

    /// The universe ids at or below the rounded-up mean of the active ids.
    pub open spec fn average_filtered(&self) -> Seq<u32> {
        keep(self.universe(), self.le_pred(self.ceil_mean(self.active())))
    }

    /// The average filter, followed by outlier exclusion when the spread of
    /// active draw counts exceeds the gap threshold.
    pub open spec fn gap_filtered(&self) -> Seq<u32> {
        let a = self.active();
        let c1 = self.average_filtered();
        if self.max_count(a) - self.min_count(a) > self.max_gap() {
            let r = keep(c1, self.mid_pred(self.max_count(a), self.min_count(a)));
            if r.len() > 0 {
                keep(r, self.le_pred(self.ceil_mean(r)))
            } else {
                r
            }
        } else {
            c1
        }
    }

    /// The raw candidates before the blacklist applies.
    pub open spec fn raw_candidates(&self) -> Seq<u32> {
        if self.white_only() {
            self.white()
        } else {
            let c = self.gap_filtered();
            c + keep(self.white(), not_in(c))
        }
    }

    /// The raw candidates without blacklisted ids.
    pub open spec fn unblocked(&self) -> Seq<u32> {
        keep(self.raw_candidates(), not_in(self.black()))
    }

    pub open spec fn avail_pred(&self, f: Seq<u32>) -> spec_fn(u32) -> bool {
        avail_in(self.black(), f)
    }

    /// Active ids that may backfill a pool that starts with `f`.
    pub open spec fn available(&self, f: Seq<u32>) -> Seq<u32> {
        keep(self.active(), self.avail_pred(f))
    }

    /// `t` takes, one after the other, an available id of least rank among
    /// those not yet taken, until `needed` are taken or none is left.
    pub open spec fn backfill_ok(&self, f: Seq<u32>, t: Seq<u32>, needed: int) -> bool {
        let a = self.available(f);
        &&& t.len() <= needed
        &&& (t.len() == needed || forall|y: u32| a.contains(y) ==> t.contains(y))
        &&& t.no_duplicates()
        &&& forall|j: int| 0 <= j < t.len() ==> a.contains(#[trigger] t[j])
        &&& forall|j: int, y: u32|
            #![trigger t[j], a.contains(y)]
            0 <= j < t.len() && a.contains(y) && !t.subrange(0, j).contains(y) ==> self.rank(t[j])
                <= self.rank(y)
    }

    /// `p` is the candidate pool that the current state calls for.
    pub open spec fn pool_ok(&self, p: Seq<u32>) -> bool {
        let f = self.unblocked();
        &&& p.len() >= f.len()
        &&& p.subrange(0, f.len() as int) == f
        &&& if f.len() >= self.min_pool() {
            p.len() == f.len()
        } else {
            self.backfill_ok(f, p.subrange(f.len() as int, p.len() as int), self.min_pool() - f.len())
        }
    }

    /// Well-formedness of everything but the candidate pool.
    pub open spec fn wf_state(&self) -> bool {
        state_ok(self.universe(), self.recs(), self.black(), self.white(), self.min_pool())
    }

    /// The engine's invariant.
    pub open spec fn wf(&self) -> bool {
        self.wf_state() && self.pool_ok(self.pool())
    }

    /// The id of the record that `find` returns.
    fn find(&self, id: u32) -> (r: Option<usize>)
        requires
            self.wf_state(),
        ensures
            r matches Some(i) ==> i < self.recs().len() && self.recs()[i as int].id == id
                && self.rec_index(id) == i,
            r is None ==> !self.known(id),
    {
        let mut i: usize = 0;
        while i < self.records.len()
            invariant
                0 <= i <= self.records@.len(),
                self.recs() == self.records@,
                self.wf_state(),
                forall|j: int| 0 <= j < i ==> (#[trigger] self.records@[j]).id != id,
            decreases self.records@.len() - i,
        {
            if self.records[i].id == id {
                assert(self.recs()[i as int].id == id);
                assert(self.known(id));
                let ghost k = self.rec_index(id);
                assert(self.recs()[k].id == id);
                return Some(i);
            }
            i = i + 1;
        }
        None
    }

    /// How often `id` was drawn.
    pub fn draw_count(&self, id: u32) -> (r: u32)
        requires
            self.wf_state(),
        ensures
            r == self.count_of(id),
    {
        match self.find(id) {
            Some(i) => self.records[i].count,
            None => 0,
        }
    }

    /// The round of the last draw of `id`, or -1 if it was never drawn.
    pub fn last_draw_round(&self, id: u32) -> (r: i32)
        requires
            self.wf_state(),
        ensures
            r == self.last_round_of(id),
    {
        match self.find(id) {
            Some(i) => self.records[i].last_round,
            None => -1,
        }
    }
}

impl BalancedRand {
    /// The active ids: the universe, then the whitelist ids outside it.
    pub fn active_ids(&self) -> (r: Vec<u32>)
        ensures
            r@ == self.active(),
    {
        let mut r = self.all_numbers.clone();
        let mut extra = filter_not_in(&self.whitelist, &self.all_numbers);
        assert(r@ == self.all_numbers@);
        r.append(&mut extra);
        r
    }

    /// The total draw count over `s`.
    fn sum_of(&self, s: &Vec<u32>) -> (r: u128)
        requires
            self.wf_state(),
        ensures
            r == self.sum_counts(s@),
            r <= s@.len() * 0xffff_ffffu128,
    {
        let mut sum: u128 = 0;
        let mut i: usize = 0;
        while i < s.len()
            invariant
                0 <= i <= s@.len(),
                self.wf_state(),
                sum == self.sum_counts(s@.subrange(0, i as int)),
                sum <= i * 0xffff_ffffu128,
            decreases s@.len() - i,
        {
            assert(s@.subrange(0, i + 1).drop_last() =~= s@.subrange(0, i as int));
            let c = self.draw_count(s[i]);
            assert(sum + c <= (i + 1) * 0xffff_ffffu128) by (nonlinear_arith)
                requires
                    sum <= i * 0xffff_ffffu128,
                    c <= 0xffff_ffffu32,
            ;
            sum = sum + c as u128;
            i = i + 1;
        }
        assert(s@.subrange(0, s@.len() as int) =~= s@);
        sum
    }

    /// The mean draw count over `s`, rounded up.
    fn ceil_mean_of(&self, s: &Vec<u32>) -> (r: u128)
        requires
            self.wf_state(),
        ensures
            r == self.ceil_mean(s@),
    {
        if s.len() == 0 {
            0
        } else {
            let n = s.len() as u128;
            let total = self.sum_of(s);
            assert(total + n <= 0xffff_ffff_ffff_ffffu128 * 0x1_0000_0000u128) by (nonlinear_arith)
                requires
                    total <= n * 0xffff_ffffu128,
                    n <= 0xffff_ffff_ffff_ffffu128,
            ;
            (total + n - 1) / n
        }
    }

    /// The ids of `s` drawn at most `bound` times.
    fn filter_le(&self, s: &Vec<u32>, bound: u128) -> (r: Vec<u32>)
        requires
            self.wf_state(),
        ensures
            r@ == keep(s@, self.le_pred(bound as int)),
    {
        let mut r: Vec<u32> = Vec::new();
        let mut i: usize = 0;
        while i < s.len()
            invariant
                0 <= i <= s@.len(),
                self.wf_state(),
                r@ == keep(s@.subrange(0, i as int), self.le_pred(bound as int)),
            decreases s@.len() - i,
        {
            proof {
                lemma_keep_step(s@, self.le_pred(bound as int), i as int);
            }
            if self.draw_count(s[i]) as u128 <= bound {
                r.push(s[i]);
            }
            i = i + 1;
        }
        assert(s@.subrange(0, s@.len() as int) =~= s@);
        r
    }

    /// The ids of `s` whose draw count is neither `hi` nor `lo`.
    fn filter_mid(&self, s: &Vec<u32>, hi: u32, lo: u32) -> (r: Vec<u32>)
        requires
            self.wf_state(),
        ensures
            r@ == keep(s@, self.mid_pred(hi as int, lo as int)),
    {
        let mut r: Vec<u32> = Vec::new();
        let mut i: usize = 0;
        while i < s.len()
            invariant
                0 <= i <= s@.len(),
                self.wf_state(),
                r@ == keep(s@.subrange(0, i as int), self.mid_pred(hi as int, lo as int)),
            decreases s@.len() - i,
        {
            proof {
                lemma_keep_step(s@, self.mid_pred(hi as int, lo as int), i as int);
            }
            let c = self.draw_count(s[i]);
            if c != hi && c != lo {
                r.push(s[i]);
            }
            i = i + 1;
        }
        assert(s@.subrange(0, s@.len() as int) =~= s@);
        r
    }

    /// The largest and the smallest draw count over `s`.
    fn extremes(&self, s: &Vec<u32>) -> (r: (u32, u32))
        requires
            self.wf_state(),
            s@.len() > 0,
        ensures
            r.0 == self.max_count(s@),
            r.1 == self.min_count(s@),
    {
        let mut hi = self.draw_count(s[0]);
        let mut lo = hi;
        let mut i: usize = 1;
        assert(s@.subrange(0, 1).len() == 1);
        while i < s.len()
            invariant
                1 <= i <= s@.len(),
                self.wf_state(),
                hi == self.max_count(s@.subrange(0, i as int)),
                lo == self.min_count(s@.subrange(0, i as int)),
            decreases s@.len() - i,
        {
            assert(s@.subrange(0, i + 1).drop_last() =~= s@.subrange(0, i as int));
            let c = self.draw_count(s[i]);
            if c > hi {
                hi = c;
            }
            if c < lo {
                lo = c;
            }
            i = i + 1;
        }
        assert(s@.subrange(0, s@.len() as int) =~= s@);
        (hi, lo)
    }
}

impl BalancedRand {
    /// The backfill rank of `id`.
    fn rank_key(&self, id: u32) -> (r: u64)
        requires
            self.wf_state(),
        ensures
            r == self.rank(id),
    {
        let c = self.draw_count(id) as u64;
        let lr = self.last_draw_round(id);
        let adj: u64 = if lr < 0 { 0xffff_ffff } else { lr as u64 };
        c * 0x1_0000_0000 + adj
    }

    /// The ids of `s` that are neither blacklisted nor in `f`.
    fn filter_avail(&self, s: &Vec<u32>, f: &Vec<u32>) -> (r: Vec<u32>)
        ensures
            r@ == keep(s@, self.avail_pred(f@)),
    {
        let mut r: Vec<u32> = Vec::new();
        let mut i: usize = 0;
        while i < s.len()
            invariant
                0 <= i <= s@.len(),
                r@ == keep(s@.subrange(0, i as int), self.avail_pred(f@)),
            decreases s@.len() - i,
        {
            proof {
                lemma_keep_step(s@, self.avail_pred(f@), i as int);
            }
            if !vec_contains(&self.blacklist, s[i]) && !vec_contains(f, s[i]) {
                r.push(s[i]);
            }
            i = i + 1;
        }
        assert(s@.subrange(0, s@.len() as int) =~= s@);
        r
    }

    /// Up to `needed` available ids, least rank first.
    fn backfill(&self, f: &Vec<u32>, needed: usize) -> (r: Vec<u32>)
        requires
            self.wf_state(),
        ensures
            self.backfill_ok(f@, r@, needed as int),
    {
        let active = self.active_ids();
        let avail = self.filter_avail(&active, f);
        let ghost a = avail@;
        assert(a == self.available(f@));
        let mut t: Vec<u32> = Vec::new();
        loop
            invariant
                self.wf_state(),
                avail@ == a,
                a == self.available(f@),
                t@.len() <= needed,
                t@.no_duplicates(),
                forall|j: int| 0 <= j < t@.len() ==> a.contains(#[trigger] t@[j]),
                forall|j: int, y: u32|
                    #![trigger t@[j], a.contains(y)]
                    0 <= j < t@.len() && a.contains(y) && !t@.subrange(0, j).contains(y)
                        ==> self.rank(t@[j]) <= self.rank(y),
            ensures
                self.backfill_ok(f@, t@, needed as int),
            decreases needed - t@.len(),
        {
            if t.len() >= needed {
                break;
            }
            let mut best: Option<usize> = None;
            let mut best_key: u64 = 0;
            let mut j: usize = 0;
            while j < avail.len()
                invariant
                    self.wf_state(),
                    avail@ == a,
                    0 <= j <= a.len(),
                    best matches Some(b) ==> b < j && !t@.contains(a[b as int]) && best_key
                        == self.rank(a[b as int]),
                    best matches Some(b) ==> forall|k: int|
                        0 <= k < j && !t@.contains(#[trigger] a[k]) ==> best_key <= self.rank(a[k]),
                    best is None ==> forall|k: int| 0 <= k < j ==> t@.contains(#[trigger] a[k]),
                decreases a.len() - j,
            {
                let x = avail[j];
                if !vec_contains(&t, x) {
                    let key = self.rank_key(x);
                    let better = match best {
                        None => true,
                        Some(_) => key < best_key,
                    };
                    if better {
                        best = Some(j);
                        best_key = key;
                    }
                }
                j = j + 1;
            }
            match best {
                None => {
                    assert forall|y: u32| a.contains(y) implies t@.contains(y) by {
                        let k = choose|k: int| 0 <= k < a.len() && a[k] == y;
                        assert(t@.contains(a[k]));
                    }
                    break;
                },
                Some(b) => {
                    let x = avail[b];
                    let ghost old_t = t@;
                    t.push(x);
                    proof {
                        assert(t@.subrange(0, old_t.len() as int) =~= old_t);
                        assert forall|p: int, q: int| 0 <= p < q < t@.len() implies t@[p] != t@[q] by {
                            if q == old_t.len() {
                                assert(old_t.contains(old_t[p]));
                            }
                        }
                        assert forall|k: int| 0 <= k < t@.len() implies a.contains(#[trigger] t@[k]) by {
                            if k == old_t.len() {
                                assert(a[b as int] == x);
                            }
                        }
                        assert forall|k: int, y: u32|
                            #![trigger t@[k], a.contains(y)]
                            0 <= k < t@.len() && a.contains(y) && !t@.subrange(0, k).contains(y)
                                implies self.rank(t@[k]) <= self.rank(y) by {
                            if k < old_t.len() {
                                assert(t@.subrange(0, k) =~= old_t.subrange(0, k));
                                assert(t@[k] == old_t[k]);
                            } else {
                                let m = choose|m: int| 0 <= m < a.len() && a[m] == y;
                                assert(!old_t.contains(a[m]));
                            }
                        }
                    }
                },
            }
        }
        t
    }

    /// Recomputes the candidate pool from the current state.
    fn update_candidate_pool(&mut self)
        requires
            old(self).wf_state(),
        ensures
            final(self).wf(),
            final(self).all_numbers == old(self).all_numbers,
            final(self).records == old(self).records,
            final(self).current_round == old(self).current_round,
            final(self).total_draws == old(self).total_draws,
            final(self).min_pool_size == old(self).min_pool_size,
            final(self).max_gap_threshold == old(self).max_gap_threshold,
            final(self).blacklist == old(self).blacklist,
            final(self).whitelist == old(self).whitelist,
            final(self).whitelist_only_mode == old(self).whitelist_only_mode,
    {
        let raw: Vec<u32> = if self.whitelist_only_mode {
            self.whitelist.clone()
        } else {
            let active = self.active_ids();
            let mean = self.ceil_mean_of(&active);
            let c1 = self.filter_le(&self.all_numbers, mean);
            assert(active@.len() > 0) by {
                assert(active@[0] == self.all_numbers@[0]);
            }
            let (hi, lo) = self.extremes(&active);
            let c2 = if hi as i64 - lo as i64 > self.max_gap_threshold as i64 {
                let r = self.filter_mid(&c1, hi, lo);
                if r.len() > 0 {
                    let m = self.ceil_mean_of(&r);
                    self.filter_le(&r, m)
                } else {
                    r
                }
            } else {
                c1
            };
            assert(c2@ == self.gap_filtered());
            let mut extra = filter_not_in(&self.whitelist, &c2);
            let mut c = c2;
            c.append(&mut extra);
            c
        };
        assert(raw@ == self.raw_candidates());
        let f = filter_not_in(&raw, &self.blacklist);
        let mut pool = f.clone();
        assert(pool@ == f@);
        if f.len() < self.min_pool_size as usize {
            let needed = self.min_pool_size as usize - f.len();
            let mut t = self.backfill(&f, needed);
            let ghost tv = t@;
            pool.append(&mut t);
            assert(pool@.subrange(0, f@.len() as int) =~= f@);
            assert(pool@.subrange(f@.len() as int, pool@.len() as int) =~= tv);
        } else {
            assert(pool@.subrange(0, f@.len() as int) =~= f@);
        }
        let ghost pv = pool@;
        self.candidate_pool = pool;
        assert(self.wf_state());
        assert(self.unblocked() == f@);
        assert(self.pool() == pv);
        assert(self.pool_ok(pv));
    }
}

impl BalancedRand {
    /// Same universe, counters and configuration.
    pub open spec fn same_setup(&self, other: &Self) -> bool {
        &&& self.universe() == other.universe()
        &&& self.round() == other.round()
        &&& self.total() == other.total()
        &&& self.min_pool() == other.min_pool()
        &&& self.max_gap() == other.max_gap()
    }

    /// Same draw count and last draw round for every id.
    pub open spec fn same_history(&self, other: &Self) -> bool {
        forall|x: u32|
            self.count_of(x) == other.count_of(x) && self.last_round_of(x) == other.last_round_of(x)
    }

    /// A freshly built engine: nothing drawn, no lists, default mode.
    pub open spec fn fresh(&self, min_pool_size: u32, max_gap_threshold: u32) -> bool {
        &&& self.wf()
        &&& self.round() == 0
        &&& self.total() == 0
        &&& self.min_pool() == min_pool_size
        &&& self.max_gap() == max_gap_threshold
        &&& self.black().len() == 0
        &&& self.white().len() == 0
        &&& !self.white_only()
        &&& forall|x: u32| self.count_of(x) == 0 && self.last_round_of(x) == -1
    }

    /// An active id is a universe id or a whitelist id.
    pub proof fn lemma_active_contains(&self, x: u32)
        ensures
            self.active().contains(x) <==> (self.universe().contains(x) || self.white().contains(x)),
    {
        lemma_concat_contains(self.universe(), keep(self.white(), not_in(self.universe())), x);
        lemma_keep_contains(self.white(), not_in(self.universe()), x);
    }

    fn from_universe(all_numbers: Vec<u32>, min_pool_size: u32, max_gap_threshold: u32) -> (r: Self)
        requires
            all_numbers@.len() > 0,
            strictly_sorted(all_numbers@),
            min_pool_size > 0,
        ensures
            r.fresh(min_pool_size, max_gap_threshold),
            r.universe() == all_numbers@,
    {
        let records = fresh_records(&all_numbers);
        let mut r = BalancedRand {
            all_numbers,
            records,
            candidate_pool: Vec::new(),
            current_round: 0,
            total_draws: 0,
            min_pool_size,
            max_gap_threshold,
            blacklist: Vec::new(),
            whitelist: Vec::new(),
            whitelist_only_mode: false,
        };
        proof {
            assert forall|x: u32| active_of(r.universe(), r.white()).contains(x) implies known_in(r.recs(), x) by {
                r.lemma_active_contains(x);
                let j = choose|j: int| 0 <= j < r.all_numbers@.len() && r.all_numbers@[j] == x;
                assert(r.records@[j].id == x);
            }
        }
        r.update_candidate_pool();
        r
    }

    /// An engine over the ids `start..=end`.
    pub fn new_from_range(start: u32, end: u32, min_pool_size: u32, max_gap_threshold: u32) -> (r: Result<
        Self,
        DrawError,
    >)
        ensures
            r is Err <==> (start > end || min_pool_size == 0),
            r is Err ==> r == Err::<Self, DrawError>(DrawError::InvalidConfiguration),
            r matches Ok(e) ==> e.fresh(min_pool_size, max_gap_threshold) && e.universe().len() == end
                - start + 1 && forall|i: int| 0 <= i < e.universe().len() ==> e.universe()[i] == start + i,
    {
        if start > end || min_pool_size == 0 {
            return Err(DrawError::InvalidConfiguration);
        }
        let u = range_universe(start, end);
        Ok(Self::from_universe(u, min_pool_size, max_gap_threshold))
    }

    /// An engine over the distinct ids of `numbers`, sorted.
    pub fn new_from_list(numbers: &[u32], min_pool_size: u32, max_gap_threshold: u32) -> (r: Result<
        Self,
        DrawError,
    >)
        ensures
            r is Err <==> (numbers@.len() == 0 || min_pool_size == 0),
            r is Err ==> r == Err::<Self, DrawError>(DrawError::InvalidConfiguration),
            r matches Ok(e) ==> e.fresh(min_pool_size, max_gap_threshold) && strictly_sorted(e.universe())
                && forall|x: u32| e.universe().contains(x) <==> numbers@.contains(x),
    {
        if numbers.len() == 0 || min_pool_size == 0 {
            return Err(DrawError::InvalidConfiguration);
        }
        let u = list_universe(numbers);
        assert(numbers@.contains(numbers@[0]));
        assert(u@.len() > 0);
        Ok(Self::from_universe(u, min_pool_size, max_gap_threshold))
    }

    /// Replaces the blacklist by the ids of `numbers` that are in the universe.
    pub fn set_blacklist(&mut self, numbers: &[u32])
        requires
            old(self).wf(),
        ensures
            final(self).wf(),
            forall|x: u32| final(self).black().contains(x) ==> !final(self).pool().contains(x),
            final(self).same_setup(old(self)),
            final(self).same_history(old(self)),
            final(self).white() == old(self).white(),
            final(self).white_only() == old(self).white_only(),
            forall|x: u32|
                #![trigger final(self).black().contains(x)]
                #![trigger numbers@.contains(x)]
                final(self).black().contains(x) <==> (numbers@.contains(x) && old(self).universe().contains(x)),
    {
        let mut b: Vec<u32> = Vec::new();
        push_new(&mut b, numbers, &self.all_numbers, true);
        self.blacklist = b;
        self.update_candidate_pool();
        proof {
            self.lemma_pool_members();
        }
    }

    /// Adds to the blacklist the ids of `numbers` that are in the universe.
    pub fn add_to_blacklist(&mut self, numbers: &[u32])
        requires
            old(self).wf(),
        ensures
            final(self).wf(),
            forall|x: u32| final(self).black().contains(x) ==> !final(self).pool().contains(x),
            final(self).same_setup(old(self)),
            final(self).same_history(old(self)),
            final(self).white() == old(self).white(),
            final(self).white_only() == old(self).white_only(),
            forall|x: u32|
                #![trigger final(self).black().contains(x)]
                #![trigger old(self).black().contains(x)]
                final(self).black().contains(x) <==> (old(self).black().contains(x) || (numbers@.contains(x)
                    && old(self).universe().contains(x))),
    {
        let mut b = self.blacklist.clone();
        assert(b@ == self.blacklist@);
        push_new(&mut b, numbers, &self.all_numbers, true);
        self.blacklist = b;
        self.update_candidate_pool();
        proof {
            self.lemma_pool_members();
        }
    }

    /// Removes the ids of `numbers` from the blacklist.
    pub fn remove_from_blacklist(&mut self, numbers: &[u32])
        requires
            old(self).wf(),
        ensures
            final(self).wf(),
            final(self).same_setup(old(self)),
            final(self).same_history(old(self)),
            final(self).white() == old(self).white(),
            final(self).white_only() == old(self).white_only(),
            forall|x: u32|
                #![trigger final(self).black().contains(x)]
                #![trigger old(self).black().contains(x)]
                final(self).black().contains(x) <==> (old(self).black().contains(x) && !numbers@.contains(x)),
    {
        let t = slice_to_vec(numbers);
        let b = filter_not_in(&self.blacklist, &t);
        proof {
            lemma_keep_no_dups(self.blacklist@, not_in(t@));
            assert forall|x: u32| b@.contains(x) <==> (self.blacklist@.contains(x) && !numbers@.contains(x)) by {
                lemma_keep_contains(self.blacklist@, not_in(t@), x);
            }
        }
        self.blacklist = b;
        self.update_candidate_pool();
    }

    /// Empties the blacklist.
    pub fn clear_blacklist(&mut self)
        requires
            old(self).wf(),
        ensures
            final(self).wf(),
            final(self).same_setup(old(self)),
            final(self).same_history(old(self)),
            final(self).white() == old(self).white(),
            final(self).white_only() == old(self).white_only(),
            final(self).black().len() == 0,
    {
        self.blacklist = Vec::new();
        self.update_candidate_pool();
    }

    /// The blacklist.
    pub fn get_blacklist(&self) -> (r: Vec<u32>)
        ensures
            r@ == self.black(),
    {
        self.blacklist.clone()
    }

    /// Whether `number` is blacklisted.
    pub fn is_in_blacklist(&self, number: u32) -> (r: bool)
        ensures
            r == self.black().contains(number),
    {
        vec_contains(&self.blacklist, number)
    }

    /// Installs `w` as the whitelist, giving its new ids a never-drawn record.
    fn install_whitelist(&mut self, w: Vec<u32>)
        requires
            old(self).wf(),
            w@.no_duplicates(),
        ensures
            final(self).wf(),
            final(self).same_setup(old(self)),
            final(self).same_history(old(self)),
            final(self).black() == old(self).black(),
            final(self).white_only() == old(self).white_only(),
            final(self).white() == w@,
    {
        ensure_known(&mut self.records, &w);
        self.whitelist = w;
        proof {
            assert forall|x: u32| active_of(self.universe(), self.white()).contains(x) implies known_in(self.recs(), x) by {
                self.lemma_active_contains(x);
                if self.universe().contains(x) {
                    old(self).lemma_active_contains(x);
                    assert(old(self).known(x));
                }
            }
        }
        self.update_candidate_pool();
    }

    /// Replaces the whitelist by the ids of `numbers`.
    pub fn set_whitelist(&mut self, numbers: &[u32])
        requires
            old(self).wf(),
        ensures
            final(self).wf(),
            final(self).same_setup(old(self)),
            final(self).same_history(old(self)),
            final(self).black() == old(self).black(),
            final(self).white_only() == old(self).white_only(),
            forall|x: u32|
                #![trigger final(self).white().contains(x)]
                #![trigger numbers@.contains(x)]
                final(self).white().contains(x) <==> numbers@.contains(x),
    {
        let mut w: Vec<u32> = Vec::new();
        push_new(&mut w, numbers, &self.all_numbers, false);
        self.install_whitelist(w);
    }

    /// Adds the ids of `numbers` to the whitelist.
    pub fn add_to_whitelist(&mut self, numbers: &[u32])
        requires
            old(self).wf(),
        ensures
            final(self).wf(),
            final(self).same_setup(old(self)),
            final(self).same_history(old(self)),
            final(self).black() == old(self).black(),
            final(self).white_only() == old(self).white_only(),
            forall|x: u32|
                #![trigger final(self).white().contains(x)]
                #![trigger old(self).white().contains(x)]
                final(self).white().contains(x) <==> (old(self).white().contains(x) || numbers@.contains(x)),
    {
        let mut w = self.whitelist.clone();
        assert(w@ == self.whitelist@);
        push_new(&mut w, numbers, &self.all_numbers, false);
        let ghost wv = w@;
        assert(forall|x: u32| wv.contains(x) <==> (self.whitelist@.contains(x) || numbers@.contains(x)));
        self.install_whitelist(w);
    }

    /// Removes the ids of `numbers` from the whitelist.
    pub fn remove_from_whitelist(&mut self, numbers: &[u32])
        requires
            old(self).wf(),
        ensures
            final(self).wf(),
            final(self).same_setup(old(self)),
            final(self).same_history(old(self)),
            final(self).black() == old(self).black(),
            final(self).white_only() == old(self).white_only(),
            forall|x: u32|
                #![trigger final(self).white().contains(x)]
                #![trigger old(self).white().contains(x)]
                final(self).white().contains(x) <==> (old(self).white().contains(x) && !numbers@.contains(x)),
    {
        let t = slice_to_vec(numbers);
        let w = filter_not_in(&self.whitelist, &t);
        proof {
            lemma_keep_no_dups(self.whitelist@, not_in(t@));
            assert forall|x: u32| w@.contains(x) <==> (self.whitelist@.contains(x) && !numbers@.contains(x)) by {
                lemma_keep_contains(self.whitelist@, not_in(t@), x);
            }
        }
        self.install_whitelist(w);
    }

    /// Empties the whitelist.
    pub fn clear_whitelist(&mut self)
        requires
            old(self).wf(),
        ensures
            final(self).wf(),
            final(self).same_setup(old(self)),
            final(self).same_history(old(self)),
            final(self).black() == old(self).black(),
            final(self).white_only() == old(self).white_only(),
            final(self).white().len() == 0,
    {
        self.install_whitelist(Vec::new());
    }

    /// The whitelist.
    pub fn get_whitelist(&self) -> (r: Vec<u32>)
        ensures
            r@ == self.white(),
    {
        self.whitelist.clone()
    }

    /// Whether `number` is whitelisted.
    pub fn is_in_whitelist(&self, number: u32) -> (r: bool)
        ensures
            r == self.white().contains(number),
    {
        vec_contains(&self.whitelist, number)
    }

    /// Restricts the candidate pool to the whitelist, or lifts that restriction.
    pub fn set_whitelist_only_mode(&mut self, whitelist_only: bool)
        requires
            old(self).wf(),
        ensures
            final(self).wf(),
            final(self).same_setup(old(self)),
            final(self).same_history(old(self)),
            final(self).black() == old(self).black(),
            final(self).white() == old(self).white(),
            final(self).white_only() == whitelist_only,
    {
        self.whitelist_only_mode = whitelist_only;
        self.update_candidate_pool();
    }

    /// Whether the candidate pool is restricted to the whitelist.
    pub fn get_whitelist_only_mode(&self) -> (r: bool)
        ensures
            r == self.white_only(),
    {
        self.whitelist_only_mode
    }
}

impl BalancedRand {
    /// The weight inputs of `id` in the current round.
    pub open spec fn input_of(&self, id: u32) -> WeightInput {
        let lr = self.last_round_of(id);
        let gap = self.round() - lr;
        WeightInput {
            id,
            draw_count: self.count_of(id) as u32,
            never_drawn: lr < 0,
            stale_gap: if lr >= 0 && gap > self.active().len() / 2 { gap as u32 } else { 0 },
            extension: !self.universe().contains(id) && self.white().contains(id),
        }
    }

    /// Room for `n` more draws without a counter overflowing.
    pub open spec fn headroom(&self, n: int) -> bool {
        &&& self.round() + n <= 0x7fff_ffff
        &&& self.total() + n <= 0xffff_ffff
        &&& forall|x: u32| #[trigger] self.count_of(x) + n <= 0xffff_ffff
    }

    /// Every candidate is an active id that is not blacklisted.
    pub proof fn lemma_pool_members(&self)
        requires
            self.wf(),
        ensures
            forall|x: u32|
                #![trigger self.pool().contains(x)]
                self.pool().contains(x) ==> !self.black().contains(x) && (self.universe().contains(x)
                    || self.white().contains(x)),
    {
        assert forall|x: u32|
            #![trigger self.pool().contains(x)]
            self.pool().contains(x) implies !self.black().contains(x) && (self.universe().contains(x)
                || self.white().contains(x)) by {
            let f = self.unblocked();
            let p = self.pool();
            let t = p.subrange(f.len() as int, p.len() as int);
            assert(p =~= f + t);
            lemma_concat_contains(f, t, x);
            if f.contains(x) {
                lemma_keep_contains(self.raw_candidates(), not_in(self.black()), x);
                if !self.white_only() {
                    let c = self.gap_filtered();
                    lemma_concat_contains(c, keep(self.white(), not_in(c)), x);
                    lemma_keep_contains(self.white(), not_in(c), x);
                    if c.contains(x) {
                        let a = self.active();
                        let c1 = self.average_filtered();
                        lemma_keep_contains(self.universe(), self.le_pred(self.ceil_mean(a)), x);
                        if self.max_count(a) - self.min_count(a) > self.max_gap() {
                            let r = keep(c1, self.mid_pred(self.max_count(a), self.min_count(a)));
                            lemma_keep_contains(c1, self.mid_pred(self.max_count(a), self.min_count(a)), x);
                            lemma_keep_contains(r, self.le_pred(self.ceil_mean(r)), x);
                        }
                    }
                }
            } else {
                let j = choose|j: int| 0 <= j < t.len() && t[j] == x;
                assert(self.available(f).contains(t[j]));
                lemma_keep_contains(self.active(), self.avail_pred(f), x);
                self.lemma_active_contains(x);
            }
        }
    }

    /// The weight inputs of the candidates, in pool order.
    pub fn weight_inputs(&self) -> (r: Vec<WeightInput>)
        requires
            self.wf(),
        ensures
            r@.len() == self.pool().len(),
            forall|i: int| 0 <= i < r@.len() ==> r@[i] == self.input_of(#[trigger] self.pool()[i]),
    {
        let active = self.active_ids();
        let half: i64 = (active.len() / 2) as i64;
        let mut r: Vec<WeightInput> = Vec::new();
        let mut i: usize = 0;
        while i < self.candidate_pool.len()
            invariant
                0 <= i <= self.pool().len(),
                self.wf(),
                active@ == self.active(),
                half == self.active().len() / 2,
                r@.len() == i,
                forall|k: int| 0 <= k < i ==> r@[k] == self.input_of(#[trigger] self.pool()[k]),
            decreases self.pool().len() - i,
        {
            let id = self.candidate_pool[i];
            let c = self.draw_count(id);
            let lr = self.last_draw_round(id);
            let gap: i64 = self.current_round as i64 - lr as i64;
            let stale_gap: u32 = if lr >= 0 && gap > half { gap as u32 } else { 0 };
            let extension = !vec_contains(&self.all_numbers, id) && vec_contains(&self.whitelist, id);
            r.push(WeightInput { id, draw_count: c, never_drawn: lr < 0, stale_gap, extension });
            i = i + 1;
        }
        r
    }

    /// Zeroes the draw history of the universe and the whitelist and the
    /// round and draw counters.
    pub fn reset_draw_counts(&mut self)
        requires
            old(self).wf(),
        ensures
            final(self).wf(),
            final(self).universe() == old(self).universe(),
            final(self).min_pool() == old(self).min_pool(),
            final(self).max_gap() == old(self).max_gap(),
            final(self).black() == old(self).black(),
            final(self).white() == old(self).white(),
            final(self).white_only() == old(self).white_only(),
            final(self).round() == 0,
            final(self).total() == 0,
            forall|x: u32|
                #![trigger final(self).count_of(x)]
                #![trigger final(self).last_round_of(x)]
                if old(self).active().contains(x) {
                    final(self).count_of(x) == 0 && final(self).last_round_of(x) == -1
                } else {
                    final(self).count_of(x) == old(self).count_of(x) && final(self).last_round_of(x)
                        == old(self).last_round_of(x)
                },
    {
        let active = self.active_ids();
        let ghost r0 = self.records@;
        let mut k: usize = 0;
        while k < self.records.len()
            invariant
                0 <= k <= self.records@.len(),
                self.records@.len() == r0.len(),
                r0 == old(self).records@,
                self.all_numbers == old(self).all_numbers,
                self.blacklist == old(self).blacklist,
                self.whitelist == old(self).whitelist,
                self.whitelist_only_mode == old(self).whitelist_only_mode,
                self.min_pool_size == old(self).min_pool_size,
                self.max_gap_threshold == old(self).max_gap_threshold,
                self.current_round == old(self).current_round,
                self.total_draws == old(self).total_draws,
                active@ == old(self).active(),
                forall|j: int| 0 <= j < r0.len() ==> (#[trigger] self.records@[j]).id == r0[j].id,
                forall|j: int| k <= j < r0.len() ==> (#[trigger] self.records@[j]) == r0[j],
                forall|j: int|
                    0 <= j < k ==> (#[trigger] self.records@[j]) == (if active@.contains(r0[j].id) {
                        Record { id: r0[j].id, count: 0, last_round: -1i32 }
                    } else {
                        r0[j]
                    }),
            decreases r0.len() - k,
        {
            let id = self.records[k].id;
            if vec_contains(&active, id) {
                self.records.set(k, Record { id, count: 0, last_round: -1 });
            }
            k = k + 1;
        }
        self.total_draws = 0;
        self.current_round = 0;
        proof {
            let rn = self.records@;
            assert(unique_ids(rn)) by {
                assert forall|i: int, j: int|
                    0 <= i < rn.len() && 0 <= j < rn.len() && (#[trigger] rn[i]).id == (#[trigger] rn[j]).id implies i == j by {
                    assert(r0[i].id == r0[j].id);
                }
            }
            assert forall|x: u32| known_in(r0, x) implies known_in(rn, x) && index_in(rn, x) == index_in(r0, x) by {
                let i = index_in(r0, x);
                assert(rn[i].id == x);
                let i2 = index_in(rn, x);
                assert(r0[i2].id == x);
            }
            assert forall|x: u32| known_in(rn, x) implies known_in(r0, x) by {
                let i = index_in(rn, x);
                assert(r0[i].id == x);
            }
            assert forall|x: u32| active_of(self.universe(), self.white()).contains(x) implies known_in(self.recs(), x) by {
                assert(active_of(old(self).universe(), old(self).white()).contains(x));
                assert(known_in(r0, x));
            }
            assert forall|x: u32|
                #![trigger self.count_of(x)]
                #![trigger self.last_round_of(x)]
                if old(self).active().contains(x) {
                    self.count_of(x) == 0 && self.last_round_of(x) == -1
                } else {
                    self.count_of(x) == old(self).count_of(x) && self.last_round_of(x) == old(self).last_round_of(x)
                } by {
                if known_in(r0, x) {
                    let i = index_in(r0, x);
                    assert(rn[i] == (if active@.contains(r0[i].id) {
                        Record { id: r0[i].id, count: 0, last_round: -1i32 }
                    } else {
                        r0[i]
                    }));
                }
            }
        }
        self.update_candidate_pool();
    }
}

impl BalancedRand {
    /// Counts one draw of `id` in the current round.
    fn record_draw(&mut self, id: u32)
        requires
            old(self).wf_state(),
            old(self).active().contains(id),
            old(self).count_of(id) < 0xffff_ffff,
            old(self).total() < 0xffff_ffff,
            old(self).round() <= 0x7fff_ffff,
        ensures
            final(self).wf_state(),
            final(self).all_numbers == old(self).all_numbers,
            final(self).candidate_pool == old(self).candidate_pool,
            final(self).current_round == old(self).current_round,
            final(self).min_pool_size == old(self).min_pool_size,
            final(self).max_gap_threshold == old(self).max_gap_threshold,
            final(self).blacklist == old(self).blacklist,
            final(self).whitelist == old(self).whitelist,
            final(self).whitelist_only_mode == old(self).whitelist_only_mode,
            final(self).total() == old(self).total() + 1,
            final(self).count_of(id) == old(self).count_of(id) + 1,
            final(self).last_round_of(id) == old(self).round(),
            forall|y: u32|
                #![trigger final(self).count_of(y)]
                #![trigger final(self).last_round_of(y)]
                y != id ==> final(self).count_of(y) == old(self).count_of(y) && final(self).last_round_of(y)
                    == old(self).last_round_of(y),
    {
        let k = match self.find(id) {
            Some(k) => k,
            None => {
                assert(false);
                0
            },
        };
        let ghost r0 = self.records@;
        let old_rec = self.records[k];
        self.records.set(k, Record { id, count: old_rec.count + 1, last_round: self.current_round as i32 });
        self.total_draws = self.total_draws + 1;
        proof {
            let rn = self.records@;
            assert forall|i: int, j: int|
                0 <= i < rn.len() && 0 <= j < rn.len() && (#[trigger] rn[i]).id == (#[trigger] rn[j]).id implies i == j by {
                assert(r0[i].id == rn[i].id);
                assert(r0[j].id == rn[j].id);
            }
            assert(unique_ids(rn));
            assert forall|x: u32| known_in(r0, x) implies known_in(rn, x) && index_in(rn, x) == index_in(r0, x) by {
                let i = index_in(r0, x);
                assert(rn[i].id == x);
                let i2 = index_in(rn, x);
                assert(r0[i2].id == x);
            }
            assert forall|x: u32| known_in(rn, x) implies known_in(r0, x) by {
                let i = index_in(rn, x);
                assert(r0[i].id == x);
            }
            assert forall|x: u32| active_of(self.universe(), self.white()).contains(x) implies known_in(self.recs(), x) by {
                assert(active_of(old(self).universe(), old(self).white()).contains(x));
                assert(known_in(r0, x));
            }
            assert(known_in(r0, id));
            assert forall|y: u32|
                #![trigger self.count_of(y)]
                #![trigger self.last_round_of(y)]
                y != id implies self.count_of(y) == old(self).count_of(y) && self.last_round_of(y)
                    == old(self).last_round_of(y) by {
                if known_in(r0, y) {
                    let i = index_in(r0, y);
                    assert(i != k);
                }
            }
        }
    }

    /// Some active id is not blacklisted.
    pub open spec fn has_candidate(&self) -> bool {
        exists|x: u32| #[trigger] self.active().contains(x) && !self.black().contains(x)
    }

    /// Room to record one draw in the current round.
    pub open spec fn room_to_record(&self) -> bool {
        &&& self.round() <= 0x7fff_ffff
        &&& self.total() < 0xffff_ffff
        &&& forall|x: u32| #[trigger] self.count_of(x) < 0xffff_ffff
    }

    /// Same universe, configuration, lists and mode.
    pub open spec fn same_lists(&self, other: &Self) -> bool {
        &&& self.universe() == other.universe()
        &&& self.min_pool() == other.min_pool()
        &&& self.max_gap() == other.max_gap()
        &&& self.black() == other.black()
        &&& self.white() == other.white()
        &&& self.white_only() == other.white_only()
    }

    /// `self` is `old` once a draw has started: the history reset if the
    /// pool of `old` was empty, and the round counter advanced.
    pub open spec fn started_from(&self, old: &Self) -> bool {
        &&& self.wf()
        &&& self.same_lists(old)
        &&& self.round() == old.base_round() + 1
        &&& self.total() == old.base_total()
        &&& forall|y: u32|
            #![trigger self.count_of(y)]
            #![trigger self.last_round_of(y)]
            self.count_of(y) == old.base_count(y) && self.last_round_of(y) == old.base_last_round(y)
        &&& old.pool().len() > 0 ==> self.pool() == old.pool()
    }

    /// `self` and `r` are what `draw_at(idx)` gives from `old`: the
    /// candidate at `idx` recorded as drawn in the current round, or
    /// `SelectionImpossible` with nothing changed.
    pub open spec fn drawn_at(&self, old: &Self, idx: int, r: Result<u32, DrawError>) -> bool {
        if 0 <= idx < old.pool().len() {
            let id = old.pool()[idx];
            &&& r == Ok::<u32, DrawError>(id)
            &&& self.wf()
            &&& self.same_lists(old)
            &&& self.round() == old.round()
            &&& self.total() == old.total() + 1
            &&& self.count_of(id) == old.count_of(id) + 1
            &&& self.last_round_of(id) == old.round()
            &&& forall|y: u32|
                #![trigger self.count_of(y)]
                #![trigger self.last_round_of(y)]
                y != id ==> self.count_of(y) == old.count_of(y) && self.last_round_of(y) == old.last_round_of(y)
        } else {
            r == Err::<u32, DrawError>(DrawError::SelectionImpossible) && *self == *old
        }
    }

    /// The weight inputs of the pool, in pool order.
    pub open spec fn inputs_seq(&self) -> Seq<WeightInput> {
        Seq::new(self.pool().len(), |k: int| self.input_of(self.pool()[k]))
    }

    /// `self` and `r` are what a draw from `old` gives: a draw starts, `pick`
    /// sees the started state's weight inputs, and the candidate at the
    /// index it returns is drawn.
    pub open spec fn draw_result<F: Fn(&Vec<WeightInput>) -> usize>(
        &self,
        old: &Self,
        pick: &F,
        r: Result<u32, DrawError>,
    ) -> bool {
        exists|s: Self, v: &Vec<WeightInput>, i: usize|
            #![trigger s.started_from(old), pick.ensures((v,), i)]
            s.started_from(old) && v@ == s.inputs_seq() && pick.ensures((v,), i) && self.drawn_at(
                &s,
                i as int,
                r,
            )
    }

    /// Where some active id is not blacklisted, the pool is not empty.
    pub proof fn lemma_pool_nonempty(&self)
        requires
            self.wf(),
            self.has_candidate(),
        ensures
            self.pool().len() > 0,
    {
        let x = choose|x: u32| #[trigger] self.active().contains(x) && !self.black().contains(x);
        let f = self.unblocked();
        let p = self.pool();
        if f.len() == 0 {
            assert(f.len() < self.min_pool());
            let t = p.subrange(0, p.len() as int);
            assert(p.subrange(f.len() as int, p.len() as int) =~= p);
            lemma_keep_contains(self.active(), self.avail_pred(f), x);
            assert(self.available(f).contains(x));
            if p.len() == 0 {
                assert(!p.contains(x));
            }
        }
    }

    /// Starts a draw: resets the history if the pool is empty and advances
    /// the round counter.
    pub fn start_round(&mut self)
        requires
            old(self).wf(),
            old(self).headroom(1),
        ensures
            final(self).started_from(old(self)),
            final(self).room_to_record(),
    {
        if self.candidate_pool.len() == 0 {
            self.reset_draw_counts();
        }
        let ghost s1 = *self;
        assert forall|y: u32|
            #![trigger s1.count_of(y)]
            s1.count_of(y) == old(self).base_count(y) && s1.last_round_of(y) == old(self).base_last_round(y) by {
        }
        assert(s1.total() == old(self).base_total());
        assert(s1.round() == old(self).base_round());
        self.current_round = self.current_round + 1;
        assert(self.recs() == s1.recs());
        assert(self.wf()) by {
            assert(self.unblocked() == s1.unblocked());
        }
        assert forall|y: u32|
            #![trigger self.count_of(y)]
            #![trigger self.last_round_of(y)]
            self.count_of(y) == old(self).base_count(y) && self.last_round_of(y) == old(self).base_last_round(y) by {
            assert(s1.count_of(y) == old(self).base_count(y));
        }
        assert forall|x: u32| #[trigger] self.count_of(x) < 0xffff_ffff by {
            assert(old(self).count_of(x) + 1 <= 0xffff_ffff);
            assert(s1.count_of(x) == old(self).base_count(x));
        }
    }

    /// Records the candidate at `idx` as drawn in the current round.
    pub fn draw_at(&mut self, idx: usize) -> (r: Result<u32, DrawError>)
        requires
            old(self).wf(),
            old(self).room_to_record(),
        ensures
            final(self).drawn_at(old(self), idx as int, r),
    {
        if idx >= self.candidate_pool.len() {
            return Err(DrawError::SelectionImpossible);
        }
        let id = self.candidate_pool[idx];
        proof {
            assert(self.pool().contains(id));
            self.lemma_pool_members();
            self.lemma_active_contains(id);
        }
        let ghost s2 = *self;
        self.record_draw(id);
        let ghost s3 = *self;
        self.update_candidate_pool();
        assert(self.recs() == s3.recs());
        proof {
            assert forall|y: u32|
                #![trigger self.count_of(y)]
                #![trigger self.last_round_of(y)]
                y != id implies self.count_of(y) == s2.count_of(y) && self.last_round_of(y) == s2.last_round_of(y) by {
                assert(self.count_of(y) == s3.count_of(y));
                assert(s3.count_of(y) == s2.count_of(y));
                assert(s3.last_round_of(y) == s2.last_round_of(y));
            }
            assert(self.count_of(id) == s3.count_of(id));
        }
        Ok(id)
    }

    /// Draws one id: starts a draw, hands the candidates' weight inputs to
    /// `pick`, and draws the candidate at the index that `pick` returns.
    pub fn draw<F: Fn(&Vec<WeightInput>) -> usize>(&mut self, pick: &F) -> (r: Result<u32, DrawError>)
        requires
            old(self).wf(),
            old(self).headroom(1),
            forall|v: &Vec<WeightInput>| pick.requires((v,)),
        ensures
            final(self).wf(),
            final(self).same_lists(old(self)),
            final(self).draw_result(old(self), pick, r),
            picks_in_range(pick) && old(self).has_candidate() ==> r is Ok,
            r is Err ==> r == Err::<u32, DrawError>(DrawError::SelectionImpossible)
                && final(self).round() == old(self).base_round() + 1
                && final(self).total() == old(self).base_total()
                && forall|y: u32|
                    #![trigger final(self).count_of(y)]
                    final(self).count_of(y) == old(self).base_count(y) && final(self).last_round_of(y)
                        == old(self).base_last_round(y),
            r matches Ok(id) ==> {
                &&& !old(self).black().contains(id)
                &&& old(self).universe().contains(id) || old(self).white().contains(id)
                &&& old(self).pool().len() > 0 ==> old(self).pool().contains(id)
                &&& final(self).round() == old(self).base_round() + 1
                &&& final(self).total() == old(self).base_total() + 1
                &&& final(self).count_of(id) == old(self).base_count(id) + 1
                &&& final(self).last_round_of(id) == final(self).round()
                &&& forall|y: u32|
                    #![trigger final(self).count_of(y)]
                    y != id ==> final(self).count_of(y) == old(self).base_count(y) && final(self).last_round_of(y)
                        == old(self).base_last_round(y)
            },
    {
        self.start_round();
        let ghost s = *self;
        let inputs = self.weight_inputs();
        assert(inputs@ =~= s.inputs_seq());
        let idx = pick(&inputs);
        let r = self.draw_at(idx);
        proof {
            assert(s.started_from(old(self)) && inputs@ == s.inputs_seq() && pick.ensures((&inputs,), idx)
                && self.drawn_at(&s, idx as int, r));
            if picks_in_range(pick) && old(self).has_candidate() {
                let x = choose|x: u32| #[trigger] old(self).active().contains(x) && !old(self).black().contains(x);
                assert(s.active().contains(x));
                s.lemma_pool_nonempty();
            }
            if idx < s.pool().len() {
                let id = s.pool()[idx as int];
                assert(s.pool().contains(id));
                s.lemma_pool_members();
                assert forall|y: u32|
                    #![trigger self.count_of(y)]
                    y != id implies self.count_of(y) == old(self).base_count(y) && self.last_round_of(y)
                        == old(self).base_last_round(y) by {
                    assert(s.count_of(y) == old(self).base_count(y));
                    assert(s.last_round_of(y) == old(self).base_last_round(y));
                }
                assert(s.count_of(id) == old(self).base_count(id));
            } else {
                assert forall|y: u32|
                    #![trigger self.count_of(y)]
                    self.count_of(y) == old(self).base_count(y) && self.last_round_of(y)
                        == old(self).base_last_round(y) by {
                    assert(s.count_of(y) == old(self).base_count(y));
                }
            }
        }
        r
    }

    /// The round counter before a draw increments it.
    pub open spec fn base_round(&self) -> int {
        if self.pool().len() == 0 { 0 } else { self.round() }
    }

    /// The draw counter before a draw increments it.
    pub open spec fn base_total(&self) -> int {
        if self.pool().len() == 0 { 0 } else { self.total() }
    }

    /// The draw count of `id` that a draw starts from.
    pub open spec fn base_count(&self, id: u32) -> int {
        if self.pool().len() == 0 && self.active().contains(id) { 0 } else { self.count_of(id) }
    }

    /// The last draw round of `id` that a draw starts from.
    pub open spec fn base_last_round(&self, id: u32) -> int {
        if self.pool().len() == 0 && self.active().contains(id) { -1 } else { self.last_round_of(id) }
    }
}

/// `pick` returns an index inside every non-empty input it is given.
pub open spec fn picks_in_range<F: Fn(&Vec<WeightInput>) -> usize>(pick: &F) -> bool {
    forall|v: &Vec<WeightInput>, i: usize| pick.ensures((v,), i) && v@.len() > 0 ==> i < v@.len()
}

/// Inclusive maximum over draw counts is at least the minimum.
proof fn lemma_max_ge_min(recs: Seq<Record>, s: Seq<u32>)
    ensures
        max_in(recs, s) >= min_in(recs, s),
        s.len() > 0 ==> 0 <= min_in(recs, s) && max_in(recs, s) <= 0xffff_ffff,
    decreases s.len(),
{
    if s.len() > 1 {
        lemma_max_ge_min(recs, s.drop_last());
    }
    if s.len() > 0 {
        assert(0 <= count_in(recs, s.last()) <= 0xffff_ffff);
        assert(0 <= count_in(recs, s[0]) <= 0xffff_ffff);
    }
}

impl BalancedRand {
    /// Step `k` of `states`: from `states[k]`, a draw with `pick` gave
    /// `ids[k]` and left `states[k + 1]`.
    pub open spec fn draw_step<F: Fn(&Vec<WeightInput>) -> usize>(
        states: Seq<Self>,
        pick: &F,
        ids: Seq<u32>,
        k: int,
    ) -> bool {
        states[k + 1].draw_result(&states[k], pick, Ok::<u32, DrawError>(ids[k]))
    }

    /// `states` runs through successive draws with `pick` that gave `ids`.
    pub open spec fn draw_chain<F: Fn(&Vec<WeightInput>) -> usize>(
        states: Seq<Self>,
        pick: &F,
        ids: Seq<u32>,
    ) -> bool {
        &&& states.len() == ids.len() + 1
        &&& forall|k: int| 0 <= k < ids.len() ==> #[trigger] Self::draw_step(states, pick, ids, k)
    }

    /// `self` and `r` are what `draw_multiple(count)` gives from `old`.
    pub open spec fn batch_result<F: Fn(&Vec<WeightInput>) -> usize>(
        &self,
        old: &Self,
        count: u32,
        pick: &F,
        r: Result<Vec<u32>, DrawError>,
    ) -> bool {
        &&& count == 0 ==> r == Err::<Vec<u32>, DrawError>(DrawError::InvalidCount) && *self == *old
        &&& count > 0 && count > old.pool().len() ==> r == Err::<Vec<u32>, DrawError>(DrawError::PoolTooSmall)
            && *self == *old
        &&& 0 < count <= old.pool().len() ==> match r {
            Ok(v) => {
                &&& v@.len() == count
                &&& self.total() == old.total() + count
                &&& self.round() == old.round() + count
                &&& exists|st: Seq<Self>|
                    #![trigger Self::draw_chain(st, pick, v@)]
                    Self::draw_chain(st, pick, v@) && st[0] == *old && st.last() == *self
            },
            Err(e) => {
                &&& e == DrawError::SelectionImpossible
                &&& exists|st: Seq<Self>, ids: Seq<u32>|
                    #![trigger Self::draw_chain(st, pick, ids)]
                    Self::draw_chain(st, pick, ids) && st[0] == *old && ids.len() < count && self.draw_result(
                        &st.last(),
                        pick,
                        Err::<u32, DrawError>(e),
                    )
            },
        }
    }

    /// Draws `count` ids one after the other, each as `draw` does. The
    /// count is checked once, up front, against the current pool.
    pub fn draw_multiple<F: Fn(&Vec<WeightInput>) -> usize>(&mut self, count: u32, pick: &F) -> (r: Result<
        Vec<u32>,
        DrawError,
    >)
        requires
            old(self).wf(),
            0 < count <= old(self).pool().len() ==> old(self).headroom(count as int),
            forall|v: &Vec<WeightInput>| pick.requires((v,)),
        ensures
            final(self).wf(),
            final(self).same_lists(old(self)),
            final(self).batch_result(old(self), count, pick, r),
            0 < count <= old(self).pool().len() && picks_in_range(pick) ==> r is Ok,
            r matches Ok(v) ==> forall|i: int|
                #![trigger v@[i]]
                0 <= i < v@.len() ==> !old(self).black().contains(v@[i]) && (old(self).universe().contains(v@[i])
                    || old(self).white().contains(v@[i])),
    {
        if count == 0 {
            return Err(DrawError::InvalidCount);
        }
        if count as usize > self.candidate_pool.len() {
            return Err(DrawError::PoolTooSmall);
        }
        proof {
            let x = old(self).pool()[0];
            assert(old(self).pool().contains(x));
            old(self).lemma_pool_members();
            old(self).lemma_active_contains(x);
        }
        let mut results: Vec<u32> = Vec::new();
        let ghost mut states: Seq<Self> = seq![*self];
        let mut i: u32 = 0;
        while i < count
            invariant
                0 <= i <= count,
                0 < count <= old(self).pool().len(),
                self.wf(),
                self.headroom(count - i),
                forall|v: &Vec<WeightInput>| pick.requires((v,)),
                self.same_lists(old(self)),
                old(self).has_candidate(),
                self.pool().len() > 0,
                self.total() == old(self).total() + i,
                self.round() == old(self).round() + i,
                results@.len() == i,
                Self::draw_chain(states, pick, results@),
                states[0] == *old(self),
                states.last() == *self,
                forall|k: int|
                    #![trigger results@[k]]
                    0 <= k < results@.len() ==> !old(self).black().contains(results@[k]) && (old(
                        self,
                    ).universe().contains(results@[k]) || old(self).white().contains(results@[k])),
            decreases count - i,
        {
            let ghost before = *self;
            let ghost prev_states = states;
            assert(before.has_candidate()) by {
                let x = choose|x: u32| #[trigger] old(self).active().contains(x) && !old(self).black().contains(x);
                assert(before.active().contains(x));
            }
            match self.draw(pick) {
                Ok(id) => {
                    proof {
                        assert forall|x: u32| #[trigger] self.count_of(x) + (count - i - 1) <= 0xffff_ffff by {
                            assert(before.count_of(x) + (count - i) <= 0xffff_ffff);
                            if x != id {
                                assert(self.count_of(x) == before.base_count(x));
                            }
                        }
                        assert(self.active() == before.active());
                        assert(self.has_candidate()) by {
                            let x = choose|x: u32| #[trigger] old(self).active().contains(x) && !old(self).black().contains(x);
                            assert(self.active().contains(x));
                        }
                        self.lemma_pool_nonempty();
                        states = prev_states.push(*self);
                        let ids = results@.push(id);
                        assert forall|k: int| 0 <= k < ids.len() implies #[trigger] Self::draw_step(states, pick, ids, k) by {
                            if k < results@.len() {
                                assert(Self::draw_step(prev_states, pick, results@, k));
                                assert(states[k] == prev_states[k]);
                                assert(states[k + 1] == prev_states[k + 1]);
                            } else {
                                assert(states[k] == before);
                                assert(states[k + 1] == *self);
                            }
                        }
                    }
                    results.push(id);
                    i = i + 1;
                },
                Err(e) => {
                    proof {
                        assert(!picks_in_range(pick));
                        assert(Self::draw_chain(prev_states, pick, results@) && prev_states[0] == *old(self)
                            && results@.len() < count && self.draw_result(&prev_states.last(), pick, Err::<u32, DrawError>(e)));
                    }
                    return Err(e);
                },
            }
        }
        proof {
            assert(Self::draw_chain(states, pick, results@) && states[0] == *old(self) && states.last() == *self);
        }
        Ok(results)
    }

    /// The active ids in increasing order, each with its draw count.
    pub fn get_statistics(&self) -> (r: Vec<(u32, u32)>)
        requires
            self.wf(),
        ensures
            forall|i: int, j: int| 0 <= i < j < r@.len() ==> r@[i].0 < r@[j].0,
            forall|x: u32| (exists|i: int| 0 <= i < r@.len() && r@[i].0 == x) <==> self.active().contains(x),
            forall|i: int| 0 <= i < r@.len() ==> (#[trigger] r@[i]).1 == self.count_of(r@[i].0),
    {
        let active = self.active_ids();
        let ids = list_universe(active.as_slice());
        let mut r: Vec<(u32, u32)> = Vec::new();
        let mut i: usize = 0;
        while i < ids.len()
            invariant
                0 <= i <= ids@.len(),
                self.wf(),
                r@.len() == i,
                forall|k: int| 0 <= k < i ==> (#[trigger] r@[k]) == (ids@[k], self.count_of(ids@[k]) as u32),
            decreases ids@.len() - i,
        {
            let c = self.draw_count(ids[i]);
            r.push((ids[i], c));
            i = i + 1;
        }
        assert forall|x: u32| (exists|i: int| 0 <= i < r@.len() && r@[i].0 == x) <==> self.active().contains(x) by {
            if ids@.contains(x) {
                let k = choose|k: int| 0 <= k < ids@.len() && ids@[k] == x;
                assert(r@[k].0 == x);
            }
            if exists|i: int| 0 <= i < r@.len() && r@[i].0 == x {
                let k = choose|k: int| 0 <= k < r@.len() && r@[k].0 == x;
                assert(ids@[k] == x);
            }
        }
        r
    }

    /// The spread of draw counts over the active ids.
    pub fn get_max_draw_count_gap(&self) -> (r: u32)
        requires
            self.wf(),
        ensures
            r == self.max_count(self.active()) - self.min_count(self.active()),
    {
        let active = self.active_ids();
        assert(active@[0] == self.all_numbers@[0]);
        let (hi, lo) = self.extremes(&active);
        proof {
            lemma_max_ge_min(self.recs(), active@);
        }
        hi - lo
    }

    /// The candidate pool.
    pub fn candidate_pool(&self) -> (r: Vec<u32>)
        ensures
            r@ == self.pool(),
    {
        self.candidate_pool.clone()
    }

    /// The universe ids in increasing order.
    pub fn numbers(&self) -> (r: Vec<u32>)
        ensures
            r@ == self.universe(),
    {
        self.all_numbers.clone()
    }

    /// The number of completed rounds.
    pub fn current_round(&self) -> (r: u32)
        ensures
            r == self.round(),
    {
        self.current_round
    }

    /// The number of successful draws.
    pub fn total_draws(&self) -> (r: u32)
        ensures
            r == self.total(),
    {
        self.total_draws
    }

    /// The least pool size that backfilling restores.
    pub fn min_pool_size(&self) -> (r: u32)
        ensures
            r == self.min_pool(),
    {
        self.min_pool_size
    }

    /// The spread of draw counts above which outliers are excluded.
    pub fn max_gap_threshold(&self) -> (r: u32)
        ensures
            r == self.max_gap(),
    {
        self.max_gap_threshold
    }

    /// Whether `n` more draws fit the counters.
    pub fn has_headroom(&self, n: u32) -> (r: bool)
        requires
            self.wf_state(),
        ensures
            r == self.headroom(n as int),
    {
        if self.current_round as u64 + n as u64 > 0x7fff_ffff || self.total_draws as u64 + n as u64 > 0xffff_ffff {
            return false;
        }
        let mut k: usize = 0;
        while k < self.records.len()
            invariant
                0 <= k <= self.records@.len(),
                self.wf_state(),
                forall|j: int| 0 <= j < k ==> (#[trigger] self.records@[j]).count + n <= 0xffff_ffff,
            decreases self.records@.len() - k,
        {
            if self.records[k].count as u64 + n as u64 > 0xffff_ffff {
                assert(self.count_of(self.records@[k as int].id) == self.records@[k as int].count) by {
                    let id = self.records@[k as int].id;
                    assert(known_in(self.recs(), id));
                    let i = index_in(self.recs(), id);
                    assert(self.recs()[i].id == self.recs()[k as int].id);
                }
                return false;
            }
            k = k + 1;
        }
        assert forall|x: u32| #[trigger] self.count_of(x) + n <= 0xffff_ffff by {
            if known_in(self.recs(), x) {
                let i = index_in(self.recs(), x);
                assert(self.records@[i].count + n <= 0xffff_ffff);
            }
        }
        true
    }
}

/// The index of the last pair of `pairs` whose key is `x`.
pub open spec fn last_index<V>(pairs: Seq<(u32, V)>, x: u32) -> int {
    choose|i: int|
        0 <= i < pairs.len() && pairs[i].0 == x && forall|j: int| i < j < pairs.len() ==> pairs[j].0 != x
}

/// The value of the last pair of `pairs` whose key is `x`.
pub open spec fn pair_last<V>(pairs: Seq<(u32, V)>, x: u32) -> Option<V> {
    if exists|i: int| 0 <= i < pairs.len() && pairs[i].0 == x {
        Some(pairs[last_index(pairs, x)].1)
    } else {
        None
    }
}

/// Finds the last pair of `pairs` whose key is `x`.
pub(crate) fn find_last<V: Copy>(pairs: &Vec<(u32, V)>, x: u32) -> (r: Option<V>)
    ensures
        r == pair_last(pairs@, x),
{
    let mut i: usize = pairs.len();
    while i > 0
        invariant
            0 <= i <= pairs@.len(),
            forall|j: int| i <= j < pairs@.len() ==> (#[trigger] pairs@[j]).0 != x,
        decreases i,
    {
        i = i - 1;
        if pairs[i].0 == x {
            let ghost k = last_index(pairs@, x);
            assert(0 <= k < pairs@.len() && pairs@[k].0 == x && forall|j: int| k < j < pairs@.len() ==> pairs@[j].0 != x) by {
                assert(pairs@[i as int].0 == x);
            }
            assert(k == i as int) by {
                if k < i as int {
                    assert(pairs@[i as int].0 != x);
                } else if k > i as int {
                    assert(pairs@[k].0 != x);
                }
            }
            return Some(pairs[i].1);
        }
    }
    None
}

impl BalancedRand {
    /// `snap` holds this engine's history, counters, configuration and lists.
    pub open spec fn stored_in(&self, snap: &Snapshot) -> bool {
        &&& snap.draw_counts@ == Seq::new(self.recs().len(), |i: int| (self.recs()[i].id, self.recs()[i].count))
        &&& snap.last_draw_round@ == Seq::new(
            self.recs().len(),
            |i: int| (self.recs()[i].id, self.recs()[i].last_round),
        )
        &&& snap.current_round == self.round()
        &&& snap.total_draws == self.total()
        &&& snap.min_pool_size == self.min_pool()
        &&& snap.max_gap_threshold == self.max_gap()
        &&& snap.blacklist@ == self.black()
        &&& snap.whitelist@ == self.white()
        &&& snap.whitelist_only_mode == self.white_only()
    }

    /// This engine is `old` with `snap` applied: lists, counters and
    /// configuration taken over (the blacklist within the universe, a zero
    /// pool size ignored), and the stored history of every id it knows.
    pub open spec fn applied_from(&self, old: &Self, snap: &Snapshot) -> bool {
        &&& self.wf()
        &&& self.universe() == old.universe()
        &&& forall|x: u32| self.white().contains(x) <==> snap.whitelist@.contains(x)
        &&& forall|x: u32|
            self.black().contains(x) <==> (snap.blacklist@.contains(x) && old.universe().contains(x))
        &&& self.white_only() == snap.whitelist_only_mode
        &&& self.round() == snap.current_round
        &&& self.total() == snap.total_draws
        &&& self.max_gap() == snap.max_gap_threshold
        &&& self.min_pool() == if snap.min_pool_size > 0 { snap.min_pool_size as int } else { old.min_pool() }
        &&& forall|x: u32| old.known(x) ==> self.known(x)
        &&& forall|x: u32|
            #![trigger self.count_of(x)]
            self.count_of(x) == match pair_last(snap.draw_counts@, x) {
                Some(v) => if self.known(x) { v as int } else { old.count_of(x) },
                None => old.count_of(x),
            }
        &&& forall|x: u32|
            #![trigger self.last_round_of(x)]
            self.last_round_of(x) == match pair_last(snap.last_draw_round@, x) {
                Some(v) => if self.known(x) { v as int } else { old.last_round_of(x) },
                None => old.last_round_of(x),
            }
    }

    /// The engine's state as a snapshot of the given kind.
    pub fn to_snapshot(&self, data_type: DataKind, rows: u32, cols: u32) -> (r: Snapshot)
        ensures
            self.stored_in(&r),
            r.data_type == data_type,
            r.rows == rows,
            r.cols == cols,
    {
        let mut counts: Vec<(u32, u32)> = Vec::new();
        let mut rounds: Vec<(u32, i32)> = Vec::new();
        let mut k: usize = 0;
        while k < self.records.len()
            invariant
                0 <= k <= self.recs().len(),
                counts@.len() == k,
                rounds@.len() == k,
                forall|j: int| 0 <= j < k ==> #[trigger] counts@[j] == (self.recs()[j].id, self.recs()[j].count),
                forall|j: int| 0 <= j < k ==> #[trigger] rounds@[j] == (self.recs()[j].id, self.recs()[j].last_round),
            decreases self.recs().len() - k,
        {
            let rec = self.records[k];
            counts.push((rec.id, rec.count));
            rounds.push((rec.id, rec.last_round));
            k = k + 1;
        }
        assert(counts@ =~= Seq::new(self.recs().len(), |i: int| (self.recs()[i].id, self.recs()[i].count)));
        assert(rounds@ =~= Seq::new(self.recs().len(), |i: int| (self.recs()[i].id, self.recs()[i].last_round)));
        Snapshot {
            data_type,
            rows,
            cols,
            draw_counts: counts,
            last_draw_round: rounds,
            current_round: self.current_round,
            total_draws: self.total_draws,
            min_pool_size: self.min_pool_size,
            max_gap_threshold: self.max_gap_threshold,
            blacklist: self.blacklist.clone(),
            whitelist: self.whitelist.clone(),
            whitelist_only_mode: self.whitelist_only_mode,
        }
    }

    /// Takes over a stored snapshot: its lists, counters and configuration,
    /// and the stored history of every id this engine knows once the stored
    /// whitelist is in place. Stored ids it does not know are dropped.
    pub fn apply_snapshot(&mut self, snap: &Snapshot)
        requires
            old(self).wf(),
        ensures
            final(self).applied_from(old(self), snap),
    {
        let mut b: Vec<u32> = Vec::new();
        push_new(&mut b, snap.blacklist.as_slice(), &self.all_numbers, true);
        let mut w: Vec<u32> = Vec::new();
        push_new(&mut w, snap.whitelist.as_slice(), &self.all_numbers, false);
        ensure_known(&mut self.records, &w);
        self.blacklist = b;
        self.whitelist = w;
        self.whitelist_only_mode = snap.whitelist_only_mode;
        self.current_round = snap.current_round;
        self.total_draws = snap.total_draws;
        self.max_gap_threshold = snap.max_gap_threshold;
        if snap.min_pool_size > 0 {
            self.min_pool_size = snap.min_pool_size;
        }
        let ghost r0 = self.records@;
        let ghost mid = *self;
        assert forall|x: u32| old(self).known(x) implies mid.known(x) by {
            assert(known_in(old(self).recs(), x));
        }
        let mut k: usize = 0;
        while k < self.records.len()
            invariant
                0 <= k <= self.records@.len(),
                self.records@.len() == r0.len(),
                r0 == mid.records@,
                self.all_numbers == mid.all_numbers,
                self.blacklist == mid.blacklist,
                self.whitelist == mid.whitelist,
                self.whitelist_only_mode == mid.whitelist_only_mode,
                self.min_pool_size == mid.min_pool_size,
                self.max_gap_threshold == mid.max_gap_threshold,
                self.current_round == mid.current_round,
                self.total_draws == mid.total_draws,
                forall|j: int| 0 <= j < r0.len() ==> (#[trigger] self.records@[j]).id == r0[j].id,
                forall|j: int| k <= j < r0.len() ==> (#[trigger] self.records@[j]) == r0[j],
                forall|j: int|
                    0 <= j < k ==> (#[trigger] self.records@[j]) == (Record {
                        id: r0[j].id,
                        count: match pair_last(snap.draw_counts@, r0[j].id) {
                            Some(v) => v,
                            None => r0[j].count,
                        },
                        last_round: match pair_last(snap.last_draw_round@, r0[j].id) {
                            Some(v) => v,
                            None => r0[j].last_round,
                        },
                    }),
            decreases r0.len() - k,
        {
            let rec = self.records[k];
            let count = match find_last(&snap.draw_counts, rec.id) {
                Some(v) => v,
                None => rec.count,
            };
            let last_round = match find_last(&snap.last_draw_round, rec.id) {
                Some(v) => v,
                None => rec.last_round,
            };
            self.records.set(k, Record { id: rec.id, count, last_round });
            k = k + 1;
        }
        proof {
            let rn = self.records@;
            assert forall|i: int, j: int|
                0 <= i < rn.len() && 0 <= j < rn.len() && (#[trigger] rn[i]).id == (#[trigger] rn[j]).id implies i == j by {
                assert(r0[i].id == r0[j].id);
            }
            assert(unique_ids(rn));
            assert forall|x: u32| known_in(r0, x) implies known_in(rn, x) && index_in(rn, x) == index_in(r0, x) by {
                let i = index_in(r0, x);
                assert(rn[i].id == x);
                let i2 = index_in(rn, x);
                assert(r0[i2].id == x);
            }
            assert forall|x: u32| known_in(rn, x) implies known_in(r0, x) by {
                let i = index_in(rn, x);
                assert(r0[i].id == x);
            }
            assert forall|x: u32| active_of(self.universe(), self.white()).contains(x) implies known_in(self.recs(), x) by {
                mid.lemma_active_contains(x);
                if mid.universe().contains(x) {
                    old(self).lemma_active_contains(x);
                    assert(old(self).known(x));
                }
                assert(known_in(r0, x));
            }
            assert forall|x: u32|
                #![trigger self.count_of(x)]
                #![trigger self.last_round_of(x)]
                self.count_of(x) == match pair_last(snap.draw_counts@, x) {
                    Some(v) => if self.known(x) { v as int } else { old(self).count_of(x) },
                    None => old(self).count_of(x),
                } && self.last_round_of(x) == match pair_last(snap.last_draw_round@, x) {
                    Some(v) => if self.known(x) { v as int } else { old(self).last_round_of(x) },
                    None => old(self).last_round_of(x),
                } by {
                assert(mid.count_of(x) == old(self).count_of(x));
                assert(mid.last_round_of(x) == old(self).last_round_of(x));
                if known_in(r0, x) {
                    let i = index_in(r0, x);
                    assert(rn[i].id == x);
                }
            }
        }
        self.update_candidate_pool();
    }
}

/// Saving an engine and loading the snapshot into another engine over the
/// same universe reproduces the draw count and last draw round of every
/// active id, the round counter and the draw counter.
pub proof fn lemma_save_load_round_trip(e: &BalancedRand, snap: &Snapshot, fresh: &BalancedRand, loaded: &BalancedRand)
    requires
        e.wf(),
        e.stored_in(snap),
        fresh.wf(),
        fresh.universe() == e.universe(),
        loaded.applied_from(fresh, snap),
    ensures
        forall|x: u32|
            #![trigger e.active().contains(x)]
            e.active().contains(x) ==> loaded.count_of(x) == e.count_of(x) && loaded.last_round_of(x)
                == e.last_round_of(x),
        loaded.round() == e.round(),
        loaded.total() == e.total(),
        forall|x: u32| loaded.black().contains(x) <==> e.black().contains(x),
        forall|x: u32| loaded.white().contains(x) <==> e.white().contains(x),
        loaded.white_only() == e.white_only(),
        loaded.min_pool() == e.min_pool(),
        loaded.max_gap() == e.max_gap(),
{
    assert forall|x: u32| #![trigger e.active().contains(x)] e.active().contains(x) implies loaded.count_of(x)
        == e.count_of(x) && loaded.last_round_of(x) == e.last_round_of(x) by {
        assert(known_in(e.recs(), x));
        let k = index_in(e.recs(), x);
        let cs = snap.draw_counts@;
        let rs = snap.last_draw_round@;
        assert(cs[k].0 == x);
        assert(rs[k].0 == x);
        let lc = last_index(cs, x);
        assert(cs[lc].0 == x);
        assert(e.recs()[lc].id == e.recs()[k].id);
        let lr = last_index(rs, x);
        assert(rs[lr].0 == x);
        assert(e.recs()[lr].id == e.recs()[k].id);
        e.lemma_active_contains(x);
        loaded.lemma_active_contains(x);
        if e.universe().contains(x) {
            fresh.lemma_active_contains(x);
            assert(fresh.known(x));
        } else {
            assert(snap.whitelist@.contains(x));
        }
        assert(loaded.known(x));
    }
    assert forall|x: u32| loaded.black().contains(x) <==> e.black().contains(x) by {
    }
}

/// Fresh history for the ids of `u`: never drawn.
fn fresh_records(u: &Vec<u32>) -> (r: Vec<Record>)
    requires
        strictly_sorted(u@),
    ensures
        r@.len() == u@.len(),
        forall|j: int| 0 <= j < r@.len() ==> (#[trigger] r@[j]) == (Record { id: u@[j], count: 0, last_round: -1i32 }),
        forall|i: int, j: int|
            0 <= i < r@.len() && 0 <= j < r@.len() && (#[trigger] r@[i]).id == (#[trigger] r@[j]).id ==> i == j,
        forall|x: u32| count_in(r@, x) == 0 && last_round_in(r@, x) == -1,
{
    let mut r: Vec<Record> = Vec::new();
    let mut i: usize = 0;
    while i < u.len()
        invariant
            0 <= i <= u@.len(),
            strictly_sorted(u@),
            r@.len() == i,
            forall|j: int| 0 <= j < i ==> (#[trigger] r@[j]) == (Record { id: u@[j], count: 0, last_round: -1i32 }),
        decreases u@.len() - i,
    {
        r.push(Record { id: u[i], count: 0, last_round: -1i32 });
        i = i + 1;
    }
    assert forall|i: int, j: int|
        0 <= i < r@.len() && 0 <= j < r@.len() && (#[trigger] r@[i]).id == (#[trigger] r@[j]).id implies i == j by {
        if i < j {
            assert(u@[i] < u@[j]);
        } else if j < i {
            assert(u@[j] < u@[i]);
        }
    }
    assert forall|x: u32| count_in(r@, x) == 0 && last_round_in(r@, x) == -1 by {
        if known_in(r@, x) {
            let k = index_in(r@, x);
            assert(r@[k] == Record { id: u@[k], count: 0, last_round: -1i32 });
        }
    }
    r
}

/// `r` holds each id of `u`.
pub open spec fn covers(r: Seq<Record>, u: Seq<u32>) -> bool {
    forall|x: u32| u.contains(x) ==> known_in(r, x)
}

/// Appends to `s` each id of `ids` that satisfies `keep_it` and is not yet in `s`.
fn push_new(s: &mut Vec<u32>, ids: &[u32], universe: &Vec<u32>, only_universe: bool)
    requires
        old(s)@.no_duplicates(),
    ensures
        final(s)@.no_duplicates(),
        forall|x: u32|
            #![trigger final(s)@.contains(x)]
            final(s)@.contains(x) <==> (old(s)@.contains(x) || (ids@.contains(x) && (!only_universe
                || universe@.contains(x)))),
{
    let ghost s0 = s@;
    let mut i: usize = 0;
    while i < ids.len()
        invariant
            0 <= i <= ids@.len(),
            s@.no_duplicates(),
            forall|x: u32|
                #![trigger s@.contains(x)]
                s@.contains(x) <==> (s0.contains(x) || (ids@.subrange(0, i as int).contains(x)
                    && (!only_universe || universe@.contains(x)))),
        decreases ids@.len() - i,
    {
        let x = ids[i];
        let ghost prev = s@;
        if (!only_universe || vec_contains(universe, x)) && !vec_contains(s, x) {
            s.push(x);
            assert forall|p: int, q: int| 0 <= p < q < s@.len() implies s@[p] != s@[q] by {
                if q == prev.len() {
                    assert(prev.contains(prev[p]));
                }
            }
        }
        assert(ids@.subrange(0, i + 1) =~= ids@.subrange(0, i as int).push(x));
        assert forall|y: u32|
            #![trigger s@.contains(y)]
            s@.contains(y) <==> (s0.contains(y) || (ids@.subrange(0, i + 1).contains(y) && (
            !only_universe || universe@.contains(y)))) by {
            lemma_push_contains(ids@.subrange(0, i as int), x, y);
            lemma_push_contains(prev, x, y);
            assert(prev.contains(y) <==> (s0.contains(y) || (ids@.subrange(0, i as int).contains(y)
                && (!only_universe || universe@.contains(y)))));
            if y == x {
                if s@.len() == prev.len() {
                    assert(s@ == prev);
                }
            }
        }
        i = i + 1;
    }
    assert(ids@.subrange(0, ids@.len() as int) =~= ids@);
}

/// Adds a never-drawn record for each id of `ids` that has none.
fn ensure_known(recs: &mut Vec<Record>, ids: &Vec<u32>)
    requires
        forall|i: int, j: int|
            0 <= i < old(recs)@.len() && 0 <= j < old(recs)@.len() && (#[trigger] old(recs)@[i]).id
                == (#[trigger] old(recs)@[j]).id ==> i == j,
    ensures
        forall|i: int, j: int|
            0 <= i < final(recs)@.len() && 0 <= j < final(recs)@.len() && (#[trigger] final(recs)@[i]).id
                == (#[trigger] final(recs)@[j]).id ==> i == j,
        forall|x: u32| known_in(old(recs)@, x) ==> known_in(final(recs)@, x),
        covers(final(recs)@, ids@),
        forall|x: u32|
            count_in(final(recs)@, x) == count_in(old(recs)@, x) && last_round_in(final(recs)@, x)
                == last_round_in(old(recs)@, x),
{
    let mut i: usize = 0;
    while i < ids.len()
        invariant
            0 <= i <= ids@.len(),
            forall|i: int, j: int|
                0 <= i < recs@.len() && 0 <= j < recs@.len() && (#[trigger] recs@[i]).id == (#[trigger] recs@[j]).id
                    ==> i == j,
            forall|x: u32| known_in(old(recs)@, x) ==> known_in(recs@, x),
            covers(recs@, ids@.subrange(0, i as int)),
            forall|x: u32|
                count_in(recs@, x) == count_in(old(recs)@, x) && last_round_in(recs@, x)
                    == last_round_in(old(recs)@, x),
        decreases ids@.len() - i,
    {
        let x = ids[i];
        let mut found = false;
        let mut k: usize = 0;
        while k < recs.len()
            invariant
                0 <= k <= recs@.len(),
                found ==> known_in(recs@, x),
                !found ==> forall|j: int| 0 <= j < k ==> (#[trigger] recs@[j]).id != x,
            decreases recs@.len() - k,
        {
            if recs[k].id == x {
                assert(recs@[k as int].id == x);
                found = true;
            }
            k = k + 1;
        }
        let ghost prev = recs@;
        if !found {
            recs.push(Record { id: x, count: 0, last_round: -1i32 });
            let ghost n = prev.len() as int;
            assert(recs@[n].id == x);
            assert forall|y: u32| known_in(prev, y) implies known_in(recs@, y) by {
                let j = index_in(prev, y);
                assert(recs@[j] == prev[j]);
            }
            assert forall|y: u32|
                count_in(recs@, y) == count_in(prev, y) && last_round_in(recs@, y) == last_round_in(prev, y) by {
                if known_in(recs@, y) {
                    let j = index_in(recs@, y);
                    if j < n {
                        assert(prev[j] == recs@[j]);
                        assert(known_in(prev, y));
                        let j2 = index_in(prev, y);
                        assert(recs@[j2] == prev[j2]);
                    } else {
                        assert(y == x);
                        if known_in(prev, y) {
                            let j2 = index_in(prev, y);
                            assert(prev[j2].id == x);
                        }
                    }
                } else {
                    if known_in(prev, y) {
                        let j2 = index_in(prev, y);
                        assert(recs@[j2] == prev[j2]);
                    }
                }
            }
        }
        assert(known_in(recs@, x));
        assert(ids@.subrange(0, i + 1) =~= ids@.subrange(0, i as int).push(x));
        assert forall|y: u32| ids@.subrange(0, i + 1).contains(y) implies known_in(recs@, y) by {
            lemma_push_contains(ids@.subrange(0, i as int), x, y);
            if y != x {
                assert(known_in(prev, y));
                let j = index_in(prev, y);
                assert(recs@[j] == prev[j]);
            }
        }
        i = i + 1;
    }
    assert(ids@.subrange(0, ids@.len() as int) =~= ids@);
}

/// Whether `s` holds `x`.
pub fn vec_contains(s: &Vec<u32>, x: u32) -> (r: bool)
    ensures
        r == s@.contains(x),
{
    let mut i: usize = 0;
    while i < s.len()
        invariant
            0 <= i <= s@.len(),
            forall|j: int| 0 <= j < i ==> s@[j] != x,
        decreases s@.len() - i,
    {
        if s[i] == x {
            assert(s@[i as int] == x);
            return true;
        }
        i = i + 1;
    }
    false
}

/// The elements of `s` that do not occur in `t`, in order.
pub fn filter_not_in(s: &Vec<u32>, t: &Vec<u32>) -> (r: Vec<u32>)
    ensures
        r@ == keep(s@, not_in(t@)),
{
    let mut r: Vec<u32> = Vec::new();
    let mut i: usize = 0;
    while i < s.len()
        invariant
            0 <= i <= s@.len(),
            r@ == keep(s@.subrange(0, i as int), not_in(t@)),
        decreases s@.len() - i,
    {
        proof {
            lemma_keep_step(s@, not_in(t@), i as int);
        }
        if !vec_contains(t, s[i]) {
            r.push(s[i]);
        }
        i = i + 1;
    }
    assert(s@.subrange(0, s@.len() as int) =~= s@);
    r
}

} // verus!
