use vstd::prelude::*;
use crate::board::{
    Board, Neighborhood, N_NODES, can_place, first_uncovered, is_complete, is_covered,
    lemma_complete_bit, lemma_cover_bit, lemma_cover_uncover, n_eff, table_ok,
};
use crate::tiles::{Tile, all_fit, fits, lemma_tiles_fit, tiles_for};

verus! {

/// The coverage mask after placing tile `t`.
pub open spec fn cover_tile(d: u64, t: Tile) -> u64 {
    ((d | (1u64 << (t.0 as u64))) | (1u64 << (t.1 as u64))) | (1u64 << (t.2 as u64))
}

/// Number of uncovered nodes below `k`.
pub open spec fn count_uncovered(d: u64, k: nat) -> nat
    decreases k,
{
    if k == 0 {
        0
    } else {
        count_uncovered(d, (k - 1) as nat) + if is_covered(d, k - 1) {
            0nat
        } else {
            1nat
        }
    }
}

/// Number of uncovered nodes of the board.
pub open spec fn n_uncovered(d: u64) -> nat {
    count_uncovered(d, N_NODES as nat)
}

/// Number of complete tilings that the search finds from coverage `d`.
/// When no tile can be placed anywhere, the board counts once if it is
/// complete and not at all otherwise; else the count is summed over the
/// tiles that can cover the lowest uncovered node.
pub open spec fn tiling_count(adj: Seq<Neighborhood>, d: u64) -> nat
    decreases n_uncovered(d), 1nat, 0nat,
{
    if !can_place(adj, d) {
        if is_complete(d) {
            1
        } else {
            0
        }
    } else {
        sum_tiles(adj, d, tiles_for(adj, d, first_uncovered(d, 0) as usize))
    }
}

/// The counts from `d` after placing each tile of `ts`, summed. A tile that
/// would not shrink the uncovered part of the board counts nothing; no
/// generated tile is of that kind.
pub open spec fn sum_tiles(adj: Seq<Neighborhood>, d: u64, ts: Seq<Tile>) -> nat
    decreases n_uncovered(d), 0nat, ts.len(),
{
    if ts.len() == 0 {
        0
    } else {
        let c = cover_tile(d, ts.last());
        sum_tiles(adj, d, ts.drop_last()) + if n_uncovered(c) < n_uncovered(d) {
            tiling_count(adj, c)
        } else {
            0
        }
    }
}

/// A bound on the count from a board with `n` uncovered nodes: nine
/// branches at most for each tile placed.
pub open spec fn branch_bound(n: nat) -> nat
    decreases n,
{
    if n < 3 {
        1
    } else {
        9 * branch_bound((n - 3) as nat)
    }
}

/// Covering an uncovered node `j` leaves one node fewer uncovered below
/// `k` when `j` lies below `k`, and as many otherwise.
proof fn lemma_count_cover(d: u64, j: int, k: nat)
    requires
        0 <= j < N_NODES,
        !is_covered(d, j),
        k <= N_NODES,
    ensures
        count_uncovered(d | (1u64 << (j as u64)), k) + (if j < k {
            1nat
        } else {
            0nat
        }) == count_uncovered(d, k),
    decreases k,
{
    if k > 0 {
        lemma_count_cover(d, j, (k - 1) as nat);
        lemma_cover_bit(d, j as u64, (k - 1) as u64);
    }
}

/// Covering an uncovered node covers it, keeps the other nodes, and leaves
/// one node fewer uncovered.
proof fn lemma_cover_one(d: u64, j: int)
    requires
        0 <= j < N_NODES,
        !is_covered(d, j),
    ensures
        n_uncovered(d | (1u64 << (j as u64))) + 1 == n_uncovered(d),
        forall|i: int|
            0 <= i < 64 ==> (is_covered(d | (1u64 << (j as u64)), i) <==> (is_covered(d, i) || i
                == j)),
        (d | (1u64 << (j as u64))) & !(1u64 << (j as u64)) == d,
{
    lemma_count_cover(d, j, N_NODES as nat);
    assert forall|i: int| 0 <= i < 64 implies (is_covered(d | (1u64 << (j as u64)), i) <==> (
    is_covered(d, i) || i == j)) by {
        lemma_cover_bit(d, j as u64, i as u64);
    }
    lemma_cover_uncover(d, j as u64);
}

/// Placing a tile that fits leaves three nodes fewer uncovered, and taking
/// its nodes off again in reverse order gives the coverage back.
pub proof fn lemma_cover_tile(d: u64, t: Tile)
    requires
        fits(d, t),
    ensures
        n_uncovered(cover_tile(d, t)) + 3 == n_uncovered(d),
        forall|i: int|
            0 <= i < 64 ==> (is_covered(cover_tile(d, t), i) <==> (is_covered(d, i) || i == t.0
                || i == t.1 || i == t.2)),
        ((cover_tile(d, t) & !(1u64 << (t.2 as u64))) & !(1u64 << (t.1 as u64))) & !(1u64 << (
        t.0 as u64)) == d,
{
    let d1 = d | (1u64 << (t.0 as u64));
    let d2 = d1 | (1u64 << (t.1 as u64));
    lemma_cover_one(d, t.0 as int);
    lemma_cover_one(d1, t.1 as int);
    lemma_cover_one(d2, t.2 as int);
}

/// The lowest uncovered node at or after `from` lies at or before any
/// uncovered node `j` from there on.
proof fn lemma_first_uncovered(d: u64, from: int, j: int)
    requires
        0 <= from <= j < N_NODES,
        !is_covered(d, j),
    ensures
        from <= first_uncovered(d, from) <= j,
        !is_covered(d, first_uncovered(d, from)),
    decreases j - from,
{
    if is_covered(d, from) {
        lemma_first_uncovered(d, from + 1, j);
    }
}

/// When a tile can still be placed, the lowest uncovered node is a node of
/// the board.
pub proof fn lemma_pick(adj: Seq<Neighborhood>, d: u64)
    requires
        can_place(adj, d),
    ensures
        0 <= first_uncovered(d, 0) < N_NODES,
        !is_covered(d, first_uncovered(d, 0)),
{
    let i = choose|i: int| 0 <= i < N_NODES && #[trigger] n_eff(adj, d, i) >= 2;
    lemma_first_uncovered(d, 0, i);
}

/// The sum over a prefix of the tiles, one tile longer.
pub(crate) proof fn lemma_sum_step(adj: Seq<Neighborhood>, d: u64, ts: Seq<Tile>, i: int)
    requires
        0 <= i < ts.len(),
    ensures
        sum_tiles(adj, d, ts.take(i + 1)) == sum_tiles(adj, d, ts.take(i)) + if n_uncovered(
            cover_tile(d, ts[i]),
        ) < n_uncovered(d) {
            tiling_count(adj, cover_tile(d, ts[i]))
        } else {
            0
        },
{
    assert(ts.take(i + 1).drop_last() =~= ts.take(i));
    assert(ts.take(i + 1).last() == ts[i]);
}

/// The sum over a prefix of the tiles is at most the sum over all of them.
proof fn lemma_sum_prefix(adj: Seq<Neighborhood>, d: u64, ts: Seq<Tile>, i: int)
    requires
        0 <= i <= ts.len(),
    ensures
        sum_tiles(adj, d, ts.take(i)) <= sum_tiles(adj, d, ts),
    decreases ts.len(),
{
    if i < ts.len() {
        lemma_sum_prefix(adj, d, ts.drop_last(), i);
        assert(ts.drop_last().take(i) =~= ts.take(i));
    } else {
        assert(ts.take(i) =~= ts);
    }
}

/// The bound is never zero.
proof fn lemma_branch_bound_pos(n: nat)
    ensures
        branch_bound(n) >= 1,
    decreases n,
{
    if n >= 3 {
        lemma_branch_bound_pos((n - 3) as nat);
    }
}

/// The bound grows with the number of uncovered nodes.
proof fn lemma_branch_bound_mono(n: nat, m: nat)
    requires
        n <= m,
    ensures
        branch_bound(n) <= branch_bound(m),
    decreases m,
{
    lemma_branch_bound_pos(n);
    if m >= 3 {
        lemma_branch_bound_pos((m - 3) as nat);
        if n >= 3 {
            lemma_branch_bound_mono((n - 3) as nat, (m - 3) as nat);
        }
    }
}

/// Summing over tiles that all fit gives at most the bound one level down
/// for each tile.
proof fn lemma_sum_bound(adj: Seq<Neighborhood>, d: u64, ts: Seq<Tile>, pick: usize)
    requires
        table_ok(adj),
        all_fit(adj, d, pick, ts),
    ensures
        ts.len() > 0 ==> n_uncovered(d) >= 3,
        sum_tiles(adj, d, ts) <= ts.len() * branch_bound((n_uncovered(d) - 3) as nat),
    decreases n_uncovered(d), 0nat, ts.len(),
{
    if ts.len() > 0 {
        let t = ts.last();
        let rest = ts.drop_last();
        assert(fits(d, ts[ts.len() - 1]));
        lemma_cover_tile(d, t);
        lemma_count_bound(adj, cover_tile(d, t));
        assert forall|i: int| 0 <= i < rest.len() implies fits(d, #[trigger] rest[i])
            && crate::tiles::tile_shape(adj, pick, rest[i]) by {
            assert(rest[i] == ts[i]);
        }
        lemma_sum_bound(adj, d, rest, pick);
        let b = branch_bound((n_uncovered(d) - 3) as nat);
        let l = rest.len();
        assert(l * b + b == (l + 1) * b) by (nonlinear_arith);
    }
}

/// The count from any coverage is at most `branch_bound` of the number of
/// uncovered nodes.
proof fn lemma_count_bound(adj: Seq<Neighborhood>, d: u64)
    requires
        table_ok(adj),
    ensures
        tiling_count(adj, d) <= branch_bound(n_uncovered(d)),
    decreases n_uncovered(d), 1nat, 0nat,
{
    lemma_branch_bound_pos(n_uncovered(d));
    if can_place(adj, d) {
        lemma_pick(adj, d);
        let pick = first_uncovered(d, 0) as usize;
        let ts = tiles_for(adj, d, pick);
        lemma_tiles_fit(adj, d, pick);
        lemma_sum_bound(adj, d, ts, pick);
        if ts.len() > 0 {
            let b = branch_bound((n_uncovered(d) - 3) as nat);
            let l = ts.len();
            assert(l * b <= 9 * b) by (nonlinear_arith)
                requires
                    l <= 9,
            ;
        }
    }
}

/// No count exceeds nine to the eighteenth power.
pub proof fn lemma_count_fits(adj: Seq<Neighborhood>, d: u64)
    requires
        table_ok(adj),
    ensures
        tiling_count(adj, d) <= 150094635296999121,
{
    lemma_count_bound(adj, d);
    assert(count_uncovered(d, N_NODES as nat) <= N_NODES) by {
        lemma_count_at_most(d, N_NODES as nat);
    }
    lemma_branch_bound_mono(n_uncovered(d), 54);
    reveal_with_fuel(branch_bound, 19);
    assert(branch_bound(54) == 150094635296999121);
}

/// At most `k` nodes below `k` are uncovered.
proof fn lemma_count_at_most(d: u64, k: nat)
    ensures
        count_uncovered(d, k) <= k,
    decreases k,
{
    if k > 0 {
        lemma_count_at_most(d, (k - 1) as nat);
    }
}

impl Board {
    /// Counts the tilings of the uncovered part of the board by recursive
    /// backtracking, and leaves the coverage as it found it.
    pub fn count_tilings(&mut self) -> (r: u64)
        requires
            old(self).wf(),
        ensures
            *final(self) == *old(self),
            r == tiling_count(old(self).neighborhoods@, old(self).deleted),
        decreases n_uncovered(old(self).deleted),
    {
        let ghost adj = self.neighborhoods@;
        let ghost d0 = self.deleted;
        proof {
            lemma_count_fits(adj, d0);
        }
        if !self.placement_possible() {
            return if self.is_complete() {
                1
            } else {
                0
            };
        }
        proof {
            lemma_pick(adj, d0);
        }
        let pick = self.lowest_uncovered();
        let tiles = self.distinct_tiles(pick);
        let mut ct: u64 = 0;
        let mut t: usize = 0;
        while t < tiles.len()
            invariant
                self.neighborhoods@ == adj,
                *self == *old(self),
                self.deleted == d0,
                self.wf(),
                pick < N_NODES,
                tiles@ == tiles_for(adj, d0, pick),
                all_fit(adj, d0, pick, tiles@),
                can_place(adj, d0),
                pick == first_uncovered(d0, 0),
                t <= tiles.len(),
                ct == sum_tiles(adj, d0, tiles@.take(t as int)),
                tiling_count(adj, d0) <= 150094635296999121,
            decreases tiles.len() - t,
        {
            let tile = tiles[t];
            assert(fits(d0, tiles@[t as int]));
            proof {
                lemma_cover_tile(d0, tile);
            }
            self.delete(tile.0);
            self.delete(tile.1);
            self.delete(tile.2);
            let c = self.count_tilings();
            proof {
                lemma_sum_step(adj, d0, tiles@, t as int);
                lemma_sum_prefix(adj, d0, tiles@, t as int + 1);
                assert(tiles@.take(tiles.len() as int) =~= tiles@);
            }
            ct = ct + c;
            self.undelete(tile.2);
            self.undelete(tile.1);
            self.undelete(tile.0);
            t = t + 1;
        }
        proof {
            assert(tiles@.take(tiles.len() as int) =~= tiles@);
        }
        ct
    }
}

/// The count depends on nothing but the table and the coverage: two boards
/// that agree on both give the same count.
pub proof fn lemma_count_determined(a: Board, b: Board)
    requires
        a.neighborhoods@ == b.neighborhoods@,
        a.deleted == b.deleted,
    ensures
        tiling_count(a.neighborhoods@, a.deleted) == tiling_count(b.neighborhoods@, b.deleted),
{
}

/// A board that is already fully covered admits no tile and counts once.
pub proof fn lemma_complete_counts_one(adj: Seq<Neighborhood>, d: u64)
    requires
        table_ok(adj),
        is_complete(d),
    ensures
        !can_place(adj, d),
        tiling_count(adj, d) == 1,
{
    assert forall|i: int| 0 <= i < N_NODES implies #[trigger] n_eff(adj, d, i) == 0 by {
        lemma_complete_bit(d, i as u64);
    }
}

/// A board on which a single node is left uncovered counts nothing: that
/// node has no uncovered neighbour, and the board is not complete.
pub proof fn lemma_dead_end(adj: Seq<Neighborhood>, d: u64, i: int)
    requires
        table_ok(adj),
        0 <= i < N_NODES,
        !is_covered(d, i),
        forall|j: int| 0 <= j < N_NODES && j != i ==> is_covered(d, j),
    ensures
        n_eff(adj, d, i) == 0,
        !is_complete(d),
        tiling_count(adj, d) == 0,
{
    assert forall|x: int| 0 <= x < N_NODES implies #[trigger] n_eff(adj, d, x) == 0 by {
        if x == i {
            assert(crate::board::row_ok(adj[i], i));
            assert(adj[i]@[0] == crate::board::slot(adj, i, 0));
            assert(adj[i]@[1] == crate::board::slot(adj, i, 1));
            assert(adj[i]@[2] == crate::board::slot(adj, i, 2));
        }
    }
    lemma_complete_bit(d, i as u64);
}

} // verus!
