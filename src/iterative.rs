use vstd::prelude::*;
use crate::board::{Board, Neighborhood, can_place, first_uncovered, is_complete, table_ok};
use crate::search::{
    cover_tile, lemma_count_fits, lemma_cover_tile, lemma_pick, lemma_sum_step, n_uncovered,
    sum_tiles, tiling_count,
};
use crate::stack::{Action, Frame, Stack};
use crate::tiles::{Tile, all_fit, fits, lemma_tiles_fit, tiles_for};

verus! {

/// The tiles tried from coverage `d`: those that can cover its lowest
/// uncovered node, or none when no tile can be placed anywhere.
pub open spec fn level_tiles(adj: Seq<Neighborhood>, d: u64) -> Seq<Tile> {
    if can_place(adj, d) {
        tiles_for(adj, d, first_uncovered(d, 0) as usize)
    } else {
        seq![]
    }
}

/// One level of the explicit search: the coverage there, how many of its
/// tiles still wait on the stack, and the tile placed to reach it.
pub type Level = (u64, nat, Tile);

/// An `Apply` frame for each tile, in order.
pub open spec fn apply_frames(ts: Seq<Tile>) -> Seq<Frame> {
    ts.map_values(|t: Tile| Frame { action: Action::Apply, tile: t })
}

/// The frames on the stack while the search stands at `levels`: for each
/// level above the first, the `Undo` frame of the tile that reached it,
/// followed by the level's waiting tiles.
pub open spec fn frames_of(adj: Seq<Neighborhood>, levels: Seq<Level>) -> Seq<Frame>
    decreases levels.len(),
{
    if levels.len() == 0 {
        seq![]
    } else {
        let l = levels.last();
        frames_of(adj, levels.drop_last()) + (if levels.len() > 1 {
            seq![Frame { action: Action::Undo, tile: l.2 }]
        } else {
            seq![]
        }) + apply_frames(level_tiles(adj, l.0).take(l.1 as int))
    }
}

/// The tilings still to be found below the waiting tiles of `levels`.
pub open spec fn pending(adj: Seq<Neighborhood>, levels: Seq<Level>) -> nat
    decreases levels.len(),
{
    if levels.len() == 0 {
        0
    } else {
        let l = levels.last();
        pending(adj, levels.drop_last()) + sum_tiles(adj, l.0, level_tiles(adj, l.0).take(l.1 as int))
    }
}

/// Fourteen to the power `e`.
pub open spec fn pow14(e: nat) -> nat
    decreases e,
{
    if e == 0 {
        1
    } else {
        14 * pow14((e - 1) as nat)
    }
}

/// A measure of the work left: each frame weighs fourteen to the power of a
/// third of the number of uncovered nodes at its level.
pub open spec fn weight(levels: Seq<Level>) -> nat
    decreases levels.len(),
{
    if levels.len() == 0 {
        0
    } else {
        let l = levels.last();
        weight(levels.drop_last()) + (l.1 + if levels.len() > 1 {
            1nat
        } else {
            0nat
        }) * pow14(n_uncovered(l.0) / 3)
    }
}

/// Each level is reached from the one below by a tile that fits there, and
/// waits on no more tiles than it has.
pub open spec fn chain_ok(adj: Seq<Neighborhood>, levels: Seq<Level>) -> bool {
    &&& forall|i: int|
        0 < i < levels.len() ==> fits(levels[i - 1].0, #[trigger] levels[i].2) && levels[i].0
            == cover_tile(levels[i - 1].0, levels[i].2)
    &&& forall|i: int| 0 <= i < levels.len() ==> #[trigger] levels[i].1 <= level_tiles(adj, levels[i].0).len()
}

/// Every power of fourteen is positive.
proof fn lemma_pow14_pos(e: nat)
    ensures
        pow14(e) >= 1,
    decreases e,
{
    if e > 0 {
        lemma_pow14_pos((e - 1) as nat);
    }
}

/// The tiles of a level all fit there, and there are at most nine.
proof fn lemma_level_tiles(adj: Seq<Neighborhood>, d: u64)
    requires
        table_ok(adj),
    ensures
        level_tiles(adj, d).len() <= 9,
        forall|j: int| 0 <= j < level_tiles(adj, d).len() ==> fits(d, #[trigger] level_tiles(adj, d)[j]),
{
    if can_place(adj, d) {
        lemma_pick(adj, d);
        let pick = first_uncovered(d, 0) as usize;
        lemma_tiles_fit(adj, d, pick);
        assert(all_fit(adj, d, pick, level_tiles(adj, d)));
    }
}

/// Pushes an `Apply` frame for each tile, in order.
fn push_applies(stack: &mut Stack, tiles: &Vec<Tile>)
    ensures
        final(stack)@ == old(stack)@ + apply_frames(tiles@),
{
    let ghost s0 = stack@;
    let mut t: usize = 0;
    while t < tiles.len()
        invariant
            t <= tiles.len(),
            stack@ == s0 + apply_frames(tiles@.take(t as int)),
        decreases tiles.len() - t,
    {
        stack.push(Frame { action: Action::Apply, tile: tiles[t] });
        assert(apply_frames(tiles@.take(t as int + 1)) =~= apply_frames(tiles@.take(t as int)).push(
            Frame { action: Action::Apply, tile: tiles@[t as int] },
        ));
        t = t + 1;
    }
    assert(tiles@.take(tiles.len() as int) =~= tiles@);
}

impl Board {
    /// The first step of the search at the current coverage: when no tile
    /// can be placed, counts the board if it is complete; otherwise pushes an
    /// `Apply` frame for each tile that can cover the lowest uncovered node.
    fn expand(&self, ct: &mut u64, stack: &mut Stack)
        requires
            self.wf(),
            *old(ct) <= 150094635296999121,
        ensures
            final(stack)@ == old(stack)@ + apply_frames(level_tiles(self.neighborhoods@, self.deleted)),
            *final(ct) == *old(ct) + if !can_place(self.neighborhoods@, self.deleted) && is_complete(
                self.deleted,
            ) {
                1nat
            } else {
                0nat
            },
    {
        if !self.placement_possible() {
            if self.is_complete() {
                *ct = *ct + 1;
            }
            assert(stack@ =~= old(stack)@ + apply_frames(level_tiles(self.neighborhoods@, self.deleted)));
            return;
        }
        proof {
            lemma_pick(self.neighborhoods@, self.deleted);
        }
        let pick = self.lowest_uncovered();
        let tiles = self.distinct_tiles(pick);
        push_applies(stack, &tiles);
    }
}

/// The level list with one tile fewer waiting at the top level.
pub open spec fn lower_top(levels: Seq<Level>) -> Seq<Level> {
    let l = levels.last();
    levels.update(levels.len() - 1, (l.0, (l.1 - 1) as nat, l.2))
}

/// A search that stands at a single level.
proof fn lemma_one_level(adj: Seq<Neighborhood>, x: Level)
    ensures
        frames_of(adj, seq![x]) == apply_frames(level_tiles(adj, x.0).take(x.1 as int)),
        pending(adj, seq![x]) == sum_tiles(adj, x.0, level_tiles(adj, x.0).take(x.1 as int)),
{
    let ls = seq![x];
    assert(ls.drop_last() =~= Seq::<Level>::empty());
    assert(ls.last() == x);
    assert(frames_of(adj, Seq::<Level>::empty()) == Seq::<Frame>::empty());
    assert(pending(adj, Seq::<Level>::empty()) == 0);
    assert(frames_of(adj, ls) =~= apply_frames(level_tiles(adj, x.0).take(x.1 as int)));
}

/// What lies on top of the stack: the last waiting tile of the top level,
/// or, when that level waits on none, the `Undo` frame that reached it.
proof fn lemma_top(adj: Seq<Neighborhood>, levels: Seq<Level>)
    requires
        levels.len() >= 1,
        chain_ok(adj, levels),
        frames_of(adj, levels).len() > 0,
    ensures
        ({
            let l = levels.last();
            let ts = level_tiles(adj, l.0);
            &&& l.1 > 0 ==> frames_of(adj, levels) == frames_of(adj, lower_top(levels)).push(
                Frame { action: Action::Apply, tile: ts[l.1 - 1] },
            )
            &&& l.1 == 0 ==> levels.len() > 1 && frames_of(adj, levels) == frames_of(
                adj,
                levels.drop_last(),
            ).push(Frame { action: Action::Undo, tile: l.2 })
        }),
{
    let l = levels.last();
    let ts = level_tiles(adj, l.0);
    assert(l.1 <= ts.len());
    if l.1 > 0 {
        let m = l.1 as int;
        let lower = lower_top(levels);
        assert(lower.drop_last() =~= levels.drop_last());
        assert(lower.last() == (l.0, (l.1 - 1) as nat, l.2));
        assert(apply_frames(ts.take(m)) =~= apply_frames(ts.take(m - 1)).push(
            Frame { action: Action::Apply, tile: ts[m - 1] },
        ));
        assert(frames_of(adj, levels) =~= frames_of(adj, lower).push(
            Frame { action: Action::Apply, tile: ts[m - 1] },
        ));
    } else {
        assert(ts.take(0) =~= Seq::<Tile>::empty());
        assert(apply_frames(ts.take(0)) =~= Seq::<Frame>::empty());
        if levels.len() == 1 {
            assert(levels.drop_last() =~= Seq::<Level>::empty());
            assert(frames_of(adj, Seq::<Level>::empty()) == Seq::<Frame>::empty());
            assert(frames_of(adj, levels) =~= Seq::<Frame>::empty());
        }
        assert(frames_of(adj, levels) =~= frames_of(adj, levels.drop_last()).push(
            Frame { action: Action::Undo, tile: l.2 },
        ));
    }
}

/// Trying the last waiting tile of the top level opens a level above it;
/// the count is kept, and the measure drops.
#[verifier::rlimit(60)]
proof fn lemma_apply_step(adj: Seq<Neighborhood>, levels: Seq<Level>)
    requires
        table_ok(adj),
        levels.len() >= 1,
        chain_ok(adj, levels),
        levels.last().1 > 0,
    ensures
        ({
            let l = levels.last();
            let tile = level_tiles(adj, l.0)[l.1 - 1];
            let dn = cover_tile(l.0, tile);
            let next = lower_top(levels).push((dn, level_tiles(adj, dn).len(), tile));
            &&& fits(l.0, tile)
            &&& chain_ok(adj, next)
            &&& next.len() >= 1 && next[0].0 == levels[0].0 && next.last().0 == dn
            &&& frames_of(adj, next) == frames_of(adj, lower_top(levels)).push(
                Frame { action: Action::Undo, tile },
            ) + apply_frames(level_tiles(adj, dn))
            &&& pending(adj, levels) == pending(adj, next) + if !can_place(adj, dn) && is_complete(
                dn,
            ) {
                1nat
            } else {
                0nat
            }
            &&& weight(next) < weight(levels)
        }),
{
    let k = levels.len() - 1;
    let l = levels.last();
    let ts = level_tiles(adj, l.0);
    let m = l.1 as int;
    let tile = ts[m - 1];
    let dn = cover_tile(l.0, tile);
    let lower = lower_top(levels);
    let tn = level_tiles(adj, dn);
    let next = lower.push((dn, tn.len(), tile));
    lemma_level_tiles(adj, l.0);
    lemma_level_tiles(adj, dn);
    assert(fits(l.0, tile));
    lemma_cover_tile(l.0, tile);
    assert(next.drop_last() =~= lower);
    assert(lower.drop_last() =~= levels.drop_last());
    assert(lower.last() == (l.0, (l.1 - 1) as nat, l.2));
    assert(next.last() == (dn, tn.len(), tile));
    assert(tn.take(tn.len() as int) =~= tn);
    assert(frames_of(adj, next) =~= frames_of(adj, lower).push(Frame { action: Action::Undo, tile })
        + apply_frames(tn));
    lemma_sum_step(adj, l.0, ts, m - 1);
    assert(ts.take(m - 1 + 1) =~= ts.take(m));
    assert forall|i: int| 0 < i < next.len() implies fits(next[i - 1].0, #[trigger] next[i].2)
        && next[i].0 == cover_tile(next[i - 1].0, next[i].2) by {
        if i < k {
            assert(next[i] == levels[i]);
            assert(next[i - 1] == levels[i - 1]);
        } else if i == k {
            assert(next[i - 1] == levels[i - 1]);
        }
    }
    assert forall|i: int| 0 <= i < next.len() implies #[trigger] next[i].1 <= level_tiles(
        adj,
        next[i].0,
    ).len() by {
        if i < k {
            assert(next[i] == levels[i]);
        }
    }
    let p = pow14(n_uncovered(dn) / 3);
    lemma_pow14_pos(n_uncovered(dn) / 3);
    assert(n_uncovered(l.0) / 3 == n_uncovered(dn) / 3 + 1);
    assert(pow14(n_uncovered(l.0) / 3) == 14 * p);
    let c: int = if levels.len() > 1 {
        1
    } else {
        0
    };
    let len = tn.len() as int;
    assert((m + c) * (14 * p) == (m - 1 + c) * (14 * p) + 14 * p) by (nonlinear_arith);
    assert((len + 1) * p < 14 * p) by (nonlinear_arith)
        requires
            len <= 9,
            p >= 1,
    ;
    assert(fits(l.0, tile));
    assert(chain_ok(adj, next));
    assert(next.len() >= 1 && next[0].0 == levels[0].0 && next.last().0 == dn);
    assert(frames_of(adj, next) == frames_of(adj, lower).push(Frame { action: Action::Undo, tile })
        + apply_frames(tn));
    assert(levels.last() == levels[k]);
    assert(pending(adj, levels) == pending(adj, levels.drop_last()) + sum_tiles(adj, l.0, ts.take(m)));
    assert(pending(adj, lower) == pending(adj, levels.drop_last()) + sum_tiles(
        adj,
        l.0,
        ts.take(m - 1),
    ));
    assert(pending(adj, next) == pending(adj, lower) + sum_tiles(adj, dn, tn));
    assert(n_uncovered(dn) < n_uncovered(l.0));
    if !can_place(adj, dn) {
        assert(sum_tiles(adj, dn, tn) == 0);
    }
    assert(tiling_count(adj, dn) == sum_tiles(adj, dn, tn) + if !can_place(adj, dn) && is_complete(
        dn,
    ) {
        1nat
    } else {
        0nat
    });
    assert(pending(adj, levels) == pending(adj, next) + if !can_place(adj, dn) && is_complete(dn) {
        1nat
    } else {
        0nat
    });
    assert(weight(levels) == weight(levels.drop_last()) + (m + c) * (14 * p));
    assert(weight(lower) == weight(lower.drop_last()) + (m - 1 + c) * (14 * p));
    assert(weight(next) == weight(lower) + (len + 1) * p);
    assert(weight(next) < weight(levels));
}

/// Taking off the `Undo` frame of a level that waits on no tile closes
/// that level; the count is kept, and the measure drops.
proof fn lemma_undo_step(adj: Seq<Neighborhood>, levels: Seq<Level>)
    requires
        levels.len() > 1,
        chain_ok(adj, levels),
        levels.last().1 == 0,
    ensures
        chain_ok(adj, levels.drop_last()),
        pending(adj, levels.drop_last()) == pending(adj, levels),
        weight(levels.drop_last()) < weight(levels),
        levels.drop_last()[0] == levels[0],
        fits(levels.drop_last().last().0, levels.last().2),
        levels.last().0 == cover_tile(levels.drop_last().last().0, levels.last().2),
{
    let k = levels.len() - 1;
    let l = levels.last();
    let prev = levels.drop_last();
    assert(level_tiles(adj, l.0).take(0) =~= Seq::<Tile>::empty());
    lemma_pow14_pos(n_uncovered(l.0) / 3);
    assert(prev.last() == levels[k - 1]);
    assert(levels[k] == l);
    let p = pow14(n_uncovered(l.0) / 3);
    let w = l.1;
    assert((w + 1) * p == p) by (nonlinear_arith)
        requires
            w == 0,
    ;
    assert forall|i: int| 0 < i < prev.len() implies fits(prev[i - 1].0, #[trigger] prev[i].2)
        && prev[i].0 == cover_tile(prev[i - 1].0, prev[i].2) by {
        assert(prev[i] == levels[i]);
        assert(prev[i - 1] == levels[i - 1]);
    }
    assert forall|i: int| 0 <= i < prev.len() implies #[trigger] prev[i].1 <= level_tiles(
        adj,
        prev[i].0,
    ).len() by {
        assert(prev[i] == levels[i]);
    }
}

impl Board {
    /// Counts the tilings of the uncovered part of the board with a stack of
    /// frames in place of recursion, and leaves the coverage as it found it.
    /// The count is the one that `count_tilings` gives.
    #[verifier::rlimit(40)]
    pub fn count_tilings_with_stack(&mut self) -> (r: u64)
        requires
            old(self).wf(),
        ensures
            *final(self) == *old(self),
            r == tiling_count(old(self).neighborhoods@, old(self).deleted),
    {
        let ghost adj = self.neighborhoods@;
        let ghost d0 = self.deleted;
        proof {
            lemma_count_fits(adj, d0);
        }
        let mut ct: u64 = 0;
        let mut stack = Stack::new();
        self.expand(&mut ct, &mut stack);
        let ghost mut levels: Seq<Level> = seq![(d0, level_tiles(adj, d0).len(), (0usize, 0usize, 0usize))];
        proof {
            let ts = level_tiles(adj, d0);
            lemma_one_level(adj, levels[0]);
            assert(levels[0] == (d0, ts.len(), (0usize, 0usize, 0usize)));
            assert(ts.take(ts.len() as int) =~= ts);
            assert(stack@ =~= frames_of(adj, levels));
            assert(levels.last() == levels[0]);
        }
        while !stack.is_empty()
            invariant
                self.neighborhoods == old(self).neighborhoods,
                self.neighborhoods@ == adj,
                self.wf(),
                levels.len() >= 1,
                levels[0].0 == d0,
                chain_ok(adj, levels),
                self.deleted == levels.last().0,
                stack@ == frames_of(adj, levels),
                ct + pending(adj, levels) == tiling_count(adj, d0),
                tiling_count(adj, d0) <= 150094635296999121,
            decreases weight(levels),
        {
            let ghost l = levels.last();
            let ghost ts = level_tiles(adj, l.0);
            proof {
                lemma_top(adj, levels);
            }
            let frame = stack.pop().unwrap();
            let tile = frame.tile;
            match frame.action {
                Action::Apply => {
                    proof {
                        lemma_apply_step(adj, levels);
                        lemma_cover_tile(l.0, tile);
                    }
                    self.delete(tile.0);
                    self.delete(tile.1);
                    self.delete(tile.2);
                    stack.push(Frame { action: Action::Undo, tile });
                    self.expand(&mut ct, &mut stack);
                    proof {
                        levels = lower_top(levels).push(
                            (self.deleted, level_tiles(adj, self.deleted).len(), tile),
                        );
                    }
                },
                Action::Undo => {
                    proof {
                        lemma_undo_step(adj, levels);
                        lemma_cover_tile(levels.drop_last().last().0, tile);
                    }
                    self.undelete(tile.2);
                    self.undelete(tile.1);
                    self.undelete(tile.0);
                    proof {
                        levels = levels.drop_last();
                    }
                },
            }
        }
        proof {
            if levels.len() > 1 {
                lemma_top(adj, levels);
                assert(frames_of(adj, levels).len() > 0);
            }
            assert(levels =~= seq![levels[0]]);
            lemma_one_level(adj, levels[0]);
            assert(level_tiles(adj, d0).take(0) =~= Seq::<Tile>::empty());
        }
        ct
    }
}

} // verus!
