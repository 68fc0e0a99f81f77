use vstd::prelude::*;
use crate::board::{Board, Neighborhood, N_NODES, eff_slot, is_covered, slot, table_ok};

verus! {

/// Three nodes covered together by one tile.
pub type Tile = (usize, usize, usize);

/// The tile `{n, pick, o}` in which `pick` is the middle, when `o` is an
/// uncovered neighbour above `n`.
pub open spec fn middle_tile(n: usize, pick: usize, o: Option<usize>) -> Seq<Tile> {
    match o {
        Some(m) => if n < m {
            seq![(n, pick, m)]
        } else {
            seq![]
        },
        None => seq![],
    }
}

/// The tile `{pick, n, m}` in which `pick` is an end, when `m` is an
/// uncovered neighbour of `n` other than `pick`.
pub open spec fn end_tile(pick: usize, n: usize, o: Option<usize>) -> Seq<Tile> {
    match o {
        Some(m) => if m != pick {
            seq![(pick, n, m)]
        } else {
            seq![]
        },
        None => seq![],
    }
}

/// Tiles with `pick` in the middle and `n` as their lower end.
pub open spec fn middle_tiles(adj: Seq<Neighborhood>, d: u64, pick: usize, n: usize) -> Seq<Tile> {
    middle_tile(n, pick, eff_slot(adj, d, pick as int, 0)) + middle_tile(
        n,
        pick,
        eff_slot(adj, d, pick as int, 1),
    ) + middle_tile(n, pick, eff_slot(adj, d, pick as int, 2))
}

/// Tiles with `pick` at one end and `n` in the middle.
pub open spec fn end_tiles(adj: Seq<Neighborhood>, d: u64, pick: usize, n: usize) -> Seq<Tile> {
    end_tile(pick, n, eff_slot(adj, d, n as int, 0)) + end_tile(
        pick,
        n,
        eff_slot(adj, d, n as int, 1),
    ) + end_tile(pick, n, eff_slot(adj, d, n as int, 2))
}

/// Tiles that reach `pick` through slot `k` of its effective neighbourhood.
pub open spec fn slot_tiles(adj: Seq<Neighborhood>, d: u64, pick: usize, k: int) -> Seq<Tile> {
    match eff_slot(adj, d, pick as int, k) {
        Some(n) => middle_tiles(adj, d, pick, n) + end_tiles(adj, d, pick, n),
        None => seq![],
    }
}

/// Every tile that can cover `pick` under coverage `d`, in generation order.
pub open spec fn tiles_for(adj: Seq<Neighborhood>, d: u64, pick: usize) -> Seq<Tile> {
    slot_tiles(adj, d, pick, 0) + slot_tiles(adj, d, pick, 1) + slot_tiles(adj, d, pick, 2)
}

/// Node `b` is among the table neighbours of node `a`.
pub open spec fn adjacent(adj: Seq<Neighborhood>, a: int, b: int) -> bool {
    exists|k: int| 0 <= k < 3 && #[trigger] slot(adj, a, k) == Some(b as usize)
}

/// Three distinct uncovered nodes of the board.
pub open spec fn fits(d: u64, t: Tile) -> bool {
    &&& t.0 < N_NODES && t.1 < N_NODES && t.2 < N_NODES
    &&& t.0 != t.1 && t.1 != t.2 && t.0 != t.2
    &&& !is_covered(d, t.0 as int) && !is_covered(d, t.1 as int) && !is_covered(d, t.2 as int)
}

/// `t` is a path through `pick` of one of the two admissible shapes: `pick`
/// in the middle between two neighbours in rising order, or `pick` at one
/// end followed by a neighbour and a neighbour of that one.
pub open spec fn tile_shape(adj: Seq<Neighborhood>, pick: usize, t: Tile) -> bool {
    ||| (t.1 == pick && t.0 < t.2 && adjacent(adj, pick as int, t.0 as int) && adjacent(
        adj,
        pick as int,
        t.2 as int,
    ))
    ||| (t.0 == pick && adjacent(adj, pick as int, t.1 as int) && adjacent(
        adj,
        t.1 as int,
        t.2 as int,
    ))
}

/// Every tile of `s` covers three distinct uncovered nodes and has an
/// admissible shape around `pick`.
pub open spec fn all_fit(adj: Seq<Neighborhood>, d: u64, pick: usize, s: Seq<Tile>) -> bool {
    forall|i: int| 0 <= i < s.len() ==> fits(d, #[trigger] s[i]) && tile_shape(adj, pick, s[i])
}

/// 1 when both slots hold nodes and the first is the lower one.
pub open spec fn below(a: Option<usize>, b: Option<usize>) -> nat {
    match (a, b) {
        (Some(x), Some(y)) => if x < y {
            1
        } else {
            0
        },
        _ => 0,
    }
}

/// Two sequences of fitting tiles joined are still fitting tiles.
proof fn lemma_all_fit_add(adj: Seq<Neighborhood>, d: u64, pick: usize, a: Seq<Tile>, b: Seq<Tile>)
    requires
        all_fit(adj, d, pick, a),
        all_fit(adj, d, pick, b),
    ensures
        all_fit(adj, d, pick, a + b),
{
    assert forall|i: int| 0 <= i < (a + b).len() implies fits(d, #[trigger] (a + b)[i])
        && tile_shape(adj, pick, (a + b)[i]) by {
        if i < a.len() {
            assert((a + b)[i] == a[i]);
        } else {
            assert((a + b)[i] == b[i - a.len()]);
        }
    }
}

/// The tiles through one slot of `pick` fit; there are at most two with
/// `pick` at an end, since the neighbour lists `pick` itself, and one with
/// `pick` in the middle for each neighbour above it.
proof fn lemma_slot_tiles_fit(adj: Seq<Neighborhood>, d: u64, pick: usize, k: int)
    requires
        table_ok(adj),
        pick < N_NODES,
        0 <= k < 3,
    ensures
        all_fit(adj, d, pick, slot_tiles(adj, d, pick, k)),
        slot_tiles(adj, d, pick, k).len() <= 2 + below(
            eff_slot(adj, d, pick as int, k),
            eff_slot(adj, d, pick as int, 0),
        ) + below(eff_slot(adj, d, pick as int, k), eff_slot(adj, d, pick as int, 1)) + below(
            eff_slot(adj, d, pick as int, k),
            eff_slot(adj, d, pick as int, 2),
        ),
{
    let p = pick as int;
    assert(adj[p]@[k] == slot(adj, p, k));
    match eff_slot(adj, d, p, k) {
        Some(n) => {
            assert(adj[p]@[0] == slot(adj, p, 0));
            assert(adj[p]@[1] == slot(adj, p, 1));
            assert(adj[p]@[2] == slot(adj, p, 2));
            assert(adj[n as int]@[0] == slot(adj, n as int, 0));
            assert(adj[n as int]@[1] == slot(adj, n as int, 1));
            assert(adj[n as int]@[2] == slot(adj, n as int, 2));
            assert(crate::board::row_ok(adj[p], p));
            assert(crate::board::row_ok(adj[n as int], n as int));
            assert(adjacent(adj, p, n as int));
            reveal(crate::board::symmetric);
            assert(crate::board::row_symmetric(adj, p));
            assert(crate::board::lists(adj, adj[p]@[k], p));
            assert forall|j: int| 0 <= j < 3 implies all_fit(
                adj,
                d,
                pick,
                #[trigger] middle_tile(n, pick, eff_slot(adj, d, p, j)),
            ) && all_fit(adj, d, pick, end_tile(pick, n, eff_slot(adj, d, n as int, j))) by {
                if let Some(m) = eff_slot(adj, d, p, j) {
                    assert(adjacent(adj, p, m as int));
                }
                if let Some(m) = eff_slot(adj, d, n as int, j) {
                    assert(adjacent(adj, n as int, m as int));
                }
            }
            let m0 = middle_tile(n, pick, eff_slot(adj, d, p, 0));
            let m1 = middle_tile(n, pick, eff_slot(adj, d, p, 1));
            let m2 = middle_tile(n, pick, eff_slot(adj, d, p, 2));
            let e0 = end_tile(pick, n, eff_slot(adj, d, n as int, 0));
            let e1 = end_tile(pick, n, eff_slot(adj, d, n as int, 1));
            let e2 = end_tile(pick, n, eff_slot(adj, d, n as int, 2));
            lemma_all_fit_add(adj, d, pick, m0, m1);
            lemma_all_fit_add(adj, d, pick, m0 + m1, m2);
            lemma_all_fit_add(adj, d, pick, e0, e1);
            lemma_all_fit_add(adj, d, pick, e0 + e1, e2);
            lemma_all_fit_add(adj, d, pick, m0 + m1 + m2, e0 + e1 + e2);
        },
        None => {},
    }
}

/// Every generated tile has an admissible shape and covers three distinct
/// nodes, none of them covered already; there are at most nine of them.
pub proof fn lemma_tiles_fit(adj: Seq<Neighborhood>, d: u64, pick: usize)
    requires
        table_ok(adj),
        pick < N_NODES,
    ensures
        all_fit(adj, d, pick, tiles_for(adj, d, pick)),
        tiles_for(adj, d, pick).len() <= 9,
{
    lemma_slot_tiles_fit(adj, d, pick, 0);
    lemma_slot_tiles_fit(adj, d, pick, 1);
    lemma_slot_tiles_fit(adj, d, pick, 2);
    let s0 = slot_tiles(adj, d, pick, 0);
    let s1 = slot_tiles(adj, d, pick, 1);
    let s2 = slot_tiles(adj, d, pick, 2);
    lemma_all_fit_add(adj, d, pick, s0, s1);
    lemma_all_fit_add(adj, d, pick, s0 + s1, s2);
}

/// Appends `middle_tile(n, pick, o)`.
fn push_middle(out: &mut Vec<Tile>, n: usize, pick: usize, o: Option<usize>)
    ensures
        final(out)@ == old(out)@ + middle_tile(n, pick, o),
{
    if let Some(m) = o {
        if n < m {
            out.push((n, pick, m));
        }
    }
    assert(final(out)@ =~= old(out)@ + middle_tile(n, pick, o));
}

/// Appends `end_tile(pick, n, o)`.
fn push_end(out: &mut Vec<Tile>, pick: usize, n: usize, o: Option<usize>)
    ensures
        final(out)@ == old(out)@ + end_tile(pick, n, o),
{
    if let Some(m) = o {
        if m != pick {
            out.push((pick, n, m));
        }
    }
    assert(final(out)@ =~= old(out)@ + end_tile(pick, n, o));
}

/// Appending six pieces one by one appends them grouped in threes.
proof fn lemma_append_six(
    o: Seq<Tile>,
    a: Seq<Tile>,
    b: Seq<Tile>,
    c: Seq<Tile>,
    x: Seq<Tile>,
    y: Seq<Tile>,
    z: Seq<Tile>,
)
    ensures
        o + a + b + c + x + y + z == o + ((a + b + c) + (x + y + z)),
{
    assert(o + a + b + c + x + y + z =~= o + ((a + b + c) + (x + y + z)));
}

impl Board {
    /// Appends the tiles that reach `pick` through its neighbour `o`.
    fn push_slot_tiles(&self, out: &mut Vec<Tile>, pick: usize, nb: Neighborhood, k: usize)
        requires
            self.wf(),
            pick < N_NODES,
            k < 3,
            forall|j: int| 0 <= j < 3 ==> #[trigger] nb@[j] == eff_slot(self.neighborhoods@, self.deleted, pick as int, j),
        ensures
            final(out)@ == old(out)@ + slot_tiles(self.neighborhoods@, self.deleted, pick, k as int),
    {
        let ghost adj = self.neighborhoods@;
        let ghost d = self.deleted;
        assert(nb@[k as int] == eff_slot(adj, d, pick as int, k as int));
        if let Some(n) = nb[k] {
            assert(adj[pick as int]@[k as int] == slot(adj, pick as int, k as int));
            assert(crate::board::row_ok(adj[pick as int], pick as int));
            assert(n < N_NODES);
            let ghost o0 = out@;
            assert(nb@[0] == eff_slot(adj, d, pick as int, 0));
            assert(nb@[1] == eff_slot(adj, d, pick as int, 1));
            assert(nb@[2] == eff_slot(adj, d, pick as int, 2));
            push_middle(out, n, pick, nb[0]);
            push_middle(out, n, pick, nb[1]);
            push_middle(out, n, pick, nb[2]);
            let nn = self.get(n);
            assert(nn@[0] == eff_slot(adj, d, n as int, 0));
            assert(nn@[1] == eff_slot(adj, d, n as int, 1));
            assert(nn@[2] == eff_slot(adj, d, n as int, 2));
            push_end(out, pick, n, nn[0]);
            push_end(out, pick, n, nn[1]);
            push_end(out, pick, n, nn[2]);
            proof {
                lemma_append_six(
                    o0,
                    middle_tile(n, pick, nb@[0]),
                    middle_tile(n, pick, nb@[1]),
                    middle_tile(n, pick, nb@[2]),
                    end_tile(pick, n, nn@[0]),
                    end_tile(pick, n, nn@[1]),
                    end_tile(pick, n, nn@[2]),
                );
            }
        } else {
            assert(out@ =~= old(out)@ + slot_tiles(adj, d, pick, k as int));
        }
    }

    /// Every tile that can cover `pick`: with `pick` between two of its
    /// uncovered neighbours, lower one first, or with `pick` at one end,
    /// followed by an uncovered neighbour and an uncovered neighbour of that
    /// one. No tile is covered already, and there are at most nine.
    pub fn distinct_tiles(&self, pick: usize) -> (r: Vec<Tile>)
        requires
            self.wf(),
            pick < N_NODES,
        ensures
            r@ == tiles_for(self.neighborhoods@, self.deleted, pick),
            all_fit(self.neighborhoods@, self.deleted, pick, r@),
            r.len() <= 9,
    {
        let nb = self.get(pick);
        let mut out: Vec<Tile> = Vec::new();
        self.push_slot_tiles(&mut out, pick, nb, 0);
        self.push_slot_tiles(&mut out, pick, nb, 1);
        self.push_slot_tiles(&mut out, pick, nb, 2);
        proof {
            assert(out@ =~= tiles_for(self.neighborhoods@, self.deleted, pick));
            lemma_tiles_fit(self.neighborhoods@, self.deleted, pick);
        }
        out
    }
}

} // verus!
