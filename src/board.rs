use vstd::prelude::*;

verus! {

/// Number of nodes on the board.
pub const N_NODES: usize = 54;

/// The bits of a coverage mask that stand for the nodes of the board.
pub const NODE_MASK: u64 = 0x003f_ffff_ffff_ffff;

/// Up to three neighbours of a node; `None` marks an empty slot.
pub type Neighborhood = [Option<usize>; 3];

/// The board graph together with the coverage state of one search.
pub struct Board {
    /// For each node, its neighbours in the board graph.
    pub neighborhoods: Vec<Neighborhood>,
    /// Bit `i` is set when node `i` is covered by a placed tile.
    pub deleted: u64,
}

/// Node `i` is covered in the coverage mask `d`.
pub open spec fn is_covered(d: u64, i: int) -> bool {
    d & (1u64 << (i as u64)) != 0
}

/// Every node of the board is covered in `d`.
pub open spec fn is_complete(d: u64) -> bool {
    d & NODE_MASK == NODE_MASK
}

/// Slot `k` of the table row of node `i`.
pub open spec fn slot(adj: Seq<Neighborhood>, i: int, k: int) -> Option<usize> {
    adj[i]@[k]
}

/// The row of node `i` names only nodes of the board other than `i`.
pub open spec fn row_ok(row: Neighborhood, i: int) -> bool {
    forall|k: int|
        0 <= k < 3 ==> match #[trigger] row@[k] {
            Some(j) => j < N_NODES && j != i,
            None => true,
        }
}

/// A table of neighbourhoods with one well-formed row per node, in which
/// each node is a neighbour of its neighbours.
pub open spec fn table_ok(adj: Seq<Neighborhood>) -> bool {
    &&& adj.len() == N_NODES
    &&& forall|i: int| 0 <= i < N_NODES ==> row_ok(#[trigger] adj[i], i)
    &&& symmetric(adj)
}

/// Each node is a neighbour of each of its neighbours.
#[verifier::opaque]
pub open spec fn symmetric(adj: Seq<Neighborhood>) -> bool {
    forall|i: int| 0 <= i < N_NODES ==> #[trigger] row_symmetric(adj, i)
}

/// Slot `k` of the effective neighbourhood of node `i`: empty when `i` is
/// covered, or when the neighbour in that slot is covered.
pub open spec fn eff_slot(adj: Seq<Neighborhood>, d: u64, i: int, k: int) -> Option<usize> {
    if is_covered(d, i) {
        None
    } else {
        match slot(adj, i, k) {
            Some(j) => if is_covered(d, j as int) {
                None
            } else {
                Some(j)
            },
            None => None,
        }
    }
}

/// 1 for a slot that holds a node, 0 for an empty one.
pub open spec fn filled(o: Option<usize>) -> nat {
    if o is Some {
        1
    } else {
        0
    }
}

/// Number of uncovered neighbours of an uncovered node `i`.
pub open spec fn n_eff(adj: Seq<Neighborhood>, d: u64, i: int) -> nat {
    filled(eff_slot(adj, d, i, 0)) + filled(eff_slot(adj, d, i, 1)) + filled(eff_slot(adj, d, i, 2))
}

/// Some node still has two uncovered neighbours, so a tile can be placed.
pub open spec fn can_place(adj: Seq<Neighborhood>, d: u64) -> bool {
    exists|i: int| 0 <= i < N_NODES && #[trigger] n_eff(adj, d, i) >= 2
}

/// The lowest uncovered node at or after `from`, or `N_NODES` if there is none.
pub open spec fn first_uncovered(d: u64, from: int) -> int
    decreases N_NODES - from,
{
    if from >= N_NODES || from < 0 {
        N_NODES as int
    } else if !is_covered(d, from) {
        from
    } else {
        first_uncovered(d, from + 1)
    }
}

/// Setting bit `j` covers node `j` and leaves every other node as it was.
pub proof fn lemma_cover_bit(d: u64, j: u64, i: u64)
    requires
        j < 64,
        i < 64,
    ensures
        (d | (1u64 << j)) & (1u64 << i) != 0 <==> (d & (1u64 << i) != 0 || i == j),
{
    assert((d | (1u64 << j)) & (1u64 << i) != 0 <==> (d & (1u64 << i) != 0 || i == j))
        by (bit_vector)
        requires
            j < 64,
            i < 64,
    ;
}

/// Clearing bit `j` uncovers node `j` and leaves every other node as it was.
pub proof fn lemma_uncover_bit(d: u64, j: u64, i: u64)
    requires
        j < 64,
        i < 64,
    ensures
        (d & !(1u64 << j)) & (1u64 << i) != 0 <==> (d & (1u64 << i) != 0 && i != j),
{
    assert((d & !(1u64 << j)) & (1u64 << i) != 0 <==> (d & (1u64 << i) != 0 && i != j))
        by (bit_vector)
        requires
            j < 64,
            i < 64,
    ;
}

/// Clearing a bit that was just set from clear gives the mask back.
pub proof fn lemma_cover_uncover(d: u64, j: u64)
    requires
        j < 64,
        d & (1u64 << j) == 0,
    ensures
        (d | (1u64 << j)) & !(1u64 << j) == d,
{
    assert((d | (1u64 << j)) & !(1u64 << j) == d) by (bit_vector)
        requires
            j < 64,
            d & (1u64 << j) == 0,
    ;
}

/// A mask that covers the whole board covers each of its nodes.
pub proof fn lemma_complete_bit(d: u64, i: u64)
    requires
        i < 54,
    ensures
        is_complete(d) ==> d & (1u64 << i) != 0,
{
    assert(d & 0x003f_ffff_ffff_ffffu64 == 0x003f_ffff_ffff_ffffu64 ==> d & (1u64 << i) != 0)
        by (bit_vector)
        requires
            i < 54,
    ;
}

/// Node `i` is among the neighbours listed in slot `o`, when `o` holds a node.
pub open spec fn lists(adj: Seq<Neighborhood>, o: Option<usize>, i: int) -> bool {
    match o {
        Some(j) => adj[j as int]@[0] == Some(i as usize) || adj[j as int]@[1] == Some(i as usize)
            || adj[j as int]@[2] == Some(i as usize),
        None => true,
    }
}

/// Each neighbour of node `i` has `i` among its own neighbours.
pub open spec fn row_symmetric(adj: Seq<Neighborhood>, i: int) -> bool {
    lists(adj, adj[i]@[0], i) && lists(adj, adj[i]@[1], i) && lists(adj, adj[i]@[2], i)
}

/// The adjacency of the full board, one row of neighbours per node.
#[verifier::opaque]
pub open spec fn board_table() -> Seq<Neighborhood> {
    seq![
        [Some(1usize), Some(3usize), None],
        [Some(0usize), Some(4usize), None],
        [Some(3usize), Some(7usize), None],
        [Some(0usize), Some(2usize), Some(8usize)],
        [Some(1usize), Some(5usize), Some(9usize)],
        [Some(4usize), Some(10usize), None],
        [Some(7usize), Some(12usize), None],
        [Some(2usize), Some(6usize), Some(13usize)],
        [Some(3usize), Some(9usize), Some(14usize)],
        [Some(4usize), Some(8usize), Some(15usize)],
        [Some(5usize), Some(11usize), Some(16usize)],
        [Some(10usize), Some(17usize), None],
        [Some(6usize), Some(18usize), None],
        [Some(7usize), Some(14usize), Some(19usize)],
        [Some(8usize), Some(13usize), Some(20usize)],
        [Some(9usize), Some(16usize), Some(21usize)],
        [Some(10usize), Some(15usize), Some(22usize)],
        [Some(11usize), Some(23usize), None],
        [Some(12usize), Some(19usize), Some(24usize)],
        [Some(13usize), Some(18usize), Some(25usize)],
        [Some(14usize), Some(21usize), Some(26usize)],
        [Some(15usize), Some(20usize), Some(27usize)],
        [Some(16usize), Some(23usize), Some(28usize)],
        [Some(17usize), Some(22usize), Some(29usize)],
        [Some(18usize), Some(30usize), None],
        [Some(19usize), Some(26usize), Some(31usize)],
        [Some(20usize), Some(25usize), Some(32usize)],
        [Some(21usize), Some(28usize), Some(33usize)],
        [Some(22usize), Some(27usize), Some(34usize)],
        [Some(23usize), Some(35usize), None],
        [Some(24usize), Some(31usize), Some(36usize)],
        [Some(25usize), Some(30usize), Some(37usize)],
        [Some(26usize), Some(33usize), Some(38usize)],
        [Some(27usize), Some(32usize), Some(39usize)],
        [Some(28usize), Some(35usize), Some(40usize)],
        [Some(29usize), Some(34usize), Some(41usize)],
        [Some(30usize), Some(42usize), None],
        [Some(31usize), Some(38usize), Some(43usize)],
        [Some(32usize), Some(37usize), Some(44usize)],
        [Some(33usize), Some(40usize), Some(45usize)],
        [Some(34usize), Some(39usize), Some(46usize)],
        [Some(35usize), Some(47usize), None],
        [Some(36usize), Some(43usize), None],
        [Some(37usize), Some(42usize), Some(48usize)],
        [Some(38usize), Some(45usize), Some(49usize)],
        [Some(39usize), Some(44usize), Some(50usize)],
        [Some(40usize), Some(47usize), Some(51usize)],
        [Some(41usize), Some(46usize), None],
        [Some(43usize), Some(49usize), None],
        [Some(44usize), Some(48usize), Some(52usize)],
        [Some(45usize), Some(51usize), Some(53usize)],
        [Some(46usize), Some(50usize), None],
        [Some(49usize), Some(53usize), None],
        [Some(50usize), Some(52usize), None],
    ]
}

/// Rows 0 to 8 of the board table are symmetric.
proof fn lemma_rows_symmetric_from_0()
    ensures
        row_symmetric(board_table(), 0),
        row_symmetric(board_table(), 1),
        row_symmetric(board_table(), 2),
        row_symmetric(board_table(), 3),
        row_symmetric(board_table(), 4),
        row_symmetric(board_table(), 5),
        row_symmetric(board_table(), 6),
        row_symmetric(board_table(), 7),
        row_symmetric(board_table(), 8),
{
    reveal(board_table);
}

/// Rows 9 to 17 of the board table are symmetric.
proof fn lemma_rows_symmetric_from_9()
    ensures
        row_symmetric(board_table(), 9),
        row_symmetric(board_table(), 10),
        row_symmetric(board_table(), 11),
        row_symmetric(board_table(), 12),
        row_symmetric(board_table(), 13),
        row_symmetric(board_table(), 14),
        row_symmetric(board_table(), 15),
        row_symmetric(board_table(), 16),
        row_symmetric(board_table(), 17),
{
    reveal(board_table);
}

/// Rows 18 to 26 of the board table are symmetric.
proof fn lemma_rows_symmetric_from_18()
    ensures
        row_symmetric(board_table(), 18),
        row_symmetric(board_table(), 19),
        row_symmetric(board_table(), 20),
        row_symmetric(board_table(), 21),
        row_symmetric(board_table(), 22),
        row_symmetric(board_table(), 23),
        row_symmetric(board_table(), 24),
        row_symmetric(board_table(), 25),
        row_symmetric(board_table(), 26),
{
    reveal(board_table);
}

/// Rows 27 to 35 of the board table are symmetric.
proof fn lemma_rows_symmetric_from_27()
    ensures
        row_symmetric(board_table(), 27),
        row_symmetric(board_table(), 28),
        row_symmetric(board_table(), 29),
        row_symmetric(board_table(), 30),
        row_symmetric(board_table(), 31),
        row_symmetric(board_table(), 32),
        row_symmetric(board_table(), 33),
        row_symmetric(board_table(), 34),
        row_symmetric(board_table(), 35),
{
    reveal(board_table);
}

/// Rows 36 to 44 of the board table are symmetric.
proof fn lemma_rows_symmetric_from_36()
    ensures
        row_symmetric(board_table(), 36),
        row_symmetric(board_table(), 37),
        row_symmetric(board_table(), 38),
        row_symmetric(board_table(), 39),
        row_symmetric(board_table(), 40),
        row_symmetric(board_table(), 41),
        row_symmetric(board_table(), 42),
        row_symmetric(board_table(), 43),
        row_symmetric(board_table(), 44),
{
    reveal(board_table);
}

/// Rows 45 to 53 of the board table are symmetric.
proof fn lemma_rows_symmetric_from_45()
    ensures
        row_symmetric(board_table(), 45),
        row_symmetric(board_table(), 46),
        row_symmetric(board_table(), 47),
        row_symmetric(board_table(), 48),
        row_symmetric(board_table(), 49),
        row_symmetric(board_table(), 50),
        row_symmetric(board_table(), 51),
        row_symmetric(board_table(), 52),
        row_symmetric(board_table(), 53),
{
    reveal(board_table);
}

/// The rows below `n` are symmetric.
spec fn rows_symmetric(adj: Seq<Neighborhood>, n: nat) -> bool
    decreases n,
{
    n == 0 || (rows_symmetric(adj, (n - 1) as nat) && row_symmetric(adj, n - 1))
}

/// Each row below `n` is symmetric when the rows below `n` are.
proof fn lemma_rows_symmetric(adj: Seq<Neighborhood>, n: nat, i: int)
    requires
        rows_symmetric(adj, n),
        0 <= i < n,
    ensures
        row_symmetric(adj, i),
    decreases n,
{
    if i < n - 1 {
        lemma_rows_symmetric(adj, (n - 1) as nat, i);
    }
}

/// The board's adjacency is symmetric.
pub proof fn lemma_board_symmetric()
    ensures
        symmetric(board_table()),
{
    reveal(symmetric);
    lemma_rows_symmetric_from_0();
    lemma_rows_symmetric_from_9();
    lemma_rows_symmetric_from_18();
    lemma_rows_symmetric_from_27();
    lemma_rows_symmetric_from_36();
    lemma_rows_symmetric_from_45();
    reveal_with_fuel(rows_symmetric, 55);
    assert(rows_symmetric(board_table(), 54));
    assert forall|i: int| 0 <= i < N_NODES implies #[trigger] row_symmetric(board_table(), i) by {
        lemma_rows_symmetric(board_table(), 54, i);
    }
}

/// Appends the row of the next node to a table under construction.
fn push_row(t: &mut Vec<Neighborhood>, row: Neighborhood)
    requires
        old(t).len() < N_NODES,
        row_ok(row, old(t).len() as int),
        forall|i: int| 0 <= i < old(t).len() ==> row_ok(#[trigger] old(t)@[i], i),
    ensures
        final(t)@ == old(t)@.push(row),
        forall|i: int| 0 <= i < final(t).len() ==> row_ok(#[trigger] final(t)@[i], i),
{
    t.push(row);
}

impl Board {
    /// The full board, with every node uncovered.
    pub fn new() -> (r: Board)
        ensures
            r.wf(),
            r.neighborhoods@ == board_table(),
            r.deleted == 0,
    {
        let mut t: Vec<Neighborhood> = Vec::new();
        push_row(&mut t, [Some(1), Some(3), None]);
        push_row(&mut t, [Some(0), Some(4), None]);
        push_row(&mut t, [Some(3), Some(7), None]);
        push_row(&mut t, [Some(0), Some(2), Some(8)]);
        push_row(&mut t, [Some(1), Some(5), Some(9)]);
        push_row(&mut t, [Some(4), Some(10), None]);
        push_row(&mut t, [Some(7), Some(12), None]);
        push_row(&mut t, [Some(2), Some(6), Some(13)]);
        push_row(&mut t, [Some(3), Some(9), Some(14)]);
        push_row(&mut t, [Some(4), Some(8), Some(15)]);
        push_row(&mut t, [Some(5), Some(11), Some(16)]);
        push_row(&mut t, [Some(10), Some(17), None]);
        push_row(&mut t, [Some(6), Some(18), None]);
        push_row(&mut t, [Some(7), Some(14), Some(19)]);
        push_row(&mut t, [Some(8), Some(13), Some(20)]);
        push_row(&mut t, [Some(9), Some(16), Some(21)]);
        push_row(&mut t, [Some(10), Some(15), Some(22)]);
        push_row(&mut t, [Some(11), Some(23), None]);
        push_row(&mut t, [Some(12), Some(19), Some(24)]);
        push_row(&mut t, [Some(13), Some(18), Some(25)]);
        push_row(&mut t, [Some(14), Some(21), Some(26)]);
        push_row(&mut t, [Some(15), Some(20), Some(27)]);
        push_row(&mut t, [Some(16), Some(23), Some(28)]);
        push_row(&mut t, [Some(17), Some(22), Some(29)]);
        push_row(&mut t, [Some(18), Some(30), None]);
        push_row(&mut t, [Some(19), Some(26), Some(31)]);
        push_row(&mut t, [Some(20), Some(25), Some(32)]);
        push_row(&mut t, [Some(21), Some(28), Some(33)]);
        push_row(&mut t, [Some(22), Some(27), Some(34)]);
        push_row(&mut t, [Some(23), Some(35), None]);
        push_row(&mut t, [Some(24), Some(31), Some(36)]);
        push_row(&mut t, [Some(25), Some(30), Some(37)]);
        push_row(&mut t, [Some(26), Some(33), Some(38)]);
        push_row(&mut t, [Some(27), Some(32), Some(39)]);
        push_row(&mut t, [Some(28), Some(35), Some(40)]);
        push_row(&mut t, [Some(29), Some(34), Some(41)]);
        push_row(&mut t, [Some(30), Some(42), None]);
        push_row(&mut t, [Some(31), Some(38), Some(43)]);
        push_row(&mut t, [Some(32), Some(37), Some(44)]);
        push_row(&mut t, [Some(33), Some(40), Some(45)]);
        push_row(&mut t, [Some(34), Some(39), Some(46)]);
        push_row(&mut t, [Some(35), Some(47), None]);
        push_row(&mut t, [Some(36), Some(43), None]);
        push_row(&mut t, [Some(37), Some(42), Some(48)]);
        push_row(&mut t, [Some(38), Some(45), Some(49)]);
        push_row(&mut t, [Some(39), Some(44), Some(50)]);
        push_row(&mut t, [Some(40), Some(47), Some(51)]);
        push_row(&mut t, [Some(41), Some(46), None]);
        push_row(&mut t, [Some(43), Some(49), None]);
        push_row(&mut t, [Some(44), Some(48), Some(52)]);
        push_row(&mut t, [Some(45), Some(51), Some(53)]);
        push_row(&mut t, [Some(46), Some(50), None]);
        push_row(&mut t, [Some(49), Some(53), None]);
        push_row(&mut t, [Some(50), Some(52), None]);
        proof {
            reveal(board_table);
            assert(t@ == board_table());
            lemma_board_symmetric();
        }
        Board { neighborhoods: t, deleted: 0 }
    }

    /// The table is well formed.
    pub open spec fn wf(&self) -> bool {
        table_ok(self.neighborhoods@)
    }

    /// The reduced board: every node covered but the six of one corner.
    pub fn _small() -> (r: Board)
        ensures
            r.wf(),
            r.neighborhoods@ == board_table(),
            forall|i: int|
                0 <= i < 64 ==> (is_covered(r.deleted, i) <==> !(i == 0 || i == 1 || i == 3 || i
                    == 4 || i == 8 || i == 9)),
    {
        let mut board = Board::new();
        board.deleted = !0u64;
        proof {
            assert forall|i: u64| i < 64 implies !0u64 & (1u64 << i) != 0 by {
                assert(!0u64 & (1u64 << i) != 0) by (bit_vector)
                    requires
                        i < 64,
                ;
            }
            assert forall|i: int| 0 <= i < 64 implies is_covered(board.deleted, i) by {
                assert(!0u64 & (1u64 << (i as u64)) != 0);
            }
        }
        board.undelete(0);
        board.undelete(1);
        board.undelete(3);
        board.undelete(4);
        board.undelete(8);
        board.undelete(9);
        board
    }

    /// Node `o`, if it is present and uncovered.
    fn uncovered_neighbor(&self, o: Option<usize>) -> (r: Option<usize>)
        requires
            o matches Some(j) ==> j < N_NODES,
        ensures
            r == match o {
                Some(j) => if is_covered(self.deleted, j as int) {
                    None
                } else {
                    Some(j)
                },
                None => None,
            },
    {
        match o {
            Some(j) => if self.deleted(j) {
                None
            } else {
                Some(j)
            },
            None => None,
        }
    }

    /// The effective neighbourhood of node `index`: its neighbours that are
    /// still uncovered, in the slots of the table, or nothing at all when
    /// `index` itself is covered.
    pub fn get(&self, index: usize) -> (r: Neighborhood)
        requires
            self.wf(),
            index < N_NODES,
        ensures
            forall|k: int|
                0 <= k < 3 ==> #[trigger] r@[k] == eff_slot(
                    self.neighborhoods@,
                    self.deleted,
                    index as int,
                    k,
                ),
    {
        if self.deleted(index) {
            return [None, None, None];
        }
        let row: Neighborhood = self.neighborhoods[index];
        proof {
            assert(row_ok(self.neighborhoods@[index as int], index as int));
            assert(row@[0] == slot(self.neighborhoods@, index as int, 0));
            assert(row@[1] == slot(self.neighborhoods@, index as int, 1));
            assert(row@[2] == slot(self.neighborhoods@, index as int, 2));
        }
        let r = [
            self.uncovered_neighbor(row[0]),
            self.uncovered_neighbor(row[1]),
            self.uncovered_neighbor(row[2]),
        ];
        proof {
            assert forall|k: int| 0 <= k < 3 implies #[trigger] r@[k] == eff_slot(
                self.neighborhoods@,
                self.deleted,
                index as int,
                k,
            ) by {
                if k == 0 {
                } else if k == 1 {
                } else {
                }
            }
        }
        r
    }

    /// The lowest uncovered node, or `N_NODES` when every node is covered.
    pub fn lowest_uncovered(&self) -> (r: usize)
        ensures
            r == first_uncovered(self.deleted, 0),
    {
        let mut i: usize = 0;
        while i < N_NODES && self.deleted(i)
            invariant
                i <= N_NODES,
                first_uncovered(self.deleted, i as int) == first_uncovered(self.deleted, 0),
            decreases N_NODES - i,
        {
            i = i + 1;
        }
        i
    }

    /// Whether some node still has two uncovered neighbours, so that a tile
    /// can still be placed.
    pub fn placement_possible(&self) -> (r: bool)
        requires
            self.wf(),
        ensures
            r == can_place(self.neighborhoods@, self.deleted),
    {
        let mut i: usize = 0;
        while i < N_NODES
            invariant
                self.wf(),
                i <= N_NODES,
                forall|j: int| 0 <= j < i ==> #[trigger] n_eff(self.neighborhoods@, self.deleted, j) < 2,
            decreases N_NODES - i,
        {
            let nb = self.get(i);
            let mut n: usize = 0;
            if nb[0].is_some() {
                n = n + 1;
            }
            if nb[1].is_some() {
                n = n + 1;
            }
            if nb[2].is_some() {
                n = n + 1;
            }
            assert(nb@[0] == eff_slot(self.neighborhoods@, self.deleted, i as int, 0));
            assert(nb@[1] == eff_slot(self.neighborhoods@, self.deleted, i as int, 1));
            assert(nb@[2] == eff_slot(self.neighborhoods@, self.deleted, i as int, 2));
            assert(n == n_eff(self.neighborhoods@, self.deleted, i as int));
            if n >= 2 {
                return true;
            }
            i = i + 1;
        }
        false
    }

    /// Whether every node of the board is covered.
    pub fn is_complete(&self) -> (r: bool)
        ensures
            r == is_complete(self.deleted),
    {
        self.deleted & NODE_MASK == NODE_MASK
    }

    /// Whether node `index` is covered.
    pub fn deleted(&self, index: usize) -> (r: bool)
        requires
            index < N_NODES,
        ensures
            r == is_covered(self.deleted, index as int),
    {
        self.deleted & (1u64 << index) != 0
    }

    /// Covers node `index`, which must be uncovered.
    pub fn delete(&mut self, index: usize)
        requires
            index < N_NODES,
            !is_covered(old(self).deleted, index as int),
        ensures
            final(self).neighborhoods == old(self).neighborhoods,
            final(self).deleted == old(self).deleted | (1u64 << index),
            forall|i: int|
                0 <= i < 64 ==> (is_covered(final(self).deleted, i) <==> (is_covered(
                    old(self).deleted,
                    i,
                ) || i == index)),
    {
        proof {
            assert forall|i: int| 0 <= i < 64 implies (is_covered(
                self.deleted | (1u64 << index),
                i,
            ) <==> (is_covered(self.deleted, i) || i == index)) by {
                lemma_cover_bit(self.deleted, index as u64, i as u64);
            }
        }
        self.deleted = self.deleted | (1u64 << index);
    }

    /// Uncovers node `index`.
    pub fn undelete(&mut self, index: usize)
        requires
            index < N_NODES,
        ensures
            final(self).neighborhoods == old(self).neighborhoods,
            final(self).deleted == old(self).deleted & !(1u64 << index),
            forall|i: int|
                0 <= i < 64 ==> (is_covered(final(self).deleted, i) <==> (is_covered(
                    old(self).deleted,
                    i,
                ) && i != index)),
    {
        proof {
            assert forall|i: int| 0 <= i < 64 implies (is_covered(
                self.deleted & !(1u64 << index),
                i,
            ) <==> (is_covered(self.deleted, i) && i != index)) by {
                lemma_uncover_bit(self.deleted, index as u64, i as u64);
            }
        }
        self.deleted = self.deleted & !(1u64 << index);
    }
}

} // verus!
