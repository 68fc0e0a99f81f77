use hex_tiling::board::{Board, N_NODES};
use hex_tiling::stack::{Action, Frame, Stack};

const ALL_COVERED: u64 = !0u64;

fn small_nodes() -> Vec<usize> {
    vec![0, 1, 3, 4, 8, 9]
}

/// Counts the partitions of the uncovered nodes into connected triples by
/// plain enumeration, independently of the library's search.
fn brute_force(board: &Board, covered: &mut Vec<bool>) -> u64 {
    let first = match (0..N_NODES).find(|&i| !covered[i]) {
        Some(i) => i,
        None => return 1,
    };
    let adjacent = |a: usize, b: usize| board.neighborhoods[a].contains(&Some(b));
    let mut total = 0;
    for b in 0..N_NODES {
        for c in (b + 1)..N_NODES {
            if b == first || c == first || covered[b] || covered[c] {
                continue;
            }
            let edges = [adjacent(first, b), adjacent(first, c), adjacent(b, c)];
            if edges.iter().filter(|e| **e).count() < 2 {
                continue;
            }
            covered[first] = true;
            covered[b] = true;
            covered[c] = true;
            total += brute_force(board, covered);
            covered[first] = false;
            covered[b] = false;
            covered[c] = false;
        }
    }
    total
}

#[test]
fn small_board_count() {
    let mut board = Board::_small();
    assert_eq!(board.count_tilings(), 3);
}

#[test]
fn small_board_count_with_stack() {
    let mut board = Board::_small();
    assert_eq!(board.count_tilings_with_stack(), 3);
}

#[test]
fn small_board_matches_brute_force() {
    let board = Board::_small();
    let mut covered: Vec<bool> = (0..N_NODES).map(|i| !small_nodes().contains(&i)).collect();
    assert_eq!(brute_force(&board, &mut covered), 3);
}

#[test]
fn full_board_count() {
    let mut board = Board::new();
    assert_eq!(board.count_tilings(), 12597);
}

#[test]
fn full_board_count_with_stack() {
    let mut board = Board::new();
    assert_eq!(board.count_tilings_with_stack(), 12597);
}

#[test]
fn count_is_deterministic() {
    let mut board = Board::new();
    let first = board.count_tilings();
    let second = board.count_tilings();
    assert_eq!(first, second);
    let mut other = Board::new();
    assert_eq!(other.count_tilings(), first);
}

#[test]
fn coverage_restored_after_count() {
    let mut board = Board::new();
    board.delete(0);
    board.delete(1);
    board.delete(4);
    let before = board.deleted;
    board.count_tilings();
    assert_eq!(board.deleted, before);
    board.count_tilings_with_stack();
    assert_eq!(board.deleted, before);
    let mut small = Board::_small();
    let before = small.deleted;
    small.count_tilings();
    small.count_tilings_with_stack();
    assert_eq!(small.deleted, before);
}

#[test]
fn complete_board_counts_once() {
    let mut board = Board::new();
    board.deleted = ALL_COVERED;
    assert!(!board.placement_possible());
    assert_eq!(board.count_tilings(), 1);
    assert_eq!(board.count_tilings_with_stack(), 1);
    let mut exact = Board::new();
    for i in 0..N_NODES {
        exact.delete(i);
    }
    assert_eq!(exact.count_tilings(), 1);
    assert_eq!(exact.count_tilings_with_stack(), 1);
}

#[test]
fn single_isolated_node_counts_nothing() {
    for i in [0usize, 7, 53] {
        let mut board = Board::new();
        board.deleted = ALL_COVERED;
        board.undelete(i);
        assert_eq!(board.get(i), [None, None, None]);
        assert_eq!(board.count_tilings(), 0);
        assert_eq!(board.count_tilings_with_stack(), 0);
    }
}

#[test]
fn stack_and_recursion_agree() {
    let configs: Vec<Vec<usize>> = vec![
        vec![],
        vec![0],
        vec![0, 1, 3],
        vec![0, 1, 4],
        vec![5, 10, 11],
        vec![20, 26, 32, 2],
        vec![48, 49, 52, 53],
    ];
    for covered in configs {
        let mut board = Board::new();
        for i in covered {
            board.delete(i);
        }
        let mut copy = Board::new();
        copy.deleted = board.deleted;
        assert_eq!(board.count_tilings(), copy.count_tilings_with_stack());
    }
}

#[test]
fn tiles_for_first_corner() {
    let board = Board::new();
    assert_eq!(board.distinct_tiles(0), vec![(1, 0, 3), (0, 1, 4), (0, 3, 2), (0, 3, 8)]);
}

#[test]
fn tiles_for_inner_node() {
    let board = Board::new();
    assert_eq!(
        board.distinct_tiles(9),
        vec![
            (4, 9, 8),
            (4, 9, 15),
            (9, 4, 1),
            (9, 4, 5),
            (8, 9, 15),
            (9, 8, 3),
            (9, 8, 14),
            (9, 15, 16),
            (9, 15, 21),
        ]
    );
}

#[test]
fn tiles_skip_covered_nodes() {
    let mut board = Board::new();
    board.delete(3);
    assert_eq!(board.distinct_tiles(0), vec![(0, 1, 4)]);
    board.delete(0);
    assert_eq!(board.distinct_tiles(0), vec![]);
}

#[test]
fn generated_tiles_are_connected_and_uncovered() {
    let mut board = Board::new();
    board.delete(9);
    board.delete(14);
    let adjacent = |a: usize, b: usize| board.neighborhoods[a].contains(&Some(b));
    for pick in 0..N_NODES {
        let tiles = board.distinct_tiles(pick);
        assert!(tiles.len() <= 9);
        for (a, b, c) in tiles {
            for n in [a, b, c] {
                assert!(!board.deleted(n));
            }
            let middle = b == pick && a < c && adjacent(pick, a) && adjacent(pick, c);
            let end = a == pick && adjacent(pick, b) && adjacent(b, c) && c != pick;
            assert!(middle || end);
        }
    }
}

#[test]
fn adjacency_is_symmetric() {
    let board = Board::new();
    assert_eq!(board.neighborhoods.len(), N_NODES);
    for i in 0..N_NODES {
        for n in board.get(i).iter().flatten() {
            assert!(board.get(*n).contains(&Some(i)));
            assert_ne!(*n, i);
        }
    }
}

#[test]
fn effective_neighbourhood_masks_covered() {
    let mut board = Board::new();
    assert_eq!(board.get(3), [Some(0), Some(2), Some(8)]);
    board.delete(2);
    assert_eq!(board.get(3), [Some(0), None, Some(8)]);
    board.delete(3);
    assert_eq!(board.get(3), [None, None, None]);
    board.undelete(3);
    board.undelete(2);
    assert_eq!(board.get(3), [Some(0), Some(2), Some(8)]);
}

#[test]
fn cover_and_uncover_nodes() {
    let mut board = Board::new();
    assert!(!board.deleted(5));
    board.delete(5);
    assert!(board.deleted(5));
    assert_eq!(board.deleted, 1u64 << 5);
    board.undelete(5);
    assert!(!board.deleted(5));
    assert_eq!(board.deleted, 0);
}

#[test]
fn small_board_leaves_six_nodes() {
    let board = Board::_small();
    for i in 0..N_NODES {
        assert_eq!(board.deleted(i), !small_nodes().contains(&i));
    }
}

#[test]
fn placement_and_pick() {
    let mut board = Board::new();
    assert!(board.placement_possible());
    assert_eq!(board.lowest_uncovered(), 0);
    board.delete(0);
    board.delete(1);
    assert_eq!(board.lowest_uncovered(), 2);
    board.deleted = ALL_COVERED;
    assert!(!board.placement_possible());
    assert_eq!(board.lowest_uncovered(), N_NODES);
    board.undelete(0);
    board.undelete(1);
    assert!(!board.placement_possible());
    board.undelete(3);
    assert!(board.placement_possible());
}

#[test]
fn stack_is_last_in_first_out() {
    let mut stack = Stack::new();
    assert!(stack.is_empty());
    assert!(stack.pop().is_none());
    stack.push(Frame { action: Action::Apply, tile: (0, 1, 4) });
    stack.push(Frame { action: Action::Undo, tile: (2, 3, 8) });
    assert!(!stack.is_empty());
    let top = stack.pop().unwrap();
    assert!(matches!(top.action, Action::Undo));
    assert_eq!(top.tile, (2, 3, 8));
    let next = stack.pop().unwrap();
    assert!(matches!(next.action, Action::Apply));
    assert_eq!(next.tile, (0, 1, 4));
    assert!(stack.is_empty());
}

#[test]
fn completeness_of_coverage() {
    let mut board = Board::new();
    assert!(!board.is_complete());
    board.deleted = (1u64 << 54) - 1;
    assert!(board.is_complete());
    board.undelete(53);
    assert!(!board.is_complete());
}

#[test]
fn lower_rows_match_brute_force() {
    for (rows, expected) in [(12usize, 3u64), (18, 1), (24, 42), (30, 49)] {
        let mut board = Board::new();
        board.deleted = ALL_COVERED;
        for i in 0..rows {
            board.undelete(i);
        }
        let mut covered: Vec<bool> = (0..N_NODES).map(|i| i >= rows).collect();
        assert_eq!(brute_force(&board, &mut covered), expected);
        assert_eq!(board.count_tilings(), expected);
        assert_eq!(board.count_tilings_with_stack(), expected);
    }
}
