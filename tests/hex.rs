use hex_game::disjoint_set::DisjointSet;
use hex_game::graph::Graph;
use hex_game::hex_graph::HexGraph;
use hex_game::hex_solver::{HexBoard, MoveError};

fn sorted(mut v: Vec<usize>) -> Vec<usize> {
    v.sort();
    v
}

#[test]
fn disjoint_set_union_and_connected() {
    let mut s = DisjointSet::new();
    assert!(s.is_empty());
    let a = s.add_elem();
    let b = s.add_elem();
    let c = s.add_elem();
    assert_eq!((a, b, c), (0, 1, 2));
    assert_eq!(s.len(), 3);
    assert!(!s.is_empty());
    // fresh elements are apart, each is connected to itself
    assert!(!s.connected(a, b));
    assert!(s.connected(a, a));
    s.union(a, b);
    assert!(s.connected(a, b));
    assert!(s.connected(b, a));
    assert!(!s.connected(a, c));
    s.union(b, c);
    // transitivity
    assert!(s.connected(a, c));
    assert!(s.connected(c, a));
}

#[test]
fn disjoint_set_many_unions() {
    let mut s = DisjointSet::new();
    for _ in 0..16 {
        s.add_elem();
    }
    for i in 0..8 {
        s.union(2 * i, 2 * i + 1);
    }
    for i in 0..4 {
        s.union(4 * i, 4 * i + 2);
    }
    assert!(s.connected(1, 3));
    assert!(!s.connected(3, 4));
    s.union(0, 15);
    assert!(s.connected(3, 13));
    assert!(!s.connected(3, 5));
}

#[test]
fn graph_edges_are_symmetric() {
    let mut g = Graph::new(3);
    assert_eq!(g.len(), 3);
    g.add_edge(0, 2);
    assert_eq!(g.adjacent(0), vec![2]);
    assert_eq!(g.adjacent(2), vec![0]);
    assert_eq!(g.adjacent(1), Vec::<usize>::new());
    assert_eq!(g.adjacent(7), Vec::<usize>::new());
}

#[test]
fn hex_graph_neighbours() {
    let g = HexGraph::new(3, 3);
    assert_eq!(g.index(1, 2), 11);
    assert_eq!(g.index(0, 0), 4);
    // an interior cell has its six hex neighbours
    assert_eq!(sorted(g.adjacent(1, 1)), vec![4, 5, 7, 9, 11, 12]);
    // a corner touches the bottom and left sides
    assert_eq!(sorted(g.adjacent(0, 0)), vec![0, 2, 5, 7, 8]);
    // the opposite corner touches the top and right sides
    assert_eq!(sorted(g.adjacent(2, 2)), vec![1, 3, 8, 9, 11]);
}

#[test]
fn hex_graph_rectangular_sides() {
    let g = HexGraph::new(4, 2);
    assert_eq!(g.width(), 4);
    assert_eq!(g.height(), 2);
    // bottom-right corner: right side and bottom side
    assert_eq!(sorted(g.adjacent(3, 0)), vec![0, 3, 6, 11]);
    // top-left corner: top side and left side
    assert_eq!(sorted(g.adjacent(0, 1)), vec![1, 2, 4, 9]);
}

#[test]
fn board_moves_and_occupied_cells() {
    let graph = HexGraph::new(3, 3);
    let mut board = HexBoard::new(&graph);
    assert_eq!(board.empty_cells().len(), 9);
    assert_eq!(board.add_black(1, 1), Ok(()));
    assert!(!board.empty_cells().contains(&(1, 1)));
    assert_eq!(board.empty_cells().len(), 8);
    assert_eq!(board.add_black(1, 1), Err(MoveError::CellOccupied));
    assert_eq!(board.add_white(1, 1), Err(MoveError::CellOccupied));
    assert_eq!(board.add_white(3, 0), Err(MoveError::CellOccupied));
    assert_eq!(board.empty_cells().len(), 8);
    assert!(!board.black_win());
    assert!(!board.white_win());
}

#[test]
fn black_column_wins_for_black() {
    let graph = HexGraph::new(3, 3);
    let mut board = HexBoard::new(&graph);
    board.add_black(0, 0).unwrap();
    board.add_black(0, 1).unwrap();
    assert!(!board.black_win());
    board.add_black(0, 2).unwrap();
    assert!(board.black_win());
    assert!(!board.white_win());
}

#[test]
fn white_row_wins_for_white() {
    let graph = HexGraph::new(3, 3);
    let mut board = HexBoard::new(&graph);
    board.add_white(0, 1).unwrap();
    board.add_white(1, 1).unwrap();
    assert!(!board.white_win());
    board.add_white(2, 1).unwrap();
    assert!(board.white_win());
    assert!(!board.black_win());
}

#[test]
fn first_board_winning_moves() {
    let graph = HexGraph::new(3, 3);
    let mut board = HexBoard::new(&graph);
    board.add_black(0, 1).unwrap();
    board.add_black(1, 0).unwrap();
    board.add_white(0, 2).unwrap();
    let again = board.clone();
    let moves = board.find_winning_moves_white();
    println!("first board: {:?}", moves);
    assert!(!moves.is_empty());
    assert_eq!(again.find_winning_moves_white(), moves);
    assert_eq!(moves, vec![(1, 1)]);
}

#[test]
fn single_cell_board_has_one_winning_move() {
    let graph = HexGraph::new(1, 1);
    let board = HexBoard::new(&graph);
    assert_eq!(board.find_winning_moves_white(), vec![(0, 0)]);
}

#[test]
fn black_already_won_leaves_no_winning_move() {
    let graph = HexGraph::new(3, 3);
    let mut board = HexBoard::new(&graph);
    board.add_black(0, 0).unwrap();
    board.add_black(0, 1).unwrap();
    board.add_black(0, 2).unwrap();
    assert!(board.black_win());
    assert_eq!(board.find_winning_moves_white(), Vec::<(usize, usize)>::new());
}

#[test]
fn search_is_repeatable() {
    let graph = HexGraph::new(2, 2);
    let mut board = HexBoard::new(&graph);
    board.add_black(0, 0).unwrap();
    let copy = board.clone();
    let first = board.find_winning_moves_white();
    let second = copy.find_winning_moves_white();
    assert_eq!(first, second);
}
