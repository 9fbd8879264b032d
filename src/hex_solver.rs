//! Hex positions with incremental connectivity, and the exhaustive search for
//! white's winning moves.
use vstd::prelude::*;

use std::collections::BTreeMap;

use crate::board_model::{
    all_black_moves_lose, join_neighbors, lemma_move_index, lemma_place_consistent,
    lemma_place_tracks, lemma_sides_tracked, lex_less, move_index, place, some_white_move_wins,
    stones_consistent, tracks, white_wins_black_to_move, white_wins_white_to_move, winning_moves,
    winning_moves_upto, BoardModel, SideModel,
};
use crate::chains::linked;
use crate::disjoint_set::{lemma_same_set_is_equivalence, DisjointSet};
use crate::hex_graph::{
    cell_id, lemma_cell_in_range, on_board, HexGraph, BOTTOM, LEFT, RIGHT, TOP,
};

verus! {

broadcast use vstd::laws_cmp::group_laws_cmp, vstd::std_specs::btree::group_btree_axioms;

/// Why a stone could not be placed.
#[derive(Debug, Clone, Copy, PartialEq, Eq, Structural)]
pub enum MoveError {
    /// The cell is not empty (or not on the board).
    CellOccupied,
}

/// A Hex position on a shared board graph. Black joins the bottom and top
/// sides, white the left and right sides.
pub struct HexBoard<'a> {
    graph: &'a HexGraph,
    /// Each player's element for each graph node it holds.
    black_nodes: BTreeMap<usize, usize>,
    white_nodes: BTreeMap<usize, usize>,
    black_set: DisjointSet,
    white_set: DisjointSet,
    open_moves: Vec<(usize, usize)>,
}

/// The disjoint set and node map of one player fit together.
pub open spec fn side_wf(nodes: Map<usize, usize>, set: DisjointSet) -> bool {
    &&& set.wf()
    &&& set.size() >= 2
    &&& forall|k: usize| #[trigger] nodes.contains_key(k) ==> (nodes[k] as int) < set.size()
}

impl<'a> View for HexBoard<'a> {
    type V = BoardModel;

    closed spec fn view(&self) -> BoardModel {
        BoardModel {
            width: self.graph.cols(),
            height: self.graph.rows(),
            adj: self.graph.adj(),
            black: SideModel {
                nodes: self.black_nodes@,
                rel: self.black_set@,
                size: self.black_set.size(),
            },
            white: SideModel {
                nodes: self.white_nodes@,
                rel: self.white_set@,
                size: self.white_set.size(),
            },
            open: self.open_moves@,
        }
    }
}

impl<'a> Clone for HexBoard<'a> {
    fn clone(&self) -> (r: Self)
        ensures
            r@ == self@,
            r.wf() == self.wf(),
    {
        let open_moves = self.empty_cells();
        HexBoard {
            graph: self.graph,
            black_nodes: self.black_nodes.clone(),
            white_nodes: self.white_nodes.clone(),
            black_set: self.black_set.clone(),
            white_set: self.white_set.clone(),
            open_moves,
        }
    }
}

impl<'a> HexBoard<'a> {
    pub closed spec fn wf(&self) -> bool {
        let w = self.graph.cols() as int;
        let h = self.graph.rows() as int;
        &&& self.graph.wf()
        &&& side_wf(self.black_nodes@, self.black_set)
        &&& side_wf(self.white_nodes@, self.white_set)
        &&& self.open_moves@.no_duplicates()
        &&& forall|i: int|
            0 <= i < self.open_moves@.len() ==> (#[trigger] self.open_moves@[i]).0 < w
                && self.open_moves@[i].1 < h
        &&& self.black_set.size() + self.white_set.size() + self.open_moves@.len() <= 4 + w * h
        &&& stones_consistent(w, h, self.open_moves@, self.black_nodes@, self.white_nodes@)
        &&& tracks(self.graph.adj(), self@.black)
        &&& tracks(self.graph.adj(), self@.white)
        &&& self.black_nodes@.contains_key(BOTTOM) && self.black_nodes@[BOTTOM] == 0
        &&& self.black_nodes@.contains_key(TOP) && self.black_nodes@[TOP] == 1
        &&& self.white_nodes@.contains_key(LEFT) && self.white_nodes@[LEFT] == 0
        &&& self.white_nodes@.contains_key(RIGHT) && self.white_nodes@[RIGHT] == 1
    }

    /// Place a stone on the cell `(column, row)` into the given player's structures.
    fn place_stone(
        graph: &HexGraph,
        nodes: &mut BTreeMap<usize, usize>,
        set: &mut DisjointSet,
        column: usize,
        row: usize,
    )
        requires
            graph.wf(),
            column < graph.cols(),
            row < graph.rows(),
            side_wf(old(nodes)@, *old(set)),
            old(set).size() + 1 < 4 + graph.cols() * graph.rows(),
            tracks(graph.adj(), SideModel { nodes: old(nodes)@, rel: old(set)@, size: old(set).size() }),
            !old(nodes)@.contains_key(cell_id(graph.cols() as int, column as int, row as int) as usize),
        ensures
            side_wf(final(nodes)@, *final(set)),
            tracks(graph.adj(), SideModel { nodes: final(nodes)@, rel: final(set)@, size: final(set).size() }),
            ({
                let node = cell_id(graph.cols() as int, column as int, row as int) as usize;
                let after = place(
                    SideModel { nodes: old(nodes)@, rel: old(set)@, size: old(set).size() },
                    node,
                    graph.adj()[node as int],
                );
                final(nodes)@ == after.nodes && final(set)@ == after.rel && final(set).size()
                    == after.size
            }),
    {
        proof {
            lemma_cell_in_range(graph.cols() as int, graph.rows() as int, column as int, row as int);
        }
        let ghost rel0 = set@;
        let ghost before = SideModel { nodes: nodes@, rel: set@, size: set.size() };
        proof {
            lemma_same_set_is_equivalence(&*set);
        }
        let new_elem = set.add_elem();
        let index = graph.index(column, row);
        nodes.insert(index, new_elem);
        let adjacent = graph.adjacent(column, row);
        let ghost e = new_elem as int;
        let mut k: usize = 0;
        assert(adjacent@.take(0) =~= Seq::<usize>::empty());
        while k < adjacent.len()
            invariant
                k <= adjacent@.len(),
                set.wf(),
                set.size() == e + 1,
                new_elem as int == e,
                e >= 2,
                forall|q: usize| #[trigger] nodes@.contains_key(q) ==> (nodes@[q] as int) < set.size(),
                set@ == join_neighbors(nodes@, rel0.insert((e, e)), e, adjacent@.take(k as int)),
            decreases adjacent@.len() - k,
        {
            assert(adjacent@.take(k + 1).drop_last() =~= adjacent@.take(k as int));
            assert(adjacent@.take(k + 1).last() == adjacent@[k as int]);
            match nodes.get(&adjacent[k]) {
                Some(found) => {
                    let other = *found;
                    set.union(other, new_elem);
                },
                None => {},
            }
            k = k + 1;
        }
        assert(adjacent@.take(k as int) =~= adjacent@);
        proof {
            lemma_same_set_is_equivalence(&*set);
            lemma_place_tracks(graph.adj(), before, index);
        }
    }

    /// Index of `(column, row)` in `open`, or the length of `open` if it is not there.
    fn position(open: &Vec<(usize, usize)>, column: usize, row: usize) -> (r: usize)
        ensures
            r <= open@.len(),
            r < open@.len() ==> open@[r as int] == (column, row),
            forall|j: int| 0 <= j < r ==> open@[j] != (column, row),
    {
        let mut i: usize = 0;
        while i < open.len()
            invariant
                i <= open@.len(),
                forall|j: int| 0 <= j < i ==> open@[j] != (column, row),
            decreases open@.len() - i,
        {
            let (c, r) = open[i];
            if c == column && r == row {
                return i;
            }
            i = i + 1;
        }
        i
    }

    /// Place a stone of the given player on `(column, row)`, if that cell is empty.
    fn play(
        graph: &HexGraph,
        open_moves: &mut Vec<(usize, usize)>,
        nodes: &mut BTreeMap<usize, usize>,
        set: &mut DisjointSet,
        other_size: Ghost<nat>,
        column: usize,
        row: usize,
    ) -> (r: Result<(), MoveError>)
        requires
            graph.wf(),
            side_wf(old(nodes)@, *old(set)),
            old(open_moves)@.no_duplicates(),
            forall|i: int|
                0 <= i < old(open_moves)@.len() ==> (#[trigger] old(open_moves)@[i]).0
                    < graph.cols() && old(open_moves)@[i].1 < graph.rows(),
            other_size@ >= 2,
            old(set).size() + other_size@ + old(open_moves)@.len() <= 4 + graph.cols()
                * graph.rows(),
            tracks(graph.adj(), SideModel { nodes: old(nodes)@, rel: old(set)@, size: old(set).size() }),
            forall|c: int, r: int|
                on_board(graph.cols() as int, graph.rows() as int, c, r) && #[trigger] old(
                    open_moves,
                )@.contains((c as usize, r as usize)) ==> !old(nodes)@.contains_key(
                    cell_id(graph.cols() as int, c, r) as usize,
                ),
        ensures
            side_wf(final(nodes)@, *final(set)),
            tracks(graph.adj(), SideModel { nodes: final(nodes)@, rel: final(set)@, size: final(set).size() }),
            final(open_moves)@.no_duplicates(),
            forall|i: int|
                0 <= i < final(open_moves)@.len() ==> (#[trigger] final(open_moves)@[i]).0
                    < graph.cols() && final(open_moves)@[i].1 < graph.rows(),
            final(set).size() + other_size@ + final(open_moves)@.len() <= 4 + graph.cols()
                * graph.rows(),
            !final(open_moves)@.contains((column, row)),
            match r {
                Ok(()) => {
                    let i = move_index(old(open_moves)@, (column, row));
                    let node = cell_id(graph.cols() as int, column as int, row as int) as usize;
                    let after = place(
                        SideModel { nodes: old(nodes)@, rel: old(set)@, size: old(set).size() },
                        node,
                        graph.adj()[node as int],
                    );
                    &&& old(open_moves)@.contains((column, row))
                    &&& final(open_moves)@ == old(open_moves)@.remove(i)
                    &&& final(nodes)@ == after.nodes
                    &&& final(set)@ == after.rel
                    &&& final(set).size() == after.size
                },
                Err(e) => {
                    &&& e == MoveError::CellOccupied
                    &&& !old(open_moves)@.contains((column, row))
                    &&& final(open_moves)@ == old(open_moves)@
                    &&& final(nodes)@ == old(nodes)@
                    &&& final(set)@ == old(set)@
                    &&& final(set).size() == old(set).size()
                    &&& final(set).wf() == old(set).wf()
                },
            },
    {
        let i = Self::position(open_moves, column, row);
        if i == open_moves.len() {
            return Err(MoveError::CellOccupied);
        }
        let ghost old_open = open_moves@;
        proof {
            assert(old_open.contains(((column as int) as usize, (row as int) as usize)));
            let j = move_index(old_open, (column, row));
            assert(old_open[i as int] == (column, row));
            assert(0 <= j < old_open.len() && old_open[j] == (column, row));
            assert(j == i);
        }
        open_moves.remove(i);
        assert forall|j: int| 0 <= j < open_moves@.len() implies open_moves@[j] != (column, row) by {
            if j < i {
                assert(old_open[j] == open_moves@[j]);
            } else {
                assert(old_open[j + 1] == open_moves@[j]);
            }
        }
        assert forall|a: int, b: int|
            0 <= a < open_moves@.len() && 0 <= b < open_moves@.len() && a != b implies
            open_moves@[a] != open_moves@[b] by {
            let a0 = if a < i { a } else { a + 1 };
            let b0 = if b < i { b } else { b + 1 };
            assert(open_moves@[a] == old_open[a0]);
            assert(open_moves@[b] == old_open[b0]);
        }
        assert forall|j: int| 0 <= j < open_moves@.len() implies (#[trigger] open_moves@[j]).0
            < graph.cols() && open_moves@[j].1 < graph.rows() by {
            if j < i {
                assert(old_open[j] == open_moves@[j]);
            } else {
                assert(old_open[j + 1] == open_moves@[j]);
            }
        }
        Self::place_stone(graph, nodes, set, column, row);
        Ok(())
    }

    /// A position on `graph` with no stones.
    pub fn new(graph: &'a HexGraph) -> (r: Self)
        requires
            graph.wf(),
        ensures
            r.wf(),
            r@.width == graph.cols(),
            r@.height == graph.rows(),
            r@.adj == graph.adj(),
            r@.black == (SideModel {
                nodes: map![0usize => 0usize, 1usize => 1usize],
                rel: set![(0int, 0int), (1int, 1int)],
                size: 2,
            }),
            r@.white == (SideModel {
                nodes: map![2usize => 0usize, 3usize => 1usize],
                rel: set![(0int, 0int), (1int, 1int)],
                size: 2,
            }),
            r@.open.len() == graph.cols() * graph.rows(),
            forall|c: usize, w: usize|
                c < graph.cols() && w < graph.rows() ==> #[trigger] r@.open.contains((c, w)),
            forall|i: int, j: int|
                0 <= i < j < r@.open.len() ==> lex_less(#[trigger] r@.open[i], #[trigger] r@.open[j]),
    {
        let mut black_set = DisjointSet::new();
        // add the black sides
        let first_black = black_set.add_elem();
        let second_black = black_set.add_elem();
        let mut white_set = DisjointSet::new();
        // add the white sides
        let first_white = white_set.add_elem();
        let second_white = white_set.add_elem();

        let mut black_nodes = BTreeMap::new();
        black_nodes.insert(BOTTOM, first_black);
        black_nodes.insert(TOP, second_black);

        let mut white_nodes = BTreeMap::new();
        white_nodes.insert(LEFT, first_white);
        white_nodes.insert(RIGHT, second_white);

        let open_moves = Self::all_cells(graph.width(), graph.height());
        proof {
            assert(black_set@ =~= set![(0int, 0int), (1int, 1int)]);
            assert(white_set@ =~= set![(0int, 0int), (1int, 1int)]);
            assert(black_nodes@ =~= map![0usize => 0usize, 1usize => 1usize]);
            assert(white_nodes@ =~= map![2usize => 0usize, 3usize => 1usize]);
            let w = graph.cols() as int;
            let h = graph.rows() as int;
            assert forall|c: int, r: int| on_board(w, h, c, r) implies (#[trigger] open_moves@.contains(
                (c as usize, r as usize),
            ) <==> !black_nodes@.contains_key(cell_id(w, c, r) as usize) && !white_nodes@.contains_key(
                cell_id(w, c, r) as usize,
            )) by {
                lemma_cell_in_range(w, h, c, r);
                assert(open_moves@.contains((c as usize, r as usize)));
            }
            lemma_sides_tracked(graph.adj(), black_nodes@, black_set@, BOTTOM, TOP);
            lemma_sides_tracked(graph.adj(), white_nodes@, white_set@, LEFT, RIGHT);
        }
        HexBoard { graph, black_nodes, white_nodes, black_set, white_set, open_moves }
    }

    /// Every cell of a `width` by `height` board, by column and then by row.
    fn all_cells(width: usize, height: usize) -> (r: Vec<(usize, usize)>)
        requires
            width * height <= usize::MAX,
        ensures
            r@.len() == width * height,
            r@.no_duplicates(),
            forall|i: int| 0 <= i < r@.len() ==> (#[trigger] r@[i]).0 < width && r@[i].1 < height,
            forall|c: usize, w: usize| c < width && w < height ==> #[trigger] r@.contains((c, w)),
            forall|i: int, j: int|
                0 <= i < j < r@.len() ==> lex_less(#[trigger] r@[i], #[trigger] r@[j]),
    {
        let mut open: Vec<(usize, usize)> = Vec::new();
        let mut column: usize = 0;
        while column < width
            invariant
                column <= width,
                width * height <= usize::MAX,
                open@.len() == column * height,
                forall|i: int| 0 <= i < open@.len() ==> (#[trigger] open@[i]).0 < column && open@[i].1 < height,
                forall|c: usize, w: usize| c < column && w < height ==> #[trigger] open@.contains((c, w)),
                forall|i: int, j: int|
                    0 <= i < j < open@.len() ==> lex_less(#[trigger] open@[i], #[trigger] open@[j]),
            decreases width - column,
        {
            let mut row: usize = 0;
            let ghost before = open@;
            while row < height
                invariant
                    column < width,
                    row <= height,
                    width * height <= usize::MAX,
                    open@.len() == column * height + row,
                    before.len() == column * height,
                    open@.subrange(0, before.len() as int) == before,
                    forall|i: int| 0 <= i < before.len() ==> (#[trigger] before[i]).0 < column && before[i].1 < height,
                    forall|i: int|
                        before.len() <= i < open@.len() ==> #[trigger] open@[i] == (column, (i - before.len()) as usize),
                    forall|c: usize, w: usize| c < column && w < height ==> #[trigger] before.contains((c, w)),
                    forall|i: int, j: int|
                        0 <= i < j < open@.len() ==> lex_less(#[trigger] open@[i], #[trigger] open@[j]),
                decreases height - row,
            {
                proof {
                    assert(column * height + row < width * height) by (nonlinear_arith)
                        requires
                            column < width,
                            row < height,
                    ;
                }
                let ghost prev = open@;
                open.push((column, row));
                assert(open@.subrange(0, before.len() as int) =~= prev.subrange(0, before.len() as int));
                assert forall|i: int, j: int|
                    0 <= i < j < open@.len() implies lex_less(#[trigger] open@[i], #[trigger] open@[j]) by {
                    if j == open@.len() - 1 && i >= before.len() {
                        assert(open@[i] == prev[i]);
                    } else if j == open@.len() - 1 {
                        assert(open@[i] == before[i]);
                    } else {
                        assert(open@[i] == prev[i] && open@[j] == prev[j]);
                    }
                }
                row = row + 1;
            }
            proof {
                assert(column * height + height == (column + 1) * height) by (nonlinear_arith);
                assert forall|i: int| 0 <= i < open@.len() implies (#[trigger] open@[i]).0 < column + 1
                    && open@[i].1 < height by {
                    if i < before.len() {
                        assert(open@.subrange(0, before.len() as int)[i] == open@[i]);
                    }
                }
                assert forall|c: usize, w: usize| c < column + 1 && w < height implies #[trigger] open@.contains((c, w)) by {
                    if c < column {
                        assert(before.contains((c, w)));
                        let k = choose|k: int| 0 <= k < before.len() && before[k] == (c, w);
                        assert(open@.subrange(0, before.len() as int)[k] == open@[k]);
                    } else {
                        assert(open@[before.len() + w] == (c, w));
                    }
                }
            }
            column = column + 1;
        }
        proof {
            assert forall|i: int, j: int| 0 <= i < open@.len() && 0 <= j < open@.len() && i != j implies open@[i] != open@[j] by {
                if i < j {
                    assert(lex_less(open@[i], open@[j]));
                } else {
                    assert(lex_less(open@[j], open@[i]));
                }
            }
        }
        open
    }

    /// Check if black has won.
    pub fn black_win(&mut self) -> (r: bool)
        requires
            old(self).wf(),
        ensures
            final(self).wf(),
            final(self)@ == old(self)@,
            r == old(self)@.black_won(),
    {
        self.black_set.connected(0, 1)
    }

    /// Check if white has won.
    pub fn white_win(&mut self) -> (r: bool)
        requires
            old(self).wf(),
        ensures
            final(self).wf(),
            final(self)@ == old(self)@,
            r == old(self)@.white_won(),
    {
        self.white_set.connected(0, 1)
    }

    /// Make a move for black, if `(column, row)` is an empty cell of the board.
    pub fn add_black(&mut self, column: usize, row: usize) -> (r: Result<(), MoveError>)
        requires
            old(self).wf(),
        ensures
            final(self).wf(),
            !final(self)@.open.contains((column, row)),
            r is Ok <==> old(self)@.open.contains((column, row)),
            r is Ok ==> final(self)@ == old(self)@.play_black(move_index(old(self)@.open, (column, row))),
            column >= old(self)@.width || row >= old(self)@.height ==> r is Err,
            r is Err ==> r == Err::<(), MoveError>(MoveError::CellOccupied) && final(self)@ == old(self)@,
    {
        let ghost open0 = self.open_moves@;
        let ghost nodes0 = self.black_nodes@;
        let ghost e = self.black_set.size();
        let r = Self::play(
            self.graph,
            &mut self.open_moves,
            &mut self.black_nodes,
            &mut self.black_set,
            Ghost(self.white_set.size()),
            column,
            row,
        );
        proof {
            if r is Ok {
                let i = move_index(open0, (column, row));
                assert(open0[i] == (column, row));
                lemma_cell_in_range(
                    self.graph.cols() as int,
                    self.graph.rows() as int,
                    column as int,
                    row as int,
                );
                lemma_place_consistent(
                    self.graph.cols() as int,
                    self.graph.rows() as int,
                    open0,
                    nodes0,
                    self.white_nodes@,
                    i,
                    e as usize,
                );
            }
        }
        r
    }

    /// Make a move for white, if `(column, row)` is an empty cell of the board.
    pub fn add_white(&mut self, column: usize, row: usize) -> (r: Result<(), MoveError>)
        requires
            old(self).wf(),
        ensures
            final(self).wf(),
            !final(self)@.open.contains((column, row)),
            r is Ok <==> old(self)@.open.contains((column, row)),
            r is Ok ==> final(self)@ == old(self)@.play_white(move_index(old(self)@.open, (column, row))),
            column >= old(self)@.width || row >= old(self)@.height ==> r is Err,
            r is Err ==> r == Err::<(), MoveError>(MoveError::CellOccupied) && final(self)@ == old(self)@,
    {
        let ghost open0 = self.open_moves@;
        let ghost nodes0 = self.white_nodes@;
        let ghost e = self.white_set.size();
        let r = Self::play(
            self.graph,
            &mut self.open_moves,
            &mut self.white_nodes,
            &mut self.white_set,
            Ghost(self.black_set.size()),
            column,
            row,
        );
        proof {
            if r is Ok {
                let i = move_index(open0, (column, row));
                assert(open0[i] == (column, row));
                lemma_cell_in_range(
                    self.graph.cols() as int,
                    self.graph.rows() as int,
                    column as int,
                    row as int,
                );
                lemma_place_consistent(
                    self.graph.cols() as int,
                    self.graph.rows() as int,
                    open0,
                    nodes0,
                    self.black_nodes@,
                    i,
                    e as usize,
                );
            }
        }
        r
    }

    /// The empty cells, in the order the search visits them.
    pub fn empty_cells(&self) -> (r: Vec<(usize, usize)>)
        ensures
            r@ == self@.open,
    {
        let mut cells: Vec<(usize, usize)> = Vec::new();
        let mut i: usize = 0;
        while i < self.open_moves.len()
            invariant
                i <= self.open_moves@.len(),
                cells@ == self.open_moves@.take(i as int),
            decreases self.open_moves@.len() - i,
        {
            cells.push(self.open_moves[i]);
            assert(cells@ =~= self.open_moves@.take(i + 1));
            i = i + 1;
        }
        assert(cells@ =~= self.open_moves@);
        cells
    }

    /// Check if this board is winning for white, with black to play.
    fn is_winning_black(&mut self) -> (r: bool)
        requires
            old(self).wf(),
        ensures
            final(self).wf(),
            final(self)@ == old(self)@,
            r == white_wins_black_to_move(old(self)@),
        decreases old(self)@.open.len(), 0nat,
    {
        // If white won with the last move, we're done
        if self.white_win() {
            return true;
        }
        if self.open_moves.len() == 0 {
            return false;
        }
        let ghost m = self@;
        // winning for white if every black move leads to a win with white to play
        let mut i: usize = 0;
        while i < self.open_moves.len()
            invariant
                self.wf(),
                self@ == m,
                m == old(self)@,
                m.open.len() > 0,
                !m.white_won(),
                i <= m.open.len(),
                all_black_moves_lose(m, 0) == all_black_moves_lose(m, i as nat),
            decreases m.open.len() - i,
        {
            let (column, row) = self.open_moves[i];
            let mut next = self.clone();
            proof {
                lemma_move_index(m.open, i as int);
            }
            // the cell is empty, so the move is made
            let placed = next.add_black(column, row);
            assert(placed is Ok);
            assert(next@ == m.play_black(i as int));
            if !next.is_winning_white() {
                assert(!all_black_moves_lose(m, i as nat));
                return false;
            }
            i = i + 1;
        }
        true
    }

    /// Check if this board is winning for white, with white to play.
    fn is_winning_white(&mut self) -> (r: bool)
        requires
            old(self).wf(),
        ensures
            final(self).wf(),
            final(self)@ == old(self)@,
            r == white_wins_white_to_move(old(self)@),
        decreases old(self)@.open.len(), 0nat,
    {
        // If black won with the last move, we're done
        if self.black_win() {
            return false;
        }
        let ghost m = self@;
        // winning for white if some white move leads to a win with black to play
        let mut i: usize = 0;
        while i < self.open_moves.len()
            invariant
                self.wf(),
                self@ == m,
                m == old(self)@,
                !m.black_won(),
                i <= m.open.len(),
                some_white_move_wins(m, 0) == some_white_move_wins(m, i as nat),
            decreases m.open.len() - i,
        {
            let (column, row) = self.open_moves[i];
            let mut next = self.clone();
            proof {
                lemma_move_index(m.open, i as int);
            }
            // the cell is empty, so the move is made
            let placed = next.add_white(column, row);
            assert(placed is Ok);
            assert(next@ == m.play_white(i as int));
            if next.is_winning_black() {
                assert(some_white_move_wins(m, i as nat));
                return true;
            }
            i = i + 1;
        }
        false
    }

    /// Find all the winning moves for white, with white to play, in the
    /// order of the empty cells.
    pub fn find_winning_moves_white(self) -> (r: Vec<(usize, usize)>)
        requires
            self.wf(),
        ensures
            r@ == winning_moves(self@),
    {
        let ghost m = self@;
        let mut winning_moves: Vec<(usize, usize)> = Vec::new();
        let mut i: usize = 0;
        while i < self.open_moves.len()
            invariant
                self.wf(),
                self@ == m,
                i <= m.open.len(),
                winning_moves@ == winning_moves_upto(m, i as int),
            decreases m.open.len() - i,
        {
            let (column, row) = self.open_moves[i];
            let mut next = self.clone();
            proof {
                lemma_move_index(m.open, i as int);
            }
            // the cell is empty, so the move is made
            let placed = next.add_white(column, row);
            assert(placed is Ok);
            if next.is_winning_black() {
                winning_moves.push((column, row));
            }
            i = i + 1;
        }
        winning_moves
    }

} // impl

/// On every board reached by `new`, `add_black` and `add_white`, the empty
/// cells are exactly the cells that neither player holds, no node is held
/// by both, and the graph is that of a hex board.
pub proof fn lemma_board_consistent(b: &HexBoard)
    requires
        b.wf(),
    ensures
        stones_consistent(
            b@.width as int,
            b@.height as int,
            b@.open,
            b@.black.nodes,
            b@.white.nodes,
        ),
        crate::hex_graph::is_hex_graph(b@.adj, b@.width as int, b@.height as int),
        b@.open.no_duplicates(),
        forall|i: int|
            0 <= i < b@.open.len() ==> on_board(
                b@.width as int,
                b@.height as int,
                #[trigger] b@.open[i].0 as int,
                b@.open[i].1 as int,
            ),
{
}

/// Black has won exactly when a chain of black stones, on cells linked one
/// to the next, joins the bottom side to the top side; white has won exactly
/// when a chain of white stones joins the left side to the right side.
pub proof fn lemma_win_is_chain(b: &HexBoard)
    requires
        b.wf(),
    ensures
        b@.black_won() <==> linked(b@.adj, b@.black.nodes.dom(), BOTTOM, TOP),
        b@.white_won() <==> linked(b@.adj, b@.white.nodes.dom(), LEFT, RIGHT),
        b@.black.nodes.dom().contains(BOTTOM) && b@.black.nodes.dom().contains(TOP),
        b@.white.nodes.dom().contains(LEFT) && b@.white.nodes.dom().contains(RIGHT),
        tracks(b@.adj, b@.black),
        tracks(b@.adj, b@.white),
{
    assert(b@.black.rel.contains((b@.black.nodes[BOTTOM] as int, b@.black.nodes[TOP] as int))
        <==> linked(b@.adj, b@.black.nodes.dom(), BOTTOM, TOP));
    assert(b@.white.rel.contains((b@.white.nodes[LEFT] as int, b@.white.nodes[RIGHT] as int))
        <==> linked(b@.adj, b@.white.nodes.dom(), LEFT, RIGHT));
}

/// A cell that either player holds is not empty, so `add_black` and
/// `add_white` refuse it with `CellOccupied`.
pub proof fn lemma_occupied_cell_refused(b: &HexBoard, c: int, r: int)
    requires
        b.wf(),
        on_board(b@.width as int, b@.height as int, c, r),
        b@.black.nodes.contains_key(cell_id(b@.width as int, c, r) as usize)
            || b@.white.nodes.contains_key(cell_id(b@.width as int, c, r) as usize),
    ensures
        !b@.open.contains((c as usize, r as usize)),
{
}

/// The search depends on the position alone: two boards with the same
/// position, such as a board and its clone, give the same winning moves.
pub proof fn lemma_winning_moves_repeatable(a: &HexBoard, b: &HexBoard)
    requires
        a@ == b@,
    ensures
        winning_moves(a@) == winning_moves(b@),
{
}

} // verus!
