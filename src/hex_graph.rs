//! The graph of a quadrilateral hex board, with one node for each of its four sides.
use vstd::prelude::*;

use crate::graph::{lemma_with_edge_symmetric, symmetric, with_edge, Graph};

verus! {

/// Node of the bottom side.
pub const BOTTOM: usize = 0;
/// Node of the top side.
pub const TOP: usize = 1;
/// Node of the left side.
pub const LEFT: usize = 2;
/// Node of the right side.
pub const RIGHT: usize = 3;

/// Node of the cell in column `c` and row `r` on a board `w` cells wide; the
/// cells follow the four side nodes in row-major order.
pub open spec fn cell_id(w: int, c: int, r: int) -> int {
    4 + r * w + c
}

pub proof fn lemma_cell_in_range(w: int, h: int, c: int, r: int)
    requires
        0 <= c < w,
        0 <= r < h,
    ensures
        4 <= cell_id(w, c, r) < 4 + w * h,
{
    assert(r * w + c < w * h) by (nonlinear_arith)
        requires
            0 <= c < w,
            0 <= r < h,
    ;
    assert(0 <= r * w) by (nonlinear_arith)
        requires
            0 <= c < w,
            0 <= r < h,
    ;
}

/// `(c, r)` is a cell of a board `w` cells wide and `h` cells high.
pub open spec fn on_board(w: int, h: int, c: int, r: int) -> bool {
    0 <= c < w && 0 <= r < h
}

/// Which link below or to the left leads from `(c, r)` to `(c2, r2)`:
/// 0 below and to the left, 1 below, 2 to the left, 3 none of them.
pub open spec fn lower_kind(c: int, r: int, c2: int, r2: int) -> int {
    if c2 == c - 1 && r2 == r - 1 {
        0
    } else if c2 == c && r2 == r - 1 {
        1
    } else if c2 == c - 1 && r2 == r {
        2
    } else {
        3
    }
}

/// The cell that link `kind` (see `lower_kind`) leads to from `(c, r)`.
pub open spec fn lower_target(kind: int, c: int, r: int) -> (int, int) {
    if kind == 0 {
        (c - 1, r - 1)
    } else if kind == 1 {
        (c, r - 1)
    } else {
        (c - 1, r)
    }
}

/// The cells `(c, r)` and `(c2, r2)` are neighbours on a hex board: they are
/// next to each other in a row or a column, or one is below and to the left
/// of the other.
pub open spec fn hex_adjacent(c: int, r: int, c2: int, r2: int) -> bool {
    lower_kind(c, r, c2, r2) < 3 || lower_kind(c2, r2, c, r) < 3
}

/// The cell `(c, r)` lies on the side whose node is `b`.
pub open spec fn on_side(w: int, h: int, b: int, c: int, r: int) -> bool {
    ||| b == BOTTOM as int && r == 0
    ||| b == TOP as int && r == h - 1
    ||| b == LEFT as int && c == 0
    ||| b == RIGHT as int && c == w - 1
}

/// `adj` is the graph of a hex board `w` cells wide and `h` cells high: each
/// cell is linked to its hex neighbours and to the side nodes of the sides it
/// lies on, and no two side nodes are linked.
pub open spec fn is_hex_graph(adj: Seq<Seq<usize>>, w: int, h: int) -> bool {
    &&& forall|c: int, r: int, c2: int, r2: int|
        on_board(w, h, c, r) && on_board(w, h, c2, r2) ==> (#[trigger] adj[cell_id(w, c, r)].contains(
            cell_id(w, c2, r2) as usize,
        ) <==> hex_adjacent(c, r, c2, r2))
    &&& forall|c: int, r: int, b: int|
        on_board(w, h, c, r) && 0 <= b < 4 ==> (#[trigger] adj[cell_id(w, c, r)].contains(
            b as usize,
        ) <==> on_side(w, h, b, c, r))
    &&& forall|b1: int, b2: int|
        0 <= b1 < 4 && 0 <= b2 < 4 ==> !#[trigger] adj[b1].contains(b2 as usize)
}

/// While building: the link of kind `lower_kind(c, r, c2, r2)` from `(c, r)`
/// is in, because the cell comes before node `k`, or is node `k` and the
/// link's kind is below `j`.
spec fn link_done(w: int, k: int, j: int, c: int, r: int, c2: int, r2: int) -> bool {
    let t = lower_kind(c, r, c2, r2);
    t < 3 && (cell_id(w, c, r) < k || (cell_id(w, c, r) == k && t < j))
}

/// While building: the first `pb` cells of the bottom row, `pt` of the top
/// row, `pl` of the left column and `pr` of the right column are linked to
/// their side node.
spec fn side_done(w: int, h: int, p: (int, int, int, int), b: int, c: int, r: int) -> bool {
    ||| b == 0 && r == 0 && c < p.0
    ||| b == 1 && r == h - 1 && c < p.1
    ||| b == 2 && c == 0 && r < p.2
    ||| b == 3 && c == w - 1 && r < p.3
}

/// The graph as it stands while it is built.
spec fn built(adj: Seq<Seq<usize>>, w: int, h: int, p: (int, int, int, int), k: int, j: int) -> bool {
    &&& w > 0 && h > 0
    &&& adj.len() == 4 + w * h
    &&& adj.len() <= usize::MAX
    &&& symmetric(adj)
    &&& forall|c: int, r: int, c2: int, r2: int|
        on_board(w, h, c, r) && on_board(w, h, c2, r2) ==> (#[trigger] adj[cell_id(w, c, r)].contains(
            cell_id(w, c2, r2) as usize,
        ) <==> link_done(w, k, j, c, r, c2, r2) || link_done(w, k, j, c2, r2, c, r))
    &&& forall|c: int, r: int, b: int|
        on_board(w, h, c, r) && 0 <= b < 4 ==> (#[trigger] adj[cell_id(w, c, r)].contains(
            b as usize,
        ) <==> side_done(w, h, p, b, c, r))
    &&& forall|b1: int, b2: int|
        0 <= b1 < 4 && 0 <= b2 < 4 ==> !#[trigger] adj[b1].contains(b2 as usize)
}

pub proof fn lemma_cell_id_injective(w: int, h: int, c: int, r: int, c2: int, r2: int)
    requires
        on_board(w, h, c, r),
        on_board(w, h, c2, r2),
    ensures
        cell_id(w, c, r) == cell_id(w, c2, r2) <==> (c == c2 && r == r2),
        4 <= cell_id(w, c, r) < 4 + w * h,
{
    lemma_cell_in_range(w, h, c, r);
    if r < r2 {
        assert(r * w + c < r2 * w + c2) by (nonlinear_arith)
            requires
                0 <= c < w,
                0 <= c2,
                0 <= r < r2,
        ;
    } else if r2 < r {
        assert(r2 * w + c2 < r * w + c) by (nonlinear_arith)
            requires
                0 <= c2 < w,
                0 <= c,
                0 <= r2 < r,
        ;
    }
}

/// Linking the next cell of a side to that side's node.
proof fn lemma_link_side(
    adj: Seq<Seq<usize>>,
    w: int,
    h: int,
    p: (int, int, int, int),
    k: int,
    j: int,
    b: int,
    c0: int,
    r0: int,
)
    requires
        built(adj, w, h, p, k, j),
        on_board(w, h, c0, r0),
        (b == 0 && r0 == 0 && c0 == p.0) || (b == 1 && r0 == h - 1 && c0 == p.1) || (b == 2 && c0
            == 0 && r0 == p.2) || (b == 3 && c0 == w - 1 && r0 == p.3),
    ensures
        built(
            with_edge(adj, b, cell_id(w, c0, r0)),
            w,
            h,
            (
                if b == 0 { p.0 + 1 } else { p.0 },
                if b == 1 { p.1 + 1 } else { p.1 },
                if b == 2 { p.2 + 1 } else { p.2 },
                if b == 3 { p.3 + 1 } else { p.3 },
            ),
            k,
            j,
        ),
{
    let u = cell_id(w, c0, r0);
    lemma_cell_in_range(w, h, c0, r0);
    lemma_with_edge_symmetric(adj, b, u);
    let g = with_edge(adj, b, u);
    let q = (
        if b == 0 { p.0 + 1 } else { p.0 },
        if b == 1 { p.1 + 1 } else { p.1 },
        if b == 2 { p.2 + 1 } else { p.2 },
        if b == 3 { p.3 + 1 } else { p.3 },
    );
    assert forall|c: int, r: int, c2: int, r2: int|
        on_board(w, h, c, r) && on_board(w, h, c2, r2) implies (#[trigger] g[cell_id(w, c, r)].contains(
            cell_id(w, c2, r2) as usize,
        ) <==> link_done(w, k, j, c, r, c2, r2) || link_done(w, k, j, c2, r2, c, r)) by {
        lemma_cell_in_range(w, h, c, r);
        lemma_cell_in_range(w, h, c2, r2);
        assert(g[cell_id(w, c, r)].contains(cell_id(w, c2, r2) as usize) <==> adj[cell_id(
            w,
            c,
            r,
        )].contains(cell_id(w, c2, r2) as usize));
    }
    assert forall|c: int, r: int, b2: int|
        on_board(w, h, c, r) && 0 <= b2 < 4 implies (#[trigger] g[cell_id(w, c, r)].contains(
            b2 as usize,
        ) <==> side_done(w, h, q, b2, c, r)) by {
        lemma_cell_id_injective(w, h, c, r, c0, r0);
        assert(g[cell_id(w, c, r)].contains(b2 as usize) <==> adj[cell_id(w, c, r)].contains(
            b2 as usize,
        ) || (cell_id(w, c, r) == u && b2 == b));
    }
    assert forall|b1: int, b2: int| 0 <= b1 < 4 && 0 <= b2 < 4 implies !#[trigger] g[b1].contains(
        b2 as usize,
    ) by {
        assert(g[b1].contains(b2 as usize) <==> adj[b1].contains(b2 as usize));
    }
}

/// Linking cell `(c0, r0)`, which is node `k`, along its link of kind `j`.
proof fn lemma_link_lower(
    adj: Seq<Seq<usize>>,
    w: int,
    h: int,
    p: (int, int, int, int),
    k: int,
    j: int,
    c0: int,
    r0: int,
)
    requires
        built(adj, w, h, p, k, j),
        on_board(w, h, c0, r0),
        k == cell_id(w, c0, r0),
        0 <= j < 3,
        on_board(w, h, lower_target(j, c0, r0).0, lower_target(j, c0, r0).1),
    ensures
        built(
            with_edge(
                adj,
                cell_id(w, c0, r0),
                cell_id(w, lower_target(j, c0, r0).0, lower_target(j, c0, r0).1),
            ),
            w,
            h,
            p,
            k,
            j + 1,
        ),
{
    let (ct, rt) = lower_target(j, c0, r0);
    let u = cell_id(w, c0, r0);
    let v = cell_id(w, ct, rt);
    lemma_cell_in_range(w, h, c0, r0);
    lemma_cell_in_range(w, h, ct, rt);
    lemma_with_edge_symmetric(adj, u, v);
    let g = with_edge(adj, u, v);
    assert forall|c: int, r: int, c2: int, r2: int|
        on_board(w, h, c, r) && on_board(w, h, c2, r2) implies (#[trigger] g[cell_id(w, c, r)].contains(
            cell_id(w, c2, r2) as usize,
        ) <==> link_done(w, k, j + 1, c, r, c2, r2) || link_done(w, k, j + 1, c2, r2, c, r)) by {
        lemma_cell_id_injective(w, h, c, r, c0, r0);
        lemma_cell_id_injective(w, h, c2, r2, c0, r0);
        lemma_cell_id_injective(w, h, c, r, ct, rt);
        lemma_cell_id_injective(w, h, c2, r2, ct, rt);
        assert(g[cell_id(w, c, r)].contains(cell_id(w, c2, r2) as usize) <==> adj[cell_id(
            w,
            c,
            r,
        )].contains(cell_id(w, c2, r2) as usize) || (cell_id(w, c, r) == u && cell_id(w, c2, r2)
            == v) || (cell_id(w, c, r) == v && cell_id(w, c2, r2) == u));
    }
    assert forall|c: int, r: int, b2: int|
        on_board(w, h, c, r) && 0 <= b2 < 4 implies (#[trigger] g[cell_id(w, c, r)].contains(
            b2 as usize,
        ) <==> side_done(w, h, p, b2, c, r)) by {
        lemma_cell_in_range(w, h, c, r);
        assert(g[cell_id(w, c, r)].contains(b2 as usize) <==> adj[cell_id(w, c, r)].contains(
            b2 as usize,
        ));
    }
    assert forall|b1: int, b2: int| 0 <= b1 < 4 && 0 <= b2 < 4 implies !#[trigger] g[b1].contains(
        b2 as usize,
    ) by {
        assert(g[b1].contains(b2 as usize) <==> adj[b1].contains(b2 as usize));
    }
}

/// A link of kind `j` that would leave the board is skipped.
proof fn lemma_skip_lower(
    adj: Seq<Seq<usize>>,
    w: int,
    h: int,
    p: (int, int, int, int),
    k: int,
    j: int,
    c0: int,
    r0: int,
)
    requires
        built(adj, w, h, p, k, j),
        on_board(w, h, c0, r0),
        k == cell_id(w, c0, r0),
        0 <= j < 3,
        !on_board(w, h, lower_target(j, c0, r0).0, lower_target(j, c0, r0).1),
    ensures
        built(adj, w, h, p, k, j + 1),
{
    assert forall|c: int, r: int, c2: int, r2: int|
        on_board(w, h, c, r) && on_board(w, h, c2, r2) implies (#[trigger] adj[cell_id(w, c, r)].contains(
            cell_id(w, c2, r2) as usize,
        ) <==> link_done(w, k, j + 1, c, r, c2, r2) || link_done(w, k, j + 1, c2, r2, c, r)) by {
        lemma_cell_id_injective(w, h, c, r, c0, r0);
        lemma_cell_id_injective(w, h, c2, r2, c0, r0);
    }
}

/// Once all three links of node `k` are in, the next cell's turn comes.
proof fn lemma_next_cell(adj: Seq<Seq<usize>>, w: int, h: int, p: (int, int, int, int), k: int)
    requires
        built(adj, w, h, p, k, 3),
    ensures
        built(adj, w, h, p, k + 1, 0),
{
    assert forall|c: int, r: int, c2: int, r2: int|
        on_board(w, h, c, r) && on_board(w, h, c2, r2) implies (#[trigger] adj[cell_id(w, c, r)].contains(
            cell_id(w, c2, r2) as usize,
        ) <==> link_done(w, k + 1, 0, c, r, c2, r2) || link_done(w, k + 1, 0, c2, r2, c, r)) by {
    }
}

/// A graph without edges is where building starts.
proof fn lemma_built_start(adj: Seq<Seq<usize>>, w: int, h: int)
    requires
        w > 0,
        h > 0,
        4 + w * h <= usize::MAX,
        adj == Seq::new((4 + w * h) as nat, |i: int| Seq::<usize>::empty()),
    ensures
        built(adj, w, h, (0, 0, 0, 0), 4, 0),
{
    assert forall|c: int, r: int, c2: int, r2: int|
        on_board(w, h, c, r) && on_board(w, h, c2, r2) implies (#[trigger] adj[cell_id(w, c, r)].contains(
            cell_id(w, c2, r2) as usize,
        ) <==> link_done(w, 4, 0, c, r, c2, r2) || link_done(w, 4, 0, c2, r2, c, r)) by {
        lemma_cell_in_range(w, h, c, r);
        lemma_cell_in_range(w, h, c2, r2);
    }
    assert forall|c: int, r: int, b: int|
        on_board(w, h, c, r) && 0 <= b < 4 implies (#[trigger] adj[cell_id(w, c, r)].contains(
            b as usize,
        ) <==> side_done(w, h, (0, 0, 0, 0), b, c, r)) by {
        lemma_cell_in_range(w, h, c, r);
    }
}

/// The finished graph is the graph of the hex board.
proof fn lemma_built_is_hex(adj: Seq<Seq<usize>>, w: int, h: int)
    requires
        built(adj, w, h, (w, w, h, h), 4 + w * h, 0),
    ensures
        is_hex_graph(adj, w, h),
{
    assert forall|c: int, r: int, c2: int, r2: int|
        on_board(w, h, c, r) && on_board(w, h, c2, r2) implies (#[trigger] adj[cell_id(w, c, r)].contains(
            cell_id(w, c2, r2) as usize,
        ) <==> hex_adjacent(c, r, c2, r2)) by {
        lemma_cell_in_range(w, h, c, r);
        lemma_cell_in_range(w, h, c2, r2);
    }
}

/// A hex board `width` cells wide and `height` cells high, as a graph.
pub struct HexGraph {
    graph: Graph,
    width: usize,
    height: usize,
}

impl HexGraph {
    /// The adjacency list of each node.
    pub closed spec fn adj(&self) -> Seq<Seq<usize>> {
        self.graph@
    }

    /// Number of columns.
    pub closed spec fn cols(&self) -> nat {
        self.width as nat
    }

    /// Number of rows.
    pub closed spec fn rows(&self) -> nat {
        self.height as nat
    }

    pub open spec fn wf(&self) -> bool {
        &&& self.cols() > 0
        &&& self.rows() > 0
        &&& self.adj().len() == 4 + self.cols() * self.rows()
        &&& self.adj().len() <= usize::MAX
        &&& self.cols() <= usize::MAX
        &&& self.rows() <= usize::MAX
        &&& symmetric(self.adj())
        &&& is_hex_graph(self.adj(), self.cols() as int, self.rows() as int)
    }

    /// Build the graph of a board `width` cells wide and `height` cells high.
    pub fn new(width: usize, height: usize) -> (r: Self)
        requires
            width > 0,
            height > 0,
            4 + width * height <= usize::MAX,
        ensures
            r.wf(),
            r.cols() == width,
            r.rows() == height,
    {
        let n = 4 + width * height;
        let mut graph = Graph::new(n);
        let ghost w = width as int;
        let ghost h = height as int;
        proof {
            lemma_built_start(graph@, w, h);
        }
        // the bottom and top sides
        let mut column: usize = 0;
        while column < width
            invariant
                w == width,
                h == height,
                column <= width,
                n == 4 + w * h,
                built(graph@, w, h, (column as int, column as int, 0, 0), 4, 0),
            decreases width - column,
        {
            let ghost c = column as int;
            proof {
                lemma_cell_in_range(w, h, c, 0);
                lemma_cell_in_range(w, h, c, h - 1);
                lemma_link_side(graph@, w, h, (c, c, 0, 0), 4, 0, 0, c, 0);
            }
            graph.add_edge(BOTTOM, 4 + column);
            proof {
                lemma_link_side(graph@, w, h, (c + 1, c, 0, 0), 4, 0, 1, c, h - 1);
            }
            graph.add_edge(TOP, 4 + (height - 1) * width + column);
            column = column + 1;
        }
        // the left and right sides
        let mut row: usize = 0;
        while row < height
            invariant
                w == width,
                h == height,
                row <= height,
                n == 4 + w * h,
                built(graph@, w, h, (w, w, row as int, row as int), 4, 0),
            decreases height - row,
        {
            let ghost r = row as int;
            proof {
                lemma_cell_in_range(w, h, 0, r);
                lemma_cell_in_range(w, h, w - 1, r);
                lemma_link_side(graph@, w, h, (w, w, r, r), 4, 0, 2, 0, r);
            }
            graph.add_edge(LEFT, 4 + row * width);
            proof {
                lemma_link_side(graph@, w, h, (w, w, r + 1, r), 4, 0, 3, w - 1, r);
            }
            graph.add_edge(RIGHT, 4 + row * width + (width - 1));
            row = row + 1;
        }
        // each cell to its neighbours below and to the left; the other
        // three links come from those cells
        let ghost sides = (w, w, h, h);
        let mut row: usize = 0;
        while row < height
            invariant
                w == width,
                h == height,
                row <= height,
                n == 4 + w * h,
                built(graph@, w, h, sides, cell_id(w, 0, row as int), 0),
            decreases height - row,
        {
            let mut column: usize = 0;
            while column < width
                invariant
                    w == width,
                    h == height,
                    row < height,
                    column <= width,
                    n == 4 + w * h,
                    built(graph@, w, h, sides, cell_id(w, column as int, row as int), 0),
                decreases width - column,
            {
                let ghost c = column as int;
                let ghost r = row as int;
                let ghost k = cell_id(w, c, r);
                proof {
                    lemma_cell_in_range(w, h, c, r);
                }
                let here = 4 + row * width + column;
                // below and to the left
                if column > 0 && row > 0 {
                    proof {
                        lemma_cell_in_range(w, h, c - 1, r - 1);
                        lemma_link_lower(graph@, w, h, sides, k, 0, c, r);
                    }
                    graph.add_edge(here, 4 + (row - 1) * width + (column - 1));
                } else {
                    proof {
                        lemma_skip_lower(graph@, w, h, sides, k, 0, c, r);
                    }
                }
                // below
                if row > 0 {
                    proof {
                        lemma_cell_in_range(w, h, c, r - 1);
                        lemma_link_lower(graph@, w, h, sides, k, 1, c, r);
                    }
                    graph.add_edge(here, 4 + (row - 1) * width + column);
                } else {
                    proof {
                        lemma_skip_lower(graph@, w, h, sides, k, 1, c, r);
                    }
                }
                // left
                if column > 0 {
                    proof {
                        lemma_cell_in_range(w, h, c - 1, r);
                        lemma_link_lower(graph@, w, h, sides, k, 2, c, r);
                    }
                    graph.add_edge(here, 4 + row * width + (column - 1));
                } else {
                    proof {
                        lemma_skip_lower(graph@, w, h, sides, k, 2, c, r);
                    }
                }
                proof {
                    lemma_next_cell(graph@, w, h, sides, k);
                }
                column = column + 1;
            }
            proof {
                assert(cell_id(w, w, row as int) == cell_id(w, 0, row + 1)) by (nonlinear_arith);
            }
            row = row + 1;
        }
        proof {
            assert(cell_id(w, 0, h) == 4 + w * h) by (nonlinear_arith);
            lemma_built_is_hex(graph@, w, h);
        }
        HexGraph { graph, width, height }
    }

    /// The width of the board.
    pub fn width(&self) -> (r: usize)
        ensures
            r == self.cols(),
    {
        self.width
    }

    /// The height of the board.
    pub fn height(&self) -> (r: usize)
        ensures
            r == self.rows(),
    {
        self.height
    }

    /// Node of the cell in `column` and `row`.
    pub fn index(&self, column: usize, row: usize) -> (r: usize)
        requires
            self.wf(),
            column < self.cols(),
            row < self.rows(),
        ensures
            r as int == cell_id(self.cols() as int, column as int, row as int),
    {
        proof {
            lemma_cell_in_range(self.width as int, self.height as int, column as int, row as int);
        }
        4 + row * self.width + column
    }

    /// The nodes adjacent to the cell in `column` and `row`.
    pub fn adjacent(&self, column: usize, row: usize) -> (r: Vec<usize>)
        requires
            self.wf(),
            column < self.cols(),
            row < self.rows(),
        ensures
            r@ == self.adj()[cell_id(self.cols() as int, column as int, row as int)],
    {
        let i = self.index(column, row);
        proof {
            lemma_cell_in_range(self.width as int, self.height as int, column as int, row as int);
        }
        self.graph.adjacent(i)
    }
}

/// Adjacency on a board's graph is symmetric: every edge is listed at both ends.
pub proof fn lemma_adjacency_symmetric(g: &HexGraph)
    requires
        g.wf(),
    ensures
        forall|a: int, b: int|
            0 <= a < g.adj().len() && 0 <= b < g.adj().len() ==> (#[trigger] g.adj()[a].contains(
                b as usize,
            ) <==> #[trigger] g.adj()[b].contains(a as usize)),
{
}

/// A cell away from the four sides has exactly the six hex neighbours: the
/// cells left and right of it, below and above it, below and to the left,
/// and above and to the right; it touches no side node.
pub proof fn lemma_interior_neighbours(g: &HexGraph, c: int, r: int)
    requires
        g.wf(),
        0 < c < g.cols() - 1,
        0 < r < g.rows() - 1,
    ensures
        forall|c2: int, r2: int|
            on_board(g.cols() as int, g.rows() as int, c2, r2) ==> (#[trigger] g.adj()[cell_id(
                g.cols() as int,
                c,
                r,
            )].contains(cell_id(g.cols() as int, c2, r2) as usize) <==> {
                ||| c2 == c - 1 && r2 == r
                ||| c2 == c + 1 && r2 == r
                ||| c2 == c && r2 == r - 1
                ||| c2 == c && r2 == r + 1
                ||| c2 == c - 1 && r2 == r - 1
                ||| c2 == c + 1 && r2 == r + 1
            }),
        forall|b: int|
            0 <= b < 4 ==> !#[trigger] g.adj()[cell_id(g.cols() as int, c, r)].contains(b as usize),
{
    let w = g.cols() as int;
    let h = g.rows() as int;
    assert forall|c2: int, r2: int| on_board(w, h, c2, r2) implies (#[trigger] g.adj()[cell_id(
        w,
        c,
        r,
    )].contains(cell_id(w, c2, r2) as usize) <==> {
        ||| c2 == c - 1 && r2 == r
        ||| c2 == c + 1 && r2 == r
        ||| c2 == c && r2 == r - 1
        ||| c2 == c && r2 == r + 1
        ||| c2 == c - 1 && r2 == r - 1
        ||| c2 == c + 1 && r2 == r + 1
    }) by {
        assert(on_board(w, h, c, r));
    }
    assert forall|b: int| 0 <= b < 4 implies !#[trigger] g.adj()[cell_id(w, c, r)].contains(
        b as usize,
    ) by {
        assert(on_board(w, h, c, r));
    }
}

/// Each side node is linked to exactly the cells along its side: the bottom
/// row, the top row, the left column or the right column; side nodes are not
/// linked to each other.
pub proof fn lemma_side_nodes(g: &HexGraph, b: int)
    requires
        g.wf(),
        0 <= b < 4,
    ensures
        forall|c: int, r: int|
            on_board(g.cols() as int, g.rows() as int, c, r) ==> (#[trigger] g.adj()[b].contains(
                cell_id(g.cols() as int, c, r) as usize,
            ) <==> on_side(g.cols() as int, g.rows() as int, b, c, r)),
        forall|b2: int| 0 <= b2 < 4 ==> !#[trigger] g.adj()[b].contains(b2 as usize),
{
    let w = g.cols() as int;
    let h = g.rows() as int;
    assert forall|c: int, r: int| on_board(w, h, c, r) implies (#[trigger] g.adj()[b].contains(
        cell_id(w, c, r) as usize,
    ) <==> on_side(w, h, b, c, r)) by {
        lemma_cell_in_range(w, h, c, r);
        assert(g.adj()[cell_id(w, c, r)].contains(b as usize) <==> on_side(w, h, b, c, r));
        assert(g.adj()[b].contains(cell_id(w, c, r) as usize) <==> g.adj()[cell_id(
            w,
            c,
            r,
        )].contains(b as usize));
    }
}

} // verus!
