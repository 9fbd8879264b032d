//! The mathematical model of a Hex position: each player's stones and the
//! connectivity their disjoint sets record, the moves, and the search for
//! white's winning moves, stated over positions.
use vstd::prelude::*;

use crate::chains::{
    lemma_chain_relation, lemma_linked_edge, lemma_linked_grow, lemma_linked_join,
    lemma_linked_no_edges, lemma_linked_refl, linked,
};
use crate::disjoint_set::union_rel;
use crate::graph::symmetric;
use crate::hex_graph::{cell_id, lemma_cell_id_injective, lemma_cell_in_range, on_board};

verus! {

/// One player's stones as the connectivity tracking sees them.
pub struct SideModel {
    /// Element of the player's disjoint set for each occupied graph node,
    /// the two side nodes of the player included.
    pub nodes: Map<usize, usize>,
    /// Which elements are joined by a chain of the player's stones.
    pub rel: Set<(int, int)>,
    /// Number of elements.
    pub size: nat,
}

/// A board position: the board's graph, both players' stones, and the empty cells.
pub struct BoardModel {
    /// Number of columns.
    pub width: nat,
    /// Number of rows.
    pub height: nat,
    /// The adjacency lists of the board's graph (see `HexGraph`).
    pub adj: Seq<Seq<usize>>,
    /// Black's stones, with the bottom and top side nodes.
    pub black: SideModel,
    /// White's stones, with the left and right side nodes.
    pub white: SideModel,
    /// The empty cells as `(column, row)`, in the order the search visits them.
    pub open: Seq<(usize, usize)>,
}

/// The relation `rel` after joining element `e` with the element of each
/// node of `nbrs` that `nodes` holds, one after the other.
pub open spec fn join_neighbors(
    nodes: Map<usize, usize>,
    rel: Set<(int, int)>,
    e: int,
    nbrs: Seq<usize>,
) -> Set<(int, int)>
    decreases nbrs.len(),
{
    if nbrs.len() == 0 {
        rel
    } else {
        let prev = join_neighbors(nodes, rel, e, nbrs.drop_last());
        if nodes.contains_key(nbrs.last()) {
            union_rel(prev, nodes[nbrs.last()] as int, e)
        } else {
            prev
        }
    }
}

/// A player's stones after one more stone on graph node `node`, whose
/// neighbours are `nbrs`: a new element joined with each occupied neighbour.
pub open spec fn place(s: SideModel, node: usize, nbrs: Seq<usize>) -> SideModel {
    let e = s.size as int;
    let nodes = s.nodes.insert(node, s.size as usize);
    SideModel { nodes, rel: join_neighbors(nodes, s.rel.insert((e, e)), e, nbrs), size: s.size + 1 }
}

/// `a` comes before `b` by column, and then by row.
pub open spec fn lex_less(a: (usize, usize), b: (usize, usize)) -> bool {
    a.0 < b.0 || (a.0 == b.0 && a.1 < b.1)
}

/// The connectivity tracking of one player matches the board: each held
/// node has an element of its own, and two held nodes are in the same set
/// exactly when a chain of held nodes joins them.
pub open spec fn tracks(adj: Seq<Seq<usize>>, side: SideModel) -> bool {
    &&& forall|a: usize| #[trigger] side.nodes.contains_key(a) ==> (a as int) < adj.len()
    &&& forall|a: usize, b: usize|
        side.nodes.contains_key(a) && side.nodes.contains_key(b) && #[trigger] side.nodes[a]
            == #[trigger] side.nodes[b] ==> a == b
    &&& forall|a: usize, b: usize|
        #![trigger side.rel.contains((side.nodes[a] as int, side.nodes[b] as int))]
        #![trigger linked(adj, side.nodes.dom(), a, b)]
        side.nodes.contains_key(a) && side.nodes.contains_key(b) ==> (side.rel.contains(
            (side.nodes[a] as int, side.nodes[b] as int),
        ) <==> linked(adj, side.nodes.dom(), a, b))
}

proof fn lemma_join_grows(nodes: Map<usize, usize>, rel: Set<(int, int)>, e: int, nbrs: Seq<usize>)
    ensures
        rel.subset_of(join_neighbors(nodes, rel, e, nbrs)),
    decreases nbrs.len(),
{
    if nbrs.len() > 0 {
        lemma_join_grows(nodes, rel, e, nbrs.drop_last());
    }
}

proof fn lemma_join_has_neighbor(
    nodes: Map<usize, usize>,
    rel: Set<(int, int)>,
    e: int,
    nbrs: Seq<usize>,
    i: int,
)
    requires
        0 <= i < nbrs.len(),
        nodes.contains_key(nbrs[i]),
        rel.contains((nodes[nbrs[i]] as int, nodes[nbrs[i]] as int)),
        rel.contains((e, e)),
    ensures
        join_neighbors(nodes, rel, e, nbrs).contains((nodes[nbrs[i]] as int, e)),
    decreases nbrs.len(),
{
    let prev = join_neighbors(nodes, rel, e, nbrs.drop_last());
    lemma_join_grows(nodes, rel, e, nbrs.drop_last());
    if i < nbrs.len() - 1 {
        lemma_join_has_neighbor(nodes, rel, e, nbrs.drop_last(), i);
    }
}

/// Every pair that the joins relate is joined by a chain through `v`'s
/// neighbours, given that the starting relation is.
proof fn lemma_join_sound(
    adj: Seq<Seq<usize>>,
    nodes: Map<usize, usize>,
    rel: Set<(int, int)>,
    v: usize,
    nbrs: Seq<usize>,
)
    requires
        symmetric(adj),
        adj.len() <= usize::MAX,
        (v as int) < adj.len(),
        nodes.contains_key(v),
        forall|k: int| 0 <= k < nbrs.len() ==> adj[v as int].contains(#[trigger] nbrs[k]),
        forall|a: usize, b: usize|
            nodes.contains_key(a) && nodes.contains_key(b) && #[trigger] rel.contains(
                (nodes[a] as int, nodes[b] as int),
            ) ==> linked(adj, nodes.dom(), a, b),
    ensures
        forall|a: usize, b: usize|
            nodes.contains_key(a) && nodes.contains_key(b) && #[trigger] join_neighbors(
                nodes,
                rel,
                nodes[v] as int,
                nbrs,
            ).contains((nodes[a] as int, nodes[b] as int)) ==> linked(adj, nodes.dom(), a, b),
    decreases nbrs.len(),
{
    let e = nodes[v] as int;
    if nbrs.len() > 0 {
        let rest = nbrs.drop_last();
        assert forall|k: int| 0 <= k < rest.len() implies adj[v as int].contains(#[trigger] rest[k]) by {
            assert(rest[k] == nbrs[k]);
        }
        lemma_join_sound(adj, nodes, rel, v, rest);
        let prev = join_neighbors(nodes, rel, e, rest);
        let last = nbrs.last();
        if nodes.contains_key(last) {
            let x = nodes[last] as int;
            assert(adj[v as int].contains(last));
            assert((last as int) < adj.len());
            assert(adj[v as int].contains((last as int) as usize) <==> adj[last as int].contains(
                (v as int) as usize,
            ));
            assert forall|a: usize, b: usize|
                nodes.contains_key(a) && nodes.contains_key(b) && #[trigger] union_rel(
                    prev,
                    x,
                    e,
                ).contains((nodes[a] as int, nodes[b] as int)) implies linked(
                adj,
                nodes.dom(),
                a,
                b,
            ) by {
                let na = nodes[a] as int;
                let nb = nodes[b] as int;
                if prev.contains((na, nb)) {
                } else if prev.contains((na, x)) && prev.contains((e, nb)) {
                    assert(prev.contains((nodes[a] as int, nodes[last] as int)));
                    assert(prev.contains((nodes[v] as int, nodes[b] as int)));
                    lemma_linked_join(adj, nodes.dom(), a, last, v, b);
                } else {
                    assert(prev.contains((nodes[a] as int, nodes[v] as int)));
                    assert(prev.contains((nodes[last] as int, nodes[b] as int)));
                    lemma_linked_join(adj, nodes.dom(), a, v, last, b);
                }
            }
        }
    }
}

/// Placing a stone keeps the tracking in step with the board, provided the
/// sets after the joins form an equivalence relation.
pub proof fn lemma_place_tracks(adj: Seq<Seq<usize>>, s: SideModel, v: usize)
    requires
        tracks(adj, s),
        symmetric(adj),
        adj.len() <= usize::MAX,
        (v as int) < adj.len(),
        !s.nodes.contains_key(v),
        s.size < usize::MAX,
        forall|a: usize| #[trigger] s.nodes.contains_key(a) ==> (s.nodes[a] as int) < s.size,
        forall|x: int| 0 <= x < s.size ==> #[trigger] s.rel.contains((x, x)),
        forall|p: (int, int)| #[trigger] s.rel.contains(p) ==> 0 <= p.0 < s.size && 0 <= p.1 < s.size,
        ({
            let r = place(s, v, adj[v as int]).rel;
            &&& forall|x: int, y: int| #[trigger] r.contains((x, y)) ==> r.contains((y, x))
            &&& forall|x: int, y: int, z: int|
                #[trigger] r.contains((x, y)) && #[trigger] r.contains((y, z)) ==> r.contains((x, z))
        }),
    ensures
        tracks(adj, place(s, v, adj[v as int])),
{
    let t = place(s, v, adj[v as int]);
    let e = s.size as int;
    let nodes = t.nodes;
    let dom = nodes.dom();
    let rel0 = s.rel.insert((e, e));
    let nbrs = adj[v as int];
    assert(nodes[v] as int == e);
    assert(s.nodes.dom().subset_of(dom));
    // soundness: related nodes are joined by a chain
    assert forall|a: usize, b: usize|
        nodes.contains_key(a) && nodes.contains_key(b) && #[trigger] rel0.contains(
            (nodes[a] as int, nodes[b] as int),
        ) implies linked(adj, dom, a, b) by {
        if a == v || b == v {
            assert(nodes[a] as int == e && nodes[b] as int == e);
            if a != v {
                assert(s.nodes[a] as int == e);
            }
            if b != v {
                assert(s.nodes[b] as int == e);
            }
            lemma_linked_refl(adj, dom, v);
        } else {
            assert(s.rel.contains((s.nodes[a] as int, s.nodes[b] as int)));
            assert(linked(adj, s.nodes.dom(), a, b));
            lemma_linked_grow(adj, s.nodes.dom(), dom, a, b);
        }
    }
    assert forall|k: int| 0 <= k < nbrs.len() implies adj[v as int].contains(#[trigger] nbrs[k]) by {
    }
    lemma_join_sound(adj, nodes, rel0, v, nbrs);
    lemma_join_grows(nodes, rel0, e, nbrs);
    // completeness: nodes joined by a chain are related
    let related = |x: usize, y: usize| t.rel.contains((nodes[x] as int, nodes[y] as int));
    assert forall|x: usize, y: usize|
        dom.contains(x) && dom.contains(y) && adj[x as int].contains(y) implies #[trigger] related(
        x,
        y,
    ) by {
        if x != v && y != v {
            lemma_linked_edge(adj, s.nodes.dom(), x, y);
            assert(s.rel.contains((s.nodes[x] as int, s.nodes[y] as int)));
            assert(rel0.contains((nodes[x] as int, nodes[y] as int)));
        } else if x == v && y == v {
            assert(rel0.contains((e, e)));
        } else if x == v {
            let k = choose|k: int| 0 <= k < nbrs.len() && nbrs[k] == y;
            assert(rel0.contains((nodes[y] as int, nodes[y] as int)));
            lemma_join_has_neighbor(nodes, rel0, e, nbrs, k);
            assert(t.rel.contains((nodes[y] as int, e)));
        } else {
            assert((x as int) < adj.len());
            assert(adj[v as int].contains((x as int) as usize) <==> adj[x as int].contains(
                (v as int) as usize,
            ));
            let k = choose|k: int| 0 <= k < nbrs.len() && nbrs[k] == x;
            assert(rel0.contains((nodes[x] as int, nodes[x] as int)));
            lemma_join_has_neighbor(nodes, rel0, e, nbrs, k);
        }
    }
    assert forall|a: usize, b: usize|
        nodes.contains_key(a) && nodes.contains_key(b) && #[trigger] linked(
            adj,
            dom,
            a,
            b,
        ) implies t.rel.contains((nodes[a] as int, nodes[b] as int)) by {
        let p = choose|p: Seq<usize>|
            #[trigger] crate::chains::is_chain(adj, dom, p) && p[0] == a && p.last() == b;
        if a == v {
            assert(rel0.contains((e, e)));
        } else {
            assert(s.rel.contains((s.nodes[a] as int, s.nodes[a] as int)));
            assert(rel0.contains((nodes[a] as int, nodes[a] as int)));
        }
        assert(related(p[0], p[0]));
        lemma_chain_relation(adj, dom, p, related, p.len() - 1);
    }
    assert forall|a: usize, b: usize|
        nodes.contains_key(a) && nodes.contains_key(b) && #[trigger] nodes[a] == #[trigger] nodes[b]
        implies a == b by {
        if a != v && b != v {
            assert(s.nodes[a] == s.nodes[b]);
        } else if a != v {
            assert((s.nodes[a] as int) < s.size);
        } else if b != v {
            assert((s.nodes[b] as int) < s.size);
        }
    }
}

/// A player holding just its two side nodes, each in a set of its own, is tracked.
pub proof fn lemma_sides_tracked(
    adj: Seq<Seq<usize>>,
    nodes: Map<usize, usize>,
    rel: Set<(int, int)>,
    s1: usize,
    s2: usize,
)
    requires
        s1 < 4,
        s2 < 4,
        s1 != s2,
        4 <= adj.len(),
        forall|b1: int, b2: int|
            0 <= b1 < 4 && 0 <= b2 < 4 ==> !#[trigger] adj[b1].contains(b2 as usize),
        nodes == map![s1 => 0usize, s2 => 1usize],
        rel == set![(0int, 0int), (1int, 1int)],
    ensures
        tracks(adj, SideModel { nodes, rel, size: 2 }),
{
    assert forall|x: usize, y: usize|
        nodes.dom().contains(x) && nodes.dom().contains(y) implies !#[trigger] adj[x as int].contains(
        y,
    ) by {
        assert(!adj[x as int].contains((y as int) as usize));
    }
    assert forall|a: usize, b: usize|
        nodes.contains_key(a) && nodes.contains_key(b) implies (rel.contains(
        (nodes[a] as int, nodes[b] as int),
    ) <==> #[trigger] linked(adj, nodes.dom(), a, b)) by {
        if linked(adj, nodes.dom(), a, b) {
            lemma_linked_no_edges(adj, nodes.dom(), a, b);
        }
        if a == b {
            lemma_linked_refl(adj, nodes.dom(), a);
        }
    }
}

/// Index of `mv` in `open`.
pub open spec fn move_index(open: Seq<(usize, usize)>, mv: (usize, usize)) -> int {
    choose|i: int| 0 <= i < open.len() && open[i] == mv
}

/// The `i`-th entry of a list without duplicates is found at index `i`.
pub proof fn lemma_move_index(open: Seq<(usize, usize)>, i: int)
    requires
        open.no_duplicates(),
        0 <= i < open.len(),
    ensures
        move_index(open, open[i]) == i,
        open.contains(open[i]),
{
    assert(open[i] == open[i]);
    let j = move_index(open, open[i]);
    assert(0 <= j < open.len() && open[j] == open[i]);
}

impl BoardModel {
    /// Black's two sides are joined.
    pub open spec fn black_won(self) -> bool {
        self.black.rel.contains((0, 1))
    }

    /// White's two sides are joined.
    pub open spec fn white_won(self) -> bool {
        self.white.rel.contains((0, 1))
    }

    /// Graph node of the `i`-th empty cell.
    pub open spec fn open_node(self, i: int) -> usize {
        cell_id(self.width as int, self.open[i].0 as int, self.open[i].1 as int) as usize
    }

    /// The position after black plays the `i`-th empty cell.
    pub open spec fn play_black(self, i: int) -> BoardModel {
        BoardModel {
            black: place(self.black, self.open_node(i), self.adj[self.open_node(i) as int]),
            open: self.open.remove(i),
            ..self
        }
    }

    /// The position after white plays the `i`-th empty cell.
    pub open spec fn play_white(self, i: int) -> BoardModel {
        BoardModel {
            white: place(self.white, self.open_node(i), self.adj[self.open_node(i) as int]),
            open: self.open.remove(i),
            ..self
        }
    }
}

/// With black to move, white wins: white has already won, or black has a
/// move and every black move leaves a position that white wins with white to
/// move. A full board that nobody has won is no win for white.
pub open spec fn white_wins_black_to_move(m: BoardModel) -> bool
    decreases m.open.len(), m.open.len() + 1,
{
    m.white_won() || (m.open.len() > 0 && all_black_moves_lose(m, 0))
}

/// Every black move from the `k`-th empty cell on leaves a position that
/// white wins with white to move.
pub open spec fn all_black_moves_lose(m: BoardModel, k: nat) -> bool
    decreases m.open.len(), m.open.len() - k,
{
    if k >= m.open.len() {
        true
    } else {
        white_wins_white_to_move(m.play_black(k as int)) && all_black_moves_lose(m, k + 1)
    }
}

/// With white to move, white wins: black has not already won, and some white
/// move leaves a position that white wins with black to move.
pub open spec fn white_wins_white_to_move(m: BoardModel) -> bool
    decreases m.open.len(), m.open.len() + 1,
{
    !m.black_won() && some_white_move_wins(m, 0)
}

/// Some white move from the `k`-th empty cell on leaves a position that
/// white wins with black to move.
pub open spec fn some_white_move_wins(m: BoardModel, k: nat) -> bool
    decreases m.open.len(), m.open.len() - k,
{
    if k >= m.open.len() {
        false
    } else {
        white_wins_black_to_move(m.play_white(k as int)) || some_white_move_wins(m, k + 1)
    }
}

/// The empty cells are exactly the cells of the board that neither player
/// holds, and no graph node is held by both players.
pub open spec fn stones_consistent(
    w: int,
    h: int,
    open: Seq<(usize, usize)>,
    black: Map<usize, usize>,
    white: Map<usize, usize>,
) -> bool {
    &&& forall|c: int, r: int|
        on_board(w, h, c, r) ==> (#[trigger] open.contains((c as usize, r as usize)) <==> !black.contains_key(
            cell_id(w, c, r) as usize,
        ) && !white.contains_key(cell_id(w, c, r) as usize))
    &&& forall|k: usize| !(#[trigger] black.contains_key(k) && #[trigger] white.contains_key(k))
}

proof fn lemma_remove_contains(s: Seq<(usize, usize)>, i: int, x: (usize, usize))
    requires
        s.no_duplicates(),
        0 <= i < s.len(),
    ensures
        s.remove(i).contains(x) <==> s.contains(x) && x != s[i],
{
    if s.remove(i).contains(x) {
        let k = choose|k: int| 0 <= k < s.len() - 1 && s.remove(i)[k] == x;
        if k < i {
            assert(s[k] == x);
        } else {
            assert(s[k + 1] == x);
        }
    }
    if s.contains(x) && x != s[i] {
        let k = choose|k: int| 0 <= k < s.len() && s[k] == x;
        if k < i {
            assert(s.remove(i)[k] == x);
        } else {
            assert(s.remove(i)[k - 1] == x);
        }
    }
}

/// Placing a stone on an empty cell keeps the stones consistent.
pub proof fn lemma_place_consistent(
    w: int,
    h: int,
    open: Seq<(usize, usize)>,
    mine: Map<usize, usize>,
    theirs: Map<usize, usize>,
    i: int,
    e: usize,
)
    requires
        0 < w <= usize::MAX,
        0 < h <= usize::MAX,
        4 + w * h <= usize::MAX,
        open.no_duplicates(),
        0 <= i < open.len(),
        on_board(w, h, open[i].0 as int, open[i].1 as int),
        stones_consistent(w, h, open, mine, theirs),
    ensures
        stones_consistent(
            w,
            h,
            open.remove(i),
            mine.insert(cell_id(w, open[i].0 as int, open[i].1 as int) as usize, e),
            theirs,
        ),
        stones_consistent(
            w,
            h,
            open.remove(i),
            theirs,
            mine.insert(cell_id(w, open[i].0 as int, open[i].1 as int) as usize, e),
        ),
{
    let c0 = open[i].0 as int;
    let r0 = open[i].1 as int;
    let node = cell_id(w, c0, r0) as usize;
    let mine2 = mine.insert(node, e);
    let open2 = open.remove(i);
    lemma_cell_in_range(w, h, c0, r0);
    assert(open.contains((c0 as usize, r0 as usize)));
    assert forall|c: int, r: int| on_board(w, h, c, r) implies (#[trigger] open2.contains(
        (c as usize, r as usize),
    ) <==> !mine2.contains_key(cell_id(w, c, r) as usize) && !theirs.contains_key(
        cell_id(w, c, r) as usize,
    )) by {
        lemma_cell_id_injective(w, h, c, r, c0, r0);
        lemma_cell_in_range(w, h, c, r);
        lemma_remove_contains(open, i, (c as usize, r as usize));
        assert(open.contains((c as usize, r as usize)) <==> !mine.contains_key(
            cell_id(w, c, r) as usize,
        ) && !theirs.contains_key(cell_id(w, c, r) as usize));
    }
    assert forall|k: usize| !(#[trigger] mine2.contains_key(k) && #[trigger] theirs.contains_key(k)) by {
        if k == node {
            assert(!theirs.contains_key(node));
        } else {
            assert(!(mine.contains_key(k) && theirs.contains_key(k)));
        }
    }
}

/// The first `k` empty cells that are winning moves for white, in order.
pub open spec fn winning_moves_upto(m: BoardModel, k: int) -> Seq<(usize, usize)>
    decreases k,
{
    if k <= 0 {
        Seq::empty()
    } else {
        let prev = winning_moves_upto(m, k - 1);
        if white_wins_black_to_move(m.play_white(k - 1)) {
            prev.push(m.open[k - 1])
        } else {
            prev
        }
    }
}

/// The empty cells where a white stone wins the game for white, in order.
pub open spec fn winning_moves(m: BoardModel) -> Seq<(usize, usize)> {
    winning_moves_upto(m, m.open.len() as int)
}

proof fn lemma_winning_moves_upto(m: BoardModel, k: int)
    requires
        0 <= k <= m.open.len(),
    ensures
        forall|x: (usize, usize)|
            #[trigger] winning_moves_upto(m, k).contains(x) <==> exists|i: int|
                0 <= i < k && m.open[i] == x && #[trigger] white_wins_black_to_move(
                    m.play_white(i),
                ),
    decreases k,
{
    if k > 0 {
        lemma_winning_moves_upto(m, k - 1);
        let prev = winning_moves_upto(m, k - 1);
        let cur = winning_moves_upto(m, k);
        assert forall|x: (usize, usize)| #[trigger] cur.contains(x) <==> exists|i: int|
            0 <= i < k && m.open[i] == x && #[trigger] white_wins_black_to_move(
                m.play_white(i),
            ) by {
            let wins = white_wins_black_to_move(m.play_white(k - 1));
            if cur.contains(x) {
                let j = choose|j: int| 0 <= j < cur.len() && cur[j] == x;
                if j < prev.len() {
                    assert(prev[j] == x);
                    assert(prev.contains(x));
                } else {
                    assert(wins && x == m.open[k - 1]);
                }
            }
            if exists|i: int|
                0 <= i < k && m.open[i] == x && #[trigger] white_wins_black_to_move(
                    m.play_white(i),
                ) {
                let i = choose|i: int|
                    0 <= i < k && m.open[i] == x && #[trigger] white_wins_black_to_move(
                        m.play_white(i),
                    );
                if i < k - 1 {
                    assert(prev.contains(x));
                    let j = choose|j: int| 0 <= j < prev.len() && prev[j] == x;
                    assert(cur[j] == x);
                } else {
                    assert(cur[prev.len() as int] == x);
                }
            }
        }
    }
}

/// The search returns exactly the empty cells on which a white stone wins
/// the game for white.
pub proof fn lemma_winning_moves_are(m: BoardModel)
    requires
        m.open.no_duplicates(),
    ensures
        forall|i: int|
            0 <= i < m.open.len() ==> (winning_moves(m).contains(#[trigger] m.open[i])
                <==> white_wins_black_to_move(m.play_white(i))),
        forall|x: (usize, usize)| #[trigger] winning_moves(m).contains(x) ==> m.open.contains(x),
{
    lemma_winning_moves_upto(m, m.open.len() as int);
    assert forall|i: int| 0 <= i < m.open.len() implies (winning_moves(m).contains(
        #[trigger] m.open[i],
    ) <==> white_wins_black_to_move(m.play_white(i))) by {
        if winning_moves(m).contains(m.open[i]) {
            let j = choose|j: int|
                0 <= j < m.open.len() && m.open[j] == m.open[i] && #[trigger] white_wins_black_to_move(
                    m.play_white(j),
                );
            assert(j == i);
        }
    }
    assert forall|x: (usize, usize)| #[trigger] winning_moves(m).contains(x) implies m.open.contains(
        x,
    ) by {
        let j = choose|j: int|
            0 <= j < m.open.len() && m.open[j] == x && #[trigger] white_wins_black_to_move(
                m.play_white(j),
            );
    }
}

/// The search's two predicates, stated over all empty cells at once: with
/// black to move white wins iff white has won, or the board is not full and
/// every black move leaves a white win; with white to move white wins iff
/// black has not won and some white move leaves a white win.
pub proof fn lemma_search_by_all_moves(m: BoardModel)
    ensures
        white_wins_black_to_move(m) <==> m.white_won() || (m.open.len() > 0 && forall|i: int|
            0 <= i < m.open.len() ==> #[trigger] white_wins_white_to_move(m.play_black(i))),
        white_wins_white_to_move(m) <==> !m.black_won() && exists|i: int|
            0 <= i < m.open.len() && #[trigger] white_wins_black_to_move(m.play_white(i)),
{
    lemma_all_black_from(m, 0);
    lemma_some_white_from(m, 0);
}

proof fn lemma_all_black_from(m: BoardModel, k: nat)
    ensures
        all_black_moves_lose(m, k) <==> forall|i: int|
            k <= i < m.open.len() ==> #[trigger] white_wins_white_to_move(m.play_black(i)),
    decreases m.open.len() - k,
{
    if k < m.open.len() {
        lemma_all_black_from(m, k + 1);
        if forall|i: int|
            k <= i < m.open.len() ==> #[trigger] white_wins_white_to_move(m.play_black(i)) {
            assert(white_wins_white_to_move(m.play_black(k as int)));
            assert forall|i: int| k + 1 <= i < m.open.len() implies #[trigger] white_wins_white_to_move(
                m.play_black(i),
            ) by {
                assert(k <= i);
            }
            assert(all_black_moves_lose(m, k + 1));
        }
        if all_black_moves_lose(m, k) {
            assert forall|i: int| k <= i < m.open.len() implies #[trigger] white_wins_white_to_move(
                m.play_black(i),
            ) by {
                if i > k {
                    assert(all_black_moves_lose(m, k + 1));
                }
            }
        }
    }
}

proof fn lemma_some_white_from(m: BoardModel, k: nat)
    ensures
        some_white_move_wins(m, k) <==> exists|i: int|
            k <= i < m.open.len() && #[trigger] white_wins_black_to_move(m.play_white(i)),
    decreases m.open.len() - k,
{
    if k < m.open.len() {
        lemma_some_white_from(m, k + 1);
        if exists|i: int| k <= i < m.open.len() && #[trigger] white_wins_black_to_move(
            m.play_white(i),
        ) {
            let i = choose|i: int| k <= i < m.open.len() && #[trigger] white_wins_black_to_move(
                m.play_white(i),
            );
            if i > k {
                assert(some_white_move_wins(m, k + 1));
            }
        }
        if some_white_move_wins(m, k) {
            if white_wins_black_to_move(m.play_white(k as int)) {
                assert(k <= k < m.open.len());
            } else {
                assert(some_white_move_wins(m, k + 1));
                let i = choose|i: int| k + 1 <= i < m.open.len() && #[trigger] white_wins_black_to_move(
                    m.play_white(i),
                );
                assert(k <= i);
            }
        }
    }
}

} // verus!
