//! Undirected graphs as adjacency lists.
use vstd::prelude::*;

verus! {

/// The adjacency lists after adding the undirected edge `(start, end)` to `adj`.
pub open spec fn with_edge(adj: Seq<Seq<usize>>, start: int, end: int) -> Seq<Seq<usize>> {
    let first = adj.update(start, adj[start].push(end as usize));
    first.update(end, first[end].push(start as usize))
}

/// Every entry names a node, and each edge is listed at both of its ends.
pub open spec fn symmetric(adj: Seq<Seq<usize>>) -> bool {
    &&& forall|a: int, k: int|
        0 <= a < adj.len() && 0 <= k < adj[a].len() ==> (#[trigger] adj[a][k] as int) < adj.len()
    &&& forall|a: int, b: int|
        0 <= a < adj.len() && 0 <= b < adj.len() ==> (#[trigger] adj[a].contains(b as usize)
            <==> #[trigger] adj[b].contains(a as usize))
}

struct Node {
    adjacent: Vec<usize>,
}

/// An undirected graph over the nodes `0 .. len`.
pub struct Graph {
    nodes: Vec<Node>,
}

impl View for Graph {
    /// The adjacency list of each node.
    type V = Seq<Seq<usize>>;

    closed spec fn view(&self) -> Seq<Seq<usize>> {
        self.nodes@.map_values(|n: Node| n.adjacent@)
    }
}

impl Graph {
    /// A graph of `num_nodes` nodes and no edges.
    pub fn new(num_nodes: usize) -> (r: Self)
        ensures
            r@ == Seq::new(num_nodes as nat, |i: int| Seq::<usize>::empty()),
    {
        let mut nodes: Vec<Node> = Vec::new();
        let mut i: usize = 0;
        while i < num_nodes
            invariant
                i <= num_nodes,
                nodes@.len() == i,
                forall|j: int| 0 <= j < i ==> (#[trigger] nodes@[j]).adjacent@ == Seq::<usize>::empty(),
            decreases num_nodes - i,
        {
            nodes.push(Node { adjacent: Vec::new() });
            i = i + 1;
        }
        let r = Graph { nodes };
        assert(r@ =~= Seq::new(num_nodes as nat, |i: int| Seq::<usize>::empty()));
        r
    }

    /// Number of nodes.
    pub fn len(&self) -> (r: usize)
        ensures
            r == self@.len(),
    {
        self.nodes.len()
    }

    /// Add the undirected edge between `start` and `end`.
    pub fn add_edge(&mut self, start: usize, end: usize)
        requires
            start < old(self)@.len(),
            end < old(self)@.len(),
        ensures
            final(self)@ == with_edge(old(self)@, start as int, end as int),
    {
        let ghost adj0 = self@;
        let mut node = self.nodes.remove(start);
        node.adjacent.push(end);
        self.nodes.insert(start, node);
        assert(self@ =~= adj0.update(start as int, adj0[start as int].push(end)));
        let ghost adj1 = self@;
        let mut node = self.nodes.remove(end);
        node.adjacent.push(start);
        self.nodes.insert(end, node);
        assert(self@ =~= adj1.update(end as int, adj1[end as int].push(start)));
    }

    /// The nodes adjacent to `node`, or none if there is no such node.
    pub fn adjacent(&self, node: usize) -> (r: Vec<usize>)
        ensures
            r@ == if node < self@.len() {
                self@[node as int]
            } else {
                Seq::<usize>::empty()
            },
    {
        if node < self.nodes.len() {
            let r = self.nodes[node].adjacent.clone();
            assert(r@ =~= self@[node as int]);
            r
        } else {
            Vec::new()
        }
    }
}

proof fn lemma_push_contains(s: Seq<usize>, x: usize, y: usize)
    ensures
        s.push(x).contains(y) <==> s.contains(y) || x == y,
{
    if s.contains(y) {
        let k = choose|k: int| 0 <= k < s.len() && s[k] == y;
        assert(s.push(x)[k] == y);
    }
    if x == y {
        assert(s.push(x)[s.len() as int] == y);
    }
    if s.push(x).contains(y) {
        let k = choose|k: int| 0 <= k < s.len() + 1 && s.push(x)[k] == y;
        if k < s.len() {
            assert(s[k] == y);
        }
    }
}

/// Adding an edge between two nodes keeps the adjacency lists symmetric, and
/// adds exactly that edge.
pub proof fn lemma_with_edge_symmetric(adj: Seq<Seq<usize>>, start: int, end: int)
    requires
        symmetric(adj),
        adj.len() <= usize::MAX,
        0 <= start < adj.len(),
        0 <= end < adj.len(),
    ensures
        symmetric(with_edge(adj, start, end)),
        forall|a: int, b: int|
            0 <= a < adj.len() && 0 <= b < adj.len() ==> (#[trigger] with_edge(
                adj,
                start,
                end,
            )[a].contains(b as usize) <==> adj[a].contains(b as usize) || (a == start && b == end)
                || (a == end && b == start)),
{
    let g = with_edge(adj, start, end);
    assert forall|a: int, b: int|
        0 <= a < adj.len() && 0 <= b < adj.len() implies (#[trigger] g[a].contains(b as usize)
            <==> adj[a].contains(b as usize) || (a == start && b == end) || (a == end && b
            == start)) by {
        if a == start && a == end {
            assert(g[a] == adj[a].push(end as usize).push(start as usize));
            lemma_push_contains(adj[a].push(end as usize), start as usize, b as usize);
            lemma_push_contains(adj[a], end as usize, b as usize);
        } else if a == start {
            assert(g[a] == adj[a].push(end as usize));
            lemma_push_contains(adj[a], end as usize, b as usize);
        } else if a == end {
            assert(g[a] == adj[a].push(start as usize));
            lemma_push_contains(adj[a], start as usize, b as usize);
        }
    }
    assert forall|a: int, k: int|
        0 <= a < g.len() && 0 <= k < g[a].len() implies (#[trigger] g[a][k] as int) < g.len() by {
        if a == start && a == end {
            assert(g[a] == adj[a].push(end as usize).push(start as usize));
        } else if a == start {
            assert(g[a] == adj[a].push(end as usize));
        } else if a == end {
            assert(g[a] == adj[a].push(start as usize));
        }
        if k < adj[a].len() {
            assert(g[a][k] == adj[a][k]);
        }
    }
}

} // verus!
