//! Chains of nodes through a graph, restricted to a set of nodes.
use vstd::prelude::*;

verus! {

/// `p` is a non-empty walk through nodes of `s`, each linked to the next in `adj`.
pub open spec fn is_chain(adj: Seq<Seq<usize>>, s: Set<usize>, p: Seq<usize>) -> bool {
    &&& p.len() > 0
    &&& forall|i: int| 0 <= i < p.len() ==> s.contains(#[trigger] p[i])
    &&& forall|i: int|
        #![trigger p[i]]
        0 <= i < p.len() - 1 ==> adj[p[i] as int].contains(p[i + 1])
}

/// Some chain through nodes of `s` leads from `a` to `b`.
pub open spec fn linked(adj: Seq<Seq<usize>>, s: Set<usize>, a: usize, b: usize) -> bool {
    exists|p: Seq<usize>| #[trigger] is_chain(adj, s, p) && p[0] == a && p.last() == b
}

/// Every node of `s` is linked to itself.
pub proof fn lemma_linked_refl(adj: Seq<Seq<usize>>, s: Set<usize>, a: usize)
    requires
        s.contains(a),
    ensures
        linked(adj, s, a, a),
{
    let p = seq![a];
    assert(is_chain(adj, s, p));
}

/// Two neighbours in `s` are linked.
pub proof fn lemma_linked_edge(adj: Seq<Seq<usize>>, s: Set<usize>, a: usize, b: usize)
    requires
        s.contains(a),
        s.contains(b),
        adj[a as int].contains(b),
    ensures
        linked(adj, s, a, b),
{
    let p = seq![a, b];
    assert(is_chain(adj, s, p));
}

/// A chain to `m`, a link from `m` to `n` and a chain from `n` make a chain.
pub proof fn lemma_linked_join(
    adj: Seq<Seq<usize>>,
    s: Set<usize>,
    a: usize,
    m: usize,
    n: usize,
    b: usize,
)
    requires
        linked(adj, s, a, m),
        adj[m as int].contains(n),
        linked(adj, s, n, b),
    ensures
        linked(adj, s, a, b),
{
    let p = choose|p: Seq<usize>| #[trigger] is_chain(adj, s, p) && p[0] == a && p.last() == m;
    let q = choose|q: Seq<usize>| #[trigger] is_chain(adj, s, q) && q[0] == n && q.last() == b;
    let pq = p + q;
    assert forall|i: int| 0 <= i < pq.len() implies s.contains(#[trigger] pq[i]) by {
        if i < p.len() {
            assert(pq[i] == p[i]);
        } else {
            assert(pq[i] == q[i - p.len()]);
        }
    }
    assert forall|i: int| #![trigger pq[i]] 0 <= i < pq.len() - 1 implies adj[pq[i] as int].contains(
        pq[i + 1],
    ) by {
        if i < p.len() - 1 {
            assert(pq[i] == p[i] && pq[i + 1] == p[i + 1]);
            assert(adj[p[i] as int].contains(p[i + 1]));
        } else if i == p.len() - 1 {
            assert(pq[i] == m && pq[i + 1] == n);
        } else {
            let j = i - p.len();
            assert(pq[i] == q[j] && pq[i + 1] == q[j + 1]);
            assert(adj[q[j] as int].contains(q[j + 1]));
        }
    }
    assert(is_chain(adj, s, pq));
    assert(pq[0] == a && pq.last() == b);
}

/// A chain through `s` is also a chain through any larger set.
pub proof fn lemma_linked_grow(adj: Seq<Seq<usize>>, s: Set<usize>, t: Set<usize>, a: usize, b: usize)
    requires
        linked(adj, s, a, b),
        s.subset_of(t),
    ensures
        linked(adj, t, a, b),
{
    let p = choose|p: Seq<usize>| #[trigger] is_chain(adj, s, p) && p[0] == a && p.last() == b;
    assert(is_chain(adj, t, p));
}

/// Where no two nodes of `s` are neighbours, a node is linked only to itself.
pub proof fn lemma_linked_no_edges(adj: Seq<Seq<usize>>, s: Set<usize>, a: usize, b: usize)
    requires
        linked(adj, s, a, b),
        forall|x: usize, y: usize| s.contains(x) && s.contains(y) ==> !#[trigger] adj[x as int].contains(y),
    ensures
        a == b,
{
    let p = choose|p: Seq<usize>| #[trigger] is_chain(adj, s, p) && p[0] == a && p.last() == b;
    if p.len() > 1 {
        assert(adj[p[0] as int].contains(p[1]));
        assert(s.contains(p[0]) && s.contains(p[1]));
    }
}

/// Along a chain, a transitive relation that holds across each link holds
/// from the first node to every later one.
pub proof fn lemma_chain_relation(
    adj: Seq<Seq<usize>>,
    s: Set<usize>,
    p: Seq<usize>,
    rel: spec_fn(usize, usize) -> bool,
    k: int,
)
    requires
        is_chain(adj, s, p),
        0 <= k < p.len(),
        rel(p[0], p[0]),
        forall|x: usize, y: usize|
            s.contains(x) && s.contains(y) && adj[x as int].contains(y) ==> #[trigger] rel(x, y),
        forall|x: usize, y: usize, z: usize|
            #[trigger] rel(x, y) && #[trigger] rel(y, z) ==> rel(x, z),
    ensures
        rel(p[0], p[k]),
    decreases k,
{
    if k > 0 {
        lemma_chain_relation(adj, s, p, rel, k - 1);
        assert(adj[p[k - 1] as int].contains(p[k]));
        assert(s.contains(p[k - 1]) && s.contains(p[k]));
        assert(rel(p[k - 1], p[k]));
    }
}

} // verus!
