//! Disjoint sets with path compression and union by rank.
use vstd::prelude::*;

verus! {

/// Number of roots (elements that are their own parent) among the first `k` entries.
pub open spec fn count_roots(parents: Seq<usize>, k: int) -> nat
    decreases k,
{
    if k <= 0 {
        0
    } else {
        count_roots(parents, k - 1) + if parents[k - 1] as int == k - 1 { 1nat } else { 0nat }
    }
}

proof fn lemma_count_update(p: Seq<usize>, j: int, v: usize, k: int)
    requires
        0 <= j < p.len(),
        0 <= k <= p.len(),
    ensures
        count_roots(p.update(j, v), k) + (if j < k && p[j] as int == j { 1int } else { 0int })
            == count_roots(p, k) + (if j < k && v as int == j { 1int } else { 0int }),
    decreases k,
{
    if k > 0 {
        lemma_count_update(p, j, v, k - 1);
    }
}

proof fn lemma_count_push(p: Seq<usize>, v: usize, k: int)
    requires
        0 <= k <= p.len(),
    ensures
        count_roots(p.push(v), k) == count_roots(p, k),
    decreases k,
{
    if k > 0 {
        lemma_count_push(p, v, k - 1);
    }
}

proof fn lemma_count_positive(p: Seq<usize>, i: int, k: int)
    requires
        0 <= i < k <= p.len(),
        p[i] as int == i,
    ensures
        count_roots(p, k) >= 1,
    decreases k,
{
    if k - 1 > i {
        lemma_count_positive(p, i, k - 1);
    }
}

proof fn lemma_count_bounded(p: Seq<usize>, k: int)
    requires
        0 <= k <= p.len(),
    ensures
        count_roots(p, k) <= k,
    decreases k,
{
    if k > 0 {
        lemma_count_bounded(p, k - 1);
    }
}

/// The relation obtained from `r` by merging the classes of `x` and `y`.
pub open spec fn union_rel(r: Set<(int, int)>, x: int, y: int) -> Set<(int, int)> {
    Set::new(
        |p: (int, int)|
            r.contains(p) || (r.contains((p.0, x)) && r.contains((y, p.1))) || (r.contains(
                (p.0, y),
            ) && r.contains((x, p.1))),
    )
}

/// A partition of the elements `0 .. len` into disjoint sets.
pub struct DisjointSet {
    parents: Vec<usize>,
    ranks: Vec<usize>,
    /// The root that each element's parent chain ends at.
    roots: Ghost<Seq<int>>,
}

impl View for DisjointSet {
    /// The equivalence relation "in the same set", as pairs of elements.
    type V = Set<(int, int)>;

    closed spec fn view(&self) -> Set<(int, int)> {
        Set::new(
            |p: (int, int)|
                0 <= p.0 < self.parents@.len() && 0 <= p.1 < self.parents@.len()
                    && self.roots@[p.0] == self.roots@[p.1],
        )
    }
}

impl DisjointSet {
    /// Number of elements.
    pub closed spec fn size(&self) -> nat {
        self.parents@.len()
    }

    pub closed spec fn wf(&self) -> bool {
        let n = self.parents@.len();
        &&& self.ranks@.len() == n
        &&& self.roots@.len() == n
        &&& forall|i: int| 0 <= i < n ==> (#[trigger] self.parents@[i] as int) < n
        &&& forall|i: int| 0 <= i < n ==> 0 <= #[trigger] self.roots@[i] < n
        &&& forall|i: int|
            0 <= i < n ==> self.parents@[#[trigger] self.roots@[i]] as int == self.roots@[i]
        &&& forall|i: int|
            0 <= i < n ==> self.roots@[#[trigger] self.parents@[i] as int] == self.roots@[i]
        &&& forall|i: int| 0 <= i < n && #[trigger] self.parents@[i] as int == i ==> self.roots@[i] == i
        &&& forall|i: int|
            0 <= i < n && #[trigger] self.parents@[i] as int != i ==> self.ranks@[i]
                < self.ranks@[self.parents@[i] as int]
        &&& forall|i: int| 0 <= i < n ==> #[trigger] self.ranks@[i] + count_roots(self.parents@, n as int) <= n
    }

    /// An empty partition.
    pub fn new() -> (r: Self)
        ensures
            r.wf(),
            r.size() == 0,
            r@ == Set::<(int, int)>::empty(),
    {
        let r = DisjointSet { parents: Vec::new(), ranks: Vec::new(), roots: Ghost(Seq::empty()) };
        assert(r@ =~= Set::<(int, int)>::empty());
        r
    }

    /// Test if the disjoint set is empty.
    pub fn is_empty(&self) -> (r: bool)
        ensures
            r == (self.size() == 0),
    {
        self.parents.len() == 0
    }

    /// Number of elements in the disjoint set.
    pub fn len(&self) -> (r: usize)
        ensures
            r == self.size(),
    {
        self.parents.len()
    }

    /// Add a new singleton set and return its element, which is the previous length.
    pub fn add_elem(&mut self) -> (r: usize)
        requires
            old(self).wf(),
            old(self).size() < usize::MAX,
        ensures
            final(self).wf(),
            r == old(self).size(),
            final(self).size() == old(self).size() + 1,
            final(self)@ == old(self)@.insert((r as int, r as int)),
    {
        let new_elem = self.parents.len();
        proof {
            lemma_count_push(self.parents@, new_elem, new_elem as int);
        }
        self.parents.push(new_elem);
        self.ranks.push(0);
        self.roots = Ghost(self.roots@.push(new_elem as int));
        assert(count_roots(self.parents@, new_elem as int + 1) == count_roots(
            self.parents@,
            new_elem as int,
        ) + 1);
        assert(self@ =~= old(self)@.insert((new_elem as int, new_elem as int)));
        new_elem
    }

    /// Find the root of `x`, pointing each visited element at its grandparent on the way.
    fn find_root(&mut self, x: usize) -> (r: usize)
        requires
            old(self).wf(),
            x < old(self).size(),
        ensures
            final(self).wf(),
            final(self).size() == old(self).size(),
            final(self).roots@ == old(self).roots@,
            r as int == old(self).roots@[x as int],
    {
        let ghost n = self.parents@.len() as int;
        let mut x = x;
        let ghost target = self.roots@[x as int];
        proof {
            lemma_count_bounded(self.parents@, n);
        }
        while self.parents[x] != x
            invariant
                self.wf(),
                self.parents@.len() == n,
                self.roots@ == old(self).roots@,
                x < n,
                self.roots@[x as int] == target,
            decreases n - self.ranks@[x as int],
        {
            let next = self.parents[x];
            let grand = self.parents[next];
            let ghost par0 = self.parents@;
            proof {
                lemma_count_update(par0, x as int, grand, n);
            }
            self.parents.set(x, grand);
            assert forall|i: int| 0 <= i < n implies #[trigger] self.ranks@[i] + count_roots(self.parents@, n) <= n by {
                assert(self.ranks@[i] + count_roots(par0, n) <= n);
            }
            x = next;
        }
        x
    }

    /// Merge the sets that hold `x` and `y`.
    pub fn union(&mut self, x: usize, y: usize)
        requires
            old(self).wf(),
            x < old(self).size(),
            y < old(self).size(),
        ensures
            final(self).wf(),
            final(self).size() == old(self).size(),
            final(self)@ == union_rel(old(self)@, x as int, y as int),
    {
        let ghost n = self.parents@.len() as int;
        let mut x_root = self.find_root(x);
        let mut y_root = self.find_root(y);
        assert(self@ =~= old(self)@);
        if x_root == y_root {
            assert(self@ =~= union_rel(old(self)@, x as int, y as int));
            return;
        }
        if self.ranks[x_root] < self.ranks[y_root] {
            let t = x_root;
            x_root = y_root;
            y_root = t;
        }
        let ghost par0 = self.parents@;
        let ghost rank0 = self.ranks@;
        let ghost old_rel = self@;
        proof {
            lemma_count_update(par0, y_root as int, x_root, n);
            lemma_count_positive(par0, x_root as int, n);
        }
        self.parents.set(y_root, x_root);
        if self.ranks[x_root] == self.ranks[y_root] {
            assert(rank0[x_root as int] + count_roots(par0, n) <= n);
            // a vector's length fits in usize, and the rank is below it
            let _len = self.parents.len();
            let bumped = self.ranks[x_root] + 1;
            self.ranks.set(x_root, bumped);
        }
        let ghost xr = x_root as int;
        let ghost yr = y_root as int;
        self.roots = Ghost(self.roots@.map_values(|r: int| if r == yr { xr } else { r }));
        assert forall|i: int| 0 <= i < n implies #[trigger] self.ranks@[i] + count_roots(self.parents@, n) <= n by {
            assert(rank0[i] + count_roots(par0, n) <= n);
            assert(rank0[xr] + count_roots(par0, n) <= n);
        }
        assert forall|i: int| 0 <= i < n && #[trigger] self.parents@[i] as int != i implies self.ranks@[i]
            < self.ranks@[self.parents@[i] as int] by {
            if i != yr {
                assert(par0[i] as int != i);
                assert(rank0[i] < rank0[par0[i] as int]);
            }
        }
        assert(self@ =~= union_rel(old(self)@, x as int, y as int));
    }

    /// Test if `x` and `y` are in the same set.
    pub fn connected(&mut self, x: usize, y: usize) -> (r: bool)
        requires
            old(self).wf(),
            x < old(self).size(),
            y < old(self).size(),
        ensures
            final(self).wf(),
            final(self).size() == old(self).size(),
            final(self)@ == old(self)@,
            r == old(self)@.contains((x as int, y as int)),
    {
        let a = self.find_root(x);
        let b = self.find_root(y);
        assert(self@ =~= old(self)@);
        a == b
    }
}

impl Clone for DisjointSet {
    fn clone(&self) -> (r: Self)
        ensures
            r.wf() == self.wf(),
            r.size() == self.size(),
            r@ == self@,
    {
        let parents = self.parents.clone();
        let ranks = self.ranks.clone();
        assert(parents@ =~= self.parents@);
        assert(ranks@ =~= self.ranks@);
        let r = DisjointSet { parents, ranks, roots: Ghost(self.roots@) };
        assert(r@ =~= self@);
        r
    }
}

/// Being in the same set is an equivalence relation on the elements `0 .. size`:
/// reflexive, symmetric and transitive, and it relates no element outside that range.
pub proof fn lemma_same_set_is_equivalence(s: &DisjointSet)
    requires
        s.wf(),
    ensures
        forall|x: int| 0 <= x < s.size() ==> #[trigger] s@.contains((x, x)),
        forall|x: int, y: int| #[trigger] s@.contains((x, y)) ==> s@.contains((y, x)),
        forall|x: int, y: int, z: int|
            #[trigger] s@.contains((x, y)) && #[trigger] s@.contains((y, z)) ==> s@.contains(
                (x, z),
            ),
        forall|p: (int, int)| #[trigger] s@.contains(p) ==> 0 <= p.0 < s.size() && 0 <= p.1 < s.size(),
{
}

/// After `union(x, y)` the two elements are in the same set.
pub proof fn lemma_union_connects(s: &DisjointSet, x: int, y: int)
    requires
        s.wf(),
        0 <= x < s.size(),
        0 <= y < s.size(),
    ensures
        union_rel(s@, x, y).contains((x, y)),
{
    lemma_same_set_is_equivalence(s);
    assert(s@.contains((x, x)) && s@.contains((y, y)));
}

/// Two elements added one after the other, and never merged, are in different sets.
pub proof fn lemma_fresh_elements_apart(s: &DisjointSet)
    requires
        s.wf(),
    ensures
        !s@.insert((s.size() as int, s.size() as int)).insert(
            (s.size() + 1int, s.size() + 1int),
        ).contains((s.size() as int, s.size() + 1int)),
        forall|i: int|
            0 <= i < s.size() ==> !#[trigger] s@.insert(
                (s.size() as int, s.size() as int),
            ).contains((s.size() as int, i)),
{
    lemma_same_set_is_equivalence(s);
}

} // verus!
