use vstd::prelude::*;

verus! {

/// The distinguished node every path leads to.
pub const ORIGIN: usize = 1;

/// The nodes and edges of a directed graph whose routes all end at `ORIGIN`.
///
/// Both collections hold each element once; an edge never joins a node to
/// itself, and both of its endpoints are nodes of the graph.
pub struct DirectedAcyclicGraph {
    pub(crate) nodes: Vec<usize>,
    pub(crate) edges: Vec<(usize, usize)>,
}

/// Whether edge `e` starts or ends at `n`.
pub open spec fn touches(e: (usize, usize), n: usize) -> bool {
    e.0 == n || e.1 == n
}

/// Whether some edge of `edges` starts or ends at `n`.
pub open spec fn has_edge_at(edges: Set<(usize, usize)>, n: usize) -> bool {
    exists|e: (usize, usize)| edges.contains(e) && #[trigger] touches(e, n)
}

/// The nodes of `nodes` that are kept by a purge: the origin, and every node
/// that some edge of `edges` still touches.
pub open spec fn purged(nodes: Set<usize>, edges: Set<(usize, usize)>) -> Set<usize> {
    nodes.filter(|n: usize| n == ORIGIN || has_edge_at(edges, n))
}

/// `after` is `before` once the edge `(from, to)` is removed and the purge
/// has run.
pub open spec fn edge_removed(before: DirectedAcyclicGraph, after: DirectedAcyclicGraph, from: usize, to: usize) -> bool {
    &&& after.edge_set() == before.edge_set().remove((from, to))
    &&& after.node_set() == purged(before.node_set(), after.edge_set())
}

/// `after` is `before` once `node` and the edges that touch it are removed
/// and the purge has run.
pub open spec fn node_removed(before: DirectedAcyclicGraph, after: DirectedAcyclicGraph, node: usize) -> bool {
    &&& after.edge_set() == before.edge_set().filter(|e: (usize, usize)| !touches(e, node))
    &&& after.node_set() == purged(before.node_set().remove(node), after.edge_set())
}

/// Once a node is removed, no edge names it and it is no node any more.
pub proof fn lemma_removed_node_gone(before: DirectedAcyclicGraph, after: DirectedAcyclicGraph, node: usize)
    requires
        node_removed(before, after, node),
    ensures
        forall|e: (usize, usize)| #[trigger] after.edge_set().contains(e) ==> e.0 != node && e.1 != node,
        !after.node_set().contains(node),
{
}

/// Once an edge is removed, each node but the origin that no other edge
/// touched is no node any more.
pub proof fn lemma_removed_edge_purges(before: DirectedAcyclicGraph, after: DirectedAcyclicGraph, from: usize, to: usize, x: usize)
    requires
        edge_removed(before, after, from, to),
        x != ORIGIN,
        forall|e: (usize, usize)| #[trigger] before.edge_set().contains(e) && touches(e, x) ==> e == (from, to),
    ensures
        !after.node_set().contains(x),
{
    if after.node_set().contains(x) {
        let e = choose|e: (usize, usize)| after.edge_set().contains(e) && #[trigger] touches(e, x);
        assert(before.edge_set().contains(e));
    }
}

impl DirectedAcyclicGraph {
    /// The nodes, in the order in which they are stored.
    pub closed spec fn node_seq(&self) -> Seq<usize> {
        self.nodes@
    }

    /// The edges, in the order in which they are stored.
    pub closed spec fn edge_seq(&self) -> Seq<(usize, usize)> {
        self.edges@
    }

    /// The set of nodes.
    pub open spec fn node_set(&self) -> Set<usize> {
        self.node_seq().to_set()
    }

    /// The set of edges, each a pair `(from, to)`.
    pub open spec fn edge_set(&self) -> Set<(usize, usize)> {
        self.edge_seq().to_set()
    }

    /// The structure is consistent: no repeated node or edge, no self-loop,
    /// and no edge that names a missing node.
    pub open spec fn wf(&self) -> bool {
        &&& self.node_seq().no_duplicates()
        &&& self.edge_seq().no_duplicates()
        &&& forall|e: (usize, usize)| #[trigger] self.edge_set().contains(e) ==> e.0 != e.1
        &&& forall|e: (usize, usize)| #[trigger] self.edge_set().contains(e)
            ==> self.node_set().contains(e.0) && self.node_set().contains(e.1)
    }

    /// An empty graph.
    pub fn new() -> (r: DirectedAcyclicGraph)
        ensures
            r.wf(),
            r.node_set() == Set::<usize>::empty(),
            r.edge_set() == Set::<(usize, usize)>::empty(),
    {
        let r = DirectedAcyclicGraph { nodes: Vec::new(), edges: Vec::new() };
        assert(r.node_set() =~= Set::<usize>::empty());
        assert(r.edge_set() =~= Set::<(usize, usize)>::empty());
        r
    }

    /// The nodes, each once.
    pub fn nodes(&self) -> (r: &Vec<usize>)
        ensures
            r@ == self.node_seq(),
    {
        &self.nodes
    }

    /// The edges `(from, to)`, each once.
    pub fn edges(&self) -> (r: &Vec<(usize, usize)>)
        ensures
            r@ == self.edge_seq(),
    {
        &self.edges
    }

    /// Whether `n` is a node of the graph.
    pub fn contains_node(&self, n: usize) -> (r: bool)
        ensures
            r == self.node_set().contains(n),
    {
        let mut i: usize = 0;
        while i < self.nodes.len()
            invariant
                i <= self.nodes.len(),
                forall|j: int| 0 <= j < i ==> self.nodes@[j] != n,
            decreases self.nodes.len() - i,
        {
            if self.nodes[i] == n {
                return true;
            }
            i = i + 1;
        }
        false
    }

    /// Whether `(from, to)` is an edge of the graph.
    pub fn contains_edge(&self, from: usize, to: usize) -> (r: bool)
        ensures
            r == self.edge_set().contains((from, to)),
    {
        let mut i: usize = 0;
        while i < self.edges.len()
            invariant
                i <= self.edges.len(),
                forall|j: int| 0 <= j < i ==> self.edges@[j] != (from, to),
            decreases self.edges.len() - i,
        {
            let (a, b) = self.edges[i];
            if a == from && b == to {
                return true;
            }
            i = i + 1;
        }
        false
    }

    /// Adds `n` to the nodes unless it is there already.
    pub(crate) fn insert_node(&mut self, n: usize)
        requires
            old(self).wf(),
        ensures
            final(self).wf(),
            final(self).node_set() == old(self).node_set().insert(n),
            final(self).edge_seq() == old(self).edge_seq(),
    {
        if !self.contains_node(n) {
            proof {
                lemma_push_set(self.nodes@, n);
            }
            self.nodes.push(n);
        }
        assert(self.edge_set() == old(self).edge_set());
        assert(self.node_set() =~= old(self).node_set().insert(n));
        assert forall|e: (usize, usize)| #[trigger] self.edge_set().contains(e) implies
            self.node_set().contains(e.0) && self.node_set().contains(e.1) by {
            assert(old(self).edge_set().contains(e));
        }
    }

    /// Inserts the edge `(from, to)` and both of its endpoints, unless
    /// `from == to`: a node never has an edge to itself. Returns whether the
    /// set of edges grew.
    pub fn add_edge(&mut self, from: usize, to: usize) -> (r: bool)
        requires
            old(self).wf(),
        ensures
            final(self).wf(),
            from == to ==> !r && *final(self) == *old(self),
            from != to ==> {
                &&& r == !old(self).edge_set().contains((from, to))
                &&& final(self).node_set() == old(self).node_set().insert(from).insert(to)
                &&& final(self).edge_set() == old(self).edge_set().insert((from, to))
            },
    {
        if from == to {
            return false;
        }
        self.insert_node(from);
        self.insert_node(to);
        if self.contains_edge(from, to) {
            assert(self.edge_set() =~= old(self).edge_set().insert((from, to)));
            false
        } else {
            proof {
                lemma_push_set(self.edges@, (from, to));
            }
            self.edges.push((from, to));
            assert(self.edge_set() =~= old(self).edge_set().insert((from, to)));
            true
        }
    }
}

impl DirectedAcyclicGraph {
    /// Whether some edge starts or ends at `n`.
    fn has_edge_at(&self, n: usize) -> (r: bool)
        ensures
            r == has_edge_at(self.edge_set(), n),
    {
        let mut i: usize = 0;
        while i < self.edges.len()
            invariant
                i <= self.edges.len(),
                forall|j: int| 0 <= j < i ==> !touches(#[trigger] self.edges@[j], n),
            decreases self.edges.len() - i,
        {
            let (a, b) = self.edges[i];
            if a == n || b == n {
                assert(touches(self.edges@[i as int], n));
                assert(self.edge_set().contains(self.edges@[i as int]));
                return true;
            }
            i = i + 1;
        }
        assert forall|e: (usize, usize)| self.edge_set().contains(e) implies !#[trigger] touches(e, n) by {
            let j = self.edges@.index_of(e);
            assert(!touches(self.edges@[j], n));
        }
        false
    }

    /// Removes every node but the origin that no edge touches.
    fn purge_stale_nodes(&mut self)
        requires
            old(self).node_seq().no_duplicates(),
        ensures
            final(self).node_seq().no_duplicates(),
            final(self).edge_seq() == old(self).edge_seq(),
            final(self).node_set() == purged(old(self).node_set(), old(self).edge_set()),
    {
        let ghost edges = self.edge_set();
        let mut kept: Vec<usize> = Vec::new();
        let mut i: usize = 0;
        while i < self.nodes.len()
            invariant
                i <= self.nodes.len(),
                self.nodes@.no_duplicates(),
                edges == self.edge_set(),
                kept@.no_duplicates(),
                forall|x: usize| #[trigger] kept@.contains(x) <==> self.nodes@.subrange(0, i as int).contains(x)
                    && (x == ORIGIN || has_edge_at(edges, x)),
            decreases self.nodes.len() - i,
        {
            let n = self.nodes[i];
            let ghost before = self.nodes@.subrange(0, i as int);
            assert(self.nodes@.subrange(0, i + 1) =~= before.push(n));
            assert(!before.contains(n)) by {
                if before.contains(n) {
                    let t = before.index_of(n);
                    assert(self.nodes@[t] == self.nodes@[i as int]);
                }
            }
            if n == ORIGIN || self.has_edge_at(n) {
                proof {
                    lemma_push_set(kept@, n);
                    lemma_push_set(before, n);
                }
                kept.push(n);
                proof {
                    assert forall|x: usize| #[trigger] kept@.contains(x) <==> self.nodes@.subrange(0, i + 1).contains(x)
                        && (x == ORIGIN || has_edge_at(edges, x)) by {
                        assert(kept@.to_set().contains(x) == kept@.contains(x));
                        assert(before.push(n).to_set().contains(x) == before.push(n).contains(x));
                    }
                }
            } else {
                proof {
                    lemma_push_set(before, n);
                    assert forall|x: usize| #[trigger] kept@.contains(x) <==> self.nodes@.subrange(0, i + 1).contains(x)
                        && (x == ORIGIN || has_edge_at(edges, x)) by {
                        assert(before.push(n).to_set().contains(x) == before.push(n).contains(x));
                    }
                }
            }
            i = i + 1;
        }
        assert(self.nodes@.subrange(0, i as int) =~= self.nodes@);
        self.nodes = kept;
        assert(self.node_set() =~= purged(old(self).node_set(), edges));
    }

    /// Removes every edge with an endpoint that is not a node.
    fn purge_stale_edges(&mut self)
        requires
            old(self).edge_seq().no_duplicates(),
        ensures
            final(self).edge_seq().no_duplicates(),
            final(self).node_seq() == old(self).node_seq(),
            final(self).edge_set() == old(self).edge_set().filter(
                |e: (usize, usize)| old(self).node_set().contains(e.0) && old(self).node_set().contains(e.1),
            ),
    {
        let ghost nodes = self.node_set();
        let mut kept: Vec<(usize, usize)> = Vec::new();
        let mut i: usize = 0;
        while i < self.edges.len()
            invariant
                i <= self.edges.len(),
                self.edges@.no_duplicates(),
                nodes == self.node_set(),
                kept@.no_duplicates(),
                forall|e: (usize, usize)| #[trigger] kept@.contains(e) <==> self.edges@.subrange(0, i as int).contains(e)
                    && nodes.contains(e.0) && nodes.contains(e.1),
            decreases self.edges.len() - i,
        {
            let e = self.edges[i];
            let ghost before = self.edges@.subrange(0, i as int);
            assert(self.edges@.subrange(0, i + 1) =~= before.push(e));
            assert(!before.contains(e)) by {
                if before.contains(e) {
                    let t = before.index_of(e);
                    assert(self.edges@[t] == self.edges@[i as int]);
                }
            }
            proof {
                lemma_push_set(before, e);
            }
            if self.contains_node(e.0) && self.contains_node(e.1) {
                proof {
                    lemma_push_set(kept@, e);
                }
                kept.push(e);
                proof {
                    assert forall|x: (usize, usize)| #[trigger] kept@.contains(x) <==> self.edges@.subrange(0, i + 1).contains(x)
                        && nodes.contains(x.0) && nodes.contains(x.1) by {
                        assert(kept@.to_set().contains(x) == kept@.contains(x));
                        assert(before.push(e).to_set().contains(x) == before.push(e).contains(x));
                    }
                }
            } else {
                proof {
                    assert forall|x: (usize, usize)| #[trigger] kept@.contains(x) <==> self.edges@.subrange(0, i + 1).contains(x)
                        && nodes.contains(x.0) && nodes.contains(x.1) by {
                        assert(before.push(e).to_set().contains(x) == before.push(e).contains(x));
                    }
                }
            }
            i = i + 1;
        }
        assert(self.edges@.subrange(0, i as int) =~= self.edges@);
        self.edges = kept;
        assert(self.edge_set() =~= old(self).edge_set().filter(
            |e: (usize, usize)| nodes.contains(e.0) && nodes.contains(e.1),
        ));
    }
}

impl DirectedAcyclicGraph {
    /// Where `n` stands among the nodes, if it is one.
    fn node_index(&self, n: usize) -> (r: Option<usize>)
        ensures
            r is None ==> !self.node_seq().contains(n),
            r matches Some(i) ==> i < self.node_seq().len() && self.node_seq()[i as int] == n,
    {
        let mut i: usize = 0;
        while i < self.nodes.len()
            invariant
                i <= self.nodes.len(),
                forall|j: int| 0 <= j < i ==> self.nodes@[j] != n,
            decreases self.nodes.len() - i,
        {
            if self.nodes[i] == n {
                return Some(i);
            }
            i = i + 1;
        }
        None
    }

    /// Where `(from, to)` stands among the edges, if it is one.
    fn edge_index(&self, from: usize, to: usize) -> (r: Option<usize>)
        ensures
            r is None ==> !self.edge_seq().contains((from, to)),
            r matches Some(i) ==> i < self.edge_seq().len() && self.edge_seq()[i as int] == (from, to),
    {
        let mut i: usize = 0;
        while i < self.edges.len()
            invariant
                i <= self.edges.len(),
                forall|j: int| 0 <= j < i ==> self.edges@[j] != (from, to),
            decreases self.edges.len() - i,
        {
            let (a, b) = self.edges[i];
            if a == from && b == to {
                return Some(i);
            }
            i = i + 1;
        }
        None
    }

    /// Removes the edge `(from, to)` if it is present, then every node but
    /// the origin that no edge touches any more. Returns whether the edge was
    /// present. The origin may be left without any route to it.
    pub fn remove_edge(&mut self, from: usize, to: usize) -> (r: bool)
        requires
            old(self).wf(),
        ensures
            final(self).wf(),
            r == old(self).edge_set().contains((from, to)),
            !r ==> *final(self) == *old(self),
            r ==> edge_removed(*old(self), *final(self), from, to),
    {
        match self.edge_index(from, to) {
            None => false,
            Some(i) => {
                proof {
                    lemma_remove_set(self.edges@, i as int);
                }
                self.edges.remove(i);
                self.purge_stale_nodes();
                proof {
                    assert forall|e: (usize, usize)| #[trigger] self.edge_set().contains(e) implies
                        self.node_set().contains(e.0) && self.node_set().contains(e.1) && e.0 != e.1 by {
                        assert(old(self).edge_set().contains(e));
                        assert(touches(e, e.0) && touches(e, e.1));
                    }
                }
                true
            },
        }
    }

    /// Removes `node`, unless it is the origin or no node of the graph; then
    /// every edge that touches it, and every node but the origin that no edge
    /// touches any more. Returns whether `node` was removed.
    pub fn remove_node(&mut self, node: usize) -> (r: bool)
        requires
            old(self).wf(),
        ensures
            final(self).wf(),
            r == (node != ORIGIN && old(self).node_set().contains(node)),
            !r ==> *final(self) == *old(self),
            r ==> node_removed(*old(self), *final(self), node),
    {
        if node == ORIGIN {
            return false;
        }
        match self.node_index(node) {
            None => false,
            Some(i) => {
                proof {
                    lemma_remove_set(self.nodes@, i as int);
                }
                self.nodes.remove(i);
                self.purge_stale_edges();
                proof {
                    assert(self.edge_set() =~= old(self).edge_set().filter(|e: (usize, usize)| !touches(e, node)));
                }
                let ghost mid = *self;
                self.purge_stale_nodes();
                proof {
                    assert forall|e: (usize, usize)| #[trigger] self.edge_set().contains(e) implies
                        self.node_set().contains(e.0) && self.node_set().contains(e.1) && e.0 != e.1 by {
                        assert(old(self).edge_set().contains(e));
                        assert(mid.node_set().contains(e.0) && mid.node_set().contains(e.1));
                        assert(touches(e, e.0) && touches(e, e.1));
                    }
                }
                true
            },
        }
    }
}

/// Removing one position of a sequence without repeats removes exactly that
/// element from its set, and leaves no repeats.
pub proof fn lemma_remove_set<T>(s: Seq<T>, i: int)
    requires
        s.no_duplicates(),
        0 <= i < s.len(),
    ensures
        s.remove(i).no_duplicates(),
        s.remove(i).to_set() == s.to_set().remove(s[i]),
{
    let r = s.remove(i);
    assert forall|a: int, b: int| 0 <= a < r.len() && 0 <= b < r.len() && a != b implies r[a] != r[b] by {
        let a2 = if a < i { a } else { a + 1 };
        let b2 = if b < i { b } else { b + 1 };
        assert(r[a] == s[a2] && r[b] == s[b2]);
    }
    assert forall|x: T| #[trigger] r.contains(x) <==> s.contains(x) && x != s[i] by {
        if r.contains(x) {
            let a = r.index_of(x);
            let a2 = if a < i { a } else { a + 1 };
            assert(s[a2] == x);
        }
        if s.contains(x) && x != s[i] {
            let a = s.index_of(x);
            if a < i {
                assert(r[a] == x);
            } else {
                assert(r[a - 1] == x);
            }
        }
    }
    assert(r.to_set() =~= s.to_set().remove(s[i]));
}

/// A consistent graph stores each node and each edge once, so it stores as
/// many of them as its sets hold.
pub proof fn lemma_counts(g: &DirectedAcyclicGraph)
    requires
        g.wf(),
    ensures
        g.node_seq().len() == g.node_set().len(),
        g.edge_seq().len() == g.edge_set().len(),
{
    g.node_seq().unique_seq_to_set();
    g.edge_seq().unique_seq_to_set();
}

/// Pushing an element that is absent keeps a sequence free of repeats and
/// adds the element to its set.
pub proof fn lemma_push_set<T>(s: Seq<T>, x: T)
    requires
        !s.contains(x),
    ensures
        s.push(x).to_set() == s.to_set().insert(x),
        s.no_duplicates() ==> s.push(x).no_duplicates(),
{
    assert(s.push(x).to_set() =~= s.to_set().insert(x)) by {
        assert forall|y: T| #[trigger] s.push(x).contains(y) <==> s.contains(y) || y == x by {
            if s.contains(y) {
                let j = s.index_of(y);
                assert(s.push(x)[j] == y);
            }
            if y == x {
                assert(s.push(x)[s.len() as int] == x);
            }
        }
    }
    if s.no_duplicates() {
        assert forall|i: int, j: int|
            0 <= i < s.push(x).len() && 0 <= j < s.push(x).len() && i != j
            implies s.push(x)[i] != s.push(x)[j] by {
            if i == s.len() {
                assert(s.contains(s[j]));
            } else if j == s.len() {
                assert(s.contains(s[i]));
            }
        }
    }
}

} // verus!
