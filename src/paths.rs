use vstd::prelude::*;
use crate::graph::{lemma_push_set, DirectedAcyclicGraph, ORIGIN};

verus! {

/// The edge that a path takes between its positions `i + 1` and `i`.
///
/// A path is written from the origin onwards, so it walks its edges
/// backwards: position `i + 1` is the source of the edge and `i` its target.
pub open spec fn step(p: Seq<usize>, i: int) -> (usize, usize) {
    (p[i + 1], p[i])
}

/// `p` is a route from `node` to the origin along `edges`, written from the
/// origin to `node`, and passes no node twice.
pub open spec fn is_route(edges: Set<(usize, usize)>, p: Seq<usize>, node: usize) -> bool {
    &&& p.len() >= 1
    &&& p[0] == ORIGIN
    &&& p.last() == node
    &&& p.no_duplicates()
    &&& forall|i: int| 0 <= i < p.len() - 1 ==> edges.contains(#[trigger] step(p, i))
}

/// `p` holds no element of `avoid`.
pub open spec fn avoids(p: Seq<usize>, avoid: Seq<usize>) -> bool {
    forall|j: int| 0 <= j < p.len() ==> !avoid.contains(#[trigger] p[j])
}

/// The paths held by a vector of paths.
pub open spec fn views(r: Seq<Vec<usize>>) -> Seq<Seq<usize>> {
    r.map_values(|v: Vec<usize>| v@)
}

/// The only route from the origin to itself is the origin alone.
pub proof fn lemma_origin_route(edges: Set<(usize, usize)>, p: Seq<usize>)
    requires
        is_route(edges, p, ORIGIN),
    ensures
        p == seq![ORIGIN],
{
    if p.len() > 1 {
        assert(p[0] == p[p.len() - 1]);
    }
    assert(p =~= seq![ORIGIN]);
}

/// A route to `to` that avoids `avoid` and `node`, followed by the edge
/// `(node, to)`, is a route to `node` that avoids `avoid`.
pub proof fn lemma_extend_route(
    edges: Set<(usize, usize)>,
    d: Seq<usize>,
    to: usize,
    node: usize,
    avoid: Seq<usize>,
)
    requires
        is_route(edges, d, to),
        avoids(d, avoid.push(node)),
        !avoid.contains(node),
        edges.contains((node, to)),
    ensures
        is_route(edges, d.push(node), node),
        avoids(d.push(node), avoid),
        d.push(node).len() >= 2,
        d.push(node)[d.push(node).len() - 2] == to,
{
    let p = d.push(node);
    assert(!d.contains(node)) by {
        if d.contains(node) {
            let j = d.index_of(node);
            assert(avoid.push(node)[avoid.len() as int] == node);
            assert(avoid.push(node).contains(d[j]));
        }
    }
    assert forall|i: int, j: int| 0 <= i < p.len() && 0 <= j < p.len() && i != j implies p[i] != p[j] by {
        if i == d.len() {
            assert(d.contains(p[j]));
        } else if j == d.len() {
            assert(d.contains(p[i]));
        }
    }
    assert forall|i: int| 0 <= i < p.len() - 1 implies edges.contains(#[trigger] step(p, i)) by {
        if i < d.len() - 1 {
            assert(step(p, i) == step(d, i));
        }
    }
    assert forall|j: int| 0 <= j < p.len() implies !avoid.contains(#[trigger] p[j]) by {
        if j < d.len() {
            assert(p[j] == d[j]);
            assert(!avoid.push(node).contains(d[j]));
            if avoid.contains(d[j]) {
                let t = avoid.index_of(d[j]);
                assert(avoid.push(node)[t] == d[j]);
            }
        }
    }
}

/// Dropping the last node of a route to `node` gives a route to the node
/// before it, along an edge from `node`, that avoids `node` too.
pub proof fn lemma_shorten_route(edges: Set<(usize, usize)>, p: Seq<usize>, node: usize, avoid: Seq<usize>)
    requires
        is_route(edges, p, node),
        avoids(p, avoid),
        p.len() >= 2,
    ensures
        is_route(edges, p.drop_last(), p[p.len() - 2]),
        avoids(p.drop_last(), avoid.push(node)),
        edges.contains((node, p[p.len() - 2])),
        p == p.drop_last().push(node),
{
    let d = p.drop_last();
    assert(edges.contains(step(p, p.len() - 2)));
    assert forall|i: int| 0 <= i < d.len() - 1 implies edges.contains(#[trigger] step(d, i)) by {
        assert(step(d, i) == step(p, i));
    }
    assert forall|j: int| 0 <= j < d.len() implies !avoid.push(node).contains(#[trigger] d[j]) by {
        assert(p[j] == d[j]);
        assert(!avoid.contains(p[j]));
        if avoid.push(node).contains(d[j]) {
            let t = avoid.push(node).index_of(d[j]);
            if t < avoid.len() {
                assert(avoid[t] == d[j]);
            } else {
                assert(p[j] == p[p.len() - 1]);
            }
        }
    }
    assert(p =~= d.push(node));
}

/// A sequence without repeats whose elements all lie in another such
/// sequence is no longer than it.
pub proof fn lemma_distinct_len(s: Seq<usize>, t: Seq<usize>)
    requires
        s.no_duplicates(),
        t.no_duplicates(),
        forall|x: usize| s.contains(x) ==> t.contains(x),
    ensures
        s.len() <= t.len(),
{
    assert forall|x: usize| s.to_set().contains(x) implies t.to_set().contains(x) by {
        assert(s.contains(x));
    }
    s.unique_seq_to_set();
    t.unique_seq_to_set();
    assert(s.to_set().subset_of(t.to_set()));
    vstd::set_lib::lemma_len_subset(s.to_set(), t.to_set());
}

/// In a consistent graph every route that takes an edge passes only nodes
/// of the graph, so it is no longer than the number of nodes.
pub proof fn lemma_route_len(g: &DirectedAcyclicGraph, p: Seq<usize>, n: usize)
    requires
        g.wf(),
        is_route(g.edge_set(), p, n),
        p.len() >= 2,
    ensures
        p.len() <= g.node_seq().len(),
{
    assert forall|x: usize| p.contains(x) implies g.node_seq().contains(x) by {
        let j = p.index_of(x);
        if j < p.len() - 1 {
            assert(g.edge_set().contains(step(p, j)));
        } else {
            assert(g.edge_set().contains(step(p, j - 1)));
        }
        assert(g.node_set().contains(x));
    }
    lemma_distinct_len(p, g.node_seq());
}

/// Whether `v` holds `x`.
pub fn seq_contains(v: &Vec<usize>, x: usize) -> (r: bool)
    ensures
        r == v@.contains(x),
{
    let mut i: usize = 0;
    while i < v.len()
        invariant
            i <= v.len(),
            forall|j: int| 0 <= j < i ==> v@[j] != x,
        decreases v.len() - i,
    {
        if v[i] == x {
            return true;
        }
        i = i + 1;
    }
    false
}

impl DirectedAcyclicGraph {
    /// Every route from `node` to the origin, each once, in no particular
    /// order. Each route is listed from the origin to `node`; the origin's
    /// only route is `[ORIGIN]`, and a node with no way to the origin has
    /// none.
    pub fn depths(&self, node: usize) -> (r: Vec<Vec<usize>>)
        requires
            self.wf(),
        ensures
            views(r@).no_duplicates(),
            forall|p: Seq<usize>| #[trigger] views(r@).contains(p) <==> is_route(self.edge_set(), p, node),
            node == ORIGIN ==> views(r@) == seq![seq![ORIGIN]],
    {
        let mut visited: Vec<usize> = Vec::new();
        let r = self.routes_avoiding(node, &mut visited);
        assert forall|p: Seq<usize>| #[trigger] views(r@).contains(p) <==> is_route(self.edge_set(), p, node) by {
            if is_route(self.edge_set(), p, node) {
                assert(avoids(p, visited@));
            }
        }
        if node == ORIGIN {
            assert(views(r@).contains(seq![ORIGIN]));
            proof {
                if r.len() > 1 {
                    assert(views(r@).contains(views(r@)[0]));
                    assert(views(r@).contains(views(r@)[1]));
                    lemma_origin_route(self.edge_set(), views(r@)[0]);
                    lemma_origin_route(self.edge_set(), views(r@)[1]);
                }
            }
            assert(views(r@).len() == 1);
            assert(views(r@) =~= seq![seq![ORIGIN]]);
        }
        r
    }

    /// The routes from `node` to the origin that pass none of the nodes in
    /// `visited`: the nodes already on the way to `node`.
    fn routes_avoiding(&self, node: usize, visited: &mut Vec<usize>) -> (r: Vec<Vec<usize>>)
        requires
            self.wf(),
            old(visited)@.no_duplicates(),
            forall|x: usize| old(visited)@.contains(x) ==> self.node_set().contains(x),
            !old(visited)@.contains(node),
        ensures
            final(visited)@ == old(visited)@,
            views(r@).no_duplicates(),
            forall|p: Seq<usize>| #[trigger] views(r@).contains(p)
                <==> is_route(self.edge_set(), p, node) && avoids(p, old(visited)@),
        decreases self.node_seq().len() + 1 - old(visited)@.len(),
    {
        proof {
            assert forall|x: usize| visited@.contains(x) implies self.node_seq().contains(x) by {
                assert(old(visited)@.contains(x));
                assert(self.node_set().contains(x));
            }
            lemma_distinct_len(visited@, self.node_seq());
        }
        if node == ORIGIN {
            let r = vec![vec![ORIGIN]];
            assert(r@[0]@ =~= seq![ORIGIN]);
            assert(views(r@) =~= seq![seq![ORIGIN]]);
            assert forall|p: Seq<usize>| #[trigger] views(r@).contains(p)
                <==> is_route(self.edge_set(), p, node) && avoids(p, old(visited)@) by {
                if is_route(self.edge_set(), p, node) {
                    lemma_origin_route(self.edge_set(), p);
                }
                if views(r@).contains(p) {
                    assert(p == seq![ORIGIN]);
                }
                if p == seq![ORIGIN] {
                    assert(p.no_duplicates());
                    assert(p[0] == ORIGIN);
                    assert(p.last() == ORIGIN);
                    assert(views(r@)[0] == p);
                }
                if is_route(self.edge_set(), p, node) {
                    assert(p[0] == node);
                }
            }
            return r;
        }
        let ghost vis0 = visited@;
        let ghost edges = self.edge_set();
        let es = self.edges();
        let mut res: Vec<Vec<usize>> = Vec::new();
        let mut i: usize = 0;
        while i < es.len()
            invariant
                self.wf(),
                node != ORIGIN,
                es@ == self.edge_seq(),
                edges == self.edge_set(),
                i <= es.len(),
                visited@ == vis0,
                vis0 == old(visited)@,
                vis0.no_duplicates(),
                forall|x: usize| vis0.contains(x) ==> self.node_set().contains(x),
                !vis0.contains(node),
                vis0.len() <= self.node_seq().len(),
                views(res@).no_duplicates(),
                forall|p: Seq<usize>| #[trigger] views(res@).contains(p)
                    <==> is_route(edges, p, node) && avoids(p, vis0) && p.len() >= 2
                    && es@.subrange(0, i as int).contains((node, p[p.len() - 2])),
            decreases es.len() - i,
        {
            let (from, to) = es[i];
            let ghost before = es@.subrange(0, i as int);
            assert(es@.subrange(0, i + 1) =~= before.push((from, to)));
            assert(edges.contains((from, to)));
            assert(!before.contains((from, to))) by {
                if before.contains((from, to)) {
                    let t = before.index_of((from, to));
                    assert(es@[t] == es@[i as int]);
                }
            }
            if from == node && to != node && !seq_contains(visited, to) {
                proof {
                    assert(self.node_set().contains(node));
                    lemma_push_set(vis0, node);
                    assert forall|x: usize| vis0.push(node).contains(x) implies self.node_seq().contains(x) by {
                        if x != node {
                            let t = vis0.push(node).index_of(x);
                            assert(vis0[t] == x);
                            assert(vis0.contains(x));
                        }
                        assert(self.node_set().contains(x));
                    }
                    lemma_distinct_len(vis0.push(node), self.node_seq());
                    assert(self.node_set().contains(to));
                }
                visited.push(node);
                let mut sub = self.routes_avoiding(to, visited);
                let ghost pushed = visited@;
                assert(pushed == vis0.push(node));
                visited.pop();
                assert(visited@ =~= vis0);
                let ghost sub0 = views(sub@);
                let ghost res0 = views(res@);
                assert forall|p: Seq<usize>| #[trigger] res0.contains(p) implies p[p.len() - 2] != to by {
                    if p[p.len() - 2] == to {
                        assert(before.contains((node, p[p.len() - 2])));
                    }
                }
                while sub.len() > 0
                    invariant
                        views(sub@) == sub0.subrange(0, sub@.len() as int),
                        sub@.len() <= sub0.len(),
                        sub0.no_duplicates(),
                        res0.no_duplicates(),
                        views(res@).no_duplicates(),
                        forall|p: Seq<usize>| #[trigger] res0.contains(p) ==> p.len() >= 2 && p[p.len() - 2] != to,
                        forall|p: Seq<usize>| #[trigger] sub0.contains(p) ==> p.len() >= 1 && p.last() == to,
                        forall|p: Seq<usize>| #[trigger] views(res@).contains(p) <==> res0.contains(p)
                            || exists|k: int| sub@.len() <= k < sub0.len() && p == #[trigger] sub0[k].push(node),
                    decreases sub@.len(),
                {
                    let ghost prev = views(res@);
                    let ghost old_sub = sub@;
                    let mut d = sub.pop().unwrap();
                    let ghost k = sub@.len() as int;
                    assert(views(sub@) =~= sub0.subrange(0, k));
                    assert(d@ == sub0[k]) by {
                        assert(views(old_sub)[k] == sub0.subrange(0, k + 1)[k]);
                    }
                    d.push(node);
                    let ghost q = d@;
                    assert(sub0.contains(sub0[k]));
                    assert(!prev.contains(q)) by {
                        if res0.contains(q) {
                            assert(q[q.len() - 2] == sub0[k].last());
                        }
                        if exists|k2: int| k + 1 <= k2 < sub0.len() && q == #[trigger] sub0[k2].push(node) {
                            let k2 = choose|k2: int| k + 1 <= k2 < sub0.len() && q == #[trigger] sub0[k2].push(node);
                            assert(sub0[k2] =~= q.drop_last());
                            assert(sub0[k] =~= q.drop_last());
                        }
                    }
                    res.push(d);
                    assert(views(res@) =~= prev.push(q));
                    proof {
                        lemma_push_set(prev, q);
                        assert(q == sub0[k].push(node));
                        assert forall|p: Seq<usize>| #[trigger] views(res@).contains(p) <==> res0.contains(p)
                            || exists|k3: int| k <= k3 < sub0.len() && p == #[trigger] sub0[k3].push(node) by {
                            if prev.contains(p) {
                                let t = prev.index_of(p);
                                assert(views(res@)[t] == p);
                            }
                            if p == q {
                                assert(views(res@)[prev.len() as int] == q);
                            }
                            if views(res@).contains(p) && p != q {
                                let t = views(res@).index_of(p);
                                assert(prev[t] == p);
                                assert(prev.contains(p));
                            }
                            if exists|k3: int| k <= k3 < sub0.len() && p == #[trigger] sub0[k3].push(node) {
                                let k3 = choose|k3: int| k <= k3 < sub0.len() && p == #[trigger] sub0[k3].push(node);
                                if k3 != k {
                                    assert(prev.contains(p));
                                }
                            }
                        }
                    }
                }
                proof {
                    assert forall|p: Seq<usize>| #[trigger] views(res@).contains(p)
                        <==> is_route(edges, p, node) && avoids(p, vis0) && p.len() >= 2
                        && es@.subrange(0, i + 1).contains((node, p[p.len() - 2])) by {
                        if views(res@).contains(p) {
                            if res0.contains(p) {
                                let t = before.index_of((node, p[p.len() - 2]));
                                assert(es@.subrange(0, i + 1)[t] == (node, p[p.len() - 2]));
                            } else {
                                let k = choose|k: int| 0 <= k < sub0.len() && p == #[trigger] sub0[k].push(node);
                                assert(sub0.contains(sub0[k]));
                                lemma_extend_route(edges, sub0[k], to, node, vis0);
                                assert(es@.subrange(0, i + 1)[i as int] == (node, to));
                            }
                        }
                        if is_route(edges, p, node) && avoids(p, vis0) && p.len() >= 2
                            && es@.subrange(0, i + 1).contains((node, p[p.len() - 2])) {
                            if p[p.len() - 2] == to {
                                lemma_shorten_route(edges, p, node, vis0);
                                assert(sub0.contains(p.drop_last()));
                                let k = sub0.index_of(p.drop_last());
                                assert(p == sub0[k].push(node));
                            } else {
                                let t = es@.subrange(0, i + 1).index_of((node, p[p.len() - 2]));
                                assert(before[t] == (node, p[p.len() - 2]));
                            }
                        }
                    }
                }
            } else {
                proof {
                    assert forall|p: Seq<usize>| #[trigger] views(res@).contains(p)
                        <==> is_route(edges, p, node) && avoids(p, vis0) && p.len() >= 2
                        && es@.subrange(0, i + 1).contains((node, p[p.len() - 2])) by {
                        if is_route(edges, p, node) && avoids(p, vis0) && p.len() >= 2
                            && es@.subrange(0, i + 1).contains((node, p[p.len() - 2])) {
                            let t = es@.subrange(0, i + 1).index_of((node, p[p.len() - 2]));
                            if t == i {
                                assert(p[p.len() - 2] == to);
                                assert(p[p.len() - 2] != p[p.len() - 1]);
                                assert(!vis0.contains(p[p.len() - 2]));
                            } else {
                                assert(before[t] == (node, p[p.len() - 2]));
                            }
                        }
                        if views(res@).contains(p) {
                            let t = before.index_of((node, p[p.len() - 2]));
                            assert(es@.subrange(0, i + 1)[t] == (node, p[p.len() - 2]));
                        }
                    }
                }
            }
            i = i + 1;
        }
        assert forall|p: Seq<usize>| #[trigger] views(res@).contains(p)
            <==> is_route(edges, p, node) && avoids(p, vis0) by {
            if is_route(edges, p, node) && avoids(p, vis0) {
                assert(p.len() >= 2);
                lemma_shorten_route(edges, p, node, vis0);
                assert(es@.subrange(0, i as int) =~= es@);
            }
        }
        res
    }
}

} // verus!
