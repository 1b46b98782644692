use vstd::prelude::*;
use crate::graph::{DirectedAcyclicGraph, ORIGIN};
use crate::paths::{is_route, lemma_route_len, views};

verus! {

/// `d` is the longest length, counted in nodes, of a route from a node of
/// `nodes` along `edges`; 0 when there is no such route.
pub open spec fn is_longest_route_len(nodes: Set<usize>, edges: Set<(usize, usize)>, d: usize) -> bool {
    &&& forall|n: usize, p: Seq<usize>| nodes.contains(n) && #[trigger] is_route(edges, p, n) ==> p.len() <= d
    &&& d == 0 || exists|n: usize, p: Seq<usize>| nodes.contains(n) && #[trigger] is_route(edges, p, n) && p.len() == d
}

/// The longest route length is determined by the graph: two values that
/// both meet its description are equal, so asking twice gives one answer.
pub proof fn lemma_longest_route_len_unique(nodes: Set<usize>, edges: Set<(usize, usize)>, d1: usize, d2: usize)
    requires
        is_longest_route_len(nodes, edges, d1),
        is_longest_route_len(nodes, edges, d2),
    ensures
        d1 == d2,
{
    if d1 != 0 {
        let (n, p) = choose|n: usize, p: Seq<usize>| nodes.contains(n) && #[trigger] is_route(edges, p, n) && p.len() == d1;
        assert(p.len() <= d2);
    }
    if d2 != 0 {
        let (n, p) = choose|n: usize, p: Seq<usize>| nodes.contains(n) && #[trigger] is_route(edges, p, n) && p.len() == d2;
        assert(p.len() <= d1);
    }
}

impl DirectedAcyclicGraph {
    /// The length, counted in nodes, of the longest route from any node to
    /// the origin; 0 when no node has one.
    pub fn max_depth(&self) -> (r: usize)
        requires
            self.wf(),
        ensures
            is_longest_route_len(self.node_set(), self.edge_set(), r),
    {
        let ns = self.nodes();
        let ghost edges = self.edge_set();
        let mut max: usize = 0;
        let ghost mut wn: usize = 0;
        let ghost mut wp: Seq<usize> = Seq::empty();
        let mut i: usize = 0;
        while i < ns.len()
            invariant
                self.wf(),
                ns@ == self.node_seq(),
                edges == self.edge_set(),
                i <= ns.len(),
                forall|j: int, p: Seq<usize>| 0 <= j < i && #[trigger] is_route(edges, p, ns@[j]) ==> p.len() <= max,
                max == 0 || (self.node_set().contains(wn) && is_route(edges, wp, wn) && wp.len() == max),
            decreases ns.len() - i,
        {
            let n = ns[i];
            let paths = self.depths(n);
            let mut t: usize = 0;
            while t < paths.len()
                invariant
                    self.wf(),
                    ns@ == self.node_seq(),
                    edges == self.edge_set(),
                    i < ns.len(),
                    n == ns@[i as int],
                    t <= paths.len(),
                    forall|p: Seq<usize>| #[trigger] views(paths@).contains(p) <==> is_route(edges, p, n),
                    forall|j: int, p: Seq<usize>| 0 <= j < i && #[trigger] is_route(edges, p, ns@[j]) ==> p.len() <= max,
                    forall|u: int| 0 <= u < t ==> paths@[u]@.len() <= max,
                    max == 0 || (self.node_set().contains(wn) && is_route(edges, wp, wn) && wp.len() == max),
                decreases paths.len() - t,
            {
                let len = paths[t].len();
                if len > max {
                    proof {
                        assert(views(paths@)[t as int] == paths@[t as int]@);
                        assert(views(paths@).contains(paths@[t as int]@));
                        wn = n;
                        wp = paths@[t as int]@;
                        assert(self.node_set().contains(n)) by {
                            assert(self.node_seq()[i as int] == n);
                        }
                    }
                    max = len;
                }
                t = t + 1;
            }
            proof {
                assert forall|j: int, p: Seq<usize>| 0 <= j < i + 1 && #[trigger] is_route(edges, p, ns@[j]) implies p.len() <= max by {
                    if j == i {
                        assert(views(paths@).contains(p));
                        let u = views(paths@).index_of(p);
                        assert(paths@[u]@ == p);
                    }
                }
            }
            i = i + 1;
        }
        proof {
            assert forall|n: usize, p: Seq<usize>| self.node_set().contains(n) && #[trigger] is_route(edges, p, n) implies p.len() <= max by {
                let j = ns@.index_of(n);
                assert(is_route(edges, p, ns@[j]));
            }
        }
        max
    }
}

/// How many edges of `es` end at `n`.
pub open spec fn count_to(es: Seq<(usize, usize)>, n: usize) -> nat
    decreases es.len(),
{
    if es.len() == 0 {
        0
    } else {
        count_to(es.drop_last(), n) + if es.last().1 == n { 1nat } else { 0nat }
    }
}

/// How many edges of `es` end at some node of `ns`.
pub open spec fn count_into(es: Seq<(usize, usize)>, ns: Seq<usize>) -> nat
    decreases es.len(),
{
    if es.len() == 0 {
        0
    } else {
        count_into(es.drop_last(), ns) + if ns.contains(es.last().1) { 1nat } else { 0nat }
    }
}

/// The in-degrees of the nodes `ns` along `es`, added up.
pub open spec fn in_degree_sum(es: Seq<(usize, usize)>, ns: Seq<usize>) -> nat
    decreases ns.len(),
{
    if ns.len() == 0 {
        0
    } else {
        in_degree_sum(es, ns.drop_last()) + count_to(es, ns.last())
    }
}

/// Edges that end at one more node are those that ended at the others plus
/// those that end at it.
proof fn lemma_count_into_push(es: Seq<(usize, usize)>, ns: Seq<usize>, m: usize)
    requires
        !ns.contains(m),
    ensures
        count_into(es, ns.push(m)) == count_into(es, ns) + count_to(es, m),
    decreases es.len(),
{
    if es.len() > 0 {
        lemma_count_into_push(es.drop_last(), ns, m);
        assert(ns.push(m).contains(es.last().1) <==> ns.contains(es.last().1) || es.last().1 == m) by {
            if ns.push(m).contains(es.last().1) {
                let j = ns.push(m).index_of(es.last().1);
                if j < ns.len() {
                    assert(ns[j] == es.last().1);
                }
            }
            if ns.contains(es.last().1) {
                let j = ns.index_of(es.last().1);
                assert(ns.push(m)[j] == es.last().1);
            }
            assert(ns.push(m)[ns.len() as int] == m);
        }
    }
}

/// No count exceeds the number of edges, and where every edge ends at a
/// node of `ns`, `count_into` counts them all.
proof fn lemma_count_bounds(es: Seq<(usize, usize)>, ns: Seq<usize>, n: usize)
    ensures
        count_into(es, ns) <= es.len(),
        count_to(es, n) <= es.len(),
        (forall|e: (usize, usize)| es.contains(e) ==> ns.contains(e.1)) ==> count_into(es, ns) == es.len(),
    decreases es.len(),
{
    if es.len() > 0 {
        lemma_count_bounds(es.drop_last(), ns, n);
        if forall|e: (usize, usize)| es.contains(e) ==> ns.contains(e.1) {
            assert forall|e: (usize, usize)| es.drop_last().contains(e) implies ns.contains(e.1) by {
                let j = es.drop_last().index_of(e);
                assert(es[j] == e);
                assert(es.contains(e));
            }
            assert(es.contains(es.last()));
        }
    }
}

/// Added up over nodes without repeats, in-degrees count the edges that end
/// at one of those nodes.
pub proof fn lemma_in_degree_sum(es: Seq<(usize, usize)>, ns: Seq<usize>)
    requires
        ns.no_duplicates(),
    ensures
        in_degree_sum(es, ns) == count_into(es, ns),
    decreases ns.len(),
{
    if ns.len() == 0 {
        assert(count_into(es, ns) == 0) by {
            lemma_count_empty(es, ns);
        }
    } else {
        lemma_in_degree_sum(es, ns.drop_last());
        assert(ns =~= ns.drop_last().push(ns.last()));
        assert(!ns.drop_last().contains(ns.last())) by {
            if ns.drop_last().contains(ns.last()) {
                let j = ns.drop_last().index_of(ns.last());
                assert(ns[j] == ns[ns.len() - 1]);
            }
        }
        lemma_count_into_push(es, ns.drop_last(), ns.last());
    }
}

/// No edge ends at a node of an empty sequence.
proof fn lemma_count_empty(es: Seq<(usize, usize)>, ns: Seq<usize>)
    requires
        ns.len() == 0,
    ensures
        count_into(es, ns) == 0,
    decreases es.len(),
{
    if es.len() > 0 {
        lemma_count_empty(es.drop_last(), ns);
    }
}

impl DirectedAcyclicGraph {
    /// The in-degrees of all nodes, added up: every edge ends at a node, so
    /// this is the number of edges.
    pub fn in_ref_total(&self) -> (r: usize)
        requires
            self.wf(),
        ensures
            r == in_degree_sum(self.edge_seq(), self.node_seq()),
            r == self.edge_set().len(),
    {
        let ns = self.nodes();
        let es = self.edges();
        let mut total: usize = 0;
        let mut i: usize = 0;
        while i < ns.len()
            invariant
                self.wf(),
                ns@ == self.node_seq(),
                es@ == self.edge_seq(),
                i <= ns.len(),
                total == in_degree_sum(es@, ns@.take(i as int)),
            decreases ns.len() - i,
        {
            let n = ns[i];
            proof {
                assert(ns@.take(i + 1).drop_last() =~= ns@.take(i as int));
                assert(ns@.take(i as int).no_duplicates());
                assert(ns@.take(i + 1).no_duplicates());
                lemma_in_degree_sum(es@, ns@.take(i + 1));
                lemma_count_bounds(es@, ns@.take(i + 1), n);
            }
            let mut c: usize = 0;
            let mut j: usize = 0;
            while j < es.len()
                invariant
                    j <= es.len(),
                    c == count_to(es@.take(j as int), n),
                    c <= j,
                decreases es.len() - j,
            {
                assert(es@.take(j + 1).drop_last() =~= es@.take(j as int));
                if es[j].1 == n {
                    c = c + 1;
                }
                j = j + 1;
            }
            assert(es@.take(j as int) =~= es@);
            total = total + c;
            i = i + 1;
        }
        proof {
            assert(ns@.take(i as int) =~= ns@);
            lemma_in_degree_sum(es@, ns@);
            assert forall|e: (usize, usize)| es@.contains(e) implies ns@.contains(e.1) by {
                assert(self.edge_set().contains(e));
            }
            lemma_count_bounds(es@, ns@, 0);
            crate::graph::lemma_counts(self);
        }
        total
    }
}

/// `d` is the depth of `n`: the number of edges of its shortest route.
pub open spec fn is_depth(edges: Set<(usize, usize)>, n: usize, d: nat) -> bool {
    &&& exists|p: Seq<usize>| #[trigger] is_route(edges, p, n) && p.len() == d + 1
    &&& forall|p: Seq<usize>| #[trigger] is_route(edges, p, n) ==> d + 1 <= p.len()
}

/// The depth of `n`, where it has a route.
pub open spec fn min_depth(edges: Set<(usize, usize)>, n: usize) -> nat {
    choose|d: nat| is_depth(edges, n, d)
}

/// `n` has a route to the origin.
pub open spec fn reaches(edges: Set<(usize, usize)>, n: usize) -> bool {
    exists|p: Seq<usize>| #[trigger] is_route(edges, p, n)
}

/// The depths of the nodes `ns`, added up.
pub open spec fn depth_total(edges: Set<(usize, usize)>, ns: Seq<usize>) -> nat
    decreases ns.len(),
{
    if ns.len() == 0 {
        0
    } else {
        depth_total(edges, ns.drop_last()) + min_depth(edges, ns.last())
    }
}

/// A node has one depth at most.
pub proof fn lemma_depth_unique(edges: Set<(usize, usize)>, n: usize, d: nat)
    requires
        is_depth(edges, n, d),
    ensures
        min_depth(edges, n) == d,
{
    let e = min_depth(edges, n);
    assert(is_depth(edges, n, e));
    let p = choose|p: Seq<usize>| #[trigger] is_route(edges, p, n) && p.len() == d + 1;
    let q = choose|q: Seq<usize>| #[trigger] is_route(edges, q, n) && q.len() == e + 1;
    assert(e + 1 <= p.len());
    assert(d + 1 <= q.len());
}

impl DirectedAcyclicGraph {
    /// The depths of all nodes added up, the origin's being 0; `None` when
    /// some node has no route to the origin, and so no depth.
    pub fn depth_sum(&self) -> (r: Option<u128>)
        requires
            self.wf(),
        ensures
            r is Some <==> forall|n: usize| #[trigger] self.node_set().contains(n) ==> reaches(self.edge_set(), n),
            r matches Some(t) ==> t == depth_total(self.edge_set(), self.node_seq()),
    {
        let ns = self.nodes();
        let ghost edges = self.edge_set();
        let ghost big = ns.len() as int;
        let mut total: u128 = 0;
        let mut i: usize = 0;
        while i < ns.len()
            invariant
                self.wf(),
                ns@ == self.node_seq(),
                edges == self.edge_set(),
                big == ns.len(),
                i <= ns.len(),
                total == depth_total(edges, ns@.take(i as int)),
                total <= i * big,
                forall|j: int| 0 <= j < i ==> reaches(edges, #[trigger] ns@[j]),
            decreases ns.len() - i,
        {
            let n = ns[i];
            assert(ns@.take(i + 1).drop_last() =~= ns@.take(i as int));
            let mut d: usize = 0;
            if n == ORIGIN {
                proof {
                    let o = seq![ORIGIN];
                    assert(is_route(edges, o, n));
                    assert forall|p: Seq<usize>| #[trigger] is_route(edges, p, n) implies 1 <= p.len() by {}
                    lemma_depth_unique(edges, n, 0);
                }
            } else {
                let paths = self.depths(n);
                if paths.len() == 0 {
                    proof {
                        assert forall|p: Seq<usize>| !#[trigger] is_route(edges, p, n) by {
                            if is_route(edges, p, n) {
                                assert(views(paths@).contains(p));
                            }
                        }
                        assert(self.node_set().contains(n)) by {
                            assert(self.node_seq()[i as int] == n);
                        }
                    }
                    return None;
                }
                let mut m: usize = paths[0].len();
                let ghost mut wp: Seq<usize> = paths@[0]@;
                assert(views(paths@)[0] == paths@[0]@);
                assert(views(paths@).contains(wp));
                let mut t: usize = 1;
                while t < paths.len()
                    invariant
                        1 <= t <= paths.len(),
                        forall|p: Seq<usize>| #[trigger] views(paths@).contains(p) <==> is_route(edges, p, n),
                        views(paths@).contains(wp),
                        wp.len() == m,
                        forall|u: int| 0 <= u < t ==> m <= paths@[u]@.len(),
                    decreases paths.len() - t,
                {
                    if paths[t].len() < m {
                        m = paths[t].len();
                        proof {
                            wp = paths@[t as int]@;
                            assert(views(paths@)[t as int] == wp);
                        }
                    }
                    t = t + 1;
                }
                proof {
                    assert(is_route(edges, wp, n));
                    assert(wp.len() >= 2) by {
                        if wp.len() == 1 {
                            assert(wp[0] == wp.last());
                        }
                    }
                    lemma_route_len(self, wp, n);
                    assert forall|p: Seq<usize>| #[trigger] is_route(edges, p, n) implies m <= p.len() by {
                        assert(views(paths@).contains(p));
                        let u = views(paths@).index_of(p);
                        assert(paths@[u]@ == p);
                    }
                    lemma_depth_unique(edges, n, (m - 1) as nat);
                }
                d = m - 1;
            }
            proof {
                assert(d < big);
                assert((i + 1) * big <= big * big) by (nonlinear_arith)
                    requires i + 1 <= big;
                assert(big * big <= 0xffff_ffff_ffff_ffff_ffff_ffff_ffff_ffff) by (nonlinear_arith)
                    requires 0 <= big <= usize::MAX, usize::MAX <= 0xffff_ffff_ffff_ffff;
                assert(i * big + big == (i + 1) * big) by (nonlinear_arith);
                assert(reaches(edges, n));
            }
            total = total + d as u128;
            i = i + 1;
        }
        proof {
            assert(ns@.take(i as int) =~= ns@);
            assert forall|n: usize| #[trigger] self.node_set().contains(n) implies reaches(edges, n) by {
                let j = ns@.index_of(n);
            }
        }
        Some(total)
    }
}

/// The routes from `n` to the origin.
pub open spec fn routes_of(edges: Set<(usize, usize)>, n: usize) -> Set<Seq<usize>> {
    Set::new(|p: Seq<usize>| is_route(edges, p, n))
}

/// The number of routes of every node of `ns` but the origin, added up.
pub open spec fn route_total(edges: Set<(usize, usize)>, ns: Seq<usize>) -> nat
    decreases ns.len(),
{
    if ns.len() == 0 {
        0
    } else {
        route_total(edges, ns.drop_last()) + if ns.last() == ORIGIN {
            0nat
        } else {
            routes_of(edges, ns.last()).len()
        }
    }
}

/// `n` has a route of `l` nodes.
pub open spec fn has_route_len(edges: Set<(usize, usize)>, n: usize, l: usize) -> bool {
    exists|p: Seq<usize>| #[trigger] is_route(edges, p, n) && p.len() == l
}

/// The lengths, counted in nodes, of the routes of the nodes of `nodes`
/// other than the origin.
pub open spec fn route_lengths(edges: Set<(usize, usize)>, nodes: Set<usize>) -> Set<usize> {
    Set::new(|l: usize| exists|n: usize| nodes.contains(n) && n != ORIGIN && #[trigger] has_route_len(edges, n, l))
}

impl DirectedAcyclicGraph {
    /// Groups the routes of every node but the origin by their length and
    /// returns how many routes there are in all and how many groups: their
    /// quotient is the mean size of a group.
    pub fn depth_buckets(&self) -> (r: (u128, usize))
        requires
            self.wf(),
        ensures
            r.0 == route_total(self.edge_set(), self.node_seq()),
            r.1 == route_lengths(self.edge_set(), self.node_set()).len(),
    {
        let ns = self.nodes();
        let ghost edges = self.edge_set();
        let mut total: u128 = 0;
        let mut lens: Vec<usize> = Vec::new();
        let mut i: usize = 0;
        while i < ns.len()
            invariant
                self.wf(),
                ns@ == self.node_seq(),
                edges == self.edge_set(),
                i <= ns.len(),
                total == route_total(edges, ns@.take(i as int)),
                total <= i * 0xffff_ffff_ffff_ffff,
                lens@.no_duplicates(),
                forall|l: usize| #[trigger] lens@.contains(l) <==> exists|j: int|
                    0 <= j < i && ns@[j] != ORIGIN && #[trigger] has_route_len(edges, ns@[j], l),
            decreases ns.len() - i,
        {
            let n = ns[i];
            assert(ns@.take(i + 1).drop_last() =~= ns@.take(i as int));
            let mut c: usize = 0;
            if n != ORIGIN {
                let paths = self.depths(n);
                proof {
                    views(paths@).unique_seq_to_set();
                    assert(views(paths@).to_set() =~= routes_of(edges, n));
                }
                c = paths.len();
                let mut t: usize = 0;
                while t < paths.len()
                    invariant
                        t <= paths.len(),
                        n == ns@[i as int],
                        n != ORIGIN,
                        forall|p: Seq<usize>| #[trigger] views(paths@).contains(p) <==> is_route(edges, p, n),
                        lens@.no_duplicates(),
                        forall|l: usize| #[trigger] lens@.contains(l) <==> (exists|j: int|
                            0 <= j < i && ns@[j] != ORIGIN && #[trigger] has_route_len(edges, ns@[j], l))
                            || exists|u: int| 0 <= u < t && paths@[u]@.len() == l,
                    decreases paths.len() - t,
                {
                    let l = paths[t].len();
                    let ghost old_lens = lens@;
                    if !crate::paths::seq_contains(&lens, l) {
                        proof {
                            crate::graph::lemma_push_set(lens@, l);
                        }
                        lens.push(l);
                    }
                    proof {
                        assert forall|x: usize| #[trigger] lens@.contains(x) <==> (exists|j: int|
                            0 <= j < i && ns@[j] != ORIGIN && #[trigger] has_route_len(edges, ns@[j], x))
                            || exists|u: int| 0 <= u < t + 1 && paths@[u]@.len() == x by {
                            assert(lens@.to_set().contains(x) == lens@.contains(x));
                            assert(old_lens.push(l).to_set().contains(x) == old_lens.push(l).contains(x));
                            if exists|u: int| 0 <= u < t + 1 && paths@[u]@.len() == x {
                                let u = choose|u: int| 0 <= u < t + 1 && paths@[u]@.len() == x;
                                if u < t {
                                    assert(old_lens.contains(x));
                                }
                            }
                        }
                    }
                    t = t + 1;
                }
                proof {
                    assert forall|x: usize| #[trigger] lens@.contains(x) <==> exists|j: int|
                        0 <= j < i + 1 && ns@[j] != ORIGIN && #[trigger] has_route_len(edges, ns@[j], x) by {
                        if exists|u: int| 0 <= u < t && paths@[u]@.len() == x {
                            let u = choose|u: int| 0 <= u < t && paths@[u]@.len() == x;
                            assert(views(paths@)[u] == paths@[u]@);
                            assert(views(paths@).contains(paths@[u]@));
                            assert(is_route(edges, paths@[u]@, n));
                            assert(has_route_len(edges, ns@[i as int], x));
                        }
                        if has_route_len(edges, ns@[i as int], x) {
                            let p = choose|p: Seq<usize>| #[trigger] is_route(edges, p, n) && p.len() == x;
                            assert(views(paths@).contains(p));
                            let u = views(paths@).index_of(p);
                            assert(paths@[u]@ == p);
                        }
                    }
                }
            } else {
                proof {
                    assert forall|x: usize| #[trigger] lens@.contains(x) <==> exists|j: int|
                        0 <= j < i + 1 && ns@[j] != ORIGIN && #[trigger] has_route_len(edges, ns@[j], x) by {
                        if exists|j: int| 0 <= j < i + 1 && ns@[j] != ORIGIN && #[trigger] has_route_len(edges, ns@[j], x) {
                            let j = choose|j: int| 0 <= j < i + 1 && ns@[j] != ORIGIN && #[trigger] has_route_len(edges, ns@[j], x);
                            assert(j < i);
                        }
                    }
                }
            }
            assert(i * 0xffff_ffff_ffff_ffff + 0xffff_ffff_ffff_ffff == (i + 1) * 0xffff_ffff_ffff_ffff) by (nonlinear_arith);
            assert((i + 1) * 0xffff_ffff_ffff_ffff <= 0xffff_ffff_ffff_ffff * 0xffff_ffff_ffff_ffff) by (nonlinear_arith)
                requires i + 1 <= 0xffff_ffff_ffff_ffff;
            total = total + c as u128;
            i = i + 1;
        }
        proof {
            assert(ns@.take(i as int) =~= ns@);
            lens@.unique_seq_to_set();
            assert forall|x: usize| lens@.to_set().contains(x) <==> route_lengths(edges, self.node_set()).contains(x) by {
                if route_lengths(edges, self.node_set()).contains(x) {
                    let n = choose|n: usize| self.node_set().contains(n) && n != ORIGIN && #[trigger] has_route_len(edges, n, x);
                    let j = ns@.index_of(n);
                    assert(has_route_len(edges, ns@[j], x));
                }
                if lens@.contains(x) {
                    let j = choose|j: int| 0 <= j < i && ns@[j] != ORIGIN && #[trigger] has_route_len(edges, ns@[j], x);
                    assert(self.node_set().contains(ns@[j]));
                }
            }
            assert(lens@.to_set() =~= route_lengths(edges, self.node_set()));
        }
        (total, lens.len())
    }
}

} // verus!
