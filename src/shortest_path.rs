use vstd::prelude::*;

use crate::distance::GraphDistance;
use crate::graph::{
    edge_of, is_edge_of, is_path, lemma_out_edges, out_edges, path_weight, Graph, GraphEdge,
    GraphNode,
};
use crate::priority_queue::PriorityQueue;

verus! {

broadcast use vstd::std_specs::hash::group_hash_axioms;

/// Every edge weight of `w` is non-negative and, taken once per node, still
/// fits in `D`: no distance the search forms can then overflow.
pub open spec fn weights_fit<D: GraphDistance>(w: Seq<Seq<Option<D>>>) -> bool {
    forall|i: int, j: int|
        0 <= i < w.len() && 0 <= j < w[i].len() && #[trigger] w[i][j] is Some ==> {
            &&& 0 <= w[i][j].unwrap().measure()
            &&& w.len() * w[i][j].unwrap().measure() <= D::bound()
        }
}

/// What the search knows of a node it has finished: its distance from the
/// start and the edge it was reached by (none for the start itself).
#[derive(Clone, Copy)]
struct Settled<D> {
    distance: D,
    via: Option<GraphEdge<D>>,
}

type Frontier<D> = PriorityQueue<usize, D, GraphEdge<D>>;

spec fn is_settled<D>(b: Seq<Option<Settled<D>>>, v: int) -> bool {
    0 <= v < b.len() && b[v] is Some
}

spec fn dist<D: GraphDistance>(b: Seq<Option<Settled<D>>>, v: int) -> int {
    b[v].unwrap().distance.measure()
}

spec fn via_ok<D: GraphDistance>(
    w: Seq<Seq<Option<D>>>,
    b: Seq<Option<Settled<D>>>,
    rank: Seq<int>,
    v: int,
) -> bool {
    match b[v].unwrap().via {
        Some(e) => {
            &&& e.to.index == v
            &&& is_edge_of(w, e)
            &&& is_settled(b, e.from.index as int)
            &&& rank[e.from.index as int] < rank[v]
            &&& dist(b, v) == dist(b, e.from.index as int) + e.distance.measure()
        },
        None => false,
    }
}

/// The finished nodes: each is reached from `src` by its `via` edge from a node
/// finished earlier, and no edge between finished nodes is a shortcut.
spec fn settled_ok<D: GraphDistance>(
    w: Seq<Seq<Option<D>>>,
    src: int,
    b: Seq<Option<Settled<D>>>,
    rank: Seq<int>,
    cnt: int,
) -> bool {
    &&& b.len() == w.len()
    &&& rank.len() == w.len()
    &&& is_settled(b, src)
    &&& dist(b, src) == 0
    &&& b[src].unwrap().via is None
    &&& forall|v: int| #[trigger] is_settled(b, v) ==> 0 <= rank[v] < cnt
    &&& forall|v: int| #[trigger] is_settled(b, v) && v != src ==> via_ok(w, b, rank, v)
    &&& forall|v: int| #[trigger]
        is_settled(b, v) ==> 0 <= dist(b, v) && w.len() * dist(b, v) <= (cnt - 1) * D::bound()
    &&& forall|u: int, v: int|
        is_settled(b, u) && is_settled(b, v) && #[trigger] w[u][v] is Some ==> dist(b, v) <= dist(b, u)
            + w[u][v].unwrap().measure()
}

/// The queued nodes: each is unfinished, its priority is the distance through
/// its payload edge from a finished node, and no finished node is further away.
spec fn frontier_ok<D: GraphDistance>(
    w: Seq<Seq<Option<D>>>,
    b: Seq<Option<Settled<D>>>,
    q: Map<usize, (D, GraphEdge<D>)>,
    cnt: int,
) -> bool {
    &&& forall|k: usize| #[trigger]
        q.contains_key(k) ==> {
            &&& k < w.len()
            &&& !is_settled(b, k as int)
            &&& q[k].1.to.index == k
            &&& is_edge_of(w, q[k].1)
            &&& is_settled(b, q[k].1.from.index as int)
            &&& q[k].0.measure() == dist(b, q[k].1.from.index as int) + q[k].1.distance.measure()
            &&& 0 <= q[k].0.measure()
            &&& w.len() * q[k].0.measure() <= cnt * D::bound()
        }
    &&& forall|v: int, k: usize|
        #![trigger is_settled(b, v), q.contains_key(k)]
        is_settled(b, v) && q.contains_key(k) ==> dist(b, v) <= q[k].0.measure()
}

/// Every edge from a finished node other than `x` to an unfinished node has
/// been offered to the queue.
spec fn relaxed_except<D: GraphDistance>(
    w: Seq<Seq<Option<D>>>,
    b: Seq<Option<Settled<D>>>,
    q: Map<usize, (D, GraphEdge<D>)>,
    x: int,
) -> bool {
    forall|u: int, v: int|
        is_settled(b, u) && u != x && 0 <= v < w.len() && !is_settled(b, v) && #[trigger] w[u][v] is Some
            ==> {
            &&& q.contains_key(v as usize)
            &&& q[v as usize].0.measure() <= dist(b, u) + w[u][v].unwrap().measure()
        }
}

spec fn below(n: int) -> Set<usize> {
    Set::new(|k: usize| k < n)
}

proof fn lemma_below(n: int)
    requires
        0 <= n <= usize::MAX + 1,
    ensures
        below(n).finite(),
        below(n).len() == n,
    decreases n,
{
    if n == 0 {
        assert(below(n) =~= Set::empty());
    } else {
        lemma_below(n - 1);
        assert(below(n) =~= below(n - 1).insert((n - 1) as usize));
    }
}

/// A set of node indices below `n` that leaves out `x` has fewer than `n` members.
proof fn lemma_fewer(s: Set<usize>, n: int, x: usize)
    requires
        0 < n <= usize::MAX + 1,
        x < n,
        !s.contains(x),
        forall|k: usize| #[trigger] s.contains(k) ==> k < n,
    ensures
        s.finite(),
        s.len() < n,
{
    lemma_below(n);
    vstd::set_lib::lemma_len_subset(s, below(n).remove(x));
}

proof fn lemma_candidate(n: int, cnt: int, bound: int, x: int, d: int)
    requires
        1 <= cnt <= n,
        0 <= bound,
        0 <= x,
        0 <= d,
        n * x <= (cnt - 1) * bound,
        n * d <= bound,
    ensures
        n * (x + d) <= cnt * bound,
        x + d <= bound,
{
    assert(n * (x + d) == n * x + n * d) by (nonlinear_arith);
    assert((cnt - 1) * bound + bound == cnt * bound) by (nonlinear_arith);
    assert(cnt * bound <= n * bound) by (nonlinear_arith)
        requires
            cnt <= n,
            0 <= bound,
    ;
    assert(x + d <= bound) by (nonlinear_arith)
        requires
            n * (x + d) <= n * bound,
            n >= 1,
    ;
}

proof fn lemma_step(c: int, bound: int)
    requires
        0 <= bound,
    ensures
        c * bound <= (c + 1) * bound,
        (c - 1) * bound <= c * bound,
{
    assert(c * bound <= (c + 1) * bound) by (nonlinear_arith)
        requires
            0 <= bound,
    ;
    assert((c - 1) * bound <= c * bound) by (nonlinear_arith)
        requires
            0 <= bound,
    ;
}

/// Whether every edge weight, taken once per node, fits in `D`: the condition
/// under which `dijkstra` may be called on the graph.
pub fn distances_fit<T, D: GraphDistance>(graph: &Graph<T, D>) -> (r: bool)
    requires
        graph.wf(),
    ensures
        r == weights_fit(graph.weights()),
{
    let ghost w = graph.weights();
    let n = graph.length();
    let zero = D::zero();
    let mut i: usize = 0;
    while i < n
        invariant
            zero.measure() == 0,
            graph.wf(),
            w == graph.weights(),
            n == graph.len(),
            i <= n,
            forall|a: int, j: int|
                0 <= a < i && 0 <= j < n && #[trigger] w[a][j] is Some ==> {
                    &&& 0 <= w[a][j].unwrap().measure()
                    &&& w.len() * w[a][j].unwrap().measure() <= D::bound()
                },
        decreases n - i,
    {
        let edges = GraphNode { index: i }.adjacent(graph).nodes;
        proof {
            lemma_out_edges(w, i as int, n as int);
        }
        let mut k: usize = 0;
        while k < edges.len()
            invariant
                graph.wf(),
                w == graph.weights(),
                n == graph.len(),
                i < n,
                k <= edges@.len(),
                edges@ == out_edges(w, i as int, n as int),
                forall|m: int|
                    #![trigger edges@[m]]
                    0 <= m < edges@.len() ==> {
                        &&& edges@[m].from.index == i
                        &&& edges@[m].to.index < n
                        &&& w[i as int][edges@[m].to.index as int] == Some(edges@[m].distance)
                    },
                forall|a: int, j: int|
                    0 <= a < i && 0 <= j < n && #[trigger] w[a][j] is Some ==> {
                        &&& 0 <= w[a][j].unwrap().measure()
                        &&& w.len() * w[a][j].unwrap().measure() <= D::bound()
                    },
                zero.measure() == 0,
                forall|m: int|
                    0 <= m < k ==> {
                        &&& 0 <= (#[trigger] edges@[m]).distance.measure()
                        &&& n * edges@[m].distance.measure() <= D::bound()
                    },
            decreases edges@.len() - k,
        {
            let edge = edges[k];
            if edge.distance.less_than(zero) || !edge.distance.fits_times(n) {
                proof {
                    assert(edges@[k as int] == edge);
                    let j = edge.to.index as int;
                    assert(w[i as int][j] is Some);
                }
                return false;
            }
            k = k + 1;
        }
        proof {
            assert forall|a: int, j: int|
                0 <= a < i + 1 && 0 <= j < n && #[trigger] w[a][j] is Some implies {
                    &&& 0 <= w[a][j].unwrap().measure()
                    &&& w.len() * w[a][j].unwrap().measure() <= D::bound()
                } by {
                if a == i {
                    lemma_out_edges(w, i as int, n as int);
                    assert(edges@.contains(edge_of(i as int, j, w[a][j].unwrap())));
                    let m = choose|m: int|
                        0 <= m < edges@.len() && edges@[m] == edge_of(i as int, j, w[a][j].unwrap());
                    assert(n * edges@[m].distance.measure() <= D::bound());
                }
            }
        }
        i = i + 1;
    }
    true
}

/// Offers to the queue every edge that leaves the newly finished node `v`
/// towards an unfinished node, keeping for each queued node the smaller distance.
#[verifier::rlimit(40)]
fn relax<T, D: GraphDistance>(
    graph: &Graph<T, D>,
    best: &Vec<Option<Settled<D>>>,
    frontier: &mut Frontier<D>,
    v: usize,
    Ghost(src): Ghost<int>,
    Ghost(rank): Ghost<Seq<int>>,
    Ghost(cnt): Ghost<int>,
)
    requires
        graph.wf(),
        weights_fit(graph.weights()),
        1 <= cnt <= graph.len(),
        settled_ok(graph.weights(), src, best@, rank, cnt),
        old(frontier).wf(),
        frontier_ok(graph.weights(), best@, old(frontier).view(), cnt),
        relaxed_except(graph.weights(), best@, old(frontier).view(), v as int),
        is_settled(best@, v as int),
        forall|u: int| #[trigger] is_settled(best@, u) ==> dist(best@, u) <= dist(best@, v as int),
    ensures
        final(frontier).wf(),
        frontier_ok(graph.weights(), best@, final(frontier).view(), cnt),
        relaxed_except(graph.weights(), best@, final(frontier).view(), -1),
{
    let ghost w = graph.weights();
    let ghost n = graph.len();
    let length = graph.length();
    let node = GraphNode { index: v };
    let adjacent = node.adjacent(graph);
    let edges = adjacent.nodes;
    let here = match best[v] {
        Some(s) => s.distance,
        None => D::zero(),
    };
    proof {
        lemma_out_edges(w, v as int, n);
        here.lemma_range();
    }
    let mut k: usize = 0;
    while k < edges.len()
        invariant
            graph.wf(),
            w == graph.weights(),
            n == graph.len(),
            weights_fit(w),
            1 <= cnt <= n,
            settled_ok(w, src, best@, rank, cnt),
            is_settled(best@, v as int),
            here.measure() == dist(best@, v as int),
            forall|u: int| #[trigger] is_settled(best@, u) ==> dist(best@, u) <= dist(best@, v as int),
            edges@ == out_edges(w, v as int, n),
            length == n,
            k <= edges@.len(),
            frontier.wf(),
            frontier_ok(w, best@, frontier.view(), cnt),
            relaxed_except(w, best@, frontier.view(), v as int),
            forall|m: int|
                0 <= m < k && !is_settled(best@, (#[trigger] edges@[m]).to.index as int) ==> {
                    &&& frontier.view().contains_key(edges@[m].to.index)
                    &&& frontier.view()[edges@[m].to.index].0.measure() <= here.measure()
                        + edges@[m].distance.measure()
                },
        decreases edges@.len() - k,
    {
        let edge = edges[k];
        let y = edge.to.index;
        proof {
            lemma_out_edges(w, v as int, n);
            assert(edges@[k as int] == edge);
            edge.distance.lemma_range();
            assert(w[v as int][y as int] is Some);
        }
        if best[y].is_none() {
            proof {
                assert(via_ok(w, best@, rank, v as int) || v == src);
                lemma_candidate(
                    n,
                    cnt,
                    D::bound(),
                    here.measure(),
                    edge.distance.measure(),
                );
            }
            let candidate = here.plus(edge.distance);
            let offer = match frontier.peek_by_key(&y) {
                None => true,
                Some(queued) => candidate.less_than(queued),
            };
            if offer {
                let ghost q = frontier.view();
                proof {
                    frontier.lemma_view_finite();
                    assert(!q.dom().contains(src as usize));
                    lemma_fewer(q.dom(), n, src as usize);
                }
                frontier.push(y, candidate, edge);
                proof {
                    let q2 = frontier.view();
                    assert forall|k2: usize| #[trigger] q2.contains_key(k2) implies {
                        &&& k2 < w.len()
                        &&& !is_settled(best@, k2 as int)
                        &&& q2[k2].1.to.index == k2
                        &&& is_edge_of(w, q2[k2].1)
                        &&& is_settled(best@, q2[k2].1.from.index as int)
                        &&& q2[k2].0.measure() == dist(best@, q2[k2].1.from.index as int)
                            + q2[k2].1.distance.measure()
                        &&& 0 <= q2[k2].0.measure()
                        &&& w.len() * q2[k2].0.measure() <= cnt * D::bound()
                    } by {
                        if k2 != y {
                            assert(q.contains_key(k2));
                        }
                    }
                    assert forall|u: int, k2: usize|
                        #![trigger is_settled(best@, u), q2.contains_key(k2)]
                        is_settled(best@, u) && q2.contains_key(k2) implies dist(best@, u)
                        <= q2[k2].0.measure() by {
                        if k2 != y {
                            assert(q.contains_key(k2));
                        }
                    }
                    assert forall|u: int, x: int|
                        is_settled(best@, u) && u != v && 0 <= x < w.len() && !is_settled(best@, x)
                            && #[trigger] w[u][x] is Some implies {
                        &&& q2.contains_key(x as usize)
                        &&& q2[x as usize].0.measure() <= dist(best@, u) + w[u][x].unwrap().measure()
                    } by {
                        assert(q.contains_key(x as usize));
                    }
                    assert forall|m: int|
                        0 <= m <= k && !is_settled(best@, (#[trigger] edges@[m]).to.index as int) implies {
                        &&& q2.contains_key(edges@[m].to.index)
                        &&& q2[edges@[m].to.index].0.measure() <= here.measure()
                            + edges@[m].distance.measure()
                    } by {
                        if m < k {
                            assert(q.contains_key(edges@[m].to.index));
                        }
                    }
                }
            }
        }
        k = k + 1;
    }
    proof {
        lemma_out_edges(w, v as int, n);
        let q = frontier.view();
        assert forall|u: int, x: int|
            is_settled(best@, u) && u != -1 && 0 <= x < w.len() && !is_settled(best@, x)
                && #[trigger] w[u][x] is Some implies {
            &&& q.contains_key(x as usize)
            &&& q[x as usize].0.measure() <= dist(best@, u) + w[u][x].unwrap().measure()
        } by {
            if u == v {
                assert(edges@.contains(edge_of(v as int, x, w[u][x].unwrap())));
                let m = choose|m: int|
                    0 <= m < edges@.len() && edges@[m] == edge_of(v as int, x, w[u][x].unwrap());
                assert(edges@[m].to.index == x);
            }
        }
    }
}

/// Along a path out of a finished node, when every edge out of a finished node
/// ends at a finished node: the end is finished, and no nearer than the path says.
proof fn lemma_path_settled<D: GraphDistance>(
    w: Seq<Seq<Option<D>>>,
    src: int,
    b: Seq<Option<Settled<D>>>,
    rank: Seq<int>,
    cnt: int,
    u: int,
    t: int,
    p: Seq<GraphEdge<D>>,
)
    requires
        settled_ok(w, src, b, rank, cnt),
        forall|x: int, y: int|
            is_settled(b, x) && 0 <= y < w.len() && #[trigger] w[x][y] is Some ==> is_settled(b, y),
        is_settled(b, u),
        is_path(w, u, t, p),
    ensures
        is_settled(b, t),
        dist(b, t) <= dist(b, u) + path_weight(p),
    decreases p.len(),
{
    if p.len() > 0 {
        let e = p[0];
        let y = e.to.index as int;
        assert(w[u][y] is Some);
        assert(is_settled(b, y));
        lemma_path_settled(w, src, b, rank, cnt, y, t, p.drop_first());
    }
}

/// A path of least summed distance from `from` to `to`, as its edges in order:
/// `None` when no path leads there, and no edge at all when `from == to`.
pub fn dijkstra<T, D: GraphDistance>(graph: &Graph<T, D>, from: GraphNode, to: GraphNode) -> (r:
    Option<Vec<GraphEdge<D>>>)
    requires
        graph.wf(),
        weights_fit(graph.weights()),
        from.index < graph.len(),
        to.index < graph.len(),
    ensures
        r is None <==> forall|p: Seq<GraphEdge<D>>|
            !is_path(graph.weights(), from.index as int, to.index as int, p),
        r matches Some(path) ==> {
            &&& is_path(graph.weights(), from.index as int, to.index as int, path@)
            &&& forall|q: Seq<GraphEdge<D>>|
                is_path(graph.weights(), from.index as int, to.index as int, q) ==> path_weight(
                    path@,
                ) <= path_weight(q)
        },
        from == to ==> (r matches Some(path) && path@.len() == 0),
{
    let ghost w = graph.weights();
    let n = graph.length();
    let src = from.index;
    let mut best: Vec<Option<Settled<D>>> = Vec::new();
    let mut i: usize = 0;
    while i < n
        invariant
            i <= n,
            best@.len() == i,
            forall|k: int| 0 <= k < i ==> (#[trigger] best@[k]) is None,
        decreases n - i,
    {
        best.push(None);
        i = i + 1;
    }
    let zero = D::zero();
    best[src] = Some(Settled { distance: zero, via: None });
    let ghost mut rank: Seq<int> = Seq::new(n as nat, |k: int| 0);
    let ghost mut cnt: int = 1;
    let ghost mut done: Set<usize> = set![src];
    let mut frontier: Frontier<D> = PriorityQueue::new();
    proof {
        zero.lemma_range();
        assert(done.len() == 1);
        assert forall|v: int| #[trigger] is_settled(best@, v) implies v == src by {}
        assert(settled_ok(w, src as int, best@, rank, cnt)) by {
            assert forall|u: int, v: int|
                is_settled(best@, u) && is_settled(best@, v) && #[trigger] w[u][v] is Some implies dist(
                best@,
                v,
            ) <= dist(best@, u) + w[u][v].unwrap().measure() by {
                assert(u == src && v == src);
            }
        }
        assert(frontier.view().dom() =~= Set::empty());
    }
    relax(graph, &best, &mut frontier, src, Ghost(src as int), Ghost(rank), Ghost(cnt));
    loop
        invariant
            graph.wf(),
            w == graph.weights(),
            n == graph.len(),
            weights_fit(w),
            src < n,
            1 <= cnt <= n,
            settled_ok(w, src as int, best@, rank, cnt),
            frontier.wf(),
            frontier_ok(w, best@, frontier.view(), cnt),
            relaxed_except(w, best@, frontier.view(), -1),
            done.len() == cnt,
            forall|k: usize| #[trigger] done.contains(k) <==> k < n && is_settled(best@, k as int),
        ensures
            settled_ok(w, src as int, best@, rank, cnt),
            forall|x: int, y: int|
                is_settled(best@, x) && 0 <= y < w.len() && #[trigger] w[x][y] is Some ==> is_settled(
                    best@,
                    y,
                ),
        decreases n - cnt,
    {
        let ghost q = frontier.view();
        proof {
            frontier.lemma_view_finite();
        }
        match frontier.pop_by_priority() {
            None => {
                proof {
                    assert forall|x: int, y: int|
                        is_settled(best@, x) && 0 <= y < w.len() && #[trigger] w[x][y] is Some implies is_settled(
                        best@,
                        y,
                    ) by {
                        if !is_settled(best@, y) {
                            assert(q.contains_key(y as usize));
                            assert(q.dom().contains(y as usize));
                            assert(q.dom().remove(y as usize).len() + 1 == q.dom().len());
                        }
                    }
                }
                break ;
            },
            Some((y, p, e)) => {
                let ghost b = best@;
                proof {
                    assert(q.contains_key(y));
                    assert(!done.contains(y));
                    lemma_fewer(done, n as int, y);
                    p.lemma_range();
                    assert(w[e.from.index as int][y as int] is Some);
                }
                best[y] = Some(Settled { distance: p, via: Some(e) });
                proof {
                    let b2 = best@;
                    let q2 = frontier.view();
                    let rank2 = rank.update(y as int, cnt);
                    let cnt2 = cnt + 1;
                    lemma_step(cnt, D::bound());
                    assert forall|v: int| #[trigger] is_settled(b2, v) implies (v == y || is_settled(b, v))
                        && (v != y ==> dist(b2, v) == dist(b, v)) by {}
                    assert(settled_ok(w, src as int, b2, rank2, cnt2)) by {
                        assert forall|v: int| #[trigger] is_settled(b2, v) && v != src implies via_ok(
                            w,
                            b2,
                            rank2,
                            v,
                        ) by {
                            if v != y {
                                assert(via_ok(w, b, rank, v));
                                let f = b[v].unwrap().via.unwrap().from.index as int;
                                assert(is_settled(b, f));
                                assert(f != y);
                            } else {
                                assert(is_settled(b, e.from.index as int));
                                assert(rank[e.from.index as int] < cnt);
                            }
                        }
                        assert forall|v: int| #[trigger] is_settled(b2, v) implies 0 <= dist(b2, v) && w.len()
                            * dist(b2, v) <= (cnt2 - 1) * D::bound() by {
                            if v != y {
                                assert(is_settled(b, v));
                            }
                        }
                        assert forall|u: int, v: int|
                            is_settled(b2, u) && is_settled(b2, v) && #[trigger] w[u][v] is Some implies dist(
                            b2,
                            v,
                        ) <= dist(b2, u) + w[u][v].unwrap().measure() by {
                            if u == y && v == y {
                            } else if v == y {
                                assert(is_settled(b, u));
                                assert(q.contains_key(y));
                            } else if u == y {
                                assert(is_settled(b, v));
                                assert(q.contains_key(y));
                            } else {
                                assert(is_settled(b, u) && is_settled(b, v));
                            }
                        }
                    }
                    assert(frontier_ok(w, b2, q2, cnt2)) by {
                        assert forall|k: usize| #[trigger] q2.contains_key(k) implies {
                            &&& k < w.len()
                            &&& !is_settled(b2, k as int)
                            &&& q2[k].1.to.index == k
                            &&& is_edge_of(w, q2[k].1)
                            &&& is_settled(b2, q2[k].1.from.index as int)
                            &&& q2[k].0.measure() == dist(b2, q2[k].1.from.index as int)
                                + q2[k].1.distance.measure()
                            &&& 0 <= q2[k].0.measure()
                            &&& w.len() * q2[k].0.measure() <= cnt2 * D::bound()
                        } by {
                            assert(q.contains_key(k));
                            assert(is_settled(b, q[k].1.from.index as int));
                        }
                        assert forall|v: int, k: usize|
                            #![trigger is_settled(b2, v), q2.contains_key(k)]
                            is_settled(b2, v) && q2.contains_key(k) implies dist(b2, v)
                            <= q2[k].0.measure() by {
                            assert(q.contains_key(k));
                            if v != y {
                                assert(is_settled(b, v));
                            }
                        }
                    }
                    assert(relaxed_except(w, b2, q2, y as int)) by {
                        assert forall|u: int, x: int|
                            is_settled(b2, u) && u != y && 0 <= x < w.len() && !is_settled(b2, x)
                                && #[trigger] w[u][x] is Some implies {
                            &&& q2.contains_key(x as usize)
                            &&& q2[x as usize].0.measure() <= dist(b2, u) + w[u][x].unwrap().measure()
                        } by {
                            assert(is_settled(b, u));
                            assert(q.contains_key(x as usize));
                        }
                    }
                    assert forall|u: int| #[trigger] is_settled(b2, u) implies dist(b2, u) <= dist(
                        b2,
                        y as int,
                    ) by {
                        if u != y {
                            assert(is_settled(b, u));
                        }
                    }
                    rank = rank2;
                    cnt = cnt2;
                    done = done.insert(y);
                }
                relax(graph, &best, &mut frontier, y, Ghost(src as int), Ghost(rank), Ghost(cnt));
            },
        }
    }
    if best[to.index].is_none() {
        proof {
            assert forall|p: Seq<GraphEdge<D>>|
                !is_path(w, from.index as int, to.index as int, p) by {
                if is_path(w, from.index as int, to.index as int, p) {
                    lemma_path_settled(w, src as int, best@, rank, cnt, src as int, to.index as int, p);
                }
            }
        }
        return None;
    }
    let mut reversed: Vec<GraphEdge<D>> = Vec::new();
    let mut cur: usize = to.index;
    let ghost mut path: Seq<GraphEdge<D>> = seq![];
    loop
        invariant
            settled_ok(w, src as int, best@, rank, cnt),
            cur < n,
            src == from.index,
            n == w.len(),
            is_settled(best@, cur as int),
            is_path(w, cur as int, to.index as int, path),
            path_weight(path) + dist(best@, cur as int) == dist(best@, to.index as int),
            reversed@.len() == path.len(),
            forall|m: int|
                0 <= m < path.len() ==> #[trigger] reversed@[m] == path[path.len() - 1 - m],
            from == to ==> path.len() == 0,
            path.len() == 0 ==> cur == to.index,
        ensures
            cur == src,
            is_path(w, cur as int, to.index as int, path),
            path_weight(path) + dist(best@, cur as int) == dist(best@, to.index as int),
            reversed@.len() == path.len(),
            forall|m: int|
                0 <= m < path.len() ==> #[trigger] reversed@[m] == path[path.len() - 1 - m],
            from == to ==> path.len() == 0,
        decreases rank[cur as int],
    {
        let via = match best[cur] {
            Some(s) => s.via,
            None => None,
        };
        assert(via == best@[cur as int].unwrap().via);
        match via {
            None => {
                proof {
                    if cur != src {
                        assert(via_ok(w, best@, rank, cur as int));
                    }
                }
                break ;
            },
            Some(e) => {
                proof {
                    assert(cur != src);
                    assert(via_ok(w, best@, rank, cur as int));
                    let extended = seq![e] + path;
                    assert(extended.drop_first() =~= path);
                    assert(extended[0] == e);
                    let old_reversed = reversed@;
                    let old_path = path;
                    path = extended;
                    assert(path_weight(path) == e.distance.measure() + path_weight(old_path));
                }
                reversed.push(e);
                proof {
                    assert forall|m: int|
                        0 <= m < path.len() implies #[trigger] reversed@[m] == path[path.len() - 1 - m] by {
                        if m < path.len() - 1 {
                            assert(path[path.len() - 1 - m] == path.drop_first()[path.len() - 2 - m]);
                        }
                    }
                }
                cur = e.from.index;
            },
        }
    }
    let mut result: Vec<GraphEdge<D>> = Vec::new();
    let mut k: usize = reversed.len();
    while k > 0
        invariant
            k <= reversed@.len(),
            reversed@.len() == path.len(),
            forall|m: int|
                0 <= m < path.len() ==> #[trigger] reversed@[m] == path[path.len() - 1 - m],
            result@ == path.subrange(0, path.len() - k),
        decreases k,
    {
        k = k - 1;
        result.push(reversed[k]);
        proof {
            assert(reversed@[k as int] == path[path.len() - 1 - k]);
            assert(result@ =~= path.subrange(0, path.len() - k));
        }
    }
    proof {
        assert(result@ =~= path);
        assert forall|p: Seq<GraphEdge<D>>|
            is_path(w, from.index as int, to.index as int, p) implies path_weight(result@)
            <= path_weight(p) by {
            lemma_path_settled(w, src as int, best@, rank, cnt, src as int, to.index as int, p);
        }
    }
    Some(result)
}

} // verus!
