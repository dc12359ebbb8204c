use vstd::prelude::*;

use crate::distance::GraphDistance;

verus! {

/// A node of a graph, named by its slot in the graph's node store. Two nodes
/// with equal payloads are still distinct nodes.
#[derive(Clone, Copy, Debug, PartialEq, Eq, Structural, Hash)]
pub struct GraphNode {
    pub index: usize,
}

/// A directed, weighted edge `from -> to`.
#[derive(Clone, Copy, Debug, PartialEq)]
pub struct GraphEdge<D> {
    pub from: GraphNode,
    pub to: GraphNode,
    pub distance: D,
}

/// The edges leaving (or entering) one node, in the order they were built.
pub struct GraphNodeAdjacent<D> {
    pub nodes: Vec<GraphEdge<D>>,
}

/// Why an adjacency matrix was refused.
#[derive(Clone, Copy, Debug, PartialEq, Eq, Structural)]
pub enum GraphError {
    /// The matrix is not `n x n` for `n` node values.
    ShapeError,
    /// Some diagonal entry is present, that is, a node would have an edge to itself.
    SelfLoopError,
}

/// A fixed set of nodes, each with a payload, and the directed edges between them.
pub struct Graph<T, D> {
    values: Vec<T>,
    adjacent: Vec<Vec<GraphEdge<D>>>,
    reverse: Vec<Vec<GraphEdge<D>>>,
    weights: Ghost<Seq<Seq<Option<D>>>>,
}

/// The rows of a matrix, each as a sequence.
pub open spec fn rows_of<D>(m: Seq<Vec<Option<D>>>) -> Seq<Seq<Option<D>>> {
    m.map_values(|r: Vec<Option<D>>| r@)
}

/// `w` has `n` rows of `n` entries each.
pub open spec fn is_square<D>(w: Seq<Seq<Option<D>>>, n: int) -> bool {
    &&& w.len() == n
    &&& forall|i: int| 0 <= i < n ==> #[trigger] w[i].len() == n
}

/// No diagonal entry of `w` is present.
pub open spec fn diagonal_absent<D>(w: Seq<Seq<Option<D>>>) -> bool {
    forall|i: int| 0 <= i < w.len() ==> #[trigger] w[i][i] is None
}

pub open spec fn edge_of<D>(i: int, j: int, d: D) -> GraphEdge<D> {
    GraphEdge { from: GraphNode { index: i as usize }, to: GraphNode { index: j as usize }, distance: d }
}

/// The edges `i -> j` that row `i` of `w` gives for `j < k`, by increasing `j`.
pub open spec fn out_edges<D>(w: Seq<Seq<Option<D>>>, i: int, k: int) -> Seq<GraphEdge<D>>
    decreases k,
{
    if k <= 0 {
        seq![]
    } else {
        let before = out_edges(w, i, k - 1);
        match w[i][k - 1] {
            Some(d) => before.push(edge_of(i, k - 1, d)),
            None => before,
        }
    }
}

/// The edges `i -> j` that column `j` of `w` gives for `i < k`, by increasing `i`.
pub open spec fn in_edges<D>(w: Seq<Seq<Option<D>>>, j: int, k: int) -> Seq<GraphEdge<D>>
    decreases k,
{
    if k <= 0 {
        seq![]
    } else {
        let before = in_edges(w, j, k - 1);
        match w[k - 1][j] {
            Some(d) => before.push(edge_of(k - 1, j, d)),
            None => before,
        }
    }
}

/// `e` is an edge of the graph with weights `w`.
pub open spec fn is_edge_of<D>(w: Seq<Seq<Option<D>>>, e: GraphEdge<D>) -> bool {
    &&& e.from.index < w.len()
    &&& e.to.index < w.len()
    &&& w[e.from.index as int][e.to.index as int] == Some(e.distance)
}

/// `p` is a walk along edges of `w` from node `a` to node `b`.
pub open spec fn is_path<D>(w: Seq<Seq<Option<D>>>, a: int, b: int, p: Seq<GraphEdge<D>>) -> bool
    decreases p.len(),
{
    if p.len() == 0 {
        a == b
    } else {
        &&& p[0].from.index == a
        &&& is_edge_of(w, p[0])
        &&& is_path(w, p[0].to.index as int, b, p.drop_first())
    }
}

/// The summed distance of the edges of `p`.
pub open spec fn path_weight<D: GraphDistance>(p: Seq<GraphEdge<D>>) -> int
    decreases p.len(),
{
    if p.len() == 0 {
        0
    } else {
        p[0].distance.measure() + path_weight(p.drop_first())
    }
}

/// Each member of `out_edges(w, i, k)` is an edge `i -> j` of `w` with `j < k`,
/// and each such edge is a member.
pub proof fn lemma_out_edges<D>(w: Seq<Seq<Option<D>>>, i: int, k: int)
    requires
        0 <= i < w.len(),
        0 <= k <= w[i].len(),
        w.len() <= usize::MAX + 1,
        w[i].len() <= usize::MAX + 1,
    ensures
        forall|m: int|
            #![trigger out_edges(w, i, k)[m]]
            0 <= m < out_edges(w, i, k).len() ==> {
                &&& out_edges(w, i, k)[m].from.index == i
                &&& out_edges(w, i, k)[m].to.index < k
                &&& w[i][out_edges(w, i, k)[m].to.index as int] == Some(
                    out_edges(w, i, k)[m].distance,
                )
            },
        forall|j: int|
            0 <= j < k && #[trigger] w[i][j] is Some ==> out_edges(w, i, k).contains(
                edge_of(i, j, w[i][j].unwrap()),
            ),
    decreases k,
{
    if k > 0 {
        lemma_out_edges(w, i, k - 1);
        let before = out_edges(w, i, k - 1);
        match w[i][k - 1] {
            Some(d) => {
                let now = before.push(edge_of(i, k - 1, d));
                assert(now[now.len() - 1] == edge_of(i, k - 1, d));
                assert forall|m: int| #![trigger now[m]] 0 <= m < now.len() implies {
                    &&& now[m].from.index == i
                    &&& now[m].to.index < k
                    &&& w[i][now[m].to.index as int] == Some(now[m].distance)
                } by {
                    if m < before.len() {
                        assert(now[m] == before[m]);
                    }
                }
                assert forall|j: int| 0 <= j < k && #[trigger] w[i][j] is Some implies now.contains(
                    edge_of(i, j, w[i][j].unwrap()),
                ) by {
                    if j < k - 1 {
                        let m = choose|m: int|
                            0 <= m < before.len() && before[m] == edge_of(i, j, w[i][j].unwrap());
                        assert(now[m] == before[m]);
                    } else {
                        assert(now[now.len() - 1] == edge_of(i, j, w[i][j].unwrap()));
                    }
                }
            },
            None => {},
        }
    }
}

impl<T, D: GraphDistance> Graph<T, D> {
    /// The adjacency matrix the graph was built from: entry `[i][j]` is the
    /// weight of the edge `i -> j`, if there is one.
    pub closed spec fn weights(&self) -> Seq<Seq<Option<D>>> {
        self.weights@
    }

    /// The node payloads, by node index.
    pub closed spec fn values(&self) -> Seq<T> {
        self.values@
    }

    pub closed spec fn stored_ok(&self) -> bool {
        let n = self.weights@.len() as int;
        &&& self.values@.len() == n
        &&& self.adjacent@.len() == n
        &&& self.reverse@.len() == n
        &&& forall|i: int| 0 <= i < n ==> #[trigger] self.adjacent@[i]@ == out_edges(self.weights@, i, n)
        &&& forall|j: int| 0 <= j < n ==> #[trigger] self.reverse@[j]@ == in_edges(self.weights@, j, n)
    }

    pub open spec fn wf(&self) -> bool {
        &&& self.stored_ok()
        &&& is_square(self.weights(), self.weights().len() as int)
        &&& diagonal_absent(self.weights())
    }

    pub open spec fn len(&self) -> int {
        self.weights().len() as int
    }

    /// Builds a graph from one payload per node and an `n x n` adjacency
    /// matrix: entry `[i][j] = Some(d)` makes exactly one edge `i -> j` of
    /// weight `d`.
    pub fn new(values: Vec<T>, adjacent_matrix: Vec<Vec<Option<D>>>) -> (r: Result<
        Graph<T, D>,
        GraphError,
    >)
        ensures
            r is Ok <==> is_square(rows_of(adjacent_matrix@), values@.len() as int) && diagonal_absent(
                rows_of(adjacent_matrix@),
            ),
            match r {
                Ok(g) => {
                    &&& g.wf()
                    &&& g.weights() == rows_of(adjacent_matrix@)
                    &&& g.values() == values@
                },
                Err(GraphError::ShapeError) => !is_square(
                    rows_of(adjacent_matrix@),
                    values@.len() as int,
                ),
                Err(GraphError::SelfLoopError) => is_square(
                    rows_of(adjacent_matrix@),
                    values@.len() as int,
                ) && !diagonal_absent(rows_of(adjacent_matrix@)),
            },
    {
        let ghost w = rows_of(adjacent_matrix@);
        let length = values.len();
        if adjacent_matrix.len() != length {
            return Err(GraphError::ShapeError);
        }
        let mut i: usize = 0;
        while i < length
            invariant
                adjacent_matrix@.len() == length,
                values@.len() == length,
                w == rows_of(adjacent_matrix@),
                i <= length,
                forall|k: int| 0 <= k < i ==> #[trigger] w[k].len() == length,
            decreases length - i,
        {
            if adjacent_matrix[i].len() != length {
                assert(w[i as int].len() != length);
                return Err(GraphError::ShapeError);
            }
            i = i + 1;
        }
        assert(is_square(w, length as int));
        i = 0;
        while i < length
            invariant
                adjacent_matrix@.len() == length,
                values@.len() == length,
                w == rows_of(adjacent_matrix@),
                is_square(w, length as int),
                i <= length,
                forall|k: int| 0 <= k < i ==> #[trigger] w[k][k] is None,
            decreases length - i,
        {
            if adjacent_matrix[i][i].is_some() {
                assert(w[i as int][i as int] is Some);
                assert(!diagonal_absent(w));
                return Err(GraphError::SelfLoopError);
            }
            i = i + 1;
        }
        let mut adjacent: Vec<Vec<GraphEdge<D>>> = Vec::new();
        let mut reverse: Vec<Vec<GraphEdge<D>>> = Vec::new();
        i = 0;
        while i < length
            invariant
                i <= length,
                reverse@.len() == i,
                forall|k: int| 0 <= k < i ==> (#[trigger] reverse@[k])@.len() == 0,
            decreases length - i,
        {
            reverse.push(Vec::new());
            i = i + 1;
        }
        i = 0;
        while i < length
            invariant
                adjacent_matrix@.len() == length,
                values@.len() == length,
                w == rows_of(adjacent_matrix@),
                is_square(w, length as int),
                i <= length,
                adjacent@.len() == i,
                reverse@.len() == length,
                forall|k: int| 0 <= k < i ==> (#[trigger] adjacent@[k])@ == out_edges(w, k, length as int),
                forall|k: int| 0 <= k < length ==> (#[trigger] reverse@[k])@ == in_edges(w, k, i as int),
            decreases length - i,
        {
            let mut row: Vec<GraphEdge<D>> = Vec::new();
            let mut j: usize = 0;
            while j < length
                invariant
                    adjacent_matrix@.len() == length,
                    w == rows_of(adjacent_matrix@),
                    is_square(w, length as int),
                    i < length,
                    j <= length,
                    adjacent@.len() == i,
                    reverse@.len() == length,
                    forall|k: int| 0 <= k < i ==> (#[trigger] adjacent@[k])@ == out_edges(w, k, length as int),
                    row@ == out_edges(w, i as int, j as int),
                    forall|k: int|
                        0 <= k < j ==> (#[trigger] reverse@[k])@ == in_edges(w, k, i + 1),
                    forall|k: int|
                        j <= k < length ==> (#[trigger] reverse@[k])@ == in_edges(w, k, i as int),
                decreases length - j,
            {
                assert(w[i as int] == adjacent_matrix@[i as int]@);
                if let Some(distance) = adjacent_matrix[i][j] {
                    let edge = GraphEdge {
                        from: GraphNode { index: i },
                        to: GraphNode { index: j },
                        distance,
                    };
                    row.push(edge);
                    reverse[j].push(edge);
                }
                j = j + 1;
            }
            adjacent.push(row);
            i = i + 1;
        }
        let g = Graph { values, adjacent, reverse, weights: Ghost(w) };
        assert(g.stored_ok());
        Ok(g)
    }

    /// Number of nodes.
    pub fn length(&self) -> (r: usize)
        requires
            self.wf(),
        ensures
            r == self.len(),
    {
        self.values.len()
    }

    /// The node in slot `index`.
    pub fn node(&self, index: usize) -> (r: GraphNode)
        requires
            self.wf(),
            index < self.len(),
        ensures
            r.index == index,
    {
        GraphNode { index }
    }

    /// The first node, by index, whose payload satisfies `predicate`.
    pub fn find_node<F: Fn(&T) -> bool>(&self, predicate: F) -> (r: Option<GraphNode>)
        requires
            self.wf(),
            forall|i: int| 0 <= i < self.len() ==> predicate.requires((&self.values()[i],)),
        ensures
            match r {
                Some(node) => {
                    &&& node.index < self.len()
                    &&& predicate.ensures((&self.values()[node.index as int],), true)
                    &&& forall|i: int|
                        0 <= i < node.index ==> predicate.ensures((&self.values()[i],), false)
                },
                None => forall|i: int|
                    0 <= i < self.len() ==> predicate.ensures((&self.values()[i],), false),
            },
    {
        let mut index: usize = 0;
        while index < self.values.len()
            invariant
                self.wf(),
                index <= self.len(),
                forall|i: int| 0 <= i < self.len() ==> predicate.requires((&self.values()[i],)),
                forall|i: int| 0 <= i < index ==> predicate.ensures((&self.values()[i],), false),
            decreases self.len() - index,
        {
            assert(self.values()[index as int] == self.values@[index as int]);
            assert(predicate.requires((&self.values()[index as int],)));
            if predicate(&self.values[index]) {
                return Some(GraphNode { index });
            }
            index = index + 1;
        }
        None
    }

    /// The payload of `node`.
    pub fn value(&self, node: GraphNode) -> (r: &T)
        requires
            self.wf(),
            node.index < self.len(),
        ensures
            *r == self.values()[node.index as int],
    {
        &self.values[node.index]
    }
}

/// A copy of `edges`, element by element.
fn copy_edges<D: Copy>(edges: &Vec<GraphEdge<D>>) -> (r: Vec<GraphEdge<D>>)
    ensures
        r@ == edges@,
{
    let mut r: Vec<GraphEdge<D>> = Vec::new();
    let mut k: usize = 0;
    while k < edges.len()
        invariant
            k <= edges@.len(),
            r@ == edges@.subrange(0, k as int),
        decreases edges@.len() - k,
    {
        r.push(edges[k]);
        k = k + 1;
    }
    assert(r@ =~= edges@);
    r
}

impl GraphNode {
    /// The edges leaving this node, by increasing index of their target.
    pub fn adjacent<T, D: GraphDistance>(&self, graph: &Graph<T, D>) -> (r: GraphNodeAdjacent<D>)
        requires
            graph.wf(),
            self.index < graph.len(),
        ensures
            r.nodes@ == out_edges(graph.weights(), self.index as int, graph.len()),
    {
        GraphNodeAdjacent { nodes: copy_edges(&graph.adjacent[self.index]) }
    }

    /// The edges entering this node, by increasing index of their source.
    pub fn reverse_adjacent<T, D: GraphDistance>(&self, graph: &Graph<T, D>) -> (r: GraphNodeAdjacent<D>)
        requires
            graph.wf(),
            self.index < graph.len(),
        ensures
            r.nodes@ == in_edges(graph.weights(), self.index as int, graph.len()),
    {
        GraphNodeAdjacent { nodes: copy_edges(&graph.reverse[self.index]) }
    }
}


} // verus!
