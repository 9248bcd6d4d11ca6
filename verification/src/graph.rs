use vstd::prelude::*;

verus! {

/// A directed edge of the graph: a target vertex, referenced by its position
/// in the graph's vertex sequence, and an integer transition weight.
///
/// The probability carried by the edge is `weight / total`, where `total` is
/// the owning vertex's total weight. Keeping the exact integer pair instead of
/// a rounded quotient makes the normalization invariant (the probabilities of
/// a vertex's edges sum to one) exact: the edge weights sum to the total.
#[derive(Clone, Copy)]
pub struct Edge {
    pub vertex_index: usize,
    pub weight: u64,
}

/// A vertex of the graph: one distinct symbol, its outgoing edges sorted
/// ascending by weight (equivalently, by probability), and the total weight
/// over which the edge weights are normalized.
#[derive(Clone)]
pub struct Vertex {
    pub value: char,
    pub edges: Vec<Edge>,
    pub total: u64,
}

/// Sum of the weights of a sequence of edges.
pub open spec fn sum_weights(edges: Seq<Edge>) -> int
    decreases edges.len(),
{
    if edges.len() == 0 {
        0
    } else {
        sum_weights(edges.drop_last()) + edges.last().weight
    }
}

/// Every edge of the sequence targets a vertex index below `n`.
pub open spec fn edges_in_bounds(edges: Seq<Edge>, n: int) -> bool {
    forall|k: int| 0 <= k < edges.len() ==> (#[trigger] edges[k]).vertex_index < n
}

/// The edges are ordered ascending by weight.
pub open spec fn edges_sorted(edges: Seq<Edge>) -> bool {
    forall|j: int, k: int|
        0 <= j <= k < edges.len() ==> (#[trigger] edges[j]).weight <= (#[trigger] edges[k]).weight
}

/// Every edge of the sequence carries a positive weight: an edge exists only
/// because its transition was observed at least once.
pub open spec fn edges_positive(edges: Seq<Edge>) -> bool {
    forall|k: int| 0 <= k < edges.len() ==> (#[trigger] edges[k]).weight >= 1
}

/// Well-formedness of one vertex inside a graph of `n` vertices.
pub open spec fn vertex_wf(v: Vertex, n: int) -> bool {
    &&& edges_in_bounds(v.edges@, n)
    &&& edges_sorted(v.edges@)
    &&& edges_positive(v.edges@)
    &&& v.total == sum_weights(v.edges@)
}

/// No two vertices of the sequence share a symbol.
pub open spec fn unique_symbols(vs: Seq<Vertex>) -> bool {
    forall|i: int, j: int|
        0 <= i < j < vs.len() ==> (#[trigger] vs[i]).value != (#[trigger] vs[j]).value
}

/// Well-formedness of a whole vertex sequence: every vertex is well formed
/// with respect to the sequence's length, and symbols are unique.
pub open spec fn graph_wf(vs: Seq<Vertex>) -> bool {
    &&& forall|i: int| 0 <= i < vs.len() ==> vertex_wf(#[trigger] vs[i], vs.len() as int)
    &&& unique_symbols(vs)
}

/// Some vertex of the sequence carries the symbol `c`.
pub open spec fn contains_symbol(vs: Seq<Vertex>, c: char) -> bool {
    exists|i: int| 0 <= i < vs.len() && (#[trigger] vs[i]).value == c
}

/// `i` is the first position of the sequence whose vertex carries `c`.
pub open spec fn is_first_index_of(vs: Seq<Vertex>, c: char, i: int) -> bool {
    &&& 0 <= i < vs.len()
    &&& vs[i].value == c
    &&& forall|j: int| 0 <= j < i ==> (#[trigger] vs[j]).value != c
}

/// An immutable weighted directed graph over symbols: an ordered sequence of
/// vertices whose edges reference other vertices by position. There is no
/// mutation interface: a graph is produced whole, by the constructor's build
/// step or by `from_vertices`, and only read afterwards.
pub struct Graph {
    vertices: Vec<Vertex>,
}

impl View for Graph {
    type V = Seq<Vertex>;

    closed spec fn view(&self) -> Seq<Vertex> {
        self.vertices@
    }
}

/// A positive weight sum for a non-empty edge list follows from the vertex
/// well-formedness conditions.
pub proof fn lemma_nonempty_positive_total(edges: Seq<Edge>)
    requires
        edges_positive(edges),
        edges.len() > 0,
    ensures
        sum_weights(edges) >= 1,
    decreases edges.len(),
{
    if edges.len() > 1 {
        lemma_nonempty_positive_total(edges.drop_last());
    } else {
        assert(sum_weights(edges.drop_last()) == 0);
    }
}

/// The weight sum of a prefix never exceeds the weight sum of the whole.
pub proof fn lemma_sum_take_le(edges: Seq<Edge>, j: int)
    requires
        0 <= j <= edges.len(),
    ensures
        sum_weights(edges.take(j)) <= sum_weights(edges),
    decreases edges.len() - j,
{
    if j < edges.len() {
        lemma_sum_take_le(edges, j + 1);
        assert(edges.take(j + 1).drop_last() =~= edges.take(j));
        assert(edges.take(j + 1).last() == edges[j]);
    } else {
        assert(edges.take(j) =~= edges);
    }
}

/// Extending a prefix by one element adds that element's weight to the sum.
pub proof fn lemma_sum_take_step(edges: Seq<Edge>, j: int)
    requires
        0 <= j < edges.len(),
    ensures
        sum_weights(edges.take(j + 1)) == sum_weights(edges.take(j)) + edges[j].weight,
{
    assert(edges.take(j + 1).drop_last() =~= edges.take(j));
    assert(edges.take(j + 1).last() == edges[j]);
}

/// Law: in a well-formed graph every vertex's edge weights sum exactly to
/// its total, so the edge probabilities (weight over total) of any vertex
/// with a non-empty edge list sum exactly to one — the normalization is
/// exact, not merely within a tolerance.
pub proof fn lemma_probabilities_normalized(g: Seq<Vertex>, i: int)
    requires
        graph_wf(g),
        0 <= i < g.len(),
    ensures
        sum_weights(g[i].edges@) == g[i].total,
        g[i].edges@.len() > 0 ==> g[i].total >= 1,
{
    assert(vertex_wf(g[i], g.len() as int));
    if g[i].edges@.len() > 0 {
        lemma_nonempty_positive_total(g[i].edges@);
    }
}

impl Graph {
    /// All structural invariants of a graph: every edge target is a valid
    /// vertex position, each vertex's edges are sorted ascending by weight,
    /// all weights are positive, each vertex's total equals the sum of its
    /// edge weights, and vertex symbols are unique.
    pub open spec fn wf(&self) -> bool {
        graph_wf(self@)
    }

    /// The number of vertices.
    pub fn vertex_count(&self) -> (n: usize)
        ensures
            n == self@.len(),
    {
        self.vertices.len()
    }

    /// Position of the first vertex carrying `value`, if any.
    pub fn find_position(&self, value: char) -> (r: Option<usize>)
        ensures
            match r {
                Some(i) => is_first_index_of(self@, value, i as int),
                None => !contains_symbol(self@, value),
            },
    {
        let n = self.vertices.len();
        for i in 0..n
            invariant
                n == self@.len(),
                forall|j: int| 0 <= j < i ==> (#[trigger] self@[j]).value != value,
        {
            if self.vertices[i].value == value {
                return Some(i);
            }
        }
        None
    }

    /// The symbol carried by the vertex at position `i`.
    pub fn value_at(&self, i: usize) -> (c: char)
        requires
            i < self@.len(),
        ensures
            c == self@[i as int].value,
    {
        self.vertices[i].value
    }

    /// The total weight of the vertex at position `i`.
    pub fn total_at(&self, i: usize) -> (t: u64)
        requires
            i < self@.len(),
        ensures
            t == self@[i as int].total,
    {
        self.vertices[i].total
    }

    /// The number of outgoing edges of the vertex at position `i`.
    pub fn edge_count_at(&self, i: usize) -> (n: usize)
        requires
            i < self@.len(),
        ensures
            n == self@[i as int].edges@.len(),
    {
        self.vertices[i].edges.len()
    }

    /// The `j`-th outgoing edge of the vertex at position `i`.
    pub fn edge_at(&self, i: usize, j: usize) -> (e: Edge)
        requires
            i < self@.len(),
            j < self@[i as int].edges@.len(),
        ensures
            e == self@[i as int].edges@[j as int],
    {
        self.vertices[i].edges[j].clone()
    }

    /// Reference to the vertex at position `i`.
    pub(crate) fn vertex_ref(&self, i: usize) -> (v: &Vertex)
        requires
            i < self@.len(),
        ensures
            *v == self@[i as int],
    {
        &self.vertices[i]
    }

    /// Wraps a vertex sequence whose invariants have been established by
    /// proof; the builder uses this once the sequence is complete.
    pub(crate) fn from_checked_vertices(vertices: Vec<Vertex>) -> (g: Graph)
        requires
            graph_wf(vertices@),
        ensures
            g@ == vertices@,
            g.wf(),
    {
        Graph { vertices }
    }

    /// Builds a graph directly from a vertex sequence, accepting it only if
    /// every structural invariant holds. This is the entry point for vertex
    /// data that arrives from outside the builder, such as a persisted graph
    /// decoded by a caller: a malformed sequence is rejected rather than
    /// trusted.
    pub fn from_vertices(vertices: Vec<Vertex>) -> (r: Option<Graph>)
        ensures
            match r {
                Some(g) => g@ == vertices@ && g.wf(),
                None => !graph_wf(vertices@),
            },
    {
        let n = vertices.len();
        for i in 0..n
            invariant
                n == vertices@.len(),
                forall|k: int|
                    0 <= k < i ==> vertex_wf(#[trigger] vertices@[k], vertices@.len() as int),
                forall|p: int, q: int|
                    0 <= p < q < i ==> (#[trigger] vertices@[p]).value != (
                    #[trigger] vertices@[q]).value,
        {
            if !Self::check_vertex(&vertices, i) {
                return None;
            }
            let vi = vertices[i].value;
            for p in 0..i
                invariant
                    i < n,
                    n == vertices@.len(),
                    vi == vertices@[i as int].value,
                    forall|p0: int| 0 <= p0 < p ==> (#[trigger] vertices@[p0]).value != vi,
            {
                if vertices[p].value == vi {
                    return None;
                }
            }
        }
        Some(Graph { vertices })
    }

    /// Checks the per-vertex invariants of `vertices[i]`: edge targets in
    /// bounds, weights positive, edges sorted ascending, and the stored total
    /// equal to the exact sum of the edge weights.
    fn check_vertex(vertices: &Vec<Vertex>, i: usize) -> (ok: bool)
        requires
            i < vertices@.len(),
        ensures
            ok == vertex_wf(vertices@[i as int], vertices@.len() as int),
    {
        let v = &vertices[i];
        let m = v.edges.len();
        let mut sum: u64 = 0;
        let mut k: usize = 0;
        while k < m
            invariant
                i < vertices@.len(),
                *v == vertices@[i as int],
                m == v.edges@.len(),
                0 <= k <= m,
                edges_in_bounds(v.edges@.take(k as int), vertices@.len() as int),
                edges_sorted(v.edges@.take(k as int)),
                edges_positive(v.edges@.take(k as int)),
                sum == sum_weights(v.edges@.take(k as int)),
            decreases m - k,
        {
            let e = &v.edges[k];
            if e.vertex_index >= vertices.len() {
                assert(!edges_in_bounds(v.edges@, vertices@.len() as int));
                return false;
            }
            if e.weight == 0 {
                assert(!edges_positive(v.edges@));
                return false;
            }
            if k > 0 && v.edges[k - 1].weight > e.weight {
                assert(v.edges@[k - 1].weight > v.edges@[k as int].weight);
                assert(!edges_sorted(v.edges@));
                return false;
            }
            proof {
                lemma_sum_take_step(v.edges@, k as int);
                lemma_sum_take_le(v.edges@, k as int + 1);
            }
            if sum > u64::MAX - e.weight {
                assert(sum_weights(v.edges@) > u64::MAX);
                return false;
            }
            sum = sum + e.weight;
            k = k + 1;
            assert(forall|a: int, b: int|
                0 <= a <= b < k ==> (#[trigger] v.edges@.take(k as int)[a]).weight <= (
                #[trigger] v.edges@.take(k as int)[b]).weight) by {
                assert(forall|a: int| 0 <= a < k ==> v.edges@.take(k as int)[a] == v.edges@[a]);
                assert(forall|a: int|
                    0 <= a < k - 1 ==> (#[trigger] v.edges@.take(k - 1)[a]) == v.edges@[a]);
            }
        }
        assert(v.edges@.take(m as int) =~= v.edges@);
        sum == v.total
    }
}

} // verus!
