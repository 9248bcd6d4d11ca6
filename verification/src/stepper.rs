use crate::graph::contains_symbol;
use crate::graph::edges_positive;
use crate::graph::graph_wf;
use crate::graph::is_first_index_of;
use crate::graph::lemma_sum_take_step;
use crate::graph::sum_weights;
use crate::graph::Edge;
use crate::graph::Graph;
use crate::graph::Vertex;
use crate::rng::random_below;
use std::sync::Arc;
use vstd::prelude::*;

verus! {

/// How a stepper walks the graph: an optional pinned start symbol (the walk
/// restarts there after every flush; without one it restarts at a uniformly
/// random vertex) and an optional minimum output length (while the output is
/// shorter, edges leading straight into a dead end are avoided and their
/// probability mass is redistributed evenly over the remaining edges).
#[derive(Clone)]
pub struct GraphStepperConfiguration {
    pub start_char: Option<char>,
    pub min_length: Option<usize>,
}

/// Which configured symbol was not found in the graph.
#[derive(Clone, Copy, Debug, PartialEq, Eq, Structural)]
pub enum InvalidConfigurationParameter {
    StartChar,
    EndChar,
}

/// A stepper failure: a configured symbol absent from the graph, or no edge
/// left to take from the current vertex.
#[derive(Clone, Copy, Debug, PartialEq, Eq, Structural)]
pub enum GraphStepperError {
    InvalidParameter(InvalidConfigurationParameter),
    EdgeExhaustion,
}

/// The outcome of a multi-step drive: the target symbol was reached, the
/// step budget ran out, or the walk ran out of usable edges. Each carries
/// the symbols produced since the last flush.
#[derive(Debug, PartialEq, Eq)]
pub enum GraphStepperOut {
    Reached(Vec<char>),
    Timeout(Vec<char>),
    Exhausted(Vec<char>),
}

/// The edges of `edges` whose target vertex in `g` has outgoing edges of its
/// own, in their original order: the candidate list used while a minimum
/// output length is still unmet.
pub open spec fn viable_edges(g: Seq<Vertex>, edges: Seq<Edge>) -> Seq<Edge>
    decreases edges.len(),
{
    if edges.len() == 0 {
        Seq::empty()
    } else {
        let pre = viable_edges(g, edges.drop_last());
        let e = edges.last();
        if g[e.vertex_index as int].edges@.len() > 0 {
            pre.push(e)
        } else {
            pre
        }
    }
}

/// Every viable edge is one of the original edges, targets a vertex with
/// outgoing edges, and the viable list is never longer than the original.
proof fn lemma_viable_props(g: Seq<Vertex>, edges: Seq<Edge>)
    ensures
        ({
            let vi = viable_edges(g, edges);
            &&& vi.len() <= edges.len()
            &&& forall|k: int|
                0 <= k < vi.len() ==> {
                    &&& g[(#[trigger] vi[k]).vertex_index as int].edges@.len() > 0
                    &&& exists|q: int| 0 <= q < edges.len() && edges[q] == vi[k]
                }
        }),
    decreases edges.len(),
{
    if edges.len() > 0 {
        lemma_viable_props(g, edges.drop_last());
        let pre = viable_edges(g, edges.drop_last());
        let vi = viable_edges(g, edges);
        assert forall|k: int| 0 <= k < vi.len() implies {
            &&& g[(#[trigger] vi[k]).vertex_index as int].edges@.len() > 0
            &&& exists|q: int| 0 <= q < edges.len() && edges[q] == vi[k]
        } by {
            if k < pre.len() {
                assert(vi[k] == pre[k]);
                let q = choose|q: int|
                    0 <= q < edges.drop_last().len() && edges.drop_last()[q] == pre[k];
                assert(edges[q] == vi[k]);
            } else {
                assert(vi[k] == edges.last());
                assert(edges[edges.len() - 1] == vi[k]);
            }
        }
    }
}

/// Sum of the weights of a drawn candidate list.
pub open spec fn sum_pairs(s: Seq<(usize, u128)>) -> int
    decreases s.len(),
{
    if s.len() == 0 {
        0
    } else {
        sum_pairs(s.drop_last()) + s.last().1
    }
}

/// Extending a prefix by one element adds that element's weight to the sum.
proof fn lemma_sum_pairs_take_step(s: Seq<(usize, u128)>, j: int)
    requires
        0 <= j < s.len(),
    ensures
        sum_pairs(s.take(j + 1)) == sum_pairs(s.take(j)) + s[j].1,
{
    assert(s.take(j + 1).drop_last() =~= s.take(j));
    assert(s.take(j + 1).last() == s[j]);
}

/// The weight sum of a prefix never exceeds the weight sum of the whole.
proof fn lemma_sum_pairs_take_le(s: Seq<(usize, u128)>, j: int)
    requires
        0 <= j <= s.len(),
    ensures
        sum_pairs(s.take(j)) <= sum_pairs(s),
    decreases s.len() - j,
{
    if j < s.len() {
        lemma_sum_pairs_take_le(s, j + 1);
        lemma_sum_pairs_take_step(s, j);
    } else {
        assert(s.take(j) =~= s);
    }
}

/// Picks the first candidate whose cumulative weight exceeds the drawn value
/// `r`: inverse-CDF selection over exact integer weights. Because the
/// weights sum to the bound that `r` was drawn below, a candidate is always
/// hit; no rounding fallback is needed.
pub fn select_edge(weights: &Vec<(usize, u128)>, r: u128) -> (k: usize)
    requires
        weights@.len() > 0,
        r < sum_pairs(weights@),
        sum_pairs(weights@) <= u128::MAX,
    ensures
        k < weights@.len(),
        r < sum_pairs(weights@.take(k as int + 1)),
        forall|q: int| 0 <= q < k ==> sum_pairs(#[trigger] weights@.take(q + 1)) <= r,
{
    let n = weights.len();
    let mut acc: u128 = 0;
    let mut k: usize = 0;
    while k < n
        invariant
            n == weights@.len(),
            0 <= k <= n,
            r < sum_pairs(weights@),
            sum_pairs(weights@) <= u128::MAX,
            acc == sum_pairs(weights@.take(k as int)),
            forall|q: int| 0 <= q < k ==> sum_pairs(#[trigger] weights@.take(q + 1)) <= r,
        decreases n - k,
    {
        proof {
            lemma_sum_pairs_take_step(weights@, k as int);
            lemma_sum_pairs_take_le(weights@, k as int + 1);
        }
        let w = weights[k].1;
        acc = acc + w;
        if r < acc {
            return k;
        }
        k = k + 1;
    }
    proof {
        assert(weights@.take(n as int) =~= weights@);
        assert(sum_pairs(weights@.take((n as int - 1) + 1)) <= r);
        assert(false);
    }
    0
}

/// A stateful cursor over a shared graph: a current position, the symbols
/// produced since the last flush, and the walk configuration. Many steppers
/// may share one graph; each owns its cursor state exclusively.
#[derive(Clone)]
pub struct GraphStepper {
    graph: Arc<Graph>,
    position: usize,
    built: Vec<char>,
    configuration: GraphStepperConfiguration,
}

/// Wraps a fresh stepper state.
fn mk_stepper(
    graph: Arc<Graph>,
    position: usize,
    configuration: GraphStepperConfiguration,
) -> (s: GraphStepper)
    ensures
        s.graph_view() == graph@,
        s.pos() == position,
        s.buffer().len() == 0,
        s.config() == configuration,
{
    GraphStepper { graph, position, built: Vec::new(), configuration }
}

impl GraphStepper {
    /// The vertex sequence of the shared graph.
    pub closed spec fn graph_view(&self) -> Seq<Vertex> {
        self.graph@
    }

    /// The current vertex position.
    pub closed spec fn pos(&self) -> int {
        self.position as int
    }

    /// The symbols produced since the last flush.
    pub closed spec fn buffer(&self) -> Seq<char> {
        self.built@
    }

    /// The configuration the stepper was built with.
    pub closed spec fn config(&self) -> GraphStepperConfiguration {
        self.configuration
    }

    /// The stepper invariant: the graph is well formed, the position is a
    /// valid vertex, and the configuration admits a restart (a configured
    /// start symbol is present; without one the graph is non-empty).
    pub open spec fn wf(&self) -> bool {
        &&& graph_wf(self.graph_view())
        &&& 0 <= self.pos() < self.graph_view().len()
        &&& match self.config().start_char {
            Some(c) => contains_symbol(self.graph_view(), c),
            None => self.graph_view().len() > 0,
        }
    }

    /// Whether the minimum-length rule applies to the next step.
    pub open spec fn min_active(&self) -> bool {
        match self.config().min_length {
            Some(m) => self.buffer().len() < m,
            None => false,
        }
    }

    /// The edges the next step chooses from: the current vertex's edges, or,
    /// while a configured minimum output length is unmet, only those among
    /// them whose target is not a dead end.
    pub open spec fn candidates(&self) -> Seq<Edge> {
        let edges = self.graph_view()[self.pos()].edges@;
        if self.min_active() {
            viable_edges(self.graph_view(), edges)
        } else {
            edges
        }
    }

    /// Builds a stepper over a shared graph. Succeeds exactly when a restart
    /// position exists: with a configured start symbol, when the graph
    /// contains it (the position is then its vertex, deterministically);
    /// without one, when the graph has at least one vertex (the position is
    /// then drawn uniformly at random).
    pub fn new(graph: Arc<Graph>, configuration: GraphStepperConfiguration) -> (r: Result<
        GraphStepper,
        GraphStepperError,
    >)
        requires
            graph_wf(graph@),
        ensures
            (r is Ok) <==> (match configuration.start_char {
                Some(c) => contains_symbol(graph@, c),
                None => graph@.len() > 0,
            }),
            match r {
                Ok(s) => {
                    &&& s.wf()
                    &&& s.graph_view() == graph@
                    &&& s.buffer().len() == 0
                    &&& s.config() == configuration
                    &&& match configuration.start_char {
                        Some(c) => is_first_index_of(graph@, c, s.pos()),
                        None => 0 <= s.pos() < graph@.len(),
                    }
                },
                Err(e) => e == GraphStepperError::InvalidParameter(
                    InvalidConfigurationParameter::StartChar,
                ),
            },
    {
        let position: usize;
        match configuration.start_char {
            Some(c) => {
                match graph.find_position(c) {
                    Some(i) => {
                        position = i;
                    },
                    None => {
                        return Err(
                            GraphStepperError::InvalidParameter(
                                InvalidConfigurationParameter::StartChar,
                            ),
                        );
                    },
                }
            },
            None => {
                let len = graph.vertex_count();
                if len == 0 {
                    return Err(
                        GraphStepperError::InvalidParameter(
                            InvalidConfigurationParameter::StartChar,
                        ),
                    );
                }
                position = random_index(len);
            },
        }
        Ok(mk_stepper(graph, position, configuration))
    }

    /// Moves the cursor back to the restart position: the configured start
    /// symbol's vertex, or a fresh uniformly random vertex.
    fn reset_position(&mut self)
        requires
            old(self).wf(),
        ensures
            final(self).wf(),
            final(self).graph_view() == old(self).graph_view(),
            final(self).buffer() == old(self).buffer(),
            final(self).config() == old(self).config(),
            match old(self).config().start_char {
                Some(c) => is_first_index_of(old(self).graph_view(), c, final(self).pos()),
                None => 0 <= final(self).pos() < old(self).graph_view().len(),
            },
    {
        let start = self.configuration.start_char;
        match start {
            Some(c) => {
                match self.graph.find_position(c) {
                    Some(i) => {
                        self.position = i;
                    },
                    None => {
                        proof {
                            assert(false);
                        }
                    },
                }
            },
            None => {
                let len = self.graph.vertex_count();
                self.position = random_index(len);
            },
        }
    }

    /// The current vertex position of the cursor.
    pub fn current_position(&self) -> (p: usize)
        ensures
            p == self.pos(),
    {
        self.position
    }

    /// Returns the symbols produced since the last flush (clearing the
    /// buffer) and moves the cursor back to the restart position, so one
    /// stepper can produce many independent sequences.
    pub fn flush(&mut self) -> (out: Vec<char>)
        requires
            old(self).wf(),
        ensures
            final(self).wf(),
            out@ == old(self).buffer(),
            final(self).buffer().len() == 0,
            final(self).graph_view() == old(self).graph_view(),
            final(self).config() == old(self).config(),
            match old(self).config().start_char {
                Some(c) => is_first_index_of(old(self).graph_view(), c, final(self).pos()),
                None => 0 <= final(self).pos() < old(self).graph_view().len(),
            },
    {
        let mut taken: Vec<char> = Vec::new();
        std::mem::swap(&mut taken, &mut self.built);
        self.reset_position();
        taken
    }
}

/// Sum of the weights of a collected candidate list.
pub open spec fn sum_cand(s: Seq<(usize, u64)>) -> int
    decreases s.len(),
{
    if s.len() == 0 {
        0
    } else {
        sum_cand(s.drop_last()) + s.last().1
    }
}

impl GraphStepper {
    /// Performs one weighted-random transition from the current vertex.
    ///
    /// The candidates are the current vertex's edges; while a configured
    /// minimum output length is unmet, edges into dead ends are excluded and
    /// their probability mass is redistributed evenly over the remaining
    /// candidates: with `k` candidates left out of total weight `t` and
    /// excluded mass `lost`, a remaining weight `w` becomes exactly
    /// `w * k + lost` out of `k * t`. A uniform draw below the total then
    /// selects a candidate by inverse CDF; with exact integer weights the
    /// cumulative sum reaches the total, so a candidate is always hit and no
    /// rounding fallback is needed. With no candidate left — a dead end, or
    /// every edge excluded by the minimum-length rule — the step fails with
    /// `EdgeExhaustion` and changes nothing.
    ///
    /// On success the position moves to the selected candidate's target and
    /// that vertex's symbol is appended to the output buffer.
    pub fn step(&mut self) -> (r: Result<(), GraphStepperError>)
        requires
            old(self).wf(),
        ensures
            final(self).wf(),
            final(self).graph_view() == old(self).graph_view(),
            final(self).config() == old(self).config(),
            (r is Ok) <==> old(self).candidates().len() > 0,
            match r {
                Ok(_) => {
                    &&& exists|k: int|
                        0 <= k < old(self).candidates().len() && {
                            let e = #[trigger] old(self).candidates()[k];
                            &&& final(self).pos() == e.vertex_index
                            &&& final(self).buffer() == old(self).buffer().push(
                                old(self).graph_view()[e.vertex_index as int].value,
                            )
                        }
                    &&& (old(self).min_active()
                        ==> old(self).graph_view()[final(self).pos()].edges@.len() > 0)
                    &&& final(self).buffer().len() == old(self).buffer().len() + 1
                    &&& old(self).buffer().is_prefix_of(final(self).buffer())
                },
                Err(e) => {
                    &&& e == GraphStepperError::EdgeExhaustion
                    &&& *final(self) == *old(self)
                },
            },
    {
        let pos = self.position;
        let m = self.graph.edge_count_at(pos);
        let total = self.graph.total_at(pos);
        let adjust = match self.configuration.min_length {
            Some(min) => self.built.len() < min,
            None => false,
        };
        let ghost gv = self.graph@;
        let ghost edges = gv[pos as int].edges@;
        let ghost cs: Seq<Edge> = if adjust {
            viable_edges(gv, edges)
        } else {
            edges
        };
        proof {
            assert(crate::graph::vertex_wf(gv[pos as int], gv.len() as int));
            assert(adjust == old(self).min_active());
            assert(cs == old(self).candidates());
        }

        // Collect the candidates and the excluded probability mass.
        let mut cand: Vec<(usize, u64)> = Vec::new();
        let mut cand_sum: u64 = 0;
        let mut lost: u64 = 0;
        let mut j: usize = 0;
        proof {
            assert(edges.take(0) =~= Seq::<Edge>::empty());
            assert(viable_edges(gv, edges.take(0)) =~= Seq::<Edge>::empty());
            assert(cand@ =~= Seq::<(usize, u64)>::empty());
        }
        while j < m
            invariant
                *self == *old(self),
                old(self).wf(),
                gv == self.graph@,
                pos == self.position,
                pos < gv.len(),
                edges == gv[pos as int].edges@,
                m == edges.len(),
                total == gv[pos as int].total,
                total == sum_weights(edges),
                edges_positive(edges),
                crate::graph::edges_in_bounds(edges, gv.len() as int),
                adjust ==> cs == viable_edges(gv, edges),
                (!adjust) ==> cs == edges && lost == 0,
                0 <= j <= m,
                ({
                    let pre = if adjust {
                        viable_edges(gv, edges.take(j as int))
                    } else {
                        edges.take(j as int)
                    };
                    &&& cand@.len() == pre.len()
                    &&& forall|q: int|
                        0 <= q < pre.len() ==> #[trigger] cand@[q] == (
                        pre[q].vertex_index,
                        pre[q].weight,
                        )
                }),
                cand_sum + lost == sum_weights(edges.take(j as int)),
                cand_sum == sum_cand(cand@),
                cand_sum >= cand@.len(),
                cand_sum + lost <= total,
            decreases m - j,
        {
            proof {
                lemma_sum_take_step(edges, j as int);
                crate::graph::lemma_sum_take_le(edges, j as int + 1);
            }
            let e = self.graph.edge_at(pos, j);
            assert(e == edges[j as int]);
            assert(e.vertex_index < gv.len());
            assert(e.weight >= 1);
            let t_edges = self.graph.edge_count_at(e.vertex_index);
            proof {
                assert(edges.take(j as int + 1).drop_last() =~= edges.take(j as int));
                assert(edges.take(j as int + 1).last() == edges[j as int]);
            }
            if adjust && t_edges == 0 {
                lost = lost + e.weight;
            } else {
                let ghost prev_cand = cand@;
                cand.push((e.vertex_index, e.weight));
                cand_sum = cand_sum + e.weight;
                proof {
                    assert(cand@.drop_last() =~= prev_cand);
                }
            }
            j = j + 1;
        }
        proof {
            assert(edges.take(m as int) =~= edges);
        }
        let k_cand = cand.len();
        if k_cand == 0 {
            assert(cs.len() == 0);
            return Err(GraphStepperError::EdgeExhaustion);
        }
        assert(cs.len() == k_cand);
        let mult: u64 = if adjust {
            k_cand as u64
        } else {
            1
        };
        proof {
            assert(mult >= 1);
            assert(mult <= total) by {
                assert(k_cand <= cand_sum <= total);
            }
        }

        // The adjusted integer weights: w * mult + lost over mult * total.
        let mut weights: Vec<(usize, u128)> = Vec::new();
        let mut q: usize = 0;
        proof {
            assert(cand@.take(0) =~= Seq::<(usize, u64)>::empty());
            assert(weights@ =~= Seq::<(usize, u128)>::empty());
        }
        while q < k_cand
            invariant
                0 <= q <= k_cand,
                k_cand == cand@.len(),
                mult >= 1,
                mult <= total,
                total <= u64::MAX,
                lost <= u64::MAX,
                weights@.len() == q,
                forall|p: int|
                    0 <= p < q ==> #[trigger] weights@[p] == (
                    cand@[p].0,
                    (cand@[p].1 * mult + lost) as u128,
                    ),
                sum_pairs(weights@) == mult * sum_cand(cand@.take(q as int)) + q * lost,
                forall|p: int| 0 <= p < cand@.len() ==> (#[trigger] cand@[p]).1 <= u64::MAX,
            decreases k_cand - q,
        {
            let cw = cand[q];
            proof {
                assert((cw.1 as int) * (mult as int) <= 0xFFFFFFFFFFFFFFFF
                    * 0xFFFFFFFFFFFFFFFF) by (nonlinear_arith)
                    requires
                        0 <= cw.1 <= 0xFFFFFFFFFFFFFFFFu64,
                        0 <= mult <= 0xFFFFFFFFFFFFFFFFu64,
                {
                }
                assert((cw.1 as int) * (mult as int) + (lost as int) <= u128::MAX);
            }
            let w128 = (cw.1 as u128) * (mult as u128) + (lost as u128);
            let ghost prev_w = weights@;
            weights.push((cw.0, w128));
            proof {
                assert(weights@.drop_last() =~= prev_w);
                assert(cand@.take(q as int + 1).drop_last() =~= cand@.take(q as int));
                assert(cand@.take(q as int + 1).last() == cand@[q as int]);
                assert(mult * sum_cand(cand@.take(q as int + 1)) == mult * sum_cand(
                    cand@.take(q as int),
                ) + mult * cand@[q as int].1) by (nonlinear_arith)
                    requires
                        sum_cand(cand@.take(q as int + 1)) == sum_cand(cand@.take(q as int))
                            + cand@[q as int].1,
                {
                }
                assert((q as int + 1) * lost == q as int * lost + lost) by (nonlinear_arith) {
                }
                assert(sum_pairs(weights@) == sum_pairs(prev_w) + w128);
            }
            q = q + 1;
        }
        proof {
            assert(cand@.take(k_cand as int) =~= cand@);
        }

        // Draw uniformly below the adjusted total; the weights sum exactly
        // to it, so selection always succeeds.
        proof {
            assert((mult as u128) * (total as u128) < u128::MAX) by (nonlinear_arith)
                requires
                    mult <= u64::MAX,
                    total <= u64::MAX,
            {
            }
            assert(total >= 1);
            assert((mult as u128) * (total as u128) >= 1) by (nonlinear_arith)
                requires
                    mult >= 1,
                    total >= 1,
            {
            }
            if adjust {
                assert(mult * cand_sum + k_cand * lost == mult * total) by (nonlinear_arith)
                    requires
                        mult == k_cand,
                        cand_sum + lost == total,
                {
                }
            } else {
                assert(lost == 0 && cand_sum == total);
            }
            assert(sum_pairs(weights@) == (mult as u128) * (total as u128));
        }
        let bound: u128 = (mult as u128) * (total as u128);
        let rdraw = random_below(bound);
        let sel = select_edge(&weights, rdraw);
        let target = cand[sel].0;
        proof {
            assert(cand@[sel as int] == (cs[sel as int].vertex_index, cs[sel as int].weight));
            if adjust {
                lemma_viable_props(gv, edges);
                let qq = choose|qq: int| 0 <= qq < edges.len() && edges[qq] == cs[sel as int];
                assert(edges[qq].vertex_index < gv.len());
            }
            assert(target < gv.len());
        }
        self.position = target;
        let val = self.graph.value_at(target);
        self.built.push(val);
        proof {
            let e = cs[sel as int];
            assert(final(self).pos() == e.vertex_index);
            assert(final(self).buffer() == old(self).buffer().push(
                old(self).graph_view()[e.vertex_index as int].value,
            ));
            assert(old(self).buffer() =~= final(self).buffer().subrange(
                0,
                old(self).buffer().len() as int,
            ));
        }
        Ok(())
    }
}

/// Vertex `v` of `g` can sustain `k` steps under the minimum-length rule:
/// for positive `k`, its viable candidates are non-empty and every one of
/// them leads to a vertex that can sustain `k - 1` more. This is the precise
/// sense in which "a non-terminal path exists": the walk does not look
/// ahead, so the guarantee must hold under every viable choice.
pub open spec fn sustains_min_steps(g: Seq<Vertex>, v: int, k: int) -> bool
    decreases k,
{
    k <= 0 || {
        let vi = viable_edges(g, g[v].edges@);
        &&& vi.len() > 0
        &&& forall|e: int|
            0 <= e < vi.len() ==> sustains_min_steps(
                g,
                (#[trigger] vi[e]).vertex_index as int,
                k - 1,
            )
    }
}

/// The sequence is non-empty and its last symbol is `c`.
pub open spec fn ends_with(s: Seq<char>, c: char) -> bool {
    s.len() > 0 && s[s.len() - 1] == c
}

/// A prefix of a prefix is a prefix.
proof fn lemma_prefix_trans(a: Seq<char>, b: Seq<char>, c: Seq<char>)
    requires
        a.is_prefix_of(b),
        b.is_prefix_of(c),
    ensures
        a.is_prefix_of(c),
{
    assert(a =~= c.subrange(0, a.len() as int));
}

/// Wraps a finished drive that reached its target.
fn out_reached(s: Vec<char>) -> (r: Result<GraphStepperOut, GraphStepperError>)
    ensures
        r == Result::<GraphStepperOut, GraphStepperError>::Ok(GraphStepperOut::Reached(s)),
{
    Ok(GraphStepperOut::Reached(s))
}

/// Wraps a finished drive that ran out of budget.
fn out_timeout(s: Vec<char>) -> (r: Result<GraphStepperOut, GraphStepperError>)
    ensures
        r == Result::<GraphStepperOut, GraphStepperError>::Ok(GraphStepperOut::Timeout(s)),
{
    Ok(GraphStepperOut::Timeout(s))
}

/// Wraps a finished drive that ran out of usable edges.
fn out_exhausted(s: Vec<char>) -> (r: Result<GraphStepperOut, GraphStepperError>)
    ensures
        r == Result::<GraphStepperOut, GraphStepperError>::Ok(GraphStepperOut::Exhausted(s)),
{
    Ok(GraphStepperOut::Exhausted(s))
}

impl GraphStepper {
    /// Steps until the output ends with `value`, the output length reaches
    /// `timeout`, or the walk runs out of usable edges, and flushes. Fails
    /// with `InvalidParameter(EndChar)`, changing nothing, exactly when
    /// `value` is not in the graph; otherwise one of `Reached` (the output
    /// ends with `value`), `Timeout` (the output grew to the budget) or
    /// `Exhausted` (a dead end before either) is returned after at most
    /// `timeout + 1` loop rounds.
    pub fn step_until(&mut self, value: char, timeout: usize) -> (r: Result<
        GraphStepperOut,
        GraphStepperError,
    >)
        requires
            old(self).wf(),
        ensures
            final(self).wf(),
            final(self).graph_view() == old(self).graph_view(),
            final(self).config() == old(self).config(),
            (r is Ok) <==> contains_symbol(old(self).graph_view(), value),
            match r {
                Ok(out) => {
                    &&& final(self).buffer().len() == 0
                    &&& (match old(self).config().start_char {
                        Some(c) => is_first_index_of(old(self).graph_view(), c, final(self).pos()),
                        None => 0 <= final(self).pos() < old(self).graph_view().len(),
                    })
                    &&& (ends_with(old(self).buffer(), value) ==> (out matches
                    GraphStepperOut::Reached(s) && s@ == old(self).buffer()))
                    &&& (!ends_with(old(self).buffer(), value) && old(self).buffer().len()
                        >= timeout ==> (out matches GraphStepperOut::Timeout(s) && s@ == old(
                        self,
                    ).buffer()))
                    &&& (old(self).candidates().len() > 0 && !ends_with(old(self).buffer(), value)
                        && old(self).buffer().len() < timeout ==> (match out {
                        GraphStepperOut::Reached(s) => s@.len() > old(self).buffer().len(),
                        GraphStepperOut::Timeout(s) => s@.len() > old(self).buffer().len(),
                        GraphStepperOut::Exhausted(s) => s@.len() > old(self).buffer().len(),
                    }))
                    &&& match out {
                        GraphStepperOut::Reached(s) => {
                            &&& old(self).buffer().is_prefix_of(s@)
                            &&& ends_with(s@, value)
                            &&& (s@ == old(self).buffer() || (old(self).buffer().len() < s@.len()
                                <= timeout))
                            &&& forall|l: int|
                                old(self).buffer().len() <= l < s@.len() ==> !(l > 0 && (
                                #[trigger] s@[l - 1]) == value)
                        },
                        GraphStepperOut::Timeout(s) => {
                            &&& old(self).buffer().is_prefix_of(s@)
                            &&& s@.len() == if old(self).buffer().len() >= timeout {
                                old(self).buffer().len() as int
                            } else {
                                timeout as int
                            }
                            &&& !ends_with(s@, value)
                            &&& forall|l: int|
                                old(self).buffer().len() <= l < s@.len() ==> !(l > 0 && (
                                #[trigger] s@[l - 1]) == value)
                        },
                        GraphStepperOut::Exhausted(s) => {
                            &&& old(self).buffer().is_prefix_of(s@)
                            &&& s@.len() < timeout
                            &&& !ends_with(s@, value)
                            &&& (s@.len() == old(self).buffer().len() ==> old(
                                self,
                            ).candidates().len() == 0)
                            &&& forall|l: int|
                                old(self).buffer().len() <= l < s@.len() ==> !(l > 0 && (
                                #[trigger] s@[l - 1]) == value)
                        },
                    }
                },
                Err(e) => {
                    &&& e == GraphStepperError::InvalidParameter(
                        InvalidConfigurationParameter::EndChar,
                    )
                    &&& *final(self) == *old(self)
                },
            },
    {
        if self.graph.find_position(value).is_none() {
            return Err(GraphStepperError::InvalidParameter(InvalidConfigurationParameter::EndChar));
        }
        let ghost b0 = self.built@;
        loop
            invariant
                self.wf(),
                self.graph_view() == old(self).graph_view(),
                self.config() == old(self).config(),
                contains_symbol(old(self).graph_view(), value),
                b0 == old(self).buffer(),
                b0.is_prefix_of(self.built@),
                self.built@.len() == b0.len() || self.built@.len() <= timeout,
                self.built@.len() == b0.len() ==> *self == *old(self),
                self.built@.len() > b0.len() ==> !ends_with(b0, value),
                self.built@.len() > b0.len() ==> b0.len() < timeout,
                forall|l: int|
                    b0.len() <= l < self.built@.len() ==> !(l > 0 && (#[trigger] self.built@[l
                        - 1]) == value),
            decreases timeout - self.built@.len(),
        {
            let blen = self.built.len();
            if blen > 0 && self.built[blen - 1] == value {
                proof {
                    if self.built@.len() == b0.len() {
                        assert(b0 =~= self.built@);
                    }
                }
                let out = self.flush();
                return out_reached(out);
            }
            if blen >= timeout {
                proof {
                    if self.built@.len() == b0.len() {
                        assert(b0 =~= self.built@);
                    }
                }
                let out = self.flush();
                return out_timeout(out);
            }
            let ghost prior = self.built@;
            match self.step() {
                Err(_) => {
                    proof {
                        if self.built@.len() == b0.len() {
                            assert(b0 =~= self.built@);
                        }
                    }
                    let out = self.flush();
                    return out_exhausted(out);
                },
                Ok(_) => {
                    proof {
                        lemma_prefix_trans(b0, prior, self.built@);
                        assert(forall|l: int|
                            0 <= l - 1 < prior.len() ==> (#[trigger] self.built@[l - 1])
                                == prior[l - 1]);
                    }
                },
            }
        }
    }

    /// Steps until a dead end is reached — the intended success here, the
    /// natural end of a generated sequence — or the output length reaches
    /// `timeout`, and flushes. Always returns `Reached` (a dead end came
    /// first) or `Timeout` (the output grew to the budget).
    pub fn step_until_end_state(&mut self, timeout: usize) -> (r: Result<
        GraphStepperOut,
        GraphStepperError,
    >)
        requires
            old(self).wf(),
        ensures
            final(self).wf(),
            final(self).graph_view() == old(self).graph_view(),
            final(self).config() == old(self).config(),
            r is Ok,
            final(self).buffer().len() == 0,
            match r {
                Ok(out) => {
                    &&& (match old(self).config().start_char {
                        Some(c) => is_first_index_of(old(self).graph_view(), c, final(self).pos()),
                        None => 0 <= final(self).pos() < old(self).graph_view().len(),
                    })
                    &&& (old(self).buffer().len() >= timeout ==> (out matches
                    GraphStepperOut::Timeout(s) && s@ == old(self).buffer()))
                    &&& (old(self).candidates().len() > 0 && old(self).buffer().len() < timeout
                        ==> (match out {
                        GraphStepperOut::Reached(s) => s@.len() > old(self).buffer().len(),
                        GraphStepperOut::Timeout(s) => s@.len() > old(self).buffer().len(),
                        GraphStepperOut::Exhausted(s) => s@.len() > old(self).buffer().len(),
                    }))
                    &&& ((match old(self).config().min_length {
                        Some(min) => sustains_min_steps(
                            old(self).graph_view(),
                            old(self).pos(),
                            min - old(self).buffer().len(),
                        ),
                        None => true,
                    }) ==> (match out {
                        GraphStepperOut::Reached(s) => (match old(self).config().min_length {
                            Some(min) => s@.len() >= min,
                            None => true,
                        }),
                        _ => true,
                    }))
                    &&& match out {
                        GraphStepperOut::Reached(s) => {
                            &&& old(self).buffer().is_prefix_of(s@)
                            &&& s@.len() < timeout
                            &&& (s@.len() == old(self).buffer().len() ==> old(
                                self,
                            ).candidates().len() == 0)
                        },
                        GraphStepperOut::Timeout(s) => {
                            &&& old(self).buffer().is_prefix_of(s@)
                            &&& s@.len() == if old(self).buffer().len() >= timeout {
                                old(self).buffer().len() as int
                            } else {
                                timeout as int
                            }
                        },
                        GraphStepperOut::Exhausted(_) => false,
                    }
                },
                Err(_) => false,
            },
    {
        let ghost b0 = self.built@;
        loop
            invariant
                self.wf(),
                self.graph_view() == old(self).graph_view(),
                self.config() == old(self).config(),
                b0 == old(self).buffer(),
                b0.is_prefix_of(self.built@),
                self.built@.len() == b0.len() || self.built@.len() <= timeout,
                self.built@.len() == b0.len() ==> *self == *old(self),
                self.built@.len() > b0.len() ==> b0.len() < timeout,
                (match old(self).config().min_length {
                    Some(min) => sustains_min_steps(
                        old(self).graph_view(),
                        old(self).pos(),
                        min - b0.len(),
                    ),
                    None => true,
                }) ==> (match self.config().min_length {
                    Some(min) => sustains_min_steps(
                        self.graph_view(),
                        self.pos(),
                        min - self.built@.len(),
                    ),
                    None => true,
                }),
            decreases timeout - self.built@.len(),
        {
            let blen = self.built.len();
            if blen >= timeout {
                proof {
                    if self.built@.len() == b0.len() {
                        assert(b0 =~= self.built@);
                    }
                }
                let out = self.flush();
                return out_timeout(out);
            }
            let ghost prior = self.built@;
            let ghost pre = *self;
            match self.step() {
                Err(_) => {
                    proof {
                        if self.built@.len() == b0.len() {
                            assert(b0 =~= self.built@);
                        }
                        // Under the sustainment hypothesis a dead end cannot
                        // be hit before the minimum length is met.
                        match self.config().min_length {
                            Some(min) => {
                                if (match old(self).config().min_length {
                                    Some(m0) => sustains_min_steps(
                                        old(self).graph_view(),
                                        old(self).pos(),
                                        m0 - b0.len(),
                                    ),
                                    None => true,
                                }) && self.built@.len() < min {
                                    assert(self.min_active());
                                    assert(sustains_min_steps(
                                        self.graph_view(),
                                        self.pos(),
                                        min - self.built@.len(),
                                    ));
                                    assert(self.candidates().len() > 0);
                                    assert(false);
                                }
                            },
                            None => {},
                        }
                    }
                    let out = self.flush();
                    return out_reached(out);
                },
                Ok(_) => {
                    proof {
                        lemma_prefix_trans(b0, prior, self.built@);
                        // The sustainment invariant steps down by one: the
                        // new position is one of the viable candidates.
                        match self.config().min_length {
                            Some(min) => {
                                if pre.buffer().len() < min {
                                    assert(pre.min_active());
                                    let k = choose|k: int|
                                        0 <= k < pre.candidates().len() && self.pos() == (
                                        #[trigger] pre.candidates()[k]).vertex_index;
                                    if (match old(self).config().min_length {
                                        Some(m0) => sustains_min_steps(
                                            old(self).graph_view(),
                                            old(self).pos(),
                                            m0 - b0.len(),
                                        ),
                                        None => true,
                                    }) {
                                        assert(sustains_min_steps(
                                            pre.graph_view(),
                                            pre.pos(),
                                            min - pre.buffer().len(),
                                        ));
                                        assert(sustains_min_steps(
                                            self.graph_view(),
                                            self.pos(),
                                            min - pre.buffer().len() - 1,
                                        ));
                                    }
                                }
                            },
                            None => {},
                        }
                    }
                },
            }
        }
    }
}

/// A uniformly random vertex position below `len`.
fn random_index(len: usize) -> (r: usize)
    requires
        len > 0,
    ensures
        r < len,
{
    let r = random_below(len as u128);
    r as usize
}

} // verus!
