use crate::graph::Edge;
use crate::graph::edges_in_bounds;
use crate::graph::edges_positive;
use crate::graph::edges_sorted;
use crate::graph::lemma_sum_take_step;
use crate::graph::sum_weights;
use crate::graph::Graph;
use crate::graph::Vertex;
use vstd::prelude::*;

verus! {

/// Mathematical model of one accumulator entry: a source symbol together with
/// the observed successor symbols and their transition counts, plus the total
/// of those counts.
pub struct ProtoView {
    pub value: char,
    pub counts: Seq<(char, u64)>,
    pub total: u64,
}

/// One accumulator entry: a source symbol, an association list from successor
/// symbol to observed transition count (in first-observation order), and the
/// running total of all counts.
struct ProtoVertex {
    value: char,
    counts: Vec<(char, u64)>,
    total: u64,
}

impl View for ProtoVertex {
    type V = ProtoView;

    closed spec fn view(&self) -> ProtoView {
        ProtoView { value: self.value, counts: self.counts@, total: self.total }
    }
}

/// Position of the first entry for successor symbol `c`, or `-1`.
pub open spec fn find_count(cs: Seq<(char, u64)>, c: char) -> int
    decreases cs.len(),
{
    if cs.len() == 0 {
        -1
    } else if cs.first().0 == c {
        0
    } else {
        let r = find_count(cs.drop_first(), c);
        if r < 0 {
            -1
        } else {
            r + 1
        }
    }
}

/// `find_count` returns `-1` exactly when no entry matches, and otherwise the
/// position of the first match.
pub proof fn lemma_find_count_spec(cs: Seq<(char, u64)>, c: char)
    ensures
        find_count(cs, c) == -1 <==> (forall|j: int|
            0 <= j < cs.len() ==> (#[trigger] cs[j]).0 != c),
        find_count(cs, c) >= 0 ==> {
            let r = find_count(cs, c);
            &&& 0 <= r < cs.len()
            &&& cs[r].0 == c
            &&& forall|j: int| 0 <= j < r ==> (#[trigger] cs[j]).0 != c
        },
    decreases cs.len(),
{
    if cs.len() > 0 && cs.first().0 != c {
        lemma_find_count_spec(cs.drop_first(), c);
        assert(forall|j: int| 1 <= j < cs.len() ==> #[trigger] cs[j] == cs.drop_first()[j - 1]);
    }
}

/// Position of the first accumulator entry for source symbol `c`, or `-1`.
pub open spec fn find_proto(ps: Seq<ProtoView>, c: char) -> int
    decreases ps.len(),
{
    if ps.len() == 0 {
        -1
    } else if ps.first().value == c {
        0
    } else {
        let r = find_proto(ps.drop_first(), c);
        if r < 0 {
            -1
        } else {
            r + 1
        }
    }
}

/// `find_proto` returns `-1` exactly when no entry matches, and otherwise the
/// position of the first match.
pub proof fn lemma_find_proto_spec(ps: Seq<ProtoView>, c: char)
    ensures
        find_proto(ps, c) == -1 <==> (forall|j: int|
            0 <= j < ps.len() ==> (#[trigger] ps[j]).value != c),
        find_proto(ps, c) >= 0 ==> {
            let r = find_proto(ps, c);
            &&& 0 <= r < ps.len()
            &&& ps[r].value == c
            &&& forall|j: int| 0 <= j < r ==> (#[trigger] ps[j]).value != c
        },
    decreases ps.len(),
{
    if ps.len() > 0 && ps.first().value != c {
        lemma_find_proto_spec(ps.drop_first(), c);
        assert(forall|j: int| 1 <= j < ps.len() ==> #[trigger] ps[j] == ps.drop_first()[j - 1]);
    }
}

/// Position of the first occurrence of `c`, or `-1`.
pub open spec fn find_char(s: Seq<char>, c: char) -> int
    decreases s.len(),
{
    if s.len() == 0 {
        -1
    } else if s.first() == c {
        0
    } else {
        let r = find_char(s.drop_first(), c);
        if r < 0 {
            -1
        } else {
            r + 1
        }
    }
}

/// `find_char` returns `-1` exactly when the symbol is absent, and otherwise
/// the position of its first occurrence.
pub proof fn lemma_find_char_spec(s: Seq<char>, c: char)
    ensures
        find_char(s, c) == -1 <==> (forall|j: int| 0 <= j < s.len() ==> #[trigger] s[j] != c),
        find_char(s, c) >= 0 ==> {
            let r = find_char(s, c);
            &&& 0 <= r < s.len()
            &&& s[r] == c
            &&& forall|j: int| 0 <= j < r ==> #[trigger] s[j] != c
        },
    decreases s.len(),
{
    if s.len() > 0 && s.first() != c {
        lemma_find_char_spec(s.drop_first(), c);
        assert(forall|j: int| 1 <= j < s.len() ==> #[trigger] s[j] == s.drop_first()[j - 1]);
    }
}

/// Sum of the counts of an association list.
pub open spec fn sum_counts(cs: Seq<(char, u64)>) -> int
    decreases cs.len(),
{
    if cs.len() == 0 {
        0
    } else {
        sum_counts(cs.drop_last()) + cs.last().1
    }
}

/// Well-formedness of one accumulator entry: the total is the exact sum of
/// the counts, successor symbols are distinct, every count is positive, and
/// at least one successor has been observed.
pub open spec fn proto_wf(p: ProtoView) -> bool {
    &&& p.total == sum_counts(p.counts)
    &&& forall|j: int, k: int|
        0 <= j < k < p.counts.len() ==> (#[trigger] p.counts[j]).0 != (#[trigger] p.counts[k]).0
    &&& forall|j: int| 0 <= j < p.counts.len() ==> (#[trigger] p.counts[j]).1 >= 1
    &&& p.counts.len() >= 1
}

/// Well-formedness of the whole accumulator: every entry is well formed and
/// source symbols are distinct.
pub open spec fn constructor_wf(ps: Seq<ProtoView>) -> bool {
    &&& forall|i: int| 0 <= i < ps.len() ==> proto_wf(#[trigger] ps[i])
    &&& forall|i: int, j: int|
        0 <= i < j < ps.len() ==> (#[trigger] ps[i]).value != (#[trigger] ps[j]).value
}

/// The association list after recording one more observation of `next`: the
/// first entry for `next` is incremented, or a fresh entry with count one is
/// appended.
pub open spec fn bump_counts(cs: Seq<(char, u64)>, next: char) -> Seq<(char, u64)> {
    let j = find_count(cs, next);
    if j < 0 {
        cs.push((next, 1u64))
    } else {
        cs.update(j, (next, (cs[j].1 + 1) as u64))
    }
}

/// The accumulator after `register_sequence(current, next)`: the first entry
/// for `current` gains one observation of `next`, or a fresh entry is
/// appended. An entry whose total has reached the largest representable
/// count is left unchanged, so that totals stay exact.
pub open spec fn spec_register(ps: Seq<ProtoView>, current: char, next: char) -> Seq<ProtoView> {
    let i = find_proto(ps, current);
    if i < 0 {
        ps.push(ProtoView { value: current, counts: seq![(next, 1u64)], total: 1u64 })
    } else if ps[i].total == u64::MAX {
        ps
    } else {
        ps.update(
            i,
            ProtoView {
                value: ps[i].value,
                counts: bump_counts(ps[i].counts, next),
                total: (ps[i].total + 1) as u64,
            },
        )
    }
}

/// Accumulates observed symbol-to-symbol transition frequencies, to be turned
/// into a probability graph by `construct`.
pub struct GraphConstructor {
    vertices: Vec<ProtoVertex>,
}

/// Model of a whole accumulator entry sequence.
spec fn protos_view(vs: Seq<ProtoVertex>) -> Seq<ProtoView> {
    Seq::new(vs.len(), |i: int| vs[i]@)
}

impl View for GraphConstructor {
    type V = Seq<ProtoView>;

    closed spec fn view(&self) -> Seq<ProtoView> {
        protos_view(self.vertices@)
    }
}

/// The successor symbols of one accumulator entry, in observation order.
pub open spec fn succ_chars(p: ProtoView) -> Seq<char> {
    p.counts.map_values(|cw: (char, u64)| cw.0)
}

/// All successor symbols of the accumulator, flattened in registration order.
pub open spec fn all_succs(ps: Seq<ProtoView>) -> Seq<char>
    decreases ps.len(),
{
    if ps.len() == 0 {
        Seq::empty()
    } else {
        all_succs(ps.drop_last()) + succ_chars(ps.last())
    }
}

/// The terminal symbols discovered while walking `stream` against the source
/// symbols of `ps`, in first-discovery order: a symbol is appended the first
/// time it is seen, unless it is itself a source symbol.
pub open spec fn accum_terminals(ps: Seq<ProtoView>, stream: Seq<char>) -> Seq<char>
    decreases stream.len(),
{
    if stream.len() == 0 {
        Seq::empty()
    } else {
        let pre = accum_terminals(ps, stream.drop_last());
        let c = stream.last();
        if find_proto(ps, c) >= 0 || find_char(pre, c) >= 0 {
            pre
        } else {
            pre.push(c)
        }
    }
}

/// The symbols of the synthesized terminal vertices, in first-discovery
/// order: the successor symbols that are not source symbols, each once.
pub open spec fn terminal_syms(ps: Seq<ProtoView>) -> Seq<char> {
    accum_terminals(ps, all_succs(ps))
}

/// The graph position that an edge toward symbol `c` resolves to: the first
/// source vertex carrying `c`, or, failing that, the terminal vertex carrying
/// `c`, which sits after all source vertices.
pub open spec fn resolve_index(ps: Seq<ProtoView>, c: char) -> int {
    if find_proto(ps, c) >= 0 {
        find_proto(ps, c)
    } else {
        ps.len() + find_char(terminal_syms(ps), c)
    }
}

/// The edges derived from one entry's association list, in observation order
/// (before sorting): one edge per successor, targeting the resolved position
/// and weighted by the observed count.
pub open spec fn edge_seq(ps: Seq<ProtoView>, cs: Seq<(char, u64)>) -> Seq<Edge> {
    cs.map_values(
        |cw: (char, u64)| Edge { vertex_index: resolve_index(ps, cw.0) as usize, weight: cw.1 },
    )
}

/// What `construct` guarantees of the produced vertex sequence `g`, beyond
/// well-formedness: one vertex per accumulator entry, in registration order,
/// whose edges are exactly the entry's observed transitions (resolved and
/// normalized over the entry's total), followed by one empty terminal vertex
/// per discovered terminal symbol, in first-discovery order.
pub open spec fn built_graph_ok(ps: Seq<ProtoView>, g: Seq<Vertex>) -> bool {
    &&& g.len() == ps.len() + terminal_syms(ps).len()
    &&& forall|i: int|
        0 <= i < ps.len() ==> {
            &&& (#[trigger] g[i]).value == ps[i].value
            &&& g[i].total == ps[i].total
            &&& g[i].edges@.to_multiset() == edge_seq(ps, ps[i].counts).to_multiset()
        }
    &&& forall|t: int|
        ps.len() <= t < g.len() ==> {
            &&& (#[trigger] g[t]).value == terminal_syms(ps)[t - ps.len()]
            &&& g[t].edges@.len() == 0
            &&& g[t].total == 0
        }
}

/// Updating one count of a well-formed association list by one keeps the sum
/// in step.
proof fn lemma_sum_counts_update(cs: Seq<(char, u64)>, j: int, x: (char, u64))
    requires
        0 <= j < cs.len(),
        x.1 == cs[j].1 + 1,
    ensures
        sum_counts(cs.update(j, x)) == sum_counts(cs) + 1,
    decreases cs.len(),
{
    if j == cs.len() - 1 {
        assert(cs.update(j, x).drop_last() =~= cs.drop_last());
    } else {
        assert(cs.update(j, x).drop_last() =~= cs.drop_last().update(j, x));
        lemma_sum_counts_update(cs.drop_last(), j, x);
    }
}

/// Appending an entry adds its count to the sum.
proof fn lemma_sum_counts_push(cs: Seq<(char, u64)>, x: (char, u64))
    ensures
        sum_counts(cs.push(x)) == sum_counts(cs) + x.1,
{
    assert(cs.push(x).drop_last() =~= cs);
}

impl GraphConstructor {
    /// A fresh accumulator with no observations.
    pub fn new() -> (r: Self)
        ensures
            r@ =~= Seq::<ProtoView>::empty(),
            constructor_wf(r@),
    {
        GraphConstructor { vertices: Vec::new() }
    }

    /// Records one observed transition from `current` to `next`: the entry
    /// for `current` is created if absent, and its count for `next` is
    /// incremented (starting from one).
    pub fn register_sequence(&mut self, current: char, next: char)
        requires
            constructor_wf(old(self)@),
        ensures
            final(self)@ == spec_register(old(self)@, current, next),
            constructor_wf(final(self)@),
    {
        let ghost ps = self@;
        let n = self.vertices.len();
        let mut i: usize = 0;
        while i < n
            invariant
                constructor_wf(ps),
                ps == self@,
                ps == old(self)@,
                n == self.vertices@.len(),
                0 <= i <= n,
                forall|j: int| 0 <= j < i ==> (#[trigger] ps[j]).value != current,
            decreases n - i,
        {
            if self.vertices[i].value == current {
                assert(ps[i as int].value == current);
                assert(find_proto(ps, current) == i) by {
                    lemma_find_proto_spec(ps, current);
                }
                if self.vertices[i].total == u64::MAX {
                    assert(self@ =~= spec_register(ps, current, next));
                    return ;
                }
                self.bump_at(i, next);
                return ;
            }
            i = i + 1;
        }
        assert(find_proto(ps, current) == -1) by {
            lemma_find_proto_spec(ps, current);
        }
        let mut counts: Vec<(char, u64)> = Vec::new();
        counts.push((next, 1));
        let proto = ProtoVertex { value: current, counts, total: 1 };
        assert(proto@.counts =~= seq![(next, 1u64)]);
        proof {
            lemma_sum_counts_push(Seq::<(char, u64)>::empty(), (next, 1u64));
            assert(Seq::<(char, u64)>::empty().push((next, 1u64)) =~= seq![(next, 1u64)]);
        }
        self.vertices.push(proto);
        assert(self@ =~= spec_register(ps, current, next));
    }

    /// Increments the count for `next` in the entry at position `i`, adding a
    /// fresh entry of count one when `next` has not been observed there yet.
    fn bump_at(&mut self, i: usize, next: char)
        requires
            constructor_wf(old(self)@),
            i < old(self)@.len(),
            old(self)@[i as int].total < u64::MAX,
        ensures
            final(self)@ =~= old(self)@.update(
                i as int,
                ProtoView {
                    value: old(self)@[i as int].value,
                    counts: bump_counts(old(self)@[i as int].counts, next),
                    total: (old(self)@[i as int].total + 1) as u64,
                },
            ),
            constructor_wf(final(self)@),
    {
        let ghost ps = old(self)@;
        let ghost oldp = ps[i as int];
        let m = self.vertices[i].counts.len();
        let mut j: usize = 0;
        while j < m
            invariant
                constructor_wf(ps),
                ps == self@,
                ps == old(self)@,
                i < ps.len(),
                oldp == ps[i as int],
                oldp.total < u64::MAX,
                i < self.vertices@.len(),
                m == self.vertices@[i as int].counts@.len(),
                0 <= j <= m,
                forall|k: int| 0 <= k < j ==> (#[trigger] oldp.counts[k]).0 != next,
            decreases m - j,
        {
            if self.vertices[i].counts[j].0 == next {
                assert(find_count(oldp.counts, next) == j) by {
                    lemma_find_count_spec(oldp.counts, next);
                }
                let w = self.vertices[i].counts[j].1;
                assert(w <= oldp.total) by {
                    lemma_count_le_sum(oldp.counts, j as int);
                }
                let t = self.vertices[i].total;
                self.vertices[i].counts[j] = (next, w + 1);
                self.vertices[i].total = t + 1;
                proof {
                    lemma_sum_counts_update(oldp.counts, j as int, (next, (w + 1) as u64));
                    assert(self@ =~= ps.update(
                        i as int,
                        ProtoView {
                            value: oldp.value,
                            counts: bump_counts(oldp.counts, next),
                            total: (oldp.total + 1) as u64,
                        },
                    ));
                }
                return ;
            }
            j = j + 1;
        }
        assert(find_count(oldp.counts, next) == -1) by {
            lemma_find_count_spec(oldp.counts, next);
        }
        let t = self.vertices[i].total;
        self.vertices[i].counts.push((next, 1));
        self.vertices[i].total = t + 1;
        proof {
            lemma_sum_counts_push(oldp.counts, (next, 1u64));
            assert(self@ =~= ps.update(
                i as int,
                ProtoView {
                    value: oldp.value,
                    counts: bump_counts(oldp.counts, next),
                    total: (oldp.total + 1) as u64,
                },
            ));
        }
    }
}

/// The discovered terminal symbols are distinct and none of them is a source
/// symbol.
proof fn lemma_accum_wf(ps: Seq<ProtoView>, stream: Seq<char>)
    ensures
        ({
            let t = accum_terminals(ps, stream);
            &&& forall|d1: int, d2: int| 0 <= d1 < d2 < t.len() ==> t[d1] != t[d2]
            &&& forall|d: int| 0 <= d < t.len() ==> find_proto(ps, #[trigger] t[d]) == -1
        }),
    decreases stream.len(),
{
    if stream.len() > 0 {
        lemma_accum_wf(ps, stream.drop_last());
        let pre = accum_terminals(ps, stream.drop_last());
        let c = stream.last();
        if !(find_proto(ps, c) >= 0 || find_char(pre, c) >= 0) {
            lemma_find_char_spec(pre, c);
            let t = accum_terminals(ps, stream);
            assert(forall|d: int| 0 <= d < pre.len() ==> #[trigger] t[d] == pre[d]);
            assert(t[pre.len() as int] == c);
        }
    }
}

/// Every successor symbol that is not a source symbol is discovered as a
/// terminal symbol.
proof fn lemma_accum_complete(ps: Seq<ProtoView>, stream: Seq<char>, c: char)
    requires
        find_proto(ps, c) == -1,
        stream.contains(c),
    ensures
        find_char(accum_terminals(ps, stream), c) >= 0,
    decreases stream.len(),
{
    let pre = accum_terminals(ps, stream.drop_last());
    let t = accum_terminals(ps, stream);
    if stream.last() == c {
        if find_char(pre, c) >= 0 {
            assert(t == pre);
        } else {
            lemma_find_char_spec(t, c);
            assert(t[pre.len() as int] == c);
            if find_char(t, c) == -1 {
                assert(false);
            }
        }
    } else {
        assert(stream.drop_last().contains(c)) by {
            let w = choose|w: int| 0 <= w < stream.len() && stream[w] == c;
            assert(stream.drop_last()[w] == c);
        }
        lemma_accum_complete(ps, stream.drop_last(), c);
        lemma_find_char_spec(pre, c);
        let r = find_char(pre, c);
        if t != pre {
            lemma_find_char_spec(t, c);
            assert(t[r] == pre[r]);
            if find_char(t, c) == -1 {
                assert(false);
            }
        }
    }
}

/// Every observed successor symbol occurs in the flattened successor stream.
proof fn lemma_all_succs_contains(ps: Seq<ProtoView>, i: int, j: int)
    requires
        0 <= i < ps.len(),
        0 <= j < ps[i].counts.len(),
    ensures
        all_succs(ps).contains(ps[i].counts[j].0),
    decreases ps.len(),
{
    let a = all_succs(ps.drop_last());
    let b = succ_chars(ps.last());
    if i == ps.len() - 1 {
        assert(b[j] == ps[i].counts[j].0);
        assert(all_succs(ps)[a.len() + j] == ps[i].counts[j].0);
    } else {
        lemma_all_succs_contains(ps.drop_last(), i, j);
        assert(ps.drop_last()[i] == ps[i]);
        let w = choose|w: int| 0 <= w < a.len() && a[w] == ps[i].counts[j].0;
        assert(all_succs(ps)[w] == ps[i].counts[j].0);
    }
}

/// The weights of a resolved edge sequence sum to the entry's count sum.
proof fn lemma_edge_seq_sum(ps: Seq<ProtoView>, cs: Seq<(char, u64)>)
    ensures
        sum_weights(edge_seq(ps, cs)) == sum_counts(cs),
    decreases cs.len(),
{
    if cs.len() == 0 {
        assert(edge_seq(ps, cs) =~= Seq::<Edge>::empty());
    } else {
        lemma_edge_seq_sum(ps, cs.drop_last());
        assert(edge_seq(ps, cs).drop_last() =~= edge_seq(ps, cs.drop_last()));
        assert(edge_seq(ps, cs).last().weight == cs.last().1);
    }
}

/// Bounded targets and positive weights carry over to any reordering of the
/// same edges.
proof fn lemma_multiset_edge_props(a: Seq<Edge>, b: Seq<Edge>, n: int)
    requires
        a.to_multiset() == b.to_multiset(),
        edges_in_bounds(a, n),
        edges_positive(a),
    ensures
        edges_in_bounds(b, n),
        edges_positive(b),
{
    broadcast use vstd::seq_lib::group_to_multiset_ensures;

    assert forall|k: int| 0 <= k < b.len() implies (#[trigger] b[k]).vertex_index < n && b[k].weight
        >= 1 by {
        assert(b.contains(b[k]));
        assert(b.to_multiset().count(b[k]) > 0);
        assert(a.contains(b[k]));
        let w = choose|w: int| 0 <= w < a.len() && a[w] == b[k];
        assert(a[w].vertex_index < n);
    }
}

/// Inserting an edge anywhere adds it to the sequence's edge collection.
proof fn lemma_insert_multiset(s: Seq<Edge>, i: int, x: Edge)
    requires
        0 <= i <= s.len(),
    ensures
        s.insert(i, x).to_multiset() == s.to_multiset().insert(x),
{
    broadcast use vstd::seq_lib::group_to_multiset_ensures;
    broadcast use vstd::multiset::group_multiset_axioms;

    let a = s.subrange(0, i);
    let b = s.subrange(i, s.len() as int);
    vstd::seq_lib::lemma_multiset_commutative(a.push(x), b);
    vstd::seq_lib::lemma_multiset_commutative(a, b);
    assert(s =~= a + b);
    assert(s.insert(i, x).to_multiset() =~= s.to_multiset().insert(x));
}

/// Inserting an edge anywhere adds its weight to the sum.
proof fn lemma_insert_sum(s: Seq<Edge>, i: int, x: Edge)
    requires
        0 <= i <= s.len(),
    ensures
        sum_weights(s.insert(i, x)) == sum_weights(s) + x.weight,
    decreases s.len(),
{
    if i == s.len() {
        assert(s.insert(i, x) =~= s.push(x));
        assert(s.push(x).drop_last() =~= s);
    } else {
        s.insert_ensures(i, x);
        assert(s.insert(i, x).drop_last() =~= s.drop_last().insert(i, x));
        assert(s.insert(i, x).last() == s.last());
        lemma_insert_sum(s.drop_last(), i, x);
    }
}

/// Sorts edges ascending by weight, preserving the collection of edges and
/// the total weight.
fn sort_edges(edges: Vec<Edge>) -> (out: Vec<Edge>)
    ensures
        out@.to_multiset() == edges@.to_multiset(),
        edges_sorted(out@),
        sum_weights(out@) == sum_weights(edges@),
        out@.len() == edges@.len(),
{
    broadcast use vstd::seq_lib::group_to_multiset_ensures;

    let n = edges.len();
    let mut out: Vec<Edge> = Vec::new();
    let mut idx: usize = 0;
    while idx < n
        invariant
            n == edges@.len(),
            0 <= idx <= n,
            out@.len() == idx,
            out@.to_multiset() == edges@.take(idx as int).to_multiset(),
            edges_sorted(out@),
            sum_weights(out@) == sum_weights(edges@.take(idx as int)),
        decreases n - idx,
    {
        broadcast use vstd::seq_lib::group_to_multiset_ensures;

        let e = edges[idx];
        let len = out.len();
        let mut p: usize = 0;
        while p < len && out[p].weight <= e.weight
            invariant
                len == out@.len(),
                0 <= p <= len,
                edges_sorted(out@),
                forall|q: int| 0 <= q < p ==> (#[trigger] out@[q]).weight <= e.weight,
            decreases len - p,
        {
            p = p + 1;
        }
        let ghost prev = out@;
        proof {
            lemma_insert_multiset(prev, p as int, e);
            lemma_insert_sum(prev, p as int, e);
            prev.insert_ensures(p as int, e);
            lemma_sum_take_step(edges@, idx as int);
            assert(edges@.take(idx as int).push(e) =~= edges@.take(idx as int + 1));
        }
        out.insert(p, e);
        proof {
            let t = out@;
            assert(forall|a: int| 0 <= a < p ==> #[trigger] t[a] == prev[a]);
            assert(t[p as int] == e);
            assert(forall|a: int| p < a < t.len() ==> #[trigger] t[a] == prev[a - 1]);
            assert forall|a: int, b: int| 0 <= a <= b < t.len() implies (#[trigger] t[a]).weight
                <= (#[trigger] t[b]).weight by {
                if a == p as int && b > p as int {
                    assert(prev[b - 1].weight >= prev[p as int].weight);
                }
            }
        }
        idx = idx + 1;
    }
    assert(edges@.take(n as int) =~= edges@);
    out
}

/// Position of the first accumulator entry carrying `c`, if any.
fn find_proto_pos(vs: &Vec<ProtoVertex>, c: char) -> (r: Option<usize>)
    ensures
        match r {
            Some(k) => find_proto(protos_view(vs@), c) == k as int,
            None => find_proto(protos_view(vs@), c) == -1,
        },
{
    let ghost ps = protos_view(vs@);
    let n = vs.len();
    let mut i: usize = 0;
    while i < n
        invariant
            ps == protos_view(vs@),
            n == vs@.len(),
            n == ps.len(),
            0 <= i <= n,
            forall|j: int| 0 <= j < i ==> (#[trigger] ps[j]).value != c,
        decreases n - i,
    {
        if vs[i].value == c {
            assert(ps[i as int].value == c);
            proof {
                lemma_find_proto_spec(ps, c);
            }
            return Some(i);
        }
        i = i + 1;
    }
    proof {
        lemma_find_proto_spec(ps, c);
    }
    None
}

/// Position of the first occurrence of `c`, if any.
fn find_char_pos(cs: &Vec<char>, c: char) -> (r: Option<usize>)
    ensures
        match r {
            Some(k) => find_char(cs@, c) == k as int,
            None => find_char(cs@, c) == -1,
        },
{
    let n = cs.len();
    let mut i: usize = 0;
    while i < n
        invariant
            n == cs@.len(),
            0 <= i <= n,
            forall|j: int| 0 <= j < i ==> #[trigger] cs@[j] != c,
        decreases n - i,
    {
        if cs[i] == c {
            proof {
                lemma_find_char_spec(cs@, c);
            }
            return Some(i);
        }
        i = i + 1;
    }
    proof {
        lemma_find_char_spec(cs@, c);
    }
    None
}

/// A vertex carrying `c` with no edges yet.
fn empty_vertex(c: char) -> (v: Vertex)
    ensures
        v.value == c,
        v.edges@.len() == 0,
        v.total == 0,
{
    Vertex { value: c, edges: Vec::new(), total: 0 }
}

/// One resolved edge.
fn mk_edge(vertex_index: usize, weight: u64) -> (e: Edge)
    ensures
        e.vertex_index == vertex_index,
        e.weight == weight,
{
    Edge { vertex_index, weight }
}

/// Replaces the edges and total of the vertex at position `i`, leaving its
/// symbol and every other vertex unchanged.
fn set_vertex_payload(vs: &mut Vec<Vertex>, i: usize, edges: Vec<Edge>, total: u64)
    requires
        i < old(vs)@.len(),
    ensures
        final(vs)@.len() == old(vs)@.len(),
        final(vs)@[i as int].value == old(vs)@[i as int].value,
        final(vs)@[i as int].edges == edges,
        final(vs)@[i as int].total == total,
        forall|q: int| 0 <= q < old(vs)@.len() && q != i ==> final(vs)@[q] == old(vs)@[q],
{
    vs[i].edges = edges;
    vs[i].total = total;
}

/// A source vertex of the graph under construction is finished: symbol,
/// total and the collection of resolved, sorted edges all match the model.
spec fn source_done(ps: Seq<ProtoView>, g: Seq<Vertex>, i: int, n_total: int) -> bool {
    &&& g[i].value == ps[i].value
    &&& g[i].total == ps[i].total
    &&& g[i].edges@.to_multiset() == edge_seq(ps, ps[i].counts).to_multiset()
    &&& edges_sorted(g[i].edges@)
    &&& edges_in_bounds(g[i].edges@, n_total)
    &&& edges_positive(g[i].edges@)
    &&& g[i].total == sum_weights(g[i].edges@)
}

impl GraphConstructor {
    /// Consumes the accumulator and builds the immutable probability graph:
    /// one vertex per entry in registration order, edges resolved by symbol
    /// (synthesizing terminal vertices for symbols observed only as
    /// successors), weights normalized over each vertex's total, and each
    /// vertex's edges sorted ascending by probability.
    #[verifier::rlimit(100)]
    pub fn construct(self) -> (g: Graph)
        requires
            constructor_wf(self@),
        ensures
            g.wf(),
            built_graph_ok(self@, g@),
    {
        let ghost ps = self@;
        let n = self.vertices.len();

        // First pass: discover the terminal symbols in first-discovery order.
        let mut dead: Vec<char> = Vec::new();
        let ghost mut stream: Seq<char> = Seq::empty();
        proof {
            assert(ps.take(0) =~= Seq::<ProtoView>::empty());
            assert(stream =~= all_succs(ps.take(0)));
        }
        let mut i: usize = 0;
        while i < n
            invariant
                constructor_wf(ps),
                ps == self@,
                n == self.vertices@.len(),
                n == ps.len(),
                0 <= i <= n,
                stream == all_succs(ps.take(i as int)),
                dead@ == accum_terminals(ps, stream),
            decreases n - i,
        {
            let m = self.vertices[i].counts.len();
            assert(m == ps[i as int].counts.len());
            let mut j: usize = 0;
            proof {
                assert(succ_chars(ps[i as int]).take(0) =~= Seq::<char>::empty());
                assert(stream =~= all_succs(ps.take(i as int)) + succ_chars(ps[i as int]).take(0));
            }
            while j < m
                invariant
                    constructor_wf(ps),
                    ps == self@,
                    n == self.vertices@.len(),
                    n == ps.len(),
                    0 <= i < n,
                    m == ps[i as int].counts.len(),
                    0 <= j <= m,
                    stream == all_succs(ps.take(i as int)) + succ_chars(ps[i as int]).take(
                        j as int,
                    ),
                    dead@ == accum_terminals(ps, stream),
                decreases m - j,
            {
                let c = self.vertices[i].counts[j].0;
                assert(c == ps[i as int].counts[j as int].0);
                let ghost old_stream = stream;
                proof {
                    stream = stream.push(c);
                    assert(stream.drop_last() =~= old_stream);
                    assert(succ_chars(ps[i as int]).take(j as int).push(c) =~= succ_chars(
                        ps[i as int],
                    ).take(j as int + 1));
                    assert(stream =~= all_succs(ps.take(i as int)) + succ_chars(ps[i as int]).take(
                        j as int + 1,
                    ));
                }
                let in_protos = find_proto_pos(&self.vertices, c);
                if in_protos.is_none() {
                    let in_dead = find_char_pos(&dead, c);
                    if in_dead.is_none() {
                        dead.push(c);
                    }
                }
                assert(dead@ == accum_terminals(ps, stream));
                j = j + 1;
            }
            proof {
                assert(ps.take(i as int + 1).drop_last() =~= ps.take(i as int));
                assert(ps.take(i as int + 1).last() == ps[i as int]);
                assert(succ_chars(ps[i as int]).take(m as int) =~= succ_chars(ps[i as int]));
                assert(stream =~= all_succs(ps.take(i as int + 1)));
            }
            i = i + 1;
        }
        proof {
            assert(ps.take(n as int) =~= ps);
            assert(dead@ == terminal_syms(ps));
        }

        // Second pass: lay out the vertex sequence, sources first, then one
        // empty vertex per terminal symbol.
        let mut vertices: Vec<Vertex> = Vec::new();
        let mut k: usize = 0;
        while k < n
            invariant
                ps == self@,
                n == self.vertices@.len(),
                n == ps.len(),
                0 <= k <= n,
                vertices@.len() == k,
                forall|ii: int|
                    0 <= ii < k ==> (#[trigger] vertices@[ii]).value == ps[ii].value
                        && vertices@[ii].edges@.len() == 0 && vertices@[ii].total == 0,
            decreases n - k,
        {
            let val = self.vertices[k].value;
            let v = empty_vertex(val);
            vertices.push(v);
            k = k + 1;
        }
        let dn = dead.len();
        let mut d: usize = 0;
        while d < dn
            invariant
                ps == self@,
                dead@ == terminal_syms(ps),
                dn == dead@.len(),
                n == ps.len(),
                0 <= d <= dn,
                vertices@.len() == n + d,
                forall|ii: int|
                    0 <= ii < n ==> (#[trigger] vertices@[ii]).value == ps[ii].value
                        && vertices@[ii].edges@.len() == 0 && vertices@[ii].total == 0,
                forall|t: int|
                    n <= t < n + d ==> (#[trigger] vertices@[t]).value == terminal_syms(ps)[t - n]
                        && vertices@[t].edges@.len() == 0 && vertices@[t].total == 0,
            decreases dn - d,
        {
            let c = dead[d];
            let v = empty_vertex(c);
            vertices.push(v);
            d = d + 1;
        }
        let total_len = vertices.len();

        // Third pass: resolve and sort each source vertex's edges.
        let mut i2: usize = 0;
        while i2 < n
            invariant
                constructor_wf(ps),
                ps == self@,
                n == self.vertices@.len(),
                n == ps.len(),
                dead@ == terminal_syms(ps),
                dn == dead@.len(),
                total_len == n + dn,
                total_len == vertices@.len(),
                0 <= i2 <= n,
                forall|ii: int| 0 <= ii < i2 ==> source_done(ps, vertices@, ii, total_len as int),
                forall|ii: int|
                    i2 <= ii < n ==> (#[trigger] vertices@[ii]).value == ps[ii].value
                        && vertices@[ii].edges@.len() == 0 && vertices@[ii].total == 0,
                forall|t: int|
                    n <= t < total_len ==> (#[trigger] vertices@[t]).value == terminal_syms(
                        ps,
                    )[t - n] && vertices@[t].edges@.len() == 0 && vertices@[t].total == 0,
            decreases n - i2,
        {
            let m = self.vertices[i2].counts.len();
            assert(m == ps[i2 as int].counts.len());
            let ghost es = edge_seq(ps, ps[i2 as int].counts);
            let mut edges: Vec<Edge> = Vec::new();
            let mut j: usize = 0;
            proof {
                assert(edges@ =~= es.take(0));
            }
            while j < m
                invariant
                    constructor_wf(ps),
                    ps == self@,
                    n == self.vertices@.len(),
                    n == ps.len(),
                    dead@ == terminal_syms(ps),
                    dn == dead@.len(),
                    total_len == n + dn,
                    0 <= i2 < n,
                    m == ps[i2 as int].counts.len(),
                    es == edge_seq(ps, ps[i2 as int].counts),
                    0 <= j <= m,
                    edges@ == es.take(j as int),
                    edges_in_bounds(edges@, total_len as int),
                decreases m - j,
            {
                let cw = self.vertices[i2].counts[j];
                assert(cw == ps[i2 as int].counts[j as int]);
                let c = cw.0;
                let w = cw.1;
                let rid: usize;
                match find_proto_pos(&self.vertices, c) {
                    Some(kk) => {
                        proof {
                            lemma_find_proto_spec(ps, c);
                        }
                        rid = kk;
                    },
                    None => {
                        match find_char_pos(&dead, c) {
                            Some(dd) => {
                                proof {
                                    lemma_find_char_spec(dead@, c);
                                }
                                rid = n + dd;
                            },
                            None => {
                                proof {
                                    lemma_all_succs_contains(ps, i2 as int, j as int);
                                    lemma_accum_complete(ps, all_succs(ps), c);
                                    assert(false);
                                }
                                rid = 0;
                            },
                        }
                    },
                }
                assert(rid == resolve_index(ps, c));
                assert(rid < total_len);
                let e = mk_edge(rid, w);
                edges.push(e);
                proof {
                    assert(es[j as int] == Edge { vertex_index: rid, weight: w });
                    assert(es.take(j as int).push(es[j as int]) =~= es.take(j as int + 1));
                }
                j = j + 1;
            }
            proof {
                assert(es.take(m as int) =~= es);
                lemma_edge_seq_sum(ps, ps[i2 as int].counts);
                assert(edges_positive(es)) by {
                    assert(forall|q: int|
                        0 <= q < es.len() ==> (#[trigger] es[q]).weight == ps[i2 as int].counts[
                            q
                        ].1);
                }
            }
            let sorted = sort_edges(edges);
            let t = self.vertices[i2].total;
            assert(t == ps[i2 as int].total);
            proof {
                lemma_multiset_edge_props(es, sorted@, total_len as int);
            }
            let ghost prev_vs = vertices@;
            set_vertex_payload(&mut vertices, i2, sorted, t);
            assert(source_done(ps, vertices@, i2 as int, total_len as int));
            assert forall|ii: int| 0 <= ii < i2 implies source_done(
                ps,
                vertices@,
                ii,
                total_len as int,
            ) by {
                assert(source_done(ps, prev_vs, ii, total_len as int));
                assert(vertices@[ii] == prev_vs[ii]);
            }
            i2 = i2 + 1;
        }

        // The invariants of the finished sequence: per-vertex well-formedness
        // holds by construction, and symbol uniqueness combines the distinct
        // source symbols with the distinct, non-source terminal symbols.
        proof {
            lemma_accum_wf(ps, all_succs(ps));
            let vs = vertices@;
            assert forall|a: int, b: int| 0 <= a < b < vs.len() implies (#[trigger] vs[a]).value
                != (#[trigger] vs[b]).value by {
                if b < n {
                    assert(source_done(ps, vs, a, total_len as int));
                    assert(source_done(ps, vs, b, total_len as int));
                    assert(ps[a].value != ps[b].value);
                } else if a < n {
                    assert(source_done(ps, vs, a, total_len as int));
                    assert(vs[b].value == terminal_syms(ps)[b - n]);
                    assert(find_proto(ps, terminal_syms(ps)[b - n]) == -1);
                    lemma_find_proto_spec(ps, terminal_syms(ps)[b - n]);
                } else {
                    assert(vs[a].value == terminal_syms(ps)[a - n]);
                    assert(vs[b].value == terminal_syms(ps)[b - n]);
                }
            }
            assert forall|ii: int| 0 <= ii < vs.len() implies crate::graph::vertex_wf(
                #[trigger] vs[ii],
                vs.len() as int,
            ) by {
                if ii < n {
                    assert(source_done(ps, vs, ii, total_len as int));
                } else {
                    assert(vs[ii].edges@.len() == 0);
                    assert(sum_weights(vs[ii].edges@) == 0);
                }
            }
            assert(built_graph_ok(ps, vs)) by {
                assert forall|i3: int| 0 <= i3 < ps.len() implies ((#[trigger] vs[i3]).value
                    == ps[i3].value && vs[i3].total == ps[i3].total && vs[i3].edges@.to_multiset()
                    == edge_seq(ps, ps[i3].counts).to_multiset()) by {
                    assert(source_done(ps, vs, i3, total_len as int));
                }
            }
        }
        Graph::from_checked_vertices(vertices)
    }
}

/// Each individual count of a well-formed association list is at most the
/// sum of all counts.
proof fn lemma_count_le_sum(cs: Seq<(char, u64)>, j: int)
    requires
        0 <= j < cs.len(),
        forall|k: int| 0 <= k < cs.len() ==> (#[trigger] cs[k]).1 >= 1,
    ensures
        cs[j].1 <= sum_counts(cs),
    decreases cs.len(),
{
    if j == cs.len() - 1 {
        lemma_sum_counts_nonneg(cs.drop_last());
    } else {
        lemma_count_le_sum(cs.drop_last(), j);
    }
}

/// The sum of nonnegative counts is nonnegative.
proof fn lemma_sum_counts_nonneg(cs: Seq<(char, u64)>)
    ensures
        sum_counts(cs) >= 0,
    decreases cs.len(),
{
    if cs.len() > 0 {
        lemma_sum_counts_nonneg(cs.drop_last());
    }
}


/// Two distinct counts of a positive association list together never exceed
/// the sum of all counts.
proof fn lemma_two_counts_le_sum(cs: Seq<(char, u64)>, j: int, k: int)
    requires
        0 <= j < k < cs.len(),
        forall|q: int| 0 <= q < cs.len() ==> (#[trigger] cs[q]).1 >= 1,
    ensures
        cs[j].1 + cs[k].1 <= sum_counts(cs),
    decreases cs.len(),
{
    if k == cs.len() - 1 {
        lemma_count_le_sum(cs.drop_last(), j);
    } else {
        lemma_two_counts_le_sum(cs.drop_last(), j, k);
    }
}

/// The resolved position of any observed successor symbol is a vertex of
/// the built graph carrying exactly that symbol.
pub proof fn lemma_resolve_target(ps: Seq<ProtoView>, g: Seq<Vertex>, c: char)
    requires
        constructor_wf(ps),
        built_graph_ok(ps, g),
        all_succs(ps).contains(c),
    ensures
        0 <= resolve_index(ps, c) < g.len(),
        g[resolve_index(ps, c)].value == c,
{
    lemma_find_proto_spec(ps, c);
    if find_proto(ps, c) < 0 {
        lemma_accum_complete(ps, all_succs(ps), c);
        lemma_find_char_spec(terminal_syms(ps), c);
        let d = find_char(terminal_syms(ps), c);
        assert(g[ps.len() + d].value == terminal_syms(ps)[d]);
    }
}

/// Law: for every registered pair, built from entry `i` and its successor
/// `j`, the constructed graph holds a vertex for the source symbol at
/// position `i`, with an edge whose weight is the observed count and whose
/// target vertex carries the successor symbol.
pub proof fn lemma_registered_pair_has_edge(ps: Seq<ProtoView>, g: Seq<Vertex>, i: int, j: int)
    requires
        constructor_wf(ps),
        built_graph_ok(ps, g),
        g.len() <= usize::MAX,
        0 <= i < ps.len(),
        0 <= j < ps[i].counts.len(),
    ensures
        g[i].value == ps[i].value,
        exists|k: int|
            0 <= k < g[i].edges@.len() && {
                let e = #[trigger] g[i].edges@[k];
                &&& e.vertex_index < g.len()
                &&& g[e.vertex_index as int].value == ps[i].counts[j].0
                &&& e.weight == ps[i].counts[j].1
            },
{
    broadcast use vstd::seq_lib::group_to_multiset_ensures;

    let c = ps[i].counts[j].0;
    let es = edge_seq(ps, ps[i].counts);
    let target_edge = es[j];
    lemma_all_succs_contains(ps, i, j);
    lemma_resolve_target(ps, g, c);
    assert(0 <= resolve_index(ps, c) <= usize::MAX as int);
    assert(target_edge.vertex_index == resolve_index(ps, c) as usize);
    assert(target_edge.vertex_index as int == resolve_index(ps, c));
    assert(target_edge.weight == ps[i].counts[j].1);
    assert(es.contains(target_edge));
    assert(es.to_multiset().count(target_edge) > 0);
    assert(g[i].edges@.to_multiset().count(target_edge) > 0);
    assert(g[i].edges@.contains(target_edge));
    let k = choose|k: int| 0 <= k < g[i].edges@.len() && g[i].edges@[k] == target_edge;
    assert(0 <= k < g[i].edges@.len() && {
        let e = g[i].edges@[k];
        &&& e.vertex_index < g.len()
        &&& g[e.vertex_index as int].value == ps[i].counts[j].0
        &&& e.weight == ps[i].counts[j].1
    });
}

/// Law: a symbol observed only as a successor — never registered as a
/// source — becomes a terminal vertex: it sits after all source vertices
/// and has no outgoing edges.
pub proof fn lemma_terminal_vertex(ps: Seq<ProtoView>, g: Seq<Vertex>, c: char)
    requires
        constructor_wf(ps),
        built_graph_ok(ps, g),
        all_succs(ps).contains(c),
        forall|i: int| 0 <= i < ps.len() ==> (#[trigger] ps[i]).value != c,
    ensures
        exists|t: int|
            ps.len() <= t < g.len() && (#[trigger] g[t]).value == c && g[t].edges@.len() == 0,
{
    lemma_find_proto_spec(ps, c);
    lemma_accum_complete(ps, all_succs(ps), c);
    lemma_find_char_spec(terminal_syms(ps), c);
    let d = find_char(terminal_syms(ps), c);
    assert(ps.len() <= ps.len() + d < g.len() && g[ps.len() + d].value == c && g[ps.len()
        + d].edges@.len() == 0);
}

/// Law: registering an already-registered pair one more time strictly
/// increases its relative probability weight against every competing edge
/// of the same source vertex. Probabilities are the exact rationals
/// `count / total`; the comparisons are stated cross-multiplied. The pair's
/// probability rises from `c0 / t0` to `(c0 + 1) / (t0 + 1)`, and each
/// competitor's falls from `d / t0` to `d / (t0 + 1)`.
pub proof fn lemma_repeat_registration_increases_weight(
    ps: Seq<ProtoView>,
    current: char,
    next: char,
)
    requires
        constructor_wf(ps),
        find_proto(ps, current) >= 0,
        ({
            let i = find_proto(ps, current);
            &&& ps[i].total < u64::MAX
            &&& find_count(ps[i].counts, next) >= 0
            &&& ps[i].counts.len() >= 2
        }),
    ensures
        ({
            let i = find_proto(ps, current);
            let j = find_count(ps[i].counts, next);
            let ps2 = spec_register(ps, current, next);
            let c0 = ps[i].counts[j].1;
            let t0 = ps[i].total;
            let c1 = ps2[i].counts[j].1;
            let t1 = ps2[i].total;
            &&& ps2.len() == ps.len()
            &&& c1 == c0 + 1
            &&& t1 == t0 + 1
            &&& c1 * t0 > c0 * t1
            &&& forall|k: int|
                0 <= k < ps[i].counts.len() && k != j ==> (#[trigger] ps2[i].counts[k])
                    == ps[i].counts[k] && ps[i].counts[k].1 * t0 < ps[i].counts[k].1 * t1
        }),
{
    let i = find_proto(ps, current);
    lemma_find_proto_spec(ps, current);
    let j = find_count(ps[i].counts, next);
    lemma_find_count_spec(ps[i].counts, next);
    let c0 = ps[i].counts[j].1;
    let t0 = ps[i].total;
    assert(c0 < t0) by {
        let other: int = if j == 0 {
            1
        } else {
            0
        };
        if other < j {
            lemma_two_counts_le_sum(ps[i].counts, other, j);
        } else {
            lemma_two_counts_le_sum(ps[i].counts, j, other);
        }
    }
    assert((c0 + 1) * t0 > c0 * (t0 + 1)) by (nonlinear_arith)
        requires
            0 <= c0 < t0,
    {
    }
    let ps2 = spec_register(ps, current, next);
    assert(ps2[i].counts == bump_counts(ps[i].counts, next));
    assert forall|k: int| 0 <= k < ps[i].counts.len() && k != j implies (#[trigger] ps2[i].counts[k])
        == ps[i].counts[k] && ps[i].counts[k].1 * t0 < ps[i].counts[k].1 * ((t0 + 1) as u64) by {
        assert(ps[i].counts[k].1 >= 1);
        assert(ps[i].counts[k].1 * t0 < ps[i].counts[k].1 * (t0 + 1)) by (nonlinear_arith)
            requires
                ps[i].counts[k].1 >= 1,
                t0 >= 0,
        {
        }
    }
}

} // verus!
