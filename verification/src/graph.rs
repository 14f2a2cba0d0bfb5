//! The dependency graph over tables or plan entities, with a verified
//! topological sort.
//!
//! Nodes are small integer indices (callers keep a parallel list of
//! names); an edge `(p, c)` means `p` must be seeded before `c`.  The
//! sort either returns an order in which every edge's parent precedes
//! its child, or reports that the graph has a cycle.

use vstd::prelude::*;

verus! {

/// A directed graph over nodes `0 .. n`.  Parallel edges are allowed
/// (one declared foreign key each) and are harmless.
#[derive(Debug, Clone)]
pub struct Graph {
    pub n: usize,
    pub edges: Vec<(usize, usize)>,
}

impl Graph {
    /// Every edge endpoint is a node.
    pub open spec fn wf(&self) -> bool {
        forall|k: int| 0 <= k < self.edges@.len()
            ==> (#[trigger] self.edges@[k]).0 < self.n && self.edges@[k].1 < self.n
    }

    /// There is an edge from `u` to `v`.
    pub open spec fn has_edge(&self, u: usize, v: usize) -> bool {
        exists|k: int| 0 <= k < self.edges@.len() && #[trigger] self.edges@[k] == (u, v)
    }
}

/// `c` is a directed cycle: consecutive elements are joined by edges and
/// an edge closes the last element back to the first.
pub open spec fn is_cycle(g: &Graph, c: Seq<usize>) -> bool {
    &&& c.len() >= 1
    &&& forall|i: int| 0 <= i < c.len() - 1 ==> g.has_edge(#[trigger] c[i], c[i + 1])
    &&& g.has_edge(c.last(), c[0])
}

pub open spec fn has_cycle(g: &Graph) -> bool {
    exists|c: Seq<usize>| is_cycle(g, c)
}

pub open spec fn no_duplicates(s: Seq<usize>) -> bool {
    forall|i: int, j: int| 0 <= i < j < s.len() ==> s[i] != s[j]
}

pub open spec fn in_range(s: Seq<usize>, n: usize) -> bool {
    forall|i: int| 0 <= i < s.len() ==> (#[trigger] s[i]) < n
}

/// Edge `k`'s parent stands somewhere before its child in `order`.
pub open spec fn edge_ordered(g: &Graph, order: Seq<usize>, k: int) -> bool {
    exists|i: int, j: int|
        0 <= i < j < order.len()
        && order[i] == g.edges@[k].0
        && order[j] == g.edges@[k].1
}

/// For every edge, the parent stands somewhere before the child.
pub open spec fn order_respects(g: &Graph, order: Seq<usize>) -> bool {
    forall|k: int| 0 <= k < g.edges@.len() ==> #[trigger] edge_ordered(g, order, k)
}

/// A topological order: each node exactly once, parents before children.
pub open spec fn valid_order(g: &Graph, order: Seq<usize>) -> bool {
    &&& order.len() == g.n
    &&& no_duplicates(order)
    &&& in_range(order, g.n)
    &&& forall|v: usize| v < g.n ==> order.contains(v)
    &&& order_respects(g, order)
}

// ---------------------------------------------------------------------
// Counting live edges (edges whose parent is not yet placed).
// ---------------------------------------------------------------------

/// Whether edge `e` counts against `v`: it points into `v` and its
/// parent is still unplaced.
pub open spec fn live_into(e: (usize, usize), placed: Seq<bool>, v: usize) -> bool {
    e.1 == v && (e.0 < placed.len() && !placed[e.0 as int])
}

/// How many edges of `s` are live into `v`.
pub open spec fn count_live(s: Seq<(usize, usize)>, placed: Seq<bool>, v: usize) -> int
    decreases s.len(),
{
    if s.len() == 0 {
        0
    } else {
        count_live(s.drop_last(), placed, v) + if live_into(s.last(), placed, v) { 1int } else { 0int }
    }
}

proof fn lemma_count_live_nonneg(s: Seq<(usize, usize)>, placed: Seq<bool>, v: usize)
    ensures
        count_live(s, placed, v) >= 0,
    decreases s.len(),
{
    if s.len() > 0 {
        lemma_count_live_nonneg(s.drop_last(), placed, v);
    }
}

/// Peeling one edge off the front instead of the back.
proof fn lemma_count_live_first(s: Seq<(usize, usize)>, placed: Seq<bool>, v: usize)
    requires
        s.len() > 0,
    ensures
        count_live(s, placed, v)
            == count_live(s.skip(1), placed, v) + if live_into(s[0], placed, v) { 1int } else { 0int },
    decreases s.len(),
{
    if s.len() == 1 {
        assert(s.drop_last().len() == 0);
        assert(s.skip(1).len() == 0);
        assert(s.last() == s[0]);
        assert(count_live(s.drop_last(), placed, v) == 0);
        assert(count_live(s.skip(1), placed, v) == 0);
        assert(count_live(s, placed, v)
            == count_live(s.drop_last(), placed, v)
                + if live_into(s.last(), placed, v) { 1int } else { 0int });
    } else {
        let dl = s.drop_last();
        lemma_count_live_first(dl, placed, v);
        assert(s.skip(1).drop_last() =~= dl.skip(1));
        assert(s.skip(1).last() == s.last());
        assert(dl[0] == s[0]);
        assert(s.skip(1).len() > 0);
        assert(count_live(s.skip(1), placed, v)
            == count_live(s.skip(1).drop_last(), placed, v)
                + if live_into(s.skip(1).last(), placed, v) { 1int } else { 0int });
        assert(count_live(s, placed, v)
            == count_live(dl, placed, v)
                + if live_into(s.last(), placed, v) { 1int } else { 0int });
    }
}

/// A zero count means no live edge into `v` at all.
proof fn lemma_count_live_zero(s: Seq<(usize, usize)>, placed: Seq<bool>, v: usize)
    requires
        count_live(s, placed, v) == 0,
    ensures
        forall|k: int| 0 <= k < s.len() ==> !live_into(#[trigger] s[k], placed, v),
    decreases s.len(),
{
    if s.len() > 0 {
        lemma_count_live_nonneg(s.drop_last(), placed, v);
        assert(count_live(s.drop_last(), placed, v) == 0);
        lemma_count_live_zero(s.drop_last(), placed, v);
        assert(forall|k: int| 0 <= k < s.len() - 1 ==> s[k] == s.drop_last()[k]);
        assert(!live_into(s.last(), placed, v));
    }
}

/// A live edge into `v` makes the count positive.
proof fn lemma_count_live_pos(s: Seq<(usize, usize)>, placed: Seq<bool>, v: usize, k: int)
    requires
        0 <= k < s.len(),
        live_into(s[k], placed, v),
    ensures
        count_live(s, placed, v) > 0,
    decreases s.len(),
{
    lemma_count_live_nonneg(s.drop_last(), placed, v);
    if k == s.len() - 1 {
        assert(live_into(s.last(), placed, v));
    } else {
        assert(s.drop_last()[k] == s[k]);
        lemma_count_live_pos(s.drop_last(), placed, v, k);
    }
}

// ---------------------------------------------------------------------
// Pigeonhole facts about distinct index sequences.
// ---------------------------------------------------------------------

/// The set of nodes below `n`.
pub open spec fn below(n: nat) -> Set<usize>
    decreases n,
{
    if n == 0 {
        Set::empty()
    } else {
        below((n - 1) as nat).insert((n - 1) as usize)
    }
}

proof fn lemma_below(n: nat)
    requires
        n <= usize::MAX,
    ensures
        below(n).finite(),
        below(n).len() == n,
        forall|v: usize| below(n).contains(v) <==> (v as nat) < n,
    decreases n,
{
    if n > 0 {
        lemma_below((n - 1) as nat);
        assert(!below((n - 1) as nat).contains((n - 1) as usize));
    }
}

/// A sequence longer than the set it draws from must repeat a value.
proof fn lemma_seq_pigeonhole(p: Seq<usize>, u: Set<usize>)
    requires
        u.finite(),
        forall|i: int| 0 <= i < p.len() ==> u.contains(#[trigger] p[i]),
        p.len() > u.len(),
    ensures
        exists|i: int, j: int| 0 <= i < j < p.len() && p[i] == p[j],
    decreases p.len(),
{
    if exists|k: int| 1 <= k < p.len() && #[trigger] p[k] == p[0] {
        let k = choose|k: int| 1 <= k < p.len() && #[trigger] p[k] == p[0];
        assert(0 <= 0 < k < p.len() && p[0] == p[k]);
    } else {
        let tail = p.skip(1);
        let u2 = u.remove(p[0]);
        assert(u.contains(p[0]));
        assert(u2.len() == u.len() - 1);
        assert forall|i: int| 0 <= i < tail.len() implies u2.contains(#[trigger] tail[i]) by {
            assert(tail[i] == p[i + 1]);
            assert(u.contains(p[i + 1]));
            assert(p[i + 1] != p[0]);
        }
        lemma_seq_pigeonhole(tail, u2);
        let (i, j) = choose|i: int, j: int| 0 <= i < j < tail.len() && tail[i] == tail[j];
        assert(p[i + 1] == tail[i] && p[j + 1] == tail[j]);
        assert(0 <= i + 1 < j + 1 < p.len() && p[i + 1] == p[j + 1]);
    }
}

/// Distinct nodes below `n`: there are at most `n` of them.
proof fn lemma_distinct_le(s: Seq<usize>, n: usize)
    requires
        no_duplicates(s),
        in_range(s, n),
    ensures
        s.len() <= n,
{
    if s.len() > n {
        lemma_below(n as nat);
        lemma_seq_pigeonhole(s, below(n as nat));
    }
}

/// `n` distinct nodes below `n`: every node occurs.
proof fn lemma_distinct_full(s: Seq<usize>, n: usize, v: usize)
    requires
        no_duplicates(s),
        in_range(s, n),
        s.len() == n,
        v < n,
    ensures
        s.contains(v),
{
    if !s.contains(v) {
        lemma_below(n as nat);
        let u2 = below(n as nat).remove(v);
        assert(u2.len() == n - 1);
        assert forall|i: int| 0 <= i < s.len() implies u2.contains(#[trigger] s[i]) by {
            assert(s[i] != v);
        }
        lemma_seq_pigeonhole(s, u2);
    }
}

// ---------------------------------------------------------------------
// A stalled elimination means a cycle.
// ---------------------------------------------------------------------

/// A chain following predecessors among the unplaced nodes, built
/// backwards: each element is followed (in the sequence) by one of its
/// predecessors.
proof fn build_pred_chain(g: &Graph, placed: Seq<bool>, v0: usize, len: nat) -> (p: Seq<usize>)
    requires
        len >= 1,
        placed.len() == g.n,
        v0 < g.n,
        !placed[v0 as int],
        forall|v: usize| v < g.n && !placed[v as int]
            ==> exists|w: usize| w < g.n && !placed[w as int] && #[trigger] g.has_edge(w, v),
    ensures
        p.len() == len,
        p[0] == v0,
        forall|i: int| 0 <= i < p.len() ==> (#[trigger] p[i]) < g.n && !placed[p[i] as int],
        forall|i: int| 0 <= i < p.len() - 1 ==> g.has_edge(#[trigger] p[i + 1], p[i]),
    decreases len,
{
    if len == 1 {
        seq![v0]
    } else {
        let p0 = build_pred_chain(g, placed, v0, (len - 1) as nat);
        let last = p0.last();
        assert(last < g.n && !placed[last as int]);
        let w = choose|w: usize| w < g.n && !placed[w as int] && #[trigger] g.has_edge(w, last);
        let p = p0.push(w);
        assert(p[p.len() - 1] == w);
        assert(forall|i: int| 0 <= i < p.len() - 1 ==> p[i] == p0[i]);
        assert(g.has_edge(p[p.len() - 1], p[p.len() - 2]));
        p
    }
}

/// If every unplaced node has an unplaced predecessor, and some node is
/// unplaced, the graph has a cycle.
proof fn lemma_stuck_implies_cycle(g: &Graph, placed: Seq<bool>, v0: usize)
    requires
        placed.len() == g.n,
        v0 < g.n,
        !placed[v0 as int],
        forall|v: usize| v < g.n && !placed[v as int]
            ==> exists|w: usize| w < g.n && !placed[w as int] && #[trigger] g.has_edge(w, v),
    ensures
        has_cycle(g),
{
    let len = (g.n + 1) as nat;
    let p = build_pred_chain(g, placed, v0, len);
    lemma_below(g.n as nat);
    lemma_seq_pigeonhole(p, below(g.n as nat));
    let (i, j) = choose|i: int, j: int| 0 <= i < j < p.len() && p[i] == p[j];
    let c = Seq::new((j - i) as nat, |t: int| p[j - t]);
    assert(c.len() >= 1);
    assert forall|t: int| 0 <= t < c.len() - 1 implies g.has_edge(#[trigger] c[t], c[t + 1]) by {
        assert(c[t] == p[j - t]);
        assert(c[t + 1] == p[j - t - 1]);
        assert(g.has_edge(p[(j - t - 1) + 1], p[j - t - 1]));
    }
    assert(c.last() == p[i + 1]);
    assert(c[0] == p[j]);
    assert(g.has_edge(p[i + 1], p[i]));
    assert(p[i] == p[j]);
    assert(is_cycle(g, c));
}

// ---------------------------------------------------------------------
// A cycle defeats every candidate order.
// ---------------------------------------------------------------------

/// No order of the nodes can put every parent before its child once the
/// graph has a cycle: along the cycle, positions would have to increase
/// forever.
pub proof fn lemma_cycle_defeats_order(g: &Graph, c: Seq<usize>, order: Seq<usize>)
    requires
        g.wf(),
        is_cycle(g, c),
    ensures
        !valid_order(g, order),
{
    if valid_order(g, order) {
        // the position of each node of the cycle in the order
        let pos = |v: usize| choose|i: int| 0 <= i < order.len() && order[i] == v;
        // every cycle node is in the order
        assert forall|t: int| 0 <= t < c.len() implies
            0 <= pos(c[t]) < order.len() && order[pos(c[t])] == c[t] by {
            let u = cycle_node_in_graph(g, c, t);
            assert(order.contains(c[t]));
            let i = choose|i: int| 0 <= i < order.len() && order[i] == c[t];
            assert(order[i] == c[t]);
        }
        // an edge forces position of parent strictly below position of child
        assert forall|t: int| 0 <= t < c.len() - 1 implies #[trigger] pos(c[t]) < pos(c[t + 1]) by {
            lemma_edge_pos(g, order, c[t], c[t + 1], pos(c[t]), pos(c[t + 1]));
        }
        lemma_pos_chain(c, pos);
        // so pos(c[0]) <= pos(c.last()); but the closing edge forces the reverse
        lemma_edge_pos(g, order, c.last(), c[0], pos(c.last()), pos(c[0]));
    }
}

/// Every node on a cycle is a node of the graph.
proof fn cycle_node_in_graph(g: &Graph, c: Seq<usize>, t: int) -> (u: usize)
    requires
        g.wf(),
        is_cycle(g, c),
        0 <= t < c.len(),
    ensures
        u == c[t],
        u < g.n,
{
    if t < c.len() - 1 {
        assert(g.has_edge(c[t], c[t + 1]));
        let k = choose|k: int| 0 <= k < g.edges@.len() && #[trigger] g.edges@[k] == (c[t], c[t + 1]);
        assert(g.edges@[k].0 < g.n);
    } else {
        assert(g.has_edge(c.last(), c[0]));
        let k = choose|k: int| 0 <= k < g.edges@.len() && #[trigger] g.edges@[k] == (c.last(), c[0]);
        assert(g.edges@[k].0 < g.n);
    }
    c[t]
}

pub proof fn lemma_edge_pos(g: &Graph, order: Seq<usize>, a: usize, b: usize, ia: int, ib: int)
    requires
        valid_order(g, order),
        g.has_edge(a, b),
        0 <= ia < order.len(),
        0 <= ib < order.len(),
        order[ia] == a,
        order[ib] == b,
    ensures
        ia < ib,
{
    let k = choose|k: int| 0 <= k < g.edges@.len() && #[trigger] g.edges@[k] == (a, b);
    assert(order_respects(g, order));
    assert(edge_ordered(g, order, k));
    let (i, j) = choose|i: int, j: int|
        0 <= i < j < order.len() && order[i] == (g.edges@[k]).0 && order[j] == g.edges@[k].1;
    // by distinctness, positions of a and b are unique
    assert(order[i] == a && order[j] == b);
    if i != ia {
        assert(order[i] == order[ia]);
        assert(false);
    }
    if j != ib {
        assert(false);
    }
}

proof fn lemma_count_live_le(s: Seq<(usize, usize)>, placed: Seq<bool>, v: usize)
    ensures
        count_live(s, placed, v) <= s.len(),
    decreases s.len(),
{
    if s.len() > 0 {
        lemma_count_live_le(s.drop_last(), placed, v);
    }
}

/// A positive count exhibits a live edge into `v`.
proof fn lemma_count_live_ex(s: Seq<(usize, usize)>, placed: Seq<bool>, v: usize)
    requires
        count_live(s, placed, v) > 0,
    ensures
        exists|k: int| 0 <= k < s.len() && live_into(#[trigger] s[k], placed, v),
    decreases s.len(),
{
    if s.len() > 0 {
        if live_into(s.last(), placed, v) {
            assert(s[s.len() - 1] == s.last());
        } else {
            lemma_count_live_ex(s.drop_last(), placed, v);
            let k = choose|k: int|
                0 <= k < s.drop_last().len() && live_into(#[trigger] s.drop_last()[k], placed, v);
            assert(s[k] == s.drop_last()[k]);
        }
    }
}

/// A distinct sequence that contains every node below `n` has at least
/// `n` elements.
proof fn lemma_contains_all_ge(s: Seq<usize>, n: usize)
    requires
        no_duplicates(s),
        forall|v: usize| v < n ==> s.contains(v),
    ensures
        s.len() >= n,
{
    broadcast use vstd::seq_lib::seq_to_set_is_finite;

    assert(forall|i: int, j: int|
        0 <= i < s.len() && 0 <= j < s.len() && i != j ==> s[i] != s[j]);
    assert(s.no_duplicates());
    s.unique_seq_to_set();
    lemma_below(n as nat);
    assert(below(n as nat).subset_of(s.to_set())) by {
        assert forall|v: usize| below(n as nat).contains(v) implies s.to_set().contains(v) by {
            assert(s.contains(v));
        }
    };
    vstd::set_lib::lemma_len_subset(below(n as nat), s.to_set());
}

/// Strictly increasing positions along a chain accumulate.
proof fn lemma_pos_chain(c: Seq<usize>, pos: spec_fn(usize) -> int)
    requires
        c.len() >= 1,
        forall|t: int| 0 <= t < c.len() - 1 ==> #[trigger] pos(c[t]) < pos(c[t + 1]),
    ensures
        pos(c[0]) <= pos(c.last()),
    decreases c.len(),
{
    if c.len() > 1 {
        let d = c.drop_last();
        assert(forall|t: int| 0 <= t < d.len() ==> d[t] == c[t]);
        assert forall|t: int| 0 <= t < d.len() - 1 implies #[trigger] pos(d[t]) < pos(d[t + 1]) by {
            assert(pos(c[t]) < pos(c[t + 1]));
        }
        lemma_pos_chain(d, pos);
        assert(pos(c[c.len() - 2]) < pos(c[c.len() - 1]));
        assert(d.last() == c[c.len() - 2]);
    }
}

// ---------------------------------------------------------------------
// The sort itself.
// ---------------------------------------------------------------------

impl Graph {
    /// Topological sort by repeated elimination of nodes without live
    /// incoming edges.  Returns an order in which every edge's parent
    /// precedes its child, or `None` exactly when no such order exists,
    /// in which case the graph provably has a cycle.  The elimination
    /// order is deterministic for a given graph.
    pub fn topo_sort(&self) -> (r: Option<Vec<usize>>)
        requires
            self.wf(),
        ensures
            match r {
                Some(o) => valid_order(self, o@),
                None => has_cycle(self),
            },
    {
        let n = self.n;
        let ghost all_false = Seq::new(n as nat, |i: int| false);

        let mut indeg: Vec<usize> = Vec::new();
        let mut i: usize = 0;
        while i < n
            invariant
                i <= n,
                indeg@.len() == i,
                forall|k: int| 0 <= k < i ==> #[trigger] indeg@[k] == 0,
            decreases n - i,
        {
            indeg.push(0);
            i += 1;
        }
        proof {
            assert(self.edges@.take(0) =~= Seq::<(usize, usize)>::empty());
        }

        let mut m: usize = 0;
        while m < self.edges.len()
            invariant
                self.wf(),
                n == self.n,
                indeg@.len() == n,
                m <= self.edges@.len(),
                all_false == Seq::new(n as nat, |i: int| false),
                forall|v: usize| v < n ==> #[trigger] indeg@[v as int]
                    == count_live(self.edges@.take(m as int), all_false, v),
            decreases self.edges@.len() - m,
        {
            let e = self.edges[m];
            proof {
                assert(self.edges@.take(m as int + 1).drop_last() =~= self.edges@.take(m as int));
                assert(self.edges@.take(m as int + 1).last() == e);
                lemma_count_live_le(self.edges@.take(m as int), all_false, e.1);
            }
            let d = indeg[e.1];
            indeg.set(e.1, d + 1);
            proof {
                assert forall|v: usize| v < n implies #[trigger] indeg@[v as int]
                    == count_live(self.edges@.take(m as int + 1), all_false, v) by {
                    assert(count_live(self.edges@.take(m as int + 1), all_false, v)
                        == count_live(self.edges@.take(m as int), all_false, v)
                            + if live_into(e, all_false, v) { 1int } else { 0int });
                    if v == e.1 {
                        assert(!all_false[e.0 as int]);
                        assert(live_into(e, all_false, v));
                    } else {
                        assert(!live_into(e, all_false, v));
                    }
                }
            }
            m += 1;
        }
        proof {
            assert(self.edges@.take(self.edges@.len() as int) =~= self.edges@);
        }

        let mut placed: Vec<bool> = Vec::new();
        let mut p0: usize = 0;
        while p0 < n
            invariant
                p0 <= n,
                placed@.len() == p0,
                forall|k: int| 0 <= k < p0 ==> #[trigger] placed@[k] == false,
            decreases n - p0,
        {
            placed.push(false);
            p0 += 1;
        }
        proof {
            assert(placed@ =~= all_false);
        }

        let mut queue: Vec<usize> = Vec::new();
        let mut v0: usize = 0;
        while v0 < n
            invariant
                v0 <= n,
                n == self.n,
                indeg@.len() == n,
                forall|qi: int| 0 <= qi < queue@.len() ==> (#[trigger] queue@[qi]) < v0,
                no_duplicates(queue@),
                forall|qi: int| 0 <= qi < queue@.len()
                    ==> indeg@[(#[trigger] queue@[qi]) as int] == 0,
                forall|w: usize| w < v0 && indeg@[w as int] == 0 ==> queue@.contains(w),
            decreases n - v0,
        {
            if indeg[v0] == 0 {
                let ghost oldq = queue@;
                queue.push(v0);
                proof {
                    assert(queue@ == oldq.push(v0));
                    assert(queue@[queue@.len() - 1] == v0);
                    assert(forall|qi: int| 0 <= qi < oldq.len() ==> queue@[qi] == oldq[qi]);
                    assert forall|w: usize| w < v0 + 1 && indeg@[w as int] == 0
                        implies queue@.contains(w) by {
                        if w < v0 {
                            assert(oldq.contains(w));
                            let qi = choose|qi: int| 0 <= qi < oldq.len() && oldq[qi] == w;
                            assert(queue@[qi] == w);
                        } else {
                            assert(queue@[queue@.len() - 1] == w);
                        }
                    }
                }
            }
            v0 += 1;
        }

        let mut order: Vec<usize> = Vec::new();
        while queue.len() > 0
            invariant
                self.wf(),
                n == self.n,
                placed@.len() == n,
                indeg@.len() == n,
                // unplaced nodes carry their live in-degree
                forall|v: usize| v < n && !placed@[v as int]
                    ==> #[trigger] indeg@[v as int] == count_live(self.edges@, placed@, v),
                // the queue: distinct unplaced nodes with no live edges in
                no_duplicates(queue@),
                in_range(queue@, n),
                forall|qi: int| 0 <= qi < queue@.len()
                    ==> !placed@[(#[trigger] queue@[qi]) as int]
                        && indeg@[queue@[qi] as int] == 0,
                // every unplaced node without live edges is queued
                forall|v: usize| v < n && !placed@[v as int] && indeg@[v as int] == 0
                    ==> queue@.contains(v),
                // the order: distinct placed nodes, and all placed nodes
                no_duplicates(order@),
                in_range(order@, n),
                order@.len() <= n,
                forall|oi: int| 0 <= oi < order@.len()
                    ==> placed@[(#[trigger] order@[oi]) as int],
                forall|v: usize| v < n && placed@[v as int] ==> order@.contains(v),
                // a placed child's parents are placed and stand earlier
                forall|k: int| 0 <= k < self.edges@.len()
                    && placed@[(#[trigger] self.edges@[k]).1 as int]
                    ==> placed@[self.edges@[k].0 as int],
                forall|k: int| 0 <= k < self.edges@.len()
                    && placed@[(#[trigger] self.edges@[k]).1 as int]
                    ==> edge_ordered(self, order@, k),
            decreases n - order@.len(),
        {
            let ghost oldq = queue@;
            let popped = queue.pop();
            let v = match popped {
                Some(x) => x,
                None => {
                    proof {
                        assert(false);
                    }
                    0
                },
            };
            proof {
                assert(oldq[oldq.len() - 1] == v);
                assert(queue@ =~= oldq.drop_last());
                assert(!placed@[v as int] && indeg@[v as int] == 0);
                assert(count_live(self.edges@, placed@, v) == 0);
            }
            let ghost po = placed@;
            let ghost oldorder = order@;
            placed.set(v, true);
            order.push(v);
            proof {
                lemma_count_live_zero(self.edges@, po, v);
                // the order stays distinct and gains v at the end
                assert(order@ == oldorder.push(v));
                assert(order@[order@.len() - 1] == v);
                assert(forall|oi: int| 0 <= oi < oldorder.len() ==> order@[oi] == oldorder[oi]);
                assert forall|oi: int, oj: int| 0 <= oi < oj < order@.len()
                    implies order@[oi] != order@[oj] by {
                    if oj == order@.len() - 1 {
                        assert(po[oldorder[oi] as int]);
                    }
                }
                // all placed nodes are in the order
                assert forall|w: usize| w < n && placed@[w as int]
                    implies order@.contains(w) by {
                    if w == v {
                        assert(order@[order@.len() - 1] == w);
                    } else {
                        assert(po[w as int]);
                        assert(oldorder.contains(w));
                        let oi = choose|oi: int| 0 <= oi < oldorder.len() && oldorder[oi] == w;
                        assert(order@[oi] == w);
                    }
                }
                lemma_distinct_le(order@, n);
                // parents of v are placed and already in the order
                assert forall|k: int| 0 <= k < self.edges@.len()
                    && placed@[(#[trigger] self.edges@[k]).1 as int]
                    implies placed@[self.edges@[k].0 as int]
                        && edge_ordered(self, order@, k) by {
                    let e = self.edges@[k];
                    if e.1 == v {
                        assert(!live_into(e, po, v));
                        assert(po[e.0 as int]);
                        assert(placed@[e.0 as int]);
                        assert(oldorder.contains(e.0));
                        let oi = choose|oi: int|
                            0 <= oi < oldorder.len() && oldorder[oi] == e.0;
                        assert(order@[oi] == e.0);
                        assert(order@[order@.len() - 1] == e.1);
                        assert(0 <= oi < order@.len() - 1);
                        assert(edge_ordered(self, order@, k));
                    } else if po[e.1 as int] {
                        assert(edge_ordered(self, oldorder, k));
                        let (i, j) = choose|i: int, j: int|
                            0 <= i < j < oldorder.len()
                            && oldorder[i] == e.0 && oldorder[j] == e.1;
                        assert(order@[i] == e.0 && order@[j] == e.1);
                        assert(edge_ordered(self, order@, k));
                    } else {
                        // e.1 unplaced before and not v: still unplaced
                        assert(e.1 != v);
                        assert(!placed@[e.1 as int]);
                    }
                }
            }
            let ghost pn = placed@;
            proof {
                assert(pn == po.update(v as int, true));
                assert(self.edges@.skip(0) =~= self.edges@);
                assert(count_live(self.edges@.take(0), pn, v) == 0);
                // queued nodes survive the pop: the popped node is placed now
                assert forall|w: usize| w < n && !placed@[w as int] && indeg@[w as int] == 0
                    implies queue@.contains(w) by {
                    assert(w != v);
                    assert(!po[w as int]);
                    assert(oldq.contains(w));
                    let qi = choose|qi: int| 0 <= qi < oldq.len() && oldq[qi] == w;
                    assert(qi != oldq.len() - 1);
                    assert(queue@[qi] == w);
                }
            }
            let mut k: usize = 0;
            while k < self.edges.len()
                invariant
                    self.wf(),
                    n == self.n,
                    k <= self.edges@.len(),
                    placed@.len() == n,
                    indeg@.len() == n,
                    v < n,
                    placed@ == pn,
                    pn == po.update(v as int, true),
                    po.len() == n,
                    !po[v as int],
                    count_live(self.edges@, po, v) == 0,
                    forall|kk: int| 0 <= kk < self.edges@.len()
                        && po[(#[trigger] self.edges@[kk]).1 as int]
                        ==> po[self.edges@[kk].0 as int],
                    // split accounting: early edges dead for v, late still live
                    forall|w: usize| w < n && !placed@[w as int]
                        ==> #[trigger] indeg@[w as int]
                            == count_live(self.edges@.take(k as int), pn, w)
                                + count_live(self.edges@.skip(k as int), po, w),
                    no_duplicates(queue@),
                    in_range(queue@, n),
                    forall|qi: int| 0 <= qi < queue@.len()
                        ==> !placed@[(#[trigger] queue@[qi]) as int]
                            && indeg@[queue@[qi] as int] == 0,
                    forall|w: usize| w < n && !placed@[w as int] && indeg@[w as int] == 0
                        ==> queue@.contains(w),
                decreases self.edges@.len() - k,
            {
                let e = self.edges[k];
                proof {
                    lemma_count_live_first(self.edges@.skip(k as int), po, e.1);
                    assert(self.edges@.skip(k as int)[0] == e);
                    assert(self.edges@.skip(k as int).skip(1) =~= self.edges@.skip(k as int + 1));
                    assert(self.edges@.take(k as int + 1).drop_last() =~= self.edges@.take(k as int));
                    assert(self.edges@.take(k as int + 1).last() == e);
                }
                if e.0 == v {
                    proof {
                        // no self-loop at v: such an edge would be live for v
                        if e.1 == v {
                            lemma_count_live_pos(self.edges@, po, v, k as int);
                        }
                        assert(e.1 != v);
                        // e.1 was unplaced before v, hence still unplaced
                        assert(!po[e.1 as int]);
                        assert(!pn[e.1 as int]);
                        // this edge is live under po, so the count is positive
                        assert(live_into(e, po, e.1));
                        lemma_count_live_nonneg(self.edges@.take(k as int), pn, e.1);
                        lemma_count_live_nonneg(self.edges@.skip(k as int + 1), po, e.1);
                        assert(indeg@[e.1 as int] >= 1);
                    }
                    let d = indeg[e.1];
                    indeg.set(e.1, d - 1);
                    proof {
                        assert forall|w: usize| w < n && !placed@[w as int]
                            implies #[trigger] indeg@[w as int]
                                == count_live(self.edges@.take(k as int + 1), pn, w)
                                    + count_live(self.edges@.skip(k as int + 1), po, w) by {
                            lemma_count_live_first(self.edges@.skip(k as int), po, w);
                            assert(count_live(self.edges@.take(k as int + 1), pn, w)
                                == count_live(self.edges@.take(k as int), pn, w)
                                    + if live_into(e, pn, w) { 1int } else { 0int });
                            assert(!live_into(e, pn, w));
                            if w == e.1 {
                                assert(live_into(e, po, w));
                            } else {
                                assert(!live_into(e, po, w));
                            }
                        }
                    }
                    if d - 1 == 0 {
                        let ghost oldq2 = queue@;
                        queue.push(e.1);
                        proof {
                            assert(queue@[queue@.len() - 1] == e.1);
                            assert(forall|qi: int| 0 <= qi < oldq2.len()
                                ==> queue@[qi] == oldq2[qi]);
                            // e.1 was not queued: its in-degree was positive
                            assert forall|qi: int, qj: int| 0 <= qi < qj < queue@.len()
                                implies queue@[qi] != queue@[qj] by {
                                if qj == queue@.len() - 1 {
                                    assert(indeg@[oldq2[qi] as int] == 0
                                        || oldq2[qi] != e.1);
                                }
                            }
                            assert forall|w: usize|
                                w < n && !placed@[w as int] && indeg@[w as int] == 0
                                implies queue@.contains(w) by {
                                if w == e.1 {
                                    assert(queue@[queue@.len() - 1] == w);
                                } else {
                                    assert(oldq2.contains(w));
                                    let qi = choose|qi: int|
                                        0 <= qi < oldq2.len() && oldq2[qi] == w;
                                    assert(queue@[qi] == w);
                                }
                            }
                        }
                    }
                } else {
                    proof {
                        assert forall|w: usize| w < n && !placed@[w as int]
                            implies #[trigger] indeg@[w as int]
                                == count_live(self.edges@.take(k as int + 1), pn, w)
                                    + count_live(self.edges@.skip(k as int + 1), po, w) by {
                            lemma_count_live_first(self.edges@.skip(k as int), po, w);
                            assert(count_live(self.edges@.take(k as int + 1), pn, w)
                                == count_live(self.edges@.take(k as int), pn, w)
                                    + if live_into(e, pn, w) { 1int } else { 0int });
                            assert(pn[e.0 as int] == po[e.0 as int]);
                            assert(live_into(e, pn, w) == live_into(e, po, w));
                        }
                    }
                }
                k += 1;
            }
            proof {
                assert(self.edges@.take(self.edges@.len() as int) =~= self.edges@);
                assert(self.edges@.skip(self.edges@.len() as int)
                    =~= Seq::<(usize, usize)>::empty());
                assert forall|w: usize| w < n && !placed@[w as int]
                    implies #[trigger] indeg@[w as int]
                        == count_live(self.edges@, placed@, w) by {
                    assert(count_live(self.edges@.skip(self.edges@.len() as int), po, w) == 0);
                }
            }
        }
        // the queue is empty: either everything was placed, or we are stuck
        if order.len() == n {
            proof {
                assert forall|k: int| 0 <= k < self.edges@.len()
                    implies #[trigger] edge_ordered(self, order@, k) by {
                    let e = self.edges@[k];
                    lemma_distinct_full(order@, n, e.1);
                    let oj = choose|oj: int| 0 <= oj < order@.len() && order@[oj] == e.1;
                    assert(placed@[e.1 as int]);
                }
                assert forall|v: usize| v < n implies order@.contains(v) by {
                    lemma_distinct_full(order@, n, v);
                }
                assert(order_respects(self, order@));
                assert(valid_order(self, order@));
            }
            Some(order)
        } else {
            proof {
                // some node is unplaced
                assert(exists|v: usize| v < n && !placed@[v as int]) by {
                    if forall|v: usize| v < n ==> #[trigger] placed@[v as int] {
                        assert forall|v: usize| v < n implies order@.contains(v) by {
                            assert(placed@[v as int]);
                        }
                        lemma_contains_all_ge(order@, n);
                    }
                }
                let v1 = choose|v: usize| v < n && !placed@[v as int];
                // every unplaced node keeps a live edge from an unplaced parent
                assert forall|w: usize| w < n && !placed@[w as int]
                    implies exists|u: usize|
                        u < n && !placed@[u as int] && #[trigger] self.has_edge(u, w) by {
                    assert(!queue@.contains(w));
                    assert(indeg@[w as int] != 0);
                    lemma_count_live_nonneg(self.edges@, placed@, w);
                    lemma_count_live_ex(self.edges@, placed@, w);
                    let k = choose|k: int|
                        0 <= k < self.edges@.len()
                            && live_into(#[trigger] self.edges@[k], placed@, w);
                    let e = self.edges@[k];
                    assert(self.has_edge(e.0, w));
                    assert(e.0 < n && !placed@[e.0 as int]);
                }
                lemma_stuck_implies_cycle(self, placed@, v1);
            }
            None
        }
    }
}

// ---------------------------------------------------------------------
// Reachability (for the interactive table picker).
// ---------------------------------------------------------------------

/// A directed path: consecutive elements joined by edges.
pub open spec fn is_path(g: &Graph, p: Seq<usize>) -> bool {
    &&& p.len() >= 1
    &&& forall|i: int| 0 <= i < p.len() - 1 ==> g.has_edge(#[trigger] p[i], p[i + 1])
}

/// `b` can be reached from `a` along edges (reflexively).
pub open spec fn reaches(g: &Graph, a: usize, b: usize) -> bool {
    exists|p: Seq<usize>| #[trigger] is_path(g, p) && p[0] == a && p.last() == b
}

/// How many entries of a mark vector are still false.
pub open spec fn count_false(s: Seq<bool>) -> int
    decreases s.len(),
{
    if s.len() == 0 {
        0
    } else {
        count_false(s.drop_last()) + if s.last() { 0int } else { 1int }
    }
}

proof fn lemma_count_false_update(s: Seq<bool>, i: int)
    requires
        0 <= i < s.len(),
        !s[i],
    ensures
        count_false(s.update(i, true)) == count_false(s) - 1,
    decreases s.len(),
{
    let t = s.update(i, true);
    if i == s.len() - 1 {
        assert(t.drop_last() =~= s.drop_last());
        assert(t.last() == true);
        assert(!s.last());
    } else {
        assert(t.last() == s.last());
        assert(t.drop_last() =~= s.drop_last().update(i, true));
        lemma_count_false_update(s.drop_last(), i);
    }
}

proof fn lemma_count_false_nonneg(s: Seq<bool>)
    ensures
        count_false(s) >= 0,
    decreases s.len(),
{
    if s.len() > 0 {
        lemma_count_false_nonneg(s.drop_last());
    }
}

/// A mark vector closed under edges and containing the head of a path
/// contains its tail.
proof fn lemma_closed_reaches(g: &Graph, marks: Seq<bool>, p: Seq<usize>)
    requires
        g.wf(),
        marks.len() == g.n,
        forall|k: int| 0 <= k < g.edges@.len() && marks[(#[trigger] g.edges@[k]).0 as int]
            ==> marks[g.edges@[k].1 as int],
        is_path(g, p),
        p[0] < g.n,
        marks[p[0] as int],
    ensures
        marks[p.last() as int],
    decreases p.len(),
{
    if p.len() > 1 {
        assert(g.has_edge(p[0], p[1]));
        let k = choose|k: int| 0 <= k < g.edges@.len() && #[trigger] g.edges@[k] == (p[0], p[1]);
        assert(marks[p[1] as int]);
        let q = p.skip(1);
        assert(q[0] == p[1]);
        assert(q.last() == p.last());
        assert(forall|i: int| 0 <= i < q.len() - 1 ==> #[trigger] q[i] == p[i + 1] && q[i + 1] == p[i + 2]);
        assert forall|i: int| 0 <= i < q.len() - 1 implies g.has_edge(#[trigger] q[i], q[i + 1])
            by {
            assert(g.has_edge(p[i + 1], p[i + 2]));
        }
        assert(q[0] < g.n) by {
            assert(g.edges@[k].1 < g.n);
        }
        lemma_closed_reaches(g, marks, q);
    }
}

impl Graph {
    /// The same dependencies, child to parent: for walking ancestors.
    pub fn reversed(&self) -> (r: Graph)
        requires
            self.wf(),
        ensures
            r.wf(),
            r.n == self.n,
            forall|a: usize, b: usize| #[trigger] r.has_edge(a, b) == self.has_edge(b, a),
    {
        let mut edges: Vec<(usize, usize)> = Vec::new();
        let m = self.edges.len();
        let mut k: usize = 0;
        while k < m
            invariant
                k <= m,
                m == self.edges@.len(),
                self.wf(),
                edges@.len() == k,
                forall|j: int| 0 <= j < k
                    ==> #[trigger] edges@[j] == (self.edges@[j].1, self.edges@[j].0),
            decreases m - k,
        {
            let e = self.edges[k];
            edges.push((e.1, e.0));
            k += 1;
        }
        let r = Graph { n: self.n, edges };
        proof {
            assert forall|a: usize, b: usize| #[trigger] r.has_edge(a, b) == self.has_edge(b, a)
                by {
                if r.has_edge(a, b) {
                    let j = choose|j: int|
                        0 <= j < r.edges@.len() && #[trigger] r.edges@[j] == (a, b);
                    assert(self.edges@[j] == (b, a));
                    assert(self.has_edge(b, a));
                }
                if self.has_edge(b, a) {
                    let j = choose|j: int|
                        0 <= j < self.edges@.len() && #[trigger] self.edges@[j] == (b, a);
                    assert(r.edges@[j] == (a, b));
                    assert(r.has_edge(a, b));
                }
            }
        }
        r
    }

    /// Every node reachable from `start`, including `start` itself.
    pub fn reachable_from(&self, start: usize) -> (r: Vec<bool>)
        requires
            self.wf(),
            start < self.n,
        ensures
            r@.len() == self.n,
            forall|v: usize| v < self.n ==> #[trigger] r@[v as int] == self.reaches_spec(start, v),
    {
        let n = self.n;
        let mut marks: Vec<bool> = Vec::new();
        let mut i: usize = 0;
        while i < n
            invariant
                i <= n,
                marks@.len() == i,
                forall|j: int| 0 <= j < i ==> #[trigger] marks@[j] == false,
            decreases n - i,
        {
            marks.push(false);
            i += 1;
        }
        marks.set(start, true);
        proof {
            let p0 = seq![start];
            assert(is_path(self, p0) && p0[0] == start && p0.last() == start);
            assert(reaches(self, start, start));
        }
        let mut stack: Vec<usize> = Vec::new();
        stack.push(start);
        while stack.len() > 0
            invariant
                self.wf(),
                n == self.n,
                marks@.len() == n,
                start < n,
                marks@[start as int],
                in_range(stack@, n),
                forall|si: int| 0 <= si < stack@.len()
                    ==> marks@[(#[trigger] stack@[si]) as int],
                forall|v: usize| v < n && #[trigger] marks@[v as int]
                    ==> reaches(self, start, v),
                // closure except at stack members
                forall|k: int| 0 <= k < self.edges@.len()
                    && marks@[(#[trigger] self.edges@[k]).0 as int]
                    && !stack@.contains(self.edges@[k].0)
                    ==> marks@[self.edges@[k].1 as int],
            decreases count_false(marks@) * 2 + stack@.len(),
        {
            proof {
                lemma_count_false_nonneg(marks@);
            }
            let ghost old_marks = marks@;
            let ghost old_stack = stack@;
            let v = stack.pop().unwrap();
            proof {
                assert(old_stack[old_stack.len() - 1] == v);
                assert(stack@ =~= old_stack.drop_last());
                // the outer closure carries over for nodes other than v
                assert forall|kk: int| 0 <= kk < self.edges@.len()
                    && marks@[(#[trigger] self.edges@[kk]).0 as int]
                    && !stack@.contains(self.edges@[kk].0)
                    && self.edges@[kk].0 != v
                    implies marks@[self.edges@[kk].1 as int] by {
                    if old_stack.contains(self.edges@[kk].0) {
                        let si = choose|si: int|
                            0 <= si < old_stack.len() && old_stack[si] == self.edges@[kk].0;
                        if si == old_stack.len() - 1 {
                            assert(false);
                        } else {
                            assert(stack@[si] == self.edges@[kk].0);
                            assert(stack@.contains(self.edges@[kk].0));
                            assert(false);
                        }
                    }
                }
            }
            let m = self.edges.len();
            let mut k: usize = 0;
            let ghost pre_marks = marks@;
            let ghost pre_stack = stack@;
            while k < m
                invariant
                    k <= m,
                    m == self.edges@.len(),
                    self.wf(),
                    n == self.n,
                    v < n,
                    marks@.len() == n,
                    start < n,
                    marks@[start as int],
                    marks@[v as int],
                    in_range(stack@, n),
                    count_false(marks@) * 2 + stack@.len()
                        <= count_false(pre_marks) * 2 + pre_stack.len(),
                    forall|si: int| 0 <= si < stack@.len()
                        ==> marks@[(#[trigger] stack@[si]) as int],
                    forall|w: usize| w < n && #[trigger] marks@[w as int]
                        ==> reaches(self, start, w),
                    // previously-marked stay marked
                    forall|w: int| 0 <= w < n && pre_marks[w] ==> #[trigger] marks@[w],
                    // edges from v processed so far lead to marked nodes
                    forall|kk: int| 0 <= kk < k && (#[trigger] self.edges@[kk]).0 == v
                        ==> marks@[self.edges@[kk].1 as int],
                    // closure except at stack members or v
                    forall|kk: int| 0 <= kk < self.edges@.len()
                        && marks@[(#[trigger] self.edges@[kk]).0 as int]
                        && !stack@.contains(self.edges@[kk].0)
                        && self.edges@[kk].0 != v
                        ==> marks@[self.edges@[kk].1 as int],
                decreases m - k,
            {
                let e = self.edges[k];
                if e.0 == v {
                    if !marks[e.1] {
                        let ghost mid_marks = marks@;
                        let ghost mid_stack = stack@;
                        marks.set(e.1, true);
                        stack.push(e.1);
                        proof {
                            lemma_count_false_update(mid_marks, e.1 as int);
                            assert(marks@ =~= mid_marks.update(e.1 as int, true));
                            assert(stack@ =~= mid_stack.push(e.1));
                            assert(stack@[stack@.len() - 1] == e.1);
                            assert(stack@.contains(e.1));
                            // the new node is reachable: extend a path to v
                            assert(reaches(self, start, v));
                            let p = choose|p: Seq<usize>|
                                #[trigger] is_path(self, p) && p[0] == start && p.last() == v;
                            let p2 = p.push(e.1);
                            assert(p2[0] == start);
                            assert(p2.last() == e.1);
                            assert(forall|i: int| 0 <= i < p.len() ==> #[trigger] p2[i] == p[i]);
                            assert forall|i: int| 0 <= i < p2.len() - 1 implies
                                self.has_edge(#[trigger] p2[i], p2[i + 1]) by {
                                if i < p.len() - 1 {
                                    assert(self.has_edge(p[i], p[i + 1]));
                                } else {
                                    assert(p2[i] == v && p2[i + 1] == e.1);
                                    assert(self.has_edge(v, e.1));
                                }
                            }
                            assert(is_path(self, p2));
                            assert(reaches(self, start, e.1));
                            // stack members stay marked; closure carries over
                            assert forall|si: int| 0 <= si < stack@.len()
                                implies marks@[(#[trigger] stack@[si]) as int] by {
                                if si < stack@.len() - 1 {
                                    assert(stack@[si] == mid_stack[si]);
                                }
                            }
                            assert forall|kk: int| 0 <= kk < self.edges@.len()
                                && marks@[(#[trigger] self.edges@[kk]).0 as int]
                                && !stack@.contains(self.edges@[kk].0)
                                && self.edges@[kk].0 != v
                                implies marks@[self.edges@[kk].1 as int] by {
                                if self.edges@[kk].0 == e.1 {
                                    assert(stack@.contains(self.edges@[kk].0));
                                    assert(false);
                                } else {
                                    assert(mid_marks[self.edges@[kk].0 as int]);
                                    if mid_stack.contains(self.edges@[kk].0) {
                                        let si = choose|si: int|
                                            0 <= si < mid_stack.len() && mid_stack[si]
                                                == self.edges@[kk].0;
                                        assert(stack@[si] == self.edges@[kk].0);
                                        assert(stack@.contains(self.edges@[kk].0));
                                        assert(false);
                                    }
                                    assert(mid_marks[self.edges@[kk].1 as int]);
                                }
                            }
                        }
                    }
                }
                k += 1;
            }
            proof {
                lemma_count_false_nonneg(marks@);
                // v's edges are now all satisfied, restoring the closure
                assert forall|kk: int| 0 <= kk < self.edges@.len()
                    && marks@[(#[trigger] self.edges@[kk]).0 as int]
                    && !stack@.contains(self.edges@[kk].0)
                    implies marks@[self.edges@[kk].1 as int] by {
                    if self.edges@[kk].0 == v {
                        assert(marks@[self.edges@[kk].1 as int]);
                    }
                }
            }
        }
        proof {
            // the closure is total: marked nodes are exactly the reachable
            assert forall|v: usize| v < n implies #[trigger] marks@[v as int]
                == self.reaches_spec(start, v) by {
                if marks@[v as int] {
                    assert(reaches(self, start, v));
                }
                if reaches(self, start, v) {
                    let p = choose|p: Seq<usize>|
                        #[trigger] is_path(self, p) && p[0] == start && p.last() == v;
                    lemma_closed_reaches(self, marks@, p);
                }
            }
        }
        marks
    }

    /// `reaches`, under a method name usable in contracts.
    pub open spec fn reaches_spec(&self, a: usize, b: usize) -> bool {
        reaches(self, a, b)
    }
}

} // verus!
