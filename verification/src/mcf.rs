//! Minimum-cost circulation by cost scaling (push / relabel with a final
//! potential fitting), and the assignment problems solved with it.
use vstd::prelude::*;
use crate::heap::{ahead, DistQueue};
use crate::minmax::SetMinMax;

verus! {

/// One directed residual edge. `init` is the capacity it was created with,
/// `cap` the capacity that is left, so `init - cap` is the flow on it.
/// `rev` is the index of the paired edge in the adjacency list of `to`.
#[derive(Copy, Clone, Debug)]
pub struct E {
    pub to: usize,
    pub cap: i64,
    pub init: i64,
    pub cost: i64,
    pub rev: usize,
}

/// A flow network stored as adjacency lists of paired residual edges,
/// with the excess `ex` and the potential `p` of every vertex.
/// The cursor of the augmenting search is local to `solve`.
#[derive(Clone, Debug)]
pub struct Graph {
    pub es: Vec<Vec<E>>,
    pub ex: Vec<i64>,
    pub p: Vec<i64>,
}

/// Net flow that leaves a vertex along the edges of its adjacency list.
pub open spec fn row_outflow(row: Seq<E>) -> int
    decreases row.len(),
{
    if row.len() == 0 {
        0
    } else {
        row_outflow(row.drop_last()) + (row.last().init - row.last().cap)
    }
}

/// Sum of a sequence of machine integers, as a mathematical integer.
pub open spec fn seq_sum(s: Seq<i64>) -> int
    decreases s.len(),
{
    if s.len() == 0 {
        0
    } else {
        seq_sum(s.drop_last()) + s.last()
    }
}

/// Total cost of the flow carried by the edges of one adjacency list:
/// every edge whose capacity went down pays `(init - cap) * cost`.
pub open spec fn row_flow_cost(row: Seq<E>) -> int
    decreases row.len(),
{
    if row.len() == 0 {
        0
    } else {
        row_flow_cost(row.drop_last()) + (if row.last().cap < row.last().init {
            (row.last().init - row.last().cap) * row.last().cost
        } else {
            0
        })
    }
}

/// Total cost of the flow on the first `k` adjacency lists.
pub open spec fn rows_flow_cost(rows: Seq<Vec<E>>, k: int) -> int
    decreases k,
{
    if k <= 0 {
        0
    } else {
        rows_flow_cost(rows, k - 1) + row_flow_cost(rows[k - 1]@)
    }
}

/// The edge that `Graph::add` appends to the list of its tail.
pub open spec fn forward_edge(to: usize, cap: i64, cost: i64, rev: usize) -> E {
    E { to, cap, init: cap, cost, rev }
}

/// The edge that `Graph::add` appends to the list of its head.
pub open spec fn backward_edge(from: usize, cost: i64, fwd: usize) -> E {
    E { to: from, cap: 0, init: 0, cost: (-cost) as i64, rev: fwd }
}

/// Changing the remaining capacity of one edge changes the outflow of its
/// list by the opposite amount.
pub proof fn lemma_row_outflow_update(row: Seq<E>, i: int, e: E)
    requires
        0 <= i < row.len(),
        e.init == row[i].init,
    ensures
        row_outflow(row.update(i, e)) == row_outflow(row) + row[i].cap - e.cap,
    decreases row.len(),
{
    let r2 = row.update(i, e);
    if i == row.len() - 1 {
        assert(r2.drop_last() =~= row.drop_last());
    } else {
        assert(r2.drop_last() =~= row.drop_last().update(i, e));
        lemma_row_outflow_update(row.drop_last(), i, e);
    }
}

/// Replacing one entry changes the sum by the difference.
pub proof fn lemma_seq_sum_update(s: Seq<i64>, i: int, x: i64)
    requires
        0 <= i < s.len(),
    ensures
        seq_sum(s.update(i, x)) == seq_sum(s) - s[i] + x,
    decreases s.len(),
{
    let s2 = s.update(i, x);
    if i == s.len() - 1 {
        assert(s2.drop_last() =~= s.drop_last());
    } else {
        assert(s2.drop_last() =~= s.drop_last().update(i, x));
        lemma_seq_sum_update(s.drop_last(), i, x);
    }
}

/// Number of `false` entries.
pub open spec fn count_false(s: Seq<bool>) -> nat
    decreases s.len(),
{
    if s.len() == 0 {
        0
    } else {
        count_false(s.drop_last()) + (if s.last() {
            0nat
        } else {
            1nat
        })
    }
}

/// A sequence of `false` has as many `false` entries as it is long.
proof fn lemma_count_false_all(s: Seq<bool>)
    requires
        forall|i: int| 0 <= i < s.len() ==> !#[trigger] s[i],
    ensures
        count_false(s) == s.len(),
    decreases s.len(),
{
    if s.len() > 0 {
        lemma_count_false_all(s.drop_last());
    }
}

/// Setting a `false` entry to `true` removes one `false`.
pub proof fn lemma_count_false_set(s: Seq<bool>, i: int)
    requires
        0 <= i < s.len(),
        !s[i],
    ensures
        count_false(s.update(i, true)) + 1 == count_false(s),
    decreases s.len(),
{
    let s2 = s.update(i, true);
    if i == s.len() - 1 {
        assert(s2.drop_last() =~= s.drop_last());
    } else {
        assert(s2.drop_last() =~= s.drop_last().update(i, true));
        lemma_count_false_set(s.drop_last(), i);
    }
}

/// Edge `i` of vertex `v` exists.
pub open spec fn es_is_edge(es: Seq<Vec<E>>, v: int, i: int) -> bool {
    0 <= v < es.len() && 0 <= i < es[v]@.len()
}

pub open spec fn es_edge(es: Seq<Vec<E>>, v: int, i: int) -> E {
    es[v]@[i]
}

/// The edge paired with edge `i` of vertex `v`.
pub open spec fn es_partner(es: Seq<Vec<E>>, v: int, i: int) -> E {
    es_edge(es, es_edge(es, v, i).to as int, es_edge(es, v, i).rev as int)
}

/// Every edge points to another vertex, and its partner points back to it,
/// with the opposite cost and the same total of the two capacities.
pub open spec fn es_paired(es: Seq<Vec<E>>) -> bool {
    forall|v: int, i: int|
        #[trigger] es_is_edge(es, v, i) ==> {
            let e = es_edge(es, v, i);
            &&& e.to < es.len()
            &&& e.to != v
            &&& e.rev < es[e.to as int]@.len()
            &&& es_partner(es, v, i).to == v
            &&& es_partner(es, v, i).rev == i
            &&& es_partner(es, v, i).cost == -e.cost
            &&& e.cap + es_partner(es, v, i).cap == e.init + es_partner(es, v, i).init
        }
}

/// No residual capacity is negative, and the two capacities of every pair
/// add up to a machine integer.
pub open spec fn es_capacities_ok(es: Seq<Vec<E>>) -> bool {
    forall|v: int, i: int|
        #[trigger] es_is_edge(es, v, i) ==> {
            &&& 0 <= es_edge(es, v, i).cap
            &&& es_edge(es, v, i).cap + es_partner(es, v, i).cap <= i64::MAX
        }
}

/// Every cost times `n` is a machine integer.
pub open spec fn es_costs_scale_by(es: Seq<Vec<E>>, n: int) -> bool {
    forall|v: int, i: int|
        #[trigger] es_is_edge(es, v, i) ==> i64::MIN < es_edge(es, v, i).cost * n <= i64::MAX
}

/// Same vertices, same adjacency lists, and every edge keeps its head,
/// partner index and initial capacity.
pub open spec fn es_same_shape(a: Seq<Vec<E>>, b: Seq<Vec<E>>) -> bool {
    &&& b.len() == a.len()
    &&& forall|v: int| 0 <= v < a.len() ==> #[trigger] b[v]@.len() == a[v]@.len()
    &&& forall|v: int, i: int|
        #![trigger es_is_edge(a, v, i)]
        #![trigger es_is_edge(b, v, i)]
        es_is_edge(a, v, i) ==> {
            &&& es_edge(b, v, i).to == es_edge(a, v, i).to
            &&& es_edge(b, v, i).rev == es_edge(a, v, i).rev
            &&& es_edge(b, v, i).init == es_edge(a, v, i).init
        }
}

/// Every edge has the same cost in both networks.
pub open spec fn es_same_costs(a: Seq<Vec<E>>, b: Seq<Vec<E>>) -> bool {
    forall|v: int, i: int|
        #![trigger es_is_edge(a, v, i)]
        #![trigger es_is_edge(b, v, i)]
        es_is_edge(a, v, i) ==> es_edge(b, v, i).cost == es_edge(a, v, i).cost
}

/// Every edge keeps its remaining capacity.
pub open spec fn es_same_caps(a: Seq<Vec<E>>, b: Seq<Vec<E>>) -> bool {
    forall|v: int, i: int|
        #![trigger es_is_edge(a, v, i)]
        #![trigger es_is_edge(b, v, i)]
        es_is_edge(a, v, i) ==> es_edge(b, v, i).cap == es_edge(a, v, i).cap
}

/// Every cost of `b` is `n` times the cost of the same edge in `a`.
pub open spec fn es_costs_scaled(a: Seq<Vec<E>>, b: Seq<Vec<E>>, n: int) -> bool {
    forall|v: int, i: int|
        #![trigger es_is_edge(a, v, i)]
        #![trigger es_is_edge(b, v, i)]
        es_is_edge(a, v, i) ==> es_edge(b, v, i).cost == es_edge(a, v, i).cost * n
}

/// No edge with remaining capacity leaves the visited set.
pub open spec fn visit_closed(es: Seq<Vec<E>>, visit: Seq<bool>) -> bool {
    forall|v: int, i: int|
        #[trigger] es_is_edge(es, v, i) && visit[v] && es_edge(es, v, i).cap > 0 ==> visit[es_edge(
            es,
            v,
            i,
        ).to as int]
}

/// Two adjacency lists that agree on every initial and remaining
/// capacity carry the same net outflow.
pub proof fn lemma_row_outflow_same(a: Seq<E>, b: Seq<E>)
    requires
        a.len() == b.len(),
        forall|k: int| 0 <= k < a.len() ==> #[trigger] a[k].init == b[k].init && a[k].cap == b[k].cap,
    ensures
        row_outflow(a) == row_outflow(b),
    decreases a.len(),
{
    if a.len() > 0 {
        lemma_row_outflow_same(a.drop_last(), b.drop_last());
    }
}

/// A sum does not grow when no entry grows, and shrinks when one entry
/// shrinks.
pub proof fn lemma_seq_sum_le(a: Seq<i64>, b: Seq<i64>, w: int)
    requires
        a.len() == b.len(),
        forall|k: int| 0 <= k < a.len() ==> #[trigger] a[k] <= b[k],
    ensures
        seq_sum(a) <= seq_sum(b),
        0 <= w < a.len() && a[w] < b[w] ==> seq_sum(a) < seq_sum(b),
    decreases a.len(),
{
    if a.len() > 0 {
        lemma_seq_sum_le(a.drop_last(), b.drop_last(), w);
    }
}

/// A sum of `n` machine integers is at least `n` times the smallest one.
pub proof fn lemma_seq_sum_lower_bound(s: Seq<i64>)
    ensures
        seq_sum(s) >= s.len() * i64::MIN,
    decreases s.len(),
{
    if s.len() > 0 {
        lemma_seq_sum_lower_bound(s.drop_last());
    }
}

/// Ranks between 1 and `n`, one per vertex.
pub open spec fn ranks_within(r: Seq<int>, n: int) -> bool {
    &&& r.len() == n
    &&& forall|x: int| 0 <= x < n ==> 1 <= #[trigger] r[x] <= n
}

/// Potentials `p` fit the residual edges (costs taken `scale` times) up to
/// the ranks `r`: `cost * scale + n * (p[v] - p[to]) >= r[to] - r[v] - 1`.
pub open spec fn fits_with_ranks(es: Seq<Vec<E>>, p: Seq<i64>, r: Seq<int>, scale: int) -> bool {
    forall|v: int, i: int|
        #[trigger] es_is_edge(es, v, i) && es_edge(es, v, i).cap > 0 ==> es_edge(es, v, i).cost * scale
            + es.len() * p[v] - es.len() * p[es_edge(es, v, i).to as int] >= r[es_edge(
            es,
            v,
            i,
        ).to as int] - r[v] - 1
}

/// Potentials that fit every residual edge up to some ranks between 1 and
/// the number of vertices: the certificate that the fitting step leaves.
pub open spec fn ranked_fit(es: Seq<Vec<E>>, p: Seq<i64>, scale: int) -> bool {
    exists|r: Seq<int>| ranks_within(r, es.len() as int) && fits_with_ranks(es, p, r, scale)
}

/// Pushing along an edge whose reduced cost is at most `k` keeps every
/// residual edge at reduced cost `-k` or more: the partner that gains
/// capacity has the opposite reduced cost.
proof fn lemma_push_eps_optimal(g0: Graph, g1: Graph, v: int, i: int, d: int, k: int)
    requires
        g0.wf(),
        g0.is_edge(v, i),
        g0.eps_optimal(k),
        0 <= d,
        g0.edge(v, i).cost + g0.p@[v] - g0.p@[g0.edge(v, i).to as int] <= k,
        g0.same_shape(&g1),
        g0.same_costs(&g1),
        g1.p@ == g0.p@,
        ({
            let e = g0.edge(v, i);
            &&& g1.edge(v, i).cap == e.cap - d
            &&& forall|w: int|
                0 <= w < g0.num_vertices() && w != v && w != e.to ==> #[trigger] g1.es@[w] == g0.es@[w]
            &&& forall|j: int|
                0 <= j < g0.degree(v) && j != i ==> #[trigger] g1.edge(v, j) == g0.edge(v, j)
            &&& forall|j: int|
                0 <= j < g0.degree(e.to as int) && j != e.rev ==> #[trigger] g1.edge(e.to as int, j)
                    == g0.edge(e.to as int, j)
        }),
    ensures
        g1.eps_optimal(k),
{
    let e = g0.edge(v, i);
    assert forall|w: int, j: int| #[trigger] g1.is_edge(w, j) && g1.edge(w, j).cap > 0 implies g1.edge(w, j).cost
        + g1.p@[w] - g1.p@[g1.edge(w, j).to as int] >= -k by {
        assert(es_is_edge(g0.es@, w, j));
        assert(g0.is_edge(w, j));
        assert(g1.edge(w, j).to == g0.edge(w, j).to);
        assert(g1.edge(w, j).cost == g0.edge(w, j).cost);
        if w == v && j == i {
            assert(g0.edge(w, j).cap > 0);
        } else if w == e.to && j == e.rev {
            assert(g0.partner(v, i).cost == -e.cost);
            assert(g0.partner(v, i).to == v);
        } else if w == v {
            assert(g1.edge(w, j) == g0.edge(w, j));
        } else if w == e.to {
            assert(g1.edge(w, j) == g0.edge(w, j));
        } else {
            assert(g1.es@[w] == g0.es@[w]);
        }
    }
}

/// The largest scale that `k` rounds of dividing by four leave of
/// `i64::MAX`.
pub open spec fn quarter_bound(k: nat) -> int
    decreases k,
{
    if k == 0 {
        i64::MAX as int
    } else {
        quarter_bound((k - 1) as nat) / 4
    }
}

/// After 32 divisions by four nothing is left of `i64::MAX`.
proof fn lemma_quarter_bound_zero(k: nat)
    requires
        k >= 32,
    ensures
        quarter_bound(k) == 0,
    decreases k,
{
    if k > 32 {
        lemma_quarter_bound_zero((k - 1) as nat);
    } else {
        reveal_with_fuel(quarter_bound, 33);
        assert(quarter_bound(32) == 0);
    }
}

/// One round of `eps = max(eps / 4, 1)` follows the bound down; from the
/// 32nd round on it leaves `eps == 1`.
proof fn lemma_quarter_bound_step(k: nat, before: int, after: int)
    requires
        0 <= before,
        before <= quarter_bound(k) || before <= 1,
        after == (if before / 4 > 1 {
            before / 4
        } else {
            1
        }),
    ensures
        after <= quarter_bound(k + 1) || after <= 1,
        k >= 31 ==> after == 1,
        1 <= after,
{
    assert(quarter_bound(k + 1) == quarter_bound(k) / 4);
    if k >= 31 {
        lemma_quarter_bound_zero(k + 1);
    }
}

/// `q` is the quotient of `a` by `n` rounded toward zero, as `i64`
/// division computes it: `a - q * n` lies strictly between `-n` and `n`,
/// on the side of zero that `a` is on.
proof fn lemma_truncated_quotient(a: int, n: int, q: int)
    requires
        n >= 1,
        a >= 0 ==> q == a / n,
        a < 0 ==> q == -((-a) / n),
    ensures
        a >= 0 ==> 0 <= a - q * n < n,
        a < 0 ==> 0 <= q * n - a < n,
{
    if a >= 0 {
        vstd::arithmetic::div_mod::lemma_fundamental_div_mod(a, n);
        vstd::arithmetic::div_mod::lemma_mod_bound(a, n);
        assert(n * (a / n) == q * n) by (nonlinear_arith)
            requires
                q == a / n,
        ;
    } else {
        vstd::arithmetic::div_mod::lemma_fundamental_div_mod(-a, n);
        vstd::arithmetic::div_mod::lemma_mod_bound(-a, n);
        assert(n * ((-a) / n) == -(q * n)) by (nonlinear_arith)
            requires
                q == -((-a) / n),
        ;
    }
}

impl Graph {
    #[verifier::inline]
    pub open spec fn num_vertices(&self) -> nat {
        self.es@.len()
    }

    #[verifier::inline]
    pub open spec fn degree(&self, v: int) -> nat {
        self.es@[v]@.len()
    }

    #[verifier::inline]
    pub open spec fn edge(&self, v: int, i: int) -> E {
        es_edge(self.es@, v, i)
    }

    #[verifier::inline]
    pub open spec fn is_edge(&self, v: int, i: int) -> bool {
        es_is_edge(self.es@, v, i)
    }

    #[verifier::inline]
    pub open spec fn partner(&self, v: int, i: int) -> E {
        es_partner(self.es@, v, i)
    }

    #[verifier::inline]
    pub open spec fn edges_paired(&self) -> bool {
        es_paired(self.es@)
    }

    /// Well-formedness: per-vertex vectors all have one entry per vertex and
    /// the edges are properly paired.
    pub open spec fn wf(&self) -> bool {
        &&& self.ex@.len() == self.num_vertices()
        &&& self.p@.len() == self.num_vertices()
        &&& self.edges_paired()
    }

    #[verifier::inline]
    pub open spec fn capacities_ok(&self) -> bool {
        es_capacities_ok(self.es@)
    }

    #[verifier::inline]
    pub open spec fn costs_scale_by(&self, n: int) -> bool {
        es_costs_scale_by(self.es@, n)
    }

    #[verifier::inline]
    pub open spec fn same_shape(&self, other: &Graph) -> bool {
        es_same_shape(self.es@, other.es@)
    }

    #[verifier::inline]
    pub open spec fn same_costs(&self, other: &Graph) -> bool {
        es_same_costs(self.es@, other.es@)
    }

    /// Excess plus net outflow: the supply that vertex `v` started with.
    pub open spec fn balance(&self, v: int) -> int {
        self.ex@[v] + row_outflow(self.es@[v]@)
    }

    /// Total cost of the current flow.
    pub open spec fn flow_cost(&self) -> int {
        rows_flow_cost(self.es@, self.es@.len() as int)
    }

    /// Every vertex keeps its balance (excess plus net outflow), and the
    /// excesses keep their sum.
    pub open spec fn conserves(&self, other: &Graph) -> bool {
        &&& other.ex@.len() == self.ex@.len()
        &&& forall|v: int| 0 <= v < self.num_vertices() ==> #[trigger] other.balance(v) == self.balance(v)
        &&& seq_sum(other.ex@) == seq_sum(self.ex@)
    }

    /// An edge that still has capacity and a negative reduced cost.
    pub open spec fn admissible(&self, v: int, e: E) -> bool {
        e.cap > 0 && e.cost + self.p@[v] - self.p@[e.to as int] < 0
    }

    /// Every cursor of the augmenting search stays within its list.
    pub open spec fn cursors_ok(&self, iter: Seq<usize>) -> bool {
        &&& iter.len() == self.num_vertices()
        &&& forall|w: int| 0 <= w < self.num_vertices() ==> #[trigger] iter[w] <= self.degree(w)
    }

    /// Every intermediate value of the cost computation of `val` is a
    /// machine integer.
    pub open spec fn flow_cost_fits(&self) -> bool {
        &&& forall|v: int, i: int|
            #[trigger] self.is_edge(v, i) && self.edge(v, i).cap < self.edge(v, i).init ==> {
                &&& self.edge(v, i).init - self.edge(v, i).cap <= i64::MAX
                &&& i64::MIN <= (self.edge(v, i).init - self.edge(v, i).cap) * self.edge(
                    v,
                    i,
                ).cost <= i64::MAX
            }
        &&& forall|v: int, j: int|
            #![trigger row_flow_cost(self.es@[v]@.take(j))]
            0 <= v < self.num_vertices() && 0 <= j <= self.degree(v) ==> i64::MIN
                <= rows_flow_cost(self.es@, v) + row_flow_cost(self.es@[v]@.take(j))
                <= i64::MAX
    }

    /// Creates a network of `n` vertices without edges, excess or potential.
    pub fn new(n: usize) -> (g: Graph)
        ensures
            g.wf(),
            g.num_vertices() == n,
            forall|v: int| 0 <= v < n ==> (#[trigger] g.es@[v])@.len() == 0,
            forall|v: int| 0 <= v < n ==> #[trigger] g.ex@[v] == 0,
            forall|v: int| 0 <= v < n ==> #[trigger] g.p@[v] == 0,
    {
        let mut es: Vec<Vec<E>> = Vec::new();
        let mut ex: Vec<i64> = Vec::new();
        let mut p: Vec<i64> = Vec::new();
        let mut k: usize = 0;
        while k < n
            invariant
                k <= n,
                es@.len() == k,
                ex@.len() == k,
                p@.len() == k,
                forall|v: int| 0 <= v < k ==> (#[trigger] es@[v])@.len() == 0,
                forall|v: int| 0 <= v < k ==> #[trigger] ex@[v] == 0,
                forall|v: int| 0 <= v < k ==> #[trigger] p@[v] == 0,
            decreases n - k,
        {
            es.push(Vec::new());
            ex.push(0);
            p.push(0);
            k = k + 1;
        }
        Graph { es, ex, p }
    }

    /// Adds an edge from `v` to `to` with capacity `cap` and cost `cost`,
    /// together with its partner (capacity 0, cost `-cost`) in the list of `to`.
    pub fn add(&mut self, v: usize, to: usize, cap: i64, cost: i64)
        requires
            v < old(self).num_vertices(),
            to < old(self).num_vertices(),
            cost != i64::MIN,
        ensures
            final(self).num_vertices() == old(self).num_vertices(),
            final(self).ex@ == old(self).ex@,
            final(self).p@ == old(self).p@,
            v != to ==> final(self).es@[v as int]@ == old(self).es@[v as int]@.push(
                forward_edge(to, cap, cost, old(self).es@[to as int]@.len() as usize),
            ),
            v != to ==> final(self).es@[to as int]@ == old(self).es@[to as int]@.push(
                backward_edge(v, cost, old(self).es@[v as int]@.len() as usize),
            ),
            v == to ==> final(self).es@[v as int]@ == old(self).es@[v as int]@.push(
                forward_edge(to, cap, cost, old(self).es@[to as int]@.len() as usize),
            ).push(backward_edge(v, cost, old(self).es@[v as int]@.len() as usize)),
            forall|w: int|
                0 <= w < old(self).num_vertices() && w != v && w != to
                    ==> #[trigger] final(self).es@[w] == old(self).es@[w],
            old(self).wf() && v != to ==> final(self).wf(),
            old(self).wf() && old(self).capacities_ok() && v != to && 0 <= cap
                ==> final(self).capacities_ok(),
            forall|k: int|
                old(self).costs_scale_by(k) && i64::MIN < cost * k <= i64::MAX
                    ==> #[trigger] es_costs_scale_by(final(self).es@, k),
    {
        let fwd = self.es[v].len();
        let rev = self.es[to].len();
        let ghost g0 = *self;
        self.es[v].push(E { to: to, cap: cap, init: cap, cost: cost, rev: rev });
        self.es[to].push(E { to: v, cap: 0, init: 0, cost: -cost, rev: fwd });
        proof {
            let g1 = *self;
            if v != to && g0.wf() {
                assert forall|w: int, i: int| #[trigger] g1.is_edge(w, i) implies {
                    let e = g1.edge(w, i);
                    &&& e.to < g1.num_vertices()
                    &&& e.to != w
                    &&& e.rev < g1.degree(e.to as int)
                    &&& g1.partner(w, i).to == w
                    &&& g1.partner(w, i).rev == i
                    &&& g1.partner(w, i).cost == -e.cost
                    &&& e.cap + g1.partner(w, i).cap == e.init + g1.partner(w, i).init
                } by {
                    if w == v && i == fwd as int {
                    } else if w == to && i == rev as int {
                    } else {
                        assert(g0.is_edge(w, i));
                        let e = g0.edge(w, i);
                        assert(g1.edge(w, i) == e);
                        assert(g1.edge(e.to as int, e.rev as int) == g0.edge(
                            e.to as int,
                            e.rev as int,
                        ));
                    }
                }
                if g0.capacities_ok() && 0 <= cap {
                    assert forall|w: int, i: int| #[trigger] g1.is_edge(w, i) implies {
                        &&& 0 <= g1.edge(w, i).cap
                        &&& g1.edge(w, i).cap + g1.partner(w, i).cap <= i64::MAX
                    } by {
                        if w == v && i == fwd as int {
                        } else if w == to && i == rev as int {
                        } else {
                            assert(g0.is_edge(w, i));
                            let e = g0.edge(w, i);
                            assert(g1.edge(w, i) == e);
                            assert(g1.edge(e.to as int, e.rev as int) == g0.edge(
                                e.to as int,
                                e.rev as int,
                            ));
                        }
                    }
                }
            }
            assert forall|k: int|
                g0.costs_scale_by(k) && i64::MIN < cost * k <= i64::MAX implies #[trigger] es_costs_scale_by(
                g1.es@,
                k,
            ) by {
                assert forall|w: int, i: int| #[trigger] es_is_edge(g1.es@, w, i) implies i64::MIN
                    < es_edge(g1.es@, w, i).cost * k <= i64::MAX by {
                    let ew = es_edge(g1.es@, w, i);
                    if (w == v && i >= fwd as int) || (w == to && i >= rev as int) {
                        assert(ew.cost == cost || ew.cost == -cost);
                        assert((-cost) * k == -(cost * k)) by (nonlinear_arith);
                    } else {
                        assert(es_is_edge(g0.es@, w, i));
                        assert(ew == es_edge(g0.es@, w, i));
                    }
                }
            }
        }
    }

    /// Total cost of the flow: every edge whose capacity went down pays
    /// `(init - cap) * cost`.
    pub fn val(&self) -> (tot: i64)
        requires
            self.flow_cost_fits(),
        ensures
            tot == self.flow_cost(),
    {
        let mut tot: i64 = 0;
        let n = self.es.len();
        let mut v: usize = 0;
        while v < n
            invariant
                n == self.es@.len(),
                v <= n,
                self.flow_cost_fits(),
                tot == rows_flow_cost(self.es@, v as int),
            decreases n - v,
        {
            let row = &self.es[v];
            let deg = row.len();
            let mut i: usize = 0;
            assert(row@.take(0) =~= Seq::<E>::empty());
            while i < deg
                invariant
                    n == self.es@.len(),
                    v < n,
                    row == &self.es@[v as int],
                    deg == row@.len(),
                    i <= deg,
                    self.flow_cost_fits(),
                    tot == rows_flow_cost(self.es@, v as int) + row_flow_cost(row@.take(i as int)),
                decreases deg - i,
            {
                let e = row[i];
                assert(row@.take(i + 1).drop_last() =~= row@.take(i as int));
                assert(self.is_edge(v as int, i as int));
                assert(i64::MIN <= rows_flow_cost(self.es@, v as int) + row_flow_cost(
                    self.es@[v as int]@.take(i + 1),
                ) <= i64::MAX);
                if e.cap < e.init {
                    tot = tot + (e.init - e.cap) * e.cost;
                }
                i = i + 1;
            }
            assert(row@.take(deg as int) =~= row@);
            v = v + 1;
        }
        tot
    }

    /// Moves `d` units of flow along edge `i` of `v`.
    fn push_on_pair(&mut self, v: usize, i: usize, d: i64)
        requires
            old(self).wf(),
            old(self).capacities_ok(),
            old(self).is_edge(v as int, i as int),
            0 <= d <= old(self).edge(v as int, i as int).cap,
        ensures
            final(self).wf(),
            final(self).capacities_ok(),
            old(self).same_shape(final(self)),
            old(self).same_costs(final(self)),
            final(self).ex@ == old(self).ex@,
            final(self).p@ == old(self).p@,
            ({
                let e = old(self).edge(v as int, i as int);
                &&& final(self).edge(v as int, i as int).cap == e.cap - d
                &&& final(self).edge(e.to as int, e.rev as int).cap == old(self).partner(
                    v as int,
                    i as int,
                ).cap + d
                &&& row_outflow(final(self).es@[v as int]@) == row_outflow(old(self).es@[v as int]@)
                    + d
                &&& row_outflow(final(self).es@[e.to as int]@) == row_outflow(
                    old(self).es@[e.to as int]@,
                ) - d
                &&& forall|w: int|
                    0 <= w < old(self).num_vertices() && w != v && w != e.to
                        ==> #[trigger] final(self).es@[w] == old(self).es@[w]
                &&& forall|j: int|
                    0 <= j < old(self).degree(v as int) && j != i ==> #[trigger] final(self).edge(
                        v as int,
                        j,
                    ) == old(self).edge(v as int, j)
                &&& forall|j: int|
                    0 <= j < old(self).degree(e.to as int) && j != e.rev ==> #[trigger] final(self).edge(
                        e.to as int,
                        j,
                    ) == old(self).edge(e.to as int, j)
            }),
    {
        let ghost g0 = *self;
        let e = self.es[v][i];
        proof {
            assert(g0.is_edge(v as int, i as int));
        }
        let rc = self.es[e.to][e.rev].cap;
        let new_fwd = E { cap: e.cap - d, ..e };
        self.es[v][i] = new_fwd;
        let ghost g_mid = *self;
        let r = self.es[e.to][e.rev];
        let new_bwd = E { cap: rc + d, ..r };
        self.es[e.to][e.rev] = new_bwd;
        proof {
            let g1 = *self;
            let t = e.to as int;
            let ri = e.rev as int;
            let vi = v as int;
            let ii = i as int;
            assert(g_mid.es@[vi]@ == g0.es@[vi]@.update(ii, new_fwd));
            assert(g1.es@[t]@ == g_mid.es@[t]@.update(ri, new_bwd));
            assert(g_mid.es@[t] == g0.es@[t]);
            lemma_row_outflow_update(g0.es@[vi]@, ii, new_fwd);
            lemma_row_outflow_update(g0.es@[t]@, ri, new_bwd);
            assert(g1.es@[vi] == g_mid.es@[vi]);
            assert forall|w: int, j: int| #[trigger] g1.is_edge(w, j) implies {
                let e2 = g1.edge(w, j);
                &&& e2.to < g1.num_vertices()
                &&& e2.to != w
                &&& e2.rev < g1.degree(e2.to as int)
                &&& g1.partner(w, j).to == w
                &&& g1.partner(w, j).rev == j
                &&& g1.partner(w, j).cost == -e2.cost
                &&& e2.cap + g1.partner(w, j).cap == e2.init + g1.partner(w, j).init
                &&& 0 <= e2.cap
                &&& e2.cap + g1.partner(w, j).cap <= i64::MAX
            } by {
                assert(g0.is_edge(w, j));
                let e0 = g0.edge(w, j);
                assert(g0.is_edge(e0.to as int, e0.rev as int));
                if w == vi && j == ii {
                } else if w == t && j == ri {
                } else {
                    assert(g1.edge(w, j) == e0);
                    if e0.to as int == vi && e0.rev as int == ii {
                        assert(false);
                    }
                    if e0.to as int == t && e0.rev as int == ri {
                        assert(false);
                    }
                    assert(g1.partner(w, j) == g0.partner(w, j));
                }
            }
            assert forall|w: int, j: int| #[trigger] g0.is_edge(w, j) implies {
                &&& g1.edge(w, j).to == g0.edge(w, j).to
                &&& g1.edge(w, j).rev == g0.edge(w, j).rev
                &&& g1.edge(w, j).init == g0.edge(w, j).init
                &&& g1.edge(w, j).cost == g0.edge(w, j).cost
            } by {
                if w == vi && j == ii {
                } else if w == t && j == ri {
                } else {
                    assert(g1.edge(w, j) == g0.edge(w, j));
                }
            }
        }
    }

    /// The relations between successive states of a computation compose.
    pub proof fn lemma_same_trans(a: &Graph, b: &Graph, c: &Graph)
        requires
            a.same_shape(b),
            b.same_shape(c),
        ensures
            a.same_shape(c),
            a.same_costs(b) && b.same_costs(c) ==> a.same_costs(c),
            a.conserves(b) && b.conserves(c) ==> a.conserves(c),
    {
        assert forall|v: int, i: int| #[trigger] a.is_edge(v, i) implies {
            &&& c.edge(v, i).to == a.edge(v, i).to
            &&& c.edge(v, i).rev == a.edge(v, i).rev
            &&& c.edge(v, i).init == a.edge(v, i).init
        } by {
            assert(b.is_edge(v, i));
        }
        assert forall|v: int, i: int| #[trigger] c.is_edge(v, i) implies a.is_edge(v, i) by {
            assert(b.degree(v) == a.degree(v));
            assert(c.degree(v) == b.degree(v));
        }
        if a.same_costs(b) && b.same_costs(c) {
            assert forall|v: int, i: int| #[trigger] a.is_edge(v, i) implies c.edge(v, i).cost
                == a.edge(v, i).cost by {
                assert(b.is_edge(v, i));
            }
        }
    }

    fn is_admissible(&self, v: usize, e: &E) -> (b: bool)
        requires
            v < self.p@.len(),
            e.to < self.p@.len(),
        ensures
            b == self.admissible(v as int, *e),
    {
        e.cap > 0 && (e.cost as i128) + (self.p[v] as i128) - (self.p[e.to] as i128) < 0
    }

    /// Sends up to `f` units of excess from `v` along admissible edges, to the
    /// first vertex with a deficit that the search reaches; returns the amount
    /// sent. Vertices on the current search path are not entered again.
    fn dfs(&mut self, v: usize, f: i64, iter: &mut Vec<usize>, on_path: &mut Vec<bool>) -> (d: i64)
        requires
            old(self).wf(),
            old(self).capacities_ok(),
            v < old(self).num_vertices(),
            old(self).cursors_ok(old(iter)@),
            old(on_path)@.len() == old(self).num_vertices(),
            !old(on_path)@[v as int],
            0 <= f,
        ensures
            final(self).wf(),
            final(self).capacities_ok(),
            old(self).same_shape(final(self)),
            old(self).same_costs(final(self)),
            final(self).p@ == old(self).p@,
            final(self).cursors_ok(final(iter)@),
            final(on_path)@ == old(on_path)@,
            0 <= d <= f,
            forall|w: int|
                0 <= w < old(self).num_vertices() && old(on_path)@[w] ==> {
                    &&& #[trigger] final(self).es@[w] == old(self).es@[w]
                    &&& final(iter)@[w] == old(iter)@[w]
                    &&& final(self).ex@[w] == old(self).ex@[w]
                },
            old(self).ex@[v as int] >= 0 ==> final(self).ex@[v as int] == old(self).ex@[v as int],
            final(self).ex@.len() == old(self).ex@.len(),
            forall|w: int|
                0 <= w < old(self).num_vertices() ==> #[trigger] final(self).balance(w) == old(
                    self,
                ).balance(w) + (if w == v {
                    d as int
                } else {
                    0
                }),
            seq_sum(final(self).ex@) == seq_sum(old(self).ex@) + d,
            old(self).ex@[v as int] < 0 ==> {
                &&& d == (if f < -old(self).ex@[v as int] {
                    f as int
                } else {
                    -old(self).ex@[v as int]
                })
                &&& final(self).ex@[v as int] == old(self).ex@[v as int] + d
                &&& final(self).es@ == old(self).es@
                &&& final(iter)@ == old(iter)@
            },
            old(self).ex@[v as int] >= 0 && d == 0 ==> final(iter)@[v as int] == final(self).degree(
                v as int,
            ),
            forall|k: int| 0 <= k && old(self).eps_optimal(k) ==> #[trigger] final(self).eps_optimal(k),
        decreases count_false(old(on_path)@),
    {
        let ghost g0 = *self;
        if self.ex[v] < 0 {
            let ev = self.ex[v];
            let d = if ev < -f {
                f
            } else {
                -ev
            };
            self.ex[v] = ev + d;
            proof {
                lemma_seq_sum_update(g0.ex@, v as int, (ev + d) as i64);
                assert(self.ex@ == g0.ex@.update(v as int, (ev + d) as i64));
                assert(self.es@ == g0.es@);
            }
            return d;
        }
        let ghost path0 = on_path@;
        let ghost iter0 = iter@;
        on_path[v] = true;
        proof {
            lemma_count_false_set(path0, v as int);
        }
        while iter[v] < self.es[v].len()
            invariant
                *old(self) == g0,
                old(on_path)@ == path0,
                old(iter)@ == iter0,
                iter0.len() == g0.num_vertices(),
                self.wf(),
                self.capacities_ok(),
                g0.same_shape(self),
                g0.same_costs(self),
                self.p@ == g0.p@,
                self.es@[v as int] == g0.es@[v as int],
                self.ex@.len() == g0.ex@.len(),
                self.ex@[v as int] == g0.ex@[v as int],
                0 <= g0.ex@[v as int],
                forall|w: int|
                    0 <= w < g0.num_vertices() ==> #[trigger] self.balance(w) == g0.balance(w),
                seq_sum(self.ex@) == seq_sum(g0.ex@),
                self.cursors_ok(iter@),
                on_path@ == path0.update(v as int, true),
                path0.len() == g0.num_vertices(),
                !path0[v as int],
                count_false(on_path@) + 1 == count_false(path0),
                forall|w: int|
                    0 <= w < g0.num_vertices() && path0[w] ==> {
                        &&& #[trigger] self.es@[w] == g0.es@[w]
                        &&& iter@[w] == iter0[w]
                        &&& self.ex@[w] == g0.ex@[w]
                    },
                v < g0.num_vertices(),
                0 <= f,
                forall|k: int| 0 <= k && g0.eps_optimal(k) ==> #[trigger] self.eps_optimal(k),
            decreases self.degree(v as int) - iter@[v as int],
        {
            let i = iter[v];
            let e = self.es[v][i];
            proof {
                assert(self.is_edge(v as int, i as int));
            }
            if !on_path[e.to] && self.is_admissible(v, &e) {
                let sub = if f < e.cap {
                    f
                } else {
                    e.cap
                };
                let ghost g1 = *self;
                let ghost iter1 = iter@;
                let d = self.dfs(e.to, sub, iter, on_path);
                proof {
                    assert(self.es@[v as int] == g1.es@[v as int]);
                    assert(self.edge(v as int, i as int) == e);
                    assert(self.is_edge(v as int, i as int));
                }
                if d > 0 {
                    let ghost g2 = *self;
                    self.push_on_pair(v, i, d);
                    on_path[v] = false;
                    proof {
                        assert forall|k: int| 0 <= k && g0.eps_optimal(k) implies #[trigger] self.eps_optimal(
                            k,
                        ) by {
                            assert(g1.eps_optimal(k));
                            assert(g2.eps_optimal(k));
                            assert(g2.edge(v as int, i as int) == e);
                            lemma_push_eps_optimal(g2, *self, v as int, i as int, d as int, k);
                        }
                        assert(on_path@ =~= path0);
                        assert forall|w: int| 0 <= w < g0.num_vertices() implies #[trigger] self.balance(w)
                            == g0.balance(w) + (if w == v {
                            d as int
                        } else {
                            0
                        }) by {
                            assert(g1.balance(w) == g0.balance(w));
                            if w == v {
                                assert(g2.balance(w) == g1.balance(w));
                            } else if w == e.to {
                                assert(g2.balance(w) == g1.balance(w) + d);
                            } else {
                                assert(g2.balance(w) == g1.balance(w));
                                assert(self.es@[w] == g2.es@[w]);
                            }
                        }
                        Graph::lemma_same_trans(&g0, &g1, &g2);
                        Graph::lemma_same_trans(&g0, &g2, self);
                        assert forall|w: int|
                            0 <= w < g0.num_vertices() && path0[w] implies {
                            &&& #[trigger] self.es@[w] == g0.es@[w]
                            &&& iter@[w] == iter0[w]
                            &&& self.ex@[w] == g0.ex@[w]
                        } by {
                            assert(on_path@.len() == path0.len());
                            assert(w != v);
                            assert(w != e.to);
                            assert(g1.es@[w] == g0.es@[w]);
                            assert(g2.es@[w] == g1.es@[w]);
                        }
                    }
                    return d;
                }
                proof {
                    assert forall|w: int|
                        0 <= w < g0.num_vertices() && path0[w] implies {
                        &&& #[trigger] self.es@[w] == g0.es@[w]
                        &&& iter@[w] == iter0[w]
                        &&& self.ex@[w] == g0.ex@[w]
                    } by {
                        assert(w != v);
                        assert(g1.es@[w] == g0.es@[w]);
                    }
                    Graph::lemma_same_trans(&g0, &g1, self);
                }
            }
            let ghost iter2 = iter@;
            iter[v] = i + 1;
            proof {
                assert forall|w: int|
                    0 <= w < g0.num_vertices() && path0[w] implies {
                    &&& #[trigger] self.es@[w] == g0.es@[w]
                    &&& iter@[w] == iter0[w]
                    &&& self.ex@[w] == g0.ex@[w]
                } by {
                    assert(w != v);
                    assert(iter@[w] == iter2[w]);
                }
            }
        }
        on_path[v] = false;
        proof {
            assert(on_path@ =~= path0);
        }
        0
    }

    /// Pushes the excess of `v` away until it is gone or no augmenting path
    /// is found.
    fn discharge(&mut self, v: usize, iter: &mut Vec<usize>, on_path: &mut Vec<bool>)
        requires
            old(self).wf(),
            old(self).capacities_ok(),
            v < old(self).num_vertices(),
            old(self).cursors_ok(old(iter)@),
            old(on_path)@.len() == old(self).num_vertices(),
            forall|w: int| 0 <= w < old(on_path)@.len() ==> !#[trigger] old(on_path)@[w],
        ensures
            final(self).wf(),
            final(self).capacities_ok(),
            old(self).same_shape(final(self)),
            old(self).same_costs(final(self)),
            old(self).conserves(final(self)),
            final(self).p@ == old(self).p@,
            final(self).cursors_ok(final(iter)@),
            final(on_path)@ == old(on_path)@,
            old(self).ex@[v as int] <= 0 ==> final(self).es@ == old(self).es@ && final(self).ex@
                == old(self).ex@ && final(iter)@ == old(iter)@,
            old(self).ex@[v as int] > 0 ==> 0 <= final(self).ex@[v as int] <= old(self).ex@[v as int],
            old(self).ex@[v as int] > 0 ==> final(self).ex@[v as int] == 0 || final(iter)@[v as int]
                == final(self).degree(v as int),
            forall|k: int| 0 <= k && old(self).eps_optimal(k) ==> #[trigger] final(self).eps_optimal(k),
    {
        let ghost g0 = *self;
        let ghost path0 = on_path@;
        let ghost iter0 = iter@;
        while self.ex[v] > 0
            invariant
                g0.ex@[v as int] <= 0 ==> self.es@ == g0.es@ && self.ex@ == g0.ex@ && iter@ == iter0,
                g0.ex@[v as int] > 0 ==> 0 <= self.ex@[v as int] <= g0.ex@[v as int],
                *old(self) == g0,
                old(on_path)@ == path0,
                self.wf(),
                self.capacities_ok(),
                g0.same_shape(self),
                g0.same_costs(self),
                g0.conserves(self),
                self.p@ == g0.p@,
                self.cursors_ok(iter@),
                on_path@ == path0,
                path0.len() == g0.num_vertices(),
                forall|w: int| 0 <= w < path0.len() ==> !#[trigger] path0[w],
                v < g0.num_vertices(),
                forall|k: int| 0 <= k && g0.eps_optimal(k) ==> #[trigger] self.eps_optimal(k),
            ensures
                g0.ex@[v as int] > 0 ==> self.ex@[v as int] == 0 || iter@[v as int] == self.degree(
                    v as int,
                ),
            decreases self.ex@[v as int],
        {
            let ghost g1 = *self;
            let f = self.dfs(v, self.ex[v], iter, on_path);
            proof {
                Graph::lemma_same_trans(&g0, &g1, self);
                assert forall|k: int| 0 <= k && g0.eps_optimal(k) implies #[trigger] self.eps_optimal(k) by {
                    assert(g1.eps_optimal(k));
                }
            }
            if f == 0 {
                break;
            }
            let ghost g2 = *self;
            let ev = self.ex[v];
            self.ex[v] = ev - f;
            proof {
                lemma_seq_sum_update(g2.ex@, v as int, (ev - f) as i64);
                assert(self.ex@ == g2.ex@.update(v as int, (ev - f) as i64));
                assert(self.es@ == g2.es@);
                assert forall|k: int| 0 <= k && g0.eps_optimal(k) implies #[trigger] self.eps_optimal(k) by {
                    assert(g2.eps_optimal(k));
                }
                assert forall|w: int| 0 <= w < g0.num_vertices() implies #[trigger] self.balance(w)
                    == g0.balance(w) by {
                    assert(g1.balance(w) == g0.balance(w));
                    if w == v {
                        assert(g2.balance(w) == g1.balance(w) + f);
                    } else {
                        assert(g2.balance(w) == g1.balance(w));
                    }
                }
            }
        }
    }

    /// Multiplies every cost by the number of vertices; returns the largest
    /// scaled cost, or 0 when there is no positive one.
    fn scale_costs(&mut self) -> (eps: i64)
        requires
            old(self).wf(),
            old(self).costs_scale_by(old(self).num_vertices() as int),
            old(self).num_vertices() <= i64::MAX,
        ensures
            final(self).wf(),
            old(self).same_shape(final(self)),
            es_same_caps(old(self).es@, final(self).es@),
            es_costs_scaled(old(self).es@, final(self).es@, old(self).num_vertices() as int),
            final(self).ex@ == old(self).ex@,
            final(self).p@ == old(self).p@,
            old(self).capacities_ok() ==> final(self).capacities_ok(),
            old(self).conserves(final(self)),
            0 <= eps,
    {
        let ghost g0 = *self;
        let n = self.es.len();
        let nn = n as i64;
        let mut eps: i64 = 0;
        let mut v: usize = 0;
        while v < n
            invariant
                *old(self) == g0,
                n == g0.num_vertices(),
                nn == n,
                v <= n,
                g0.wf(),
                g0.costs_scale_by(n as int),
                g0.same_shape(self),
                es_same_caps(g0.es@, self.es@),
                self.ex@ == g0.ex@,
                self.p@ == g0.p@,
                0 <= eps,
                forall|w: int, j: int|
                    #![trigger es_is_edge(g0.es@, w, j)]
                    es_is_edge(g0.es@, w, j) ==> es_edge(self.es@, w, j).cost == es_edge(
                        g0.es@,
                        w,
                        j,
                    ).cost * (if w < v {
                        n as int
                    } else {
                        1
                    }),
            decreases n - v,
        {
            let deg = self.es[v].len();
            let mut i: usize = 0;
            while i < deg
                invariant
                    *old(self) == g0,
                    n == g0.num_vertices(),
                    nn == n,
                    v < n,
                    i <= deg,
                    deg == g0.degree(v as int),
                    g0.wf(),
                    g0.costs_scale_by(n as int),
                    g0.same_shape(self),
                    es_same_caps(g0.es@, self.es@),
                    self.ex@ == g0.ex@,
                    self.p@ == g0.p@,
                    0 <= eps,
                    forall|w: int, j: int|
                        #![trigger es_is_edge(g0.es@, w, j)]
                        es_is_edge(g0.es@, w, j) ==> es_edge(self.es@, w, j).cost == es_edge(
                            g0.es@,
                            w,
                            j,
                        ).cost * (if w < v || (w == v && j < i) {
                            n as int
                        } else {
                            1
                        }),
                decreases deg - i,
            {
                proof {
                    assert(es_is_edge(g0.es@, v as int, i as int));
                }
                let e = self.es[v][i];
                let sc = e.cost * nn;
                let ghost g1 = *self;
                self.es[v][i] = E { cost: sc, ..e };
                proof {
                    assert forall|w: int, j: int| #[trigger] es_is_edge(g0.es@, w, j) implies {
                        &&& es_edge(self.es@, w, j).to == es_edge(g0.es@, w, j).to
                        &&& es_edge(self.es@, w, j).rev == es_edge(g0.es@, w, j).rev
                        &&& es_edge(self.es@, w, j).init == es_edge(g0.es@, w, j).init
                        &&& es_edge(self.es@, w, j).cap == es_edge(g0.es@, w, j).cap
                        &&& es_edge(self.es@, w, j).cost == es_edge(g0.es@, w, j).cost * (if w < v
                            || (w == v && j < i + 1) {
                            n as int
                        } else {
                            1
                        })
                    } by {
                        assert(es_is_edge(g1.es@, w, j));
                        if w == v && j == i {
                        } else {
                            assert(es_edge(self.es@, w, j) == es_edge(g1.es@, w, j));
                        }
                    }
                    assert forall|w: int, j: int| #[trigger] es_is_edge(self.es@, w, j) implies es_is_edge(
                        g0.es@,
                        w,
                        j,
                    ) by {
                        assert(es_is_edge(g1.es@, w, j));
                    }
                }
                eps.setmax(sc);
                i = i + 1;
            }
            v = v + 1;
        }
        proof {
            assert forall|w: int, j: int| #[trigger] es_is_edge(self.es@, w, j) implies {
                let e = es_edge(self.es@, w, j);
                &&& e.to < self.es@.len()
                &&& e.to != w
                &&& e.rev < self.es@[e.to as int]@.len()
                &&& es_partner(self.es@, w, j).to == w
                &&& es_partner(self.es@, w, j).rev == j
                &&& es_partner(self.es@, w, j).cost == -e.cost
                &&& e.cap + es_partner(self.es@, w, j).cap == e.init + es_partner(self.es@, w, j).init
            } by {
                assert(es_is_edge(g0.es@, w, j));
                let e0 = es_edge(g0.es@, w, j);
                assert(es_is_edge(g0.es@, e0.to as int, e0.rev as int));
                assert(es_partner(g0.es@, w, j).cost == -e0.cost);
                assert(es_partner(self.es@, w, j).cost == es_partner(g0.es@, w, j).cost * n);
                assert(-e0.cost * n == -(e0.cost * n)) by (nonlinear_arith);
            }
            if g0.capacities_ok() {
                assert forall|w: int, j: int| #[trigger] es_is_edge(self.es@, w, j) implies {
                    &&& 0 <= es_edge(self.es@, w, j).cap
                    &&& es_edge(self.es@, w, j).cap + es_partner(self.es@, w, j).cap <= i64::MAX
                } by {
                    assert(es_is_edge(g0.es@, w, j));
                    let e0 = es_edge(g0.es@, w, j);
                    assert(es_is_edge(g0.es@, e0.to as int, e0.rev as int));
                }
            }
            assert forall|w: int| 0 <= w < n implies #[trigger] self.balance(w) == g0.balance(w) by {
                assert forall|k: int| 0 <= k < g0.es@[w]@.len() implies #[trigger] g0.es@[w]@[k].init
                    == self.es@[w]@[k].init && g0.es@[w]@[k].cap == self.es@[w]@[k].cap by {
                    assert(es_is_edge(g0.es@, w, k));
                }
                lemma_row_outflow_same(g0.es@[w]@, self.es@[w]@);
            }
        }
        eps
    }

    /// Divides every cost by the number of vertices, undoing `scale_costs`.
    fn unscale_costs(&mut self, Ghost(orig): Ghost<Graph>)
        requires
            old(self).wf(),
            orig.wf(),
            orig.same_shape(old(self)),
            orig.costs_scale_by(orig.num_vertices() as int),
            es_costs_scaled(orig.es@, old(self).es@, orig.num_vertices() as int),
            orig.num_vertices() <= i64::MAX,
        ensures
            final(self).wf(),
            old(self).same_shape(final(self)),
            es_same_caps(old(self).es@, final(self).es@),
            orig.same_costs(final(self)),
            final(self).ex@ == old(self).ex@,
            final(self).p@ == old(self).p@,
            old(self).capacities_ok() ==> final(self).capacities_ok(),
            old(self).conserves(final(self)),
    {
        let ghost g0 = *self;
        let n = self.es.len();
        let nn = n as i64;
        let mut v: usize = 0;
        while v < n
            invariant
                *old(self) == g0,
                n == g0.num_vertices(),
                nn == n,
                v <= n,
                g0.wf(),
                orig.wf(),
                orig.same_shape(&g0),
                orig.costs_scale_by(n as int),
                es_costs_scaled(orig.es@, g0.es@, n as int),
                g0.same_shape(self),
                es_same_caps(g0.es@, self.es@),
                self.ex@ == g0.ex@,
                self.p@ == g0.p@,
                forall|w: int, j: int|
                    #![trigger es_is_edge(g0.es@, w, j)]
                    es_is_edge(g0.es@, w, j) ==> es_edge(self.es@, w, j).cost == (if w < v {
                        es_edge(orig.es@, w, j).cost as int
                    } else {
                        es_edge(g0.es@, w, j).cost as int
                    }),
            decreases n - v,
        {
            let deg = self.es[v].len();
            let mut i: usize = 0;
            while i < deg
                invariant
                    *old(self) == g0,
                    n == g0.num_vertices(),
                    nn == n,
                    v < n,
                    i <= deg,
                    deg == g0.degree(v as int),
                    g0.wf(),
                    orig.wf(),
                    orig.same_shape(&g0),
                    orig.costs_scale_by(n as int),
                    es_costs_scaled(orig.es@, g0.es@, n as int),
                    g0.same_shape(self),
                    es_same_caps(g0.es@, self.es@),
                    self.ex@ == g0.ex@,
                    self.p@ == g0.p@,
                    forall|w: int, j: int|
                        #![trigger es_is_edge(g0.es@, w, j)]
                        es_is_edge(g0.es@, w, j) ==> es_edge(self.es@, w, j).cost == (if w < v || (w
                            == v && j < i) {
                            es_edge(orig.es@, w, j).cost as int
                        } else {
                            es_edge(g0.es@, w, j).cost as int
                        }),
                decreases deg - i,
            {
                proof {
                    assert(es_is_edge(g0.es@, v as int, i as int));
                    assert(es_is_edge(orig.es@, v as int, i as int));
                }
                let e = self.es[v][i];
                let ghost x = es_edge(orig.es@, v as int, i as int).cost;
                let c = e.cost / nn;
                proof {
                    let y = e.cost;
                    assert(y == x * nn);
                    if y >= 0 {
                        assert(x >= 0) by (nonlinear_arith)
                            requires
                                y == x * nn,
                                nn >= 1,
                                y >= 0,
                        ;
                        vstd::arithmetic::div_mod::lemma_div_multiples_vanish(x as int, nn as int);
                        assert(nn * x == x * nn) by (nonlinear_arith);
                    } else {
                        assert(x < 0) by (nonlinear_arith)
                            requires
                                y == x * nn,
                                nn >= 1,
                                y < 0,
                        ;
                        vstd::arithmetic::div_mod::lemma_div_multiples_vanish(-x as int, nn as int);
                        assert(nn * (-x) == -(x * nn)) by (nonlinear_arith);
                    }
                }
                let ghost g1 = *self;
                self.es[v][i] = E { cost: c, ..e };
                proof {
                    assert forall|w: int, j: int| #[trigger] es_is_edge(g0.es@, w, j) implies {
                        &&& es_edge(self.es@, w, j).to == es_edge(g0.es@, w, j).to
                        &&& es_edge(self.es@, w, j).rev == es_edge(g0.es@, w, j).rev
                        &&& es_edge(self.es@, w, j).init == es_edge(g0.es@, w, j).init
                        &&& es_edge(self.es@, w, j).cap == es_edge(g0.es@, w, j).cap
                        &&& es_edge(self.es@, w, j).cost == (if w < v || (w == v && j < i + 1) {
                            es_edge(orig.es@, w, j).cost as int
                        } else {
                            es_edge(g0.es@, w, j).cost as int
                        })
                    } by {
                        assert(es_is_edge(g1.es@, w, j));
                        if w == v && j == i {
                        } else {
                            assert(es_edge(self.es@, w, j) == es_edge(g1.es@, w, j));
                        }
                    }
                    assert forall|w: int, j: int| #[trigger] es_is_edge(self.es@, w, j) implies es_is_edge(
                        g0.es@,
                        w,
                        j,
                    ) by {
                        assert(es_is_edge(g1.es@, w, j));
                    }
                }
                i = i + 1;
            }
            v = v + 1;
        }
        proof {
            assert forall|w: int, j: int| #[trigger] es_is_edge(self.es@, w, j) implies {
                let e = es_edge(self.es@, w, j);
                &&& e.to < self.es@.len()
                &&& e.to != w
                &&& e.rev < self.es@[e.to as int]@.len()
                &&& es_partner(self.es@, w, j).to == w
                &&& es_partner(self.es@, w, j).rev == j
                &&& es_partner(self.es@, w, j).cost == -e.cost
                &&& e.cap + es_partner(self.es@, w, j).cap == e.init + es_partner(self.es@, w, j).init
            } by {
                assert(es_is_edge(g0.es@, w, j));
                assert(es_is_edge(orig.es@, w, j));
                let e0 = es_edge(g0.es@, w, j);
                assert(es_is_edge(g0.es@, e0.to as int, e0.rev as int));
                assert(es_is_edge(orig.es@, e0.to as int, e0.rev as int));
            }
            if g0.capacities_ok() {
                assert forall|w: int, j: int| #[trigger] es_is_edge(self.es@, w, j) implies {
                    &&& 0 <= es_edge(self.es@, w, j).cap
                    &&& es_edge(self.es@, w, j).cap + es_partner(self.es@, w, j).cap <= i64::MAX
                } by {
                    assert(es_is_edge(g0.es@, w, j));
                    let e0 = es_edge(g0.es@, w, j);
                    assert(es_is_edge(g0.es@, e0.to as int, e0.rev as int));
                }
            }
            assert forall|w: int, j: int| #[trigger] es_is_edge(orig.es@, w, j) implies es_edge(
                self.es@,
                w,
                j,
            ).cost == es_edge(orig.es@, w, j).cost by {
                assert(es_is_edge(g0.es@, w, j));
            }
            assert forall|w: int| 0 <= w < n implies #[trigger] self.balance(w) == g0.balance(w) by {
                assert forall|k: int| 0 <= k < g0.es@[w]@.len() implies #[trigger] g0.es@[w]@[k].init
                    == self.es@[w]@[k].init && g0.es@[w]@[k].cap == self.es@[w]@[k].cap by {
                    assert(es_is_edge(g0.es@, w, k));
                }
                lemma_row_outflow_same(g0.es@[w]@, self.es@[w]@);
            }
        }
    }

    /// Nothing to move and nothing to gain: every excess is zero and every
    /// residual edge has `cost * n + p[v] - p[to] >= -1`, for `n` the number
    /// of vertices (with potentials zero: no residual edge costs less than
    /// zero).
    pub open spec fn settled_at_start(&self) -> bool {
        &&& forall|w: int| 0 <= w < self.ex@.len() ==> #[trigger] self.ex@[w] == 0
        &&& forall|v: int, i: int|
            #[trigger] self.is_edge(v, i) && self.edge(v, i).cap > 0 ==> self.edge(v, i).cost
                * self.num_vertices() + self.p@[v] - self.p@[self.edge(v, i).to as int] + 1 >= 0
    }

    /// Every admissible edge of `w` leads to a marked vertex.
    pub open spec fn admissible_closed_at(&self, visit: Seq<bool>, w: int) -> bool {
        forall|j: int|
            #[trigger] self.is_edge(w, j) && self.admissible(w, self.edge(w, j)) ==> visit[self.edge(
                w,
                j,
            ).to as int]
    }

    /// Every residual edge has reduced cost at least `-k` under the
    /// potentials `p`.
    pub open spec fn eps_optimal(&self, k: int) -> bool {
        forall|v: int, i: int|
            #[trigger] self.is_edge(v, i) && self.edge(v, i).cap > 0 ==> self.edge(v, i).cost
                + self.p@[v] - self.p@[self.edge(v, i).to as int] >= -k
    }

    /// Every residual edge has reduced cost at least -1 under the
    /// potentials `p`.
    pub open spec fn one_optimal(&self) -> bool {
        forall|v: int, i: int|
            #[trigger] self.is_edge(v, i) && self.edge(v, i).cap > 0 ==> self.edge(v, i).cost
                + self.p@[v] - self.p@[self.edge(v, i).to as int] + 1 >= 0
    }

    /// Saturating edge `i` of `v` would move an excess out of `i64`.
    pub open spec fn saturation_overflows(&self, v: int, i: int) -> bool {
        let e = self.edge(v, i);
        ||| !(i64::MIN <= self.ex@[e.to as int] + e.cap <= i64::MAX)
        ||| !(i64::MIN <= self.ex@[v] - e.cap <= i64::MAX)
    }

    /// Some residual edge whose reduced cost, with costs taken `k` times, is
    /// negative cannot be saturated without moving an excess out of `i64`.
    pub open spec fn saturation_blocked_at_scale(&self, k: int) -> bool {
        exists|w: int, j: int|
            #[trigger] es_is_edge(self.es@, w, j) && es_edge(self.es@, w, j).cap > 0 && es_edge(
                self.es@,
                w,
                j,
            ).cost * k + self.p@[w] - self.p@[es_edge(self.es@, w, j).to as int] < 0
                && self.saturation_overflows(w, j)
    }

    /// Some admissible edge cannot be saturated without moving an excess
    /// out of `i64`.
    pub open spec fn saturation_blocked(&self) -> bool {
        exists|w: int, j: int|
            #[trigger] es_is_edge(self.es@, w, j) && self.admissible(w, es_edge(self.es@, w, j))
                && self.saturation_overflows(w, j)
    }

    /// Saturates every admissible edge, moving its whole remaining capacity
    /// from the excess of its tail to the excess of its head. Gives up
    /// (returning `false`) before an excess would leave `i64`.
    fn saturate(&mut self) -> (ok: bool)
        requires
            old(self).wf(),
            old(self).capacities_ok(),
        ensures
            final(self).wf(),
            final(self).capacities_ok(),
            old(self).same_shape(final(self)),
            old(self).same_costs(final(self)),
            old(self).conserves(final(self)),
            final(self).p@ == old(self).p@,
            ok ==> forall|w: int, j: int|
                #[trigger] es_is_edge(final(self).es@, w, j) ==> !final(self).admissible(
                    w,
                    es_edge(final(self).es@, w, j),
                ),
            !ok ==> final(self).saturation_blocked(),
    {
        let ghost g0 = *self;
        let n = self.es.len();
        let mut v: usize = 0;
        while v < n
            invariant
                *old(self) == g0,
                n == g0.num_vertices(),
                v <= n,
                self.wf(),
                self.capacities_ok(),
                g0.same_shape(self),
                g0.same_costs(self),
                g0.conserves(self),
                self.p@ == g0.p@,
                forall|w: int, j: int|
                    #[trigger] es_is_edge(self.es@, w, j) && w < v ==> !self.admissible(
                        w,
                        es_edge(self.es@, w, j),
                    ),
            decreases n - v,
        {
            let deg = self.es[v].len();
            let mut i: usize = 0;
            while i < deg
                invariant
                    *old(self) == g0,
                    n == g0.num_vertices(),
                    v < n,
                    i <= deg,
                    deg == self.degree(v as int),
                    self.wf(),
                    self.capacities_ok(),
                    g0.same_shape(self),
                    g0.same_costs(self),
                    g0.conserves(self),
                    self.p@ == g0.p@,
                    forall|w: int, j: int|
                        #[trigger] es_is_edge(self.es@, w, j) && (w < v || (w == v && j < i))
                            ==> !self.admissible(w, es_edge(self.es@, w, j)),
                decreases deg - i,
            {
                let e = self.es[v][i];
                proof {
                    assert(self.is_edge(v as int, i as int));
                }
                if self.is_admissible(v, &e) {
                    let up = self.ex[e.to].checked_add(e.cap);
                    let down = self.ex[v].checked_sub(e.cap);
                    if up.is_none() || down.is_none() {
                        return false;
                    }
                    let ghost g1 = *self;
                    self.ex[e.to] = up.unwrap();
                    let ghost g_mid = *self;
                    self.ex[v] = down.unwrap();
                    let ghost g2 = *self;
                    self.push_on_pair(v, i, e.cap);
                    proof {
                        let t = e.to as int;
                        let ri = e.rev as int;
                        assert(g2.is_edge(t, ri));
                        assert(g2.partner(v as int, i as int).cost == -e.cost);
                        assert forall|w: int, j: int|
                            #[trigger] es_is_edge(self.es@, w, j) && (w < v || (w == v && j < i + 1))
                                implies !self.admissible(w, es_edge(self.es@, w, j)) by {
                            if w == v && j == i {
                            } else if w == t && j == ri {
                                assert(self.edge(t, ri).cost == g2.edge(t, ri).cost);
                            } else if w == v {
                                assert(self.edge(w, j) == g2.edge(w, j));
                                assert(es_is_edge(g2.es@, w, j));
                            } else if w == t {
                                assert(self.edge(w, j) == g2.edge(w, j));
                                assert(es_is_edge(g2.es@, w, j));
                            } else {
                                assert(self.es@[w] == g2.es@[w]);
                                assert(es_is_edge(g2.es@, w, j));
                            }
                        }
                        lemma_seq_sum_update(g1.ex@, e.to as int, up.unwrap());
                        lemma_seq_sum_update(g_mid.ex@, v as int, down.unwrap());
                        assert(g2.es@ == g1.es@);
                        assert forall|w: int| 0 <= w < n implies #[trigger] self.balance(w)
                            == g1.balance(w) by {
                            if w != v && w != e.to {
                                assert(self.es@[w] == g2.es@[w]);
                            }
                        }
                        Graph::lemma_same_trans(&g0, &g1, self);
                    }
                }
                i = i + 1;
            }
            v = v + 1;
        }
        true
    }

    /// Resets the cursors, and marks and stacks every vertex with a positive
    /// excess; returns whether there is one.
    fn mark_excess(&self, iter: &mut Vec<usize>, visit: &mut Vec<bool>, stack: &mut Vec<usize>) -> (found: bool)
        requires
            self.wf(),
            old(iter)@.len() == self.num_vertices(),
            old(visit)@.len() == self.num_vertices(),
            old(stack)@.len() == 0,
        ensures
            self.cursors_ok(final(iter)@),
            final(visit)@.len() == self.num_vertices(),
            found == (final(stack)@.len() > 0),
            forall|k: int|
                0 <= k < final(stack)@.len() ==> #[trigger] final(stack)@[k] < self.num_vertices()
                    && final(visit)@[final(stack)@[k] as int] && self.ex@[final(stack)@[k] as int] > 0,
            !found ==> forall|w: int| 0 <= w < self.num_vertices() ==> #[trigger] self.ex@[w] <= 0,
            forall|w: int|
                0 <= w < self.num_vertices() && #[trigger] final(visit)@[w] ==> final(stack)@.contains(
                    w as usize,
                ),
            forall|w: int| 0 <= w < self.num_vertices() && self.ex@[w] > 0 ==> #[trigger] final(visit)@[w],
    {
        let n = self.es.len();
        let mut v: usize = 0;
        while v < n
            invariant
                n == self.num_vertices(),
                self.wf(),
                v <= n,
                iter@.len() == n,
                visit@.len() == n,
                forall|w: int| 0 <= w < v ==> #[trigger] iter@[w] == 0,
                forall|k: int|
                    0 <= k < stack@.len() ==> #[trigger] stack@[k] < v && visit@[stack@[k] as int]
                        && self.ex@[stack@[k] as int] > 0,
                stack@.len() == 0 ==> forall|w: int| 0 <= w < v ==> #[trigger] self.ex@[w] <= 0,
                forall|w: int| 0 <= w < v && #[trigger] visit@[w] ==> stack@.contains(w as usize),
                forall|w: int| 0 <= w < v && self.ex@[w] > 0 ==> #[trigger] visit@[w],
            decreases n - v,
        {
            iter[v] = 0;
            if self.ex[v] > 0 {
                visit[v] = true;
                let ghost st0 = stack@;
                stack.push(v);
                proof {
                    assert(stack@[stack@.len() - 1] == v);
                    assert forall|w: int| 0 <= w < v + 1 && #[trigger] visit@[w] implies stack@.contains(
                        w as usize,
                    ) by {
                        if w < v {
                            let k = choose|k: int| 0 <= k < st0.len() && st0[k] == w as usize;
                            assert(stack@[k] == w as usize);
                        }
                    }
                }
            } else {
                visit[v] = false;
            }
            v = v + 1;
        }
        stack.len() > 0
    }

    /// Marks every vertex that an admissible path reaches from a stacked
    /// vertex.
    fn spread(&self, visit: &mut Vec<bool>, stack: &mut Vec<usize>)
        requires
            self.wf(),
            old(visit)@.len() == self.num_vertices(),
            forall|k: int| 0 <= k < old(stack)@.len() ==> #[trigger] old(stack)@[k] < self.num_vertices(),
            forall|w: int|
                0 <= w < self.num_vertices() && #[trigger] old(visit)@[w] ==> old(stack)@.contains(w as usize)
                    || self.admissible_closed_at(old(visit)@, w),
        ensures
            final(visit)@.len() == self.num_vertices(),
            final(stack)@.len() == 0,
            forall|w: int| 0 <= w < self.num_vertices() && old(visit)@[w] ==> #[trigger] final(visit)@[w],
            forall|w: int|
                0 <= w < self.num_vertices() && #[trigger] final(visit)@[w] ==> self.admissible_closed_at(
                    final(visit)@,
                    w,
                ),
    {
        let n = self.es.len();
        let ghost visit0 = visit@;
        while stack.len() > 0
            invariant
                n == self.num_vertices(),
                self.wf(),
                visit@.len() == n,
                visit0.len() == n,
                forall|k: int| 0 <= k < stack@.len() ==> #[trigger] stack@[k] < n,
                forall|w: int| 0 <= w < n && visit0[w] ==> #[trigger] visit@[w],
                forall|w: int|
                    0 <= w < n && #[trigger] visit@[w] ==> stack@.contains(w as usize)
                        || self.admissible_closed_at(visit@, w),
            decreases count_false(visit@), stack@.len(),
        {
            let ghost st0 = stack@;
            let ghost vis0 = visit@;
            let v = stack.pop().unwrap();
            proof {
                assert(v == st0[st0.len() - 1]);
                assert(stack@ == st0.drop_last());
                assert forall|w: int|
                    0 <= w < n && #[trigger] visit@[w] && w != v implies stack@.contains(w as usize)
                        || self.admissible_closed_at(visit@, w) by {
                    if st0.contains(w as usize) {
                        let k = choose|k: int| 0 <= k < st0.len() && st0[k] == w as usize;
                        assert(k != st0.len() - 1);
                        assert(stack@[k] == w as usize);
                    }
                }
            }
            let ghost count0 = count_false(visit@);
            let ghost len0 = stack@.len();
            let deg = self.es[v].len();
            let mut i: usize = 0;
            while i < deg
                invariant
                    n == self.num_vertices(),
                    self.wf(),
                    v < n,
                    i <= deg,
                    deg == self.degree(v as int),
                    visit@.len() == n,
                    forall|k: int| 0 <= k < stack@.len() ==> #[trigger] stack@[k] < n,
                    forall|w: int| 0 <= w < n && visit0[w] ==> #[trigger] visit@[w],
                    count_false(visit@) <= count0,
                    count_false(visit@) == count0 ==> stack@.len() == len0,
                    forall|w: int|
                        0 <= w < n && #[trigger] visit@[w] && w != v ==> stack@.contains(w as usize)
                            || self.admissible_closed_at(visit@, w),
                    forall|j: int|
                        0 <= j < i && #[trigger] self.is_edge(v as int, j) && self.admissible(
                            v as int,
                            self.edge(v as int, j),
                        ) ==> visit@[self.edge(v as int, j).to as int],
                decreases deg - i,
            {
                let e = self.es[v][i];
                proof {
                    assert(self.is_edge(v as int, i as int));
                }
                let ghost vis1 = visit@;
                let ghost st1 = stack@;
                if !visit[e.to] && self.is_admissible(v, &e) {
                    proof {
                        lemma_count_false_set(visit@, e.to as int);
                    }
                    visit[e.to] = true;
                    stack.push(e.to);
                    proof {
                        assert forall|w: int|
                            0 <= w < n && #[trigger] visit@[w] && w != v implies stack@.contains(w as usize)
                                || self.admissible_closed_at(visit@, w) by {
                            if w == e.to as int {
                                assert(stack@[stack@.len() - 1] == w as usize);
                            } else {
                                assert(vis1[w]);
                                if st1.contains(w as usize) {
                                    let k = choose|k: int| 0 <= k < st1.len() && st1[k] == w as usize;
                                    assert(stack@[k] == w as usize);
                                } else {
                                    assert(self.admissible_closed_at(vis1, w));
                                    assert forall|j: int|
                                        #[trigger] self.is_edge(w, j) && self.admissible(w, self.edge(w, j))
                                            implies visit@[self.edge(w, j).to as int] by {
                                        assert(vis1[self.edge(w, j).to as int]);
                                    }
                                }
                            }
                        }
                    }
                }
                proof {
                    assert(self.edge(v as int, i as int) == e);
                }
                i = i + 1;
            }
            proof {
                assert(self.admissible_closed_at(visit@, v as int));
            }
        }
    }

    /// Whether no edge with remaining capacity leaves the visited set.
    fn visited_closed(&self, visit: &Vec<bool>) -> (closed: bool)
        requires
            self.wf(),
            visit@.len() == self.num_vertices(),
        ensures
            closed == visit_closed(self.es@, visit@),
    {
        let n = self.es.len();
        let mut v: usize = 0;
        while v < n
            invariant
                n == self.num_vertices(),
                self.wf(),
                visit@.len() == n,
                v <= n,
                forall|w: int, j: int|
                    #![trigger es_is_edge(self.es@, w, j)]
                    es_is_edge(self.es@, w, j) && w < v && visit@[w] && es_edge(self.es@, w, j).cap
                        > 0 ==> visit@[es_edge(self.es@, w, j).to as int],
            decreases n - v,
        {
            if visit[v] {
                let deg = self.es[v].len();
                let mut i: usize = 0;
                while i < deg
                    invariant
                        n == self.num_vertices(),
                        self.wf(),
                        visit@.len() == n,
                        v < n,
                        visit@[v as int],
                        i <= deg,
                        deg == self.degree(v as int),
                        forall|w: int, j: int|
                            #![trigger es_is_edge(self.es@, w, j)]
                            es_is_edge(self.es@, w, j) && (w < v || (w == v && j < i)) && visit@[w]
                                && es_edge(self.es@, w, j).cap > 0 ==> visit@[es_edge(
                                self.es@,
                                w,
                                j,
                            ).to as int],
                    decreases deg - i,
                {
                    let e = self.es[v][i];
                    proof {
                        assert(self.is_edge(v as int, i as int));
                    }
                    if e.cap > 0 && !visit[e.to] {
                        return false;
                    }
                    i = i + 1;
                }
            }
            v = v + 1;
        }
        true
    }

    /// Lowers the potential of every visited vertex by `eps`. Gives up
    /// (returning `false`) before a potential would leave `i64`.
    fn lower_visited(&mut self, visit: &Vec<bool>, eps: i64, Ghost(witness): Ghost<int>) -> (ok: bool)
        requires
            old(self).wf(),
            visit@.len() == old(self).num_vertices(),
            1 <= eps,
            0 <= witness < visit@.len(),
            visit@[witness],
        ensures
            final(self).es@ == old(self).es@,
            final(self).ex@ == old(self).ex@,
            final(self).p@.len() == old(self).p@.len(),
            ok == forall|k: int|
                0 <= k < visit@.len() && #[trigger] visit@[k] ==> old(self).p@[k] - eps >= i64::MIN,
            ok ==> forall|k: int|
                0 <= k < visit@.len() ==> #[trigger] final(self).p@[k] == old(self).p@[k] - (if visit@[k] {
                    eps as int
                } else {
                    0
                }),
            ok ==> seq_sum(final(self).p@) < seq_sum(old(self).p@),
            ok && old(self).eps_optimal(eps as int) && (forall|w: int|
                0 <= w < visit@.len() && #[trigger] visit@[w] ==> old(self).admissible_closed_at(visit@, w))
                ==> final(self).eps_optimal(eps as int),
    {
        let ghost g0 = *self;
        let n = self.p.len();
        let mut v: usize = 0;
        while v < n
            invariant
                *old(self) == g0,
                n == g0.p@.len(),
                n == g0.num_vertices(),
                v <= n,
                1 <= eps,
                visit@.len() == n,
                self.es@ == g0.es@,
                self.ex@ == g0.ex@,
                self.p@.len() == n,
                forall|k: int|
                    0 <= k < n ==> #[trigger] self.p@[k] == g0.p@[k] - (if k < v && visit@[k] {
                        eps as int
                    } else {
                        0
                    }),
                forall|k: int| 0 <= k < v && #[trigger] visit@[k] ==> g0.p@[k] - eps >= i64::MIN,
            decreases n - v,
        {
            if visit[v] {
                let lowered = self.p[v].checked_sub(eps);
                if lowered.is_none() {
                    return false;
                }
                self.p[v] = lowered.unwrap();
            }
            v = v + 1;
        }
        proof {
            lemma_seq_sum_le(self.p@, g0.p@, witness);
            if g0.eps_optimal(eps as int) && (forall|w: int|
                0 <= w < visit@.len() && #[trigger] visit@[w] ==> g0.admissible_closed_at(visit@, w)) {
                assert forall|w: int, j: int| #[trigger] self.is_edge(w, j) && self.edge(w, j).cap > 0 implies self.edge(
                    w,
                    j,
                ).cost + self.p@[w] - self.p@[self.edge(w, j).to as int] >= -eps by {
                    let e = self.edge(w, j);
                    assert(g0.is_edge(w, j));
                    assert(g0.edge(w, j) == e);
                    assert(e.to < n);
                    if visit@[w] && !visit@[e.to as int] {
                        assert(g0.admissible_closed_at(visit@, w));
                        assert(!g0.admissible(w, e));
                    }
                }
            }
        }
        true
    }

    /// One refinement phase at the given `eps`: saturates the admissible
    /// edges, then repeatedly relabels the vertices reachable from an excess
    /// and pushes the excess to deficits, until no excess is left (`true`).
    /// Returns `false` when the excess is trapped in a set that no residual
    /// edge leaves, or when a value would leave `i64`.
    fn refine(
        &mut self,
        eps: i64,
        iter: &mut Vec<usize>,
        visit: &mut Vec<bool>,
        stack: &mut Vec<usize>,
        on_path: &mut Vec<bool>,
    ) -> (done: bool)
        requires
            old(self).wf(),
            old(self).capacities_ok(),
            1 <= eps,
            old(iter)@.len() == old(self).num_vertices(),
            old(visit)@.len() == old(self).num_vertices(),
            old(stack)@.len() == 0,
            old(on_path)@.len() == old(self).num_vertices(),
            forall|w: int| 0 <= w < old(on_path)@.len() ==> !#[trigger] old(on_path)@[w],
        ensures
            final(self).wf(),
            final(self).capacities_ok(),
            old(self).same_shape(final(self)),
            old(self).same_costs(final(self)),
            old(self).conserves(final(self)),
            final(iter)@.len() == old(self).num_vertices(),
            final(visit)@.len() == old(self).num_vertices(),
            final(stack)@.len() == 0,
            final(on_path)@ == old(on_path)@,
            done ==> forall|w: int| 0 <= w < old(self).num_vertices() ==> #[trigger] final(self).ex@[w] <= 0,
            !done ==> (exists|w: int| 0 <= w < old(self).num_vertices() && #[trigger] final(self).ex@[w] > 0)
                || final(self).saturation_blocked(),
            done ==> final(self).eps_optimal(eps as int),
    {
        let ghost g0 = *self;
        let n = self.es.len();
        if !self.saturate() {
            return false;
        }
        proof {
            assert forall|v: int, i: int| #[trigger] self.is_edge(v, i) && self.edge(v, i).cap > 0 implies self.edge(
                v,
                i,
            ).cost + self.p@[v] - self.p@[self.edge(v, i).to as int] >= -eps by {
                assert(!self.admissible(v, es_edge(self.es@, v, i)));
            }
        }
        let ghost path0 = on_path@;
        loop
            invariant
                *old(self) == g0,
                old(on_path)@ == path0,
                n == g0.num_vertices(),
                1 <= eps,
                self.wf(),
                self.capacities_ok(),
                g0.same_shape(self),
                g0.same_costs(self),
                g0.conserves(self),
                iter@.len() == n,
                visit@.len() == n,
                stack@.len() == 0,
                on_path@ == path0,
                path0.len() == n,
                forall|w: int| 0 <= w < n ==> !#[trigger] path0[w],
                self.eps_optimal(eps as int),
            decreases seq_sum(self.p@) - n * i64::MIN,
        {
            proof {
                lemma_seq_sum_lower_bound(self.p@);
            }
            let found = self.mark_excess(iter, visit, stack);
            if !found {
                return true;
            }
            let ghost witness = stack@[0];
            proof {
                assert(self.ex@[witness as int] > 0);
            }
            self.spread(visit, stack);
            if self.visited_closed(visit) {
                return false;
            }
            let ghost g1 = *self;
            if !self.lower_visited(visit, eps, Ghost(witness as int)) {
                proof {
                    assert(self.es@ == g1.es@);
                    assert forall|w: int| 0 <= w < n implies #[trigger] self.balance(w) == g1.balance(w) by {
                    }
                }
                return false;
            }
            let ghost g2 = *self;
            proof {
                assert(self.es@ == g1.es@);
                assert forall|w: int| 0 <= w < n implies #[trigger] self.balance(w) == g1.balance(w) by {
                }
            }
            let mut v: usize = 0;
            while v < n
                invariant
                    *old(self) == g0,
                    n == g0.num_vertices(),
                    v <= n,
                    self.wf(),
                    self.capacities_ok(),
                    g0.same_shape(self),
                    g0.same_costs(self),
                    g0.conserves(self),
                    self.p@ == g2.p@,
                    self.cursors_ok(iter@),
                    visit@.len() == n,
                    stack@.len() == 0,
                    on_path@ == path0,
                    path0.len() == n,
                    forall|w: int| 0 <= w < n ==> !#[trigger] path0[w],
                    self.eps_optimal(eps as int),
                    1 <= eps,
                decreases n - v,
            {
                let ghost g3 = *self;
                self.discharge(v, iter, on_path);
                proof {
                    assert(g3.eps_optimal(eps as int));
                    assert(0 <= eps as int);
                    assert(self.eps_optimal(eps as int));
                    Graph::lemma_same_trans(&g0, &g3, self);
                }
                v = v + 1;
            }
            proof {
                lemma_seq_sum_lower_bound(self.p@);
            }
        }
    }

    /// Whether every excess is zero.
    fn all_excess_zero(&self) -> (b: bool)
        ensures
            b == forall|w: int| 0 <= w < self.ex@.len() ==> #[trigger] self.ex@[w] == 0,
    {
        let n = self.ex.len();
        let mut v: usize = 0;
        while v < n
            invariant
                n == self.ex@.len(),
                v <= n,
                forall|w: int| 0 <= w < v ==> #[trigger] self.ex@[w] == 0,
            decreases n - v,
        {
            if self.ex[v] != 0 {
                return false;
            }
            v = v + 1;
        }
        true
    }

    /// Tries to turn the current potentials into exact potentials for the
    /// unscaled costs, by a shortest-path computation over the residual
    /// edges; on success stores them in `p` and returns `true`. Gives up
    /// (returning `false`) when a vertex would be improved after it was
    /// settled, or when a value would leave its integer type. The stored
    /// potentials fit every residual edge up to ranks between 1 and `n`:
    /// `cost + n * (p[v] - p[to]) >= rank[to] - rank[v] - 1`.
    fn fitting(&mut self, Ghost(orig): Ghost<Seq<Vec<E>>>) -> (fitted: bool)
        requires
            old(self).wf(),
            old(self).num_vertices() <= i64::MAX,
            es_costs_scaled(orig, old(self).es@, old(self).num_vertices() as int),
            orig.len() == old(self).num_vertices(),
            forall|v: int| 0 <= v < orig.len() ==> (#[trigger] orig[v])@.len() == old(self).degree(v),
        ensures
            final(self).es@ == old(self).es@,
            final(self).ex@ == old(self).ex@,
            final(self).p@.len() == old(self).p@.len(),
            fitted ==> ranked_fit(final(self).es@, final(self).p@, 1),
            old(self).one_optimal() ==> fitted,
            !fitted ==> *final(self) == *old(self),
    {
        let ghost g0 = *self;
        let n = self.es.len();
        let nn = n as i64;
        let mut d: Vec<i64> = Vec::new();
        let mut d2: Vec<i128> = Vec::new();
        let mut fixed: Vec<bool> = Vec::new();
        let mut que = DistQueue::new();
        let ghost mut r: Seq<int> = Seq::empty();
        let ghost good = self.one_optimal();
        let mut v: usize = 0;
        while v < n
            invariant
                *self == g0,
                n == self.num_vertices(),
                n <= i64::MAX,
                self.wf(),
                nn == n,
                v <= n,
                d@.len() == v,
                d2@.len() == v,
                fixed@.len() == v,
                r.len() == v,
                que.wf(),
                forall|x: (i128, usize)| #[trigger] que.entries().count(x) > 0 ==> x.1 < n,
                forall|x: int| 0 <= x < v ==> !#[trigger] fixed@[x],
                forall|x: int| 0 <= x < v ==> #[trigger] r[x] == 1,
                forall|x: int|
                    0 <= x < v ==> #[trigger] d2@[x] == d@[x] * (n as int) - self.p@[x] + r[x],
                forall|x: int| 0 <= x < v ==> que.entries().count((#[trigger] d2@[x], x as usize)) > 0,
                forall|x: int| 0 <= x < v ==> 2 - (n as int) <= #[trigger] d2@[x] <= n,
                forall|x: (i128, usize)|
                    #[trigger] que.entries().count(x) > 0 ==> x.1 < v && x.0 == d2@[x.1 as int],
            decreases n - v,
        {
            let a = self.p[v];
            let q = a / nn;
            proof {
                lemma_truncated_quotient(a as int, nn as int, q as int);
                let qi = q as int;
                let ni = nn as int;
                assert(-0x8000_0000_0000_0000 <= qi <= 0x7fff_ffff_ffff_ffff);
                assert(0 <= ni <= 0x7fff_ffff_ffff_ffff);
                assert(-0x4000_0000_0000_0000_0000_0000_0000_0000 <= qi * ni
                    <= 0x4000_0000_0000_0000_0000_0000_0000_0000) by (nonlinear_arith)
                    requires
                        -0x8000_0000_0000_0000 <= qi <= 0x7fff_ffff_ffff_ffff,
                        0 <= ni <= 0x7fff_ffff_ffff_ffff,
                ;
            }
            d.push(q);
            d2.push((q as i128) * (nn as i128) - (a as i128) + 1);
            fixed.push(false);
            proof {
                r = r.push(1);
                let ai = a as int;
                let qi = q as int;
                let ni = n as int;
                if ai >= 0 {
                    assert(0 <= ai - qi * ni < ni);
                } else {
                    assert(0 <= qi * ni - ai < ni);
                }
            }
            let ghost q0 = que.entries();
            que.push((d2[v], v));
            proof {
                broadcast use vstd::multiset::group_multiset_axioms;

                assert forall|x: int| 0 <= x < v + 1 implies que.entries().count(
                    (#[trigger] d2@[x], x as usize),
                ) > 0 by {
                    if x < v {
                        assert(q0.count((d2@[x], x as usize)) > 0);
                    }
                }
                assert forall|x: (i128, usize)| #[trigger] que.entries().count(x) > 0 implies x.1 < v + 1
                    && x.0 == d2@[x.1 as int] by {
                    if x != (d2@[v as int], v) {
                        assert(q0.count(x) > 0);
                    }
                }
            }
            v = v + 1;
        }
        proof {
            lemma_count_false_all(fixed@);
        }
        let ghost mut t: int = 2 - (n as int);
        while que.len() > 0
            invariant
                *self == g0,
                n == self.num_vertices(),
                self.wf(),
                nn == n,
                n <= i64::MAX,
                es_costs_scaled(orig, self.es@, n as int),
                orig.len() == n,
                forall|w: int| 0 <= w < n ==> (#[trigger] orig[w])@.len() == self.degree(w),
                d@.len() == n,
                d2@.len() == n,
                fixed@.len() == n,
                r.len() == n,
                que.wf(),
                forall|x: (i128, usize)| #[trigger] que.entries().count(x) > 0 ==> x.1 < n,
                forall|x: int|
                    0 <= x < n ==> #[trigger] d2@[x] == d@[x] * (n as int) - self.p@[x] + r[x],
                forall|x: int|
                    0 <= x < n ==> 1 <= #[trigger] r[x] && r[x] <= n - count_false(fixed@) + (if fixed@[x] {
                        0int
                    } else {
                        1int
                    }),
                forall|x: int|
                    0 <= x < n && !#[trigger] fixed@[x] ==> que.entries().count((d2@[x], x as usize)) > 0,
                forall|w: int, j: int|
                    #[trigger] self.is_edge(w, j) && fixed@[w] && self.edge(w, j).cap > 0 ==> d2@[self.edge(
                        w,
                        j,
                    ).to as int] <= d2@[w] + self.edge(w, j).cost + self.p@[w] - self.p@[self.edge(
                        w,
                        j,
                    ).to as int] + 1,
                good == self.one_optimal(),
                forall|x: (i128, usize)| #[trigger] que.entries().count(x) > 0 ==> x.0 >= d2@[x.1 as int],
                forall|x: int| 0 <= x < n ==> #[trigger] d2@[x] <= n,
                good ==> forall|x: (i128, usize)| #[trigger] que.entries().count(x) > 0 ==> x.0 >= t,
                good ==> forall|x: int| 0 <= x < n && #[trigger] fixed@[x] ==> d2@[x] <= t,
                good ==> forall|x: int| 0 <= x < n ==> 2 - (n as int) <= #[trigger] d2@[x],
                good ==> 2 - (n as int) <= t,
            decreases count_false(fixed@), que.entries().len(),
        {
            let ghost before = que.entries();
            let top = que.pop().unwrap();
            let v = top.1;
            proof {
                broadcast use vstd::multiset::group_multiset_axioms;

                assert(before.count(top) > 0);
                assert forall|x: (i128, usize)| #[trigger] que.entries().count(x) > 0 implies x.1 < n by {
                    assert(before.count(x) > 0);
                }
                assert forall|x: int| 0 <= x < n && !#[trigger] fixed@[x] && x != v implies que.entries().count(
                    (d2@[x], x as usize),
                ) > 0 by {
                    assert(before.count((d2@[x], x as usize)) > 0);
                }
                assert forall|x: (i128, usize)| #[trigger] que.entries().count(x) > 0 implies x.0
                    >= d2@[x.1 as int] by {
                    assert(before.count(x) > 0);
                }
                if good {
                    assert(top.0 >= t);
                    assert forall|x: (i128, usize)| #[trigger] que.entries().count(x) > 0 implies x.0
                        >= top.0 by {
                        assert(before.count(x) > 0);
                        assert(ahead(top, x));
                    }
                    assert(top.0 >= d2@[v as int]);
                    if !fixed@[v as int] {
                        assert(before.count((d2@[v as int], v)) > 0);
                        assert(ahead(top, (d2@[v as int], v)));
                    }
                }
                t = top.0 as int;
            }
            if fixed[v] {
                continue;
            }
            proof {
                lemma_count_false_set(fixed@, v as int);
            }
            fixed[v] = true;
            let ghost count0 = count_false(fixed@);
            let deg = self.es[v].len();
            let mut i: usize = 0;
            while i < deg
                invariant
                    *self == g0,
                    n == self.num_vertices(),
                    self.wf(),
                    nn == n,
                    n <= i64::MAX,
                    es_costs_scaled(orig, self.es@, n as int),
                    orig.len() == n,
                    forall|w: int| 0 <= w < n ==> (#[trigger] orig[w])@.len() == self.degree(w),
                    v < n,
                    i <= deg,
                    deg == self.degree(v as int),
                    d@.len() == n,
                    d2@.len() == n,
                    fixed@.len() == n,
                    fixed@[v as int],
                    r.len() == n,
                    count_false(fixed@) == count0,
                    que.wf(),
                    forall|x: (i128, usize)| #[trigger] que.entries().count(x) > 0 ==> x.1 < n,
                    forall|x: int|
                        0 <= x < n ==> #[trigger] d2@[x] == d@[x] * (n as int) - self.p@[x] + r[x],
                    forall|x: int|
                        0 <= x < n ==> 1 <= #[trigger] r[x] && r[x] <= n - count_false(fixed@) + (if fixed@[x] {
                            0int
                        } else {
                            1int
                        }),
                    forall|x: int|
                        0 <= x < n && !#[trigger] fixed@[x] ==> que.entries().count((d2@[x], x as usize)) > 0,
                    forall|w: int, j: int|
                        #[trigger] self.is_edge(w, j) && fixed@[w] && (w != v || j < i) && self.edge(w, j).cap
                            > 0 ==> d2@[self.edge(w, j).to as int] <= d2@[w] + self.edge(w, j).cost
                            + self.p@[w] - self.p@[self.edge(w, j).to as int] + 1,
                    good == self.one_optimal(),
                    forall|x: (i128, usize)| #[trigger] que.entries().count(x) > 0 ==> x.0 >= d2@[x.1 as int],
                    forall|x: int| 0 <= x < n ==> #[trigger] d2@[x] <= n,
                    good ==> forall|x: (i128, usize)| #[trigger] que.entries().count(x) > 0 ==> x.0 >= t,
                    good ==> forall|x: int| 0 <= x < n && #[trigger] fixed@[x] ==> d2@[x] <= t,
                    good ==> forall|x: int| 0 <= x < n ==> 2 - (n as int) <= #[trigger] d2@[x],
                    good ==> 2 - (n as int) <= t,
                    good ==> d2@[v as int] == t,
                decreases deg - i,
            {
                let e = self.es[v][i];
                proof {
                    assert(self.is_edge(v as int, i as int));
                }
                if e.cap > 0 {
                    let tmp = d2[v].checked_add(e.cost as i128);
                    let tmp = match tmp {
                        Some(t) => t.checked_add((self.p[v] as i128) - (self.p[e.to] as i128) + 1),
                        None => None,
                    };
                    let tmp = match tmp {
                        Some(t) => t,
                        None => {
                            return false;
                        },
                    };
                    let ghost d2_before = d2@;
                    if d2[e.to].setmin(tmp) {
                        if fixed[e.to] {
                            return false;
                        }
                        let c = e.cost / nn;
                        proof {
                            let y = e.cost as int;
                            let x = es_edge(orig, v as int, i as int).cost as int;
                            assert(es_is_edge(orig, v as int, i as int));
                            assert(y == x * nn);
                            if y >= 0 {
                                assert(x >= 0) by (nonlinear_arith)
                                    requires
                                        y == x * nn,
                                        nn >= 1,
                                        y >= 0,
                                ;
                                vstd::arithmetic::div_mod::lemma_div_multiples_vanish(x as int, nn as int);
                                assert(nn * x == x * nn) by (nonlinear_arith);
                            } else {
                                assert(x < 0) by (nonlinear_arith)
                                    requires
                                        y == x * nn,
                                        nn >= 1,
                                        y < 0,
                                ;
                                vstd::arithmetic::div_mod::lemma_div_multiples_vanish(-x as int, nn as int);
                                assert(nn * (-x) == -(x * nn)) by (nonlinear_arith);
                            }
                            assert(c as int == x);
                            let dvi = d@[v as int] as int;
                            assert((dvi + x) * (n as int) == dvi * (n as int) + x * (n as int)) by (nonlinear_arith);
                            if good {
                                let ni = n as int;
                                let to = e.to as int;
                                let big_x = dvi + x;
                                assert(e.to != v);
                                assert(ni >= 2);
                                assert(tmp >= t);
                                assert(tmp < d2_before[to]);
                                assert(1 <= r[v as int] <= ni);
                                assert(big_x * ni == tmp + self.p@[to] - 1 - r[v as int]);
                                assert(-0x8000_0000_0000_0000 <= big_x <= 0x7fff_ffff_ffff_ffff) by (nonlinear_arith)
                                    requires
                                        ni >= 2,
                                        big_x * ni >= -0x8000_0000_0000_0000 - 2 * ni - 2,
                                        big_x * ni <= 0x7fff_ffff_ffff_ffff + ni,
                                ;
                            }
                        }
                        let dv = d[v].checked_add(c);
                        let dv = match dv {
                            Some(x) => x,
                            None => {
                                return false;
                            },
                        };
                        d[e.to] = dv;
                        proof {
                            r = r.update(e.to as int, r[v as int] + 1);
                        }
                        let ghost q1 = que.entries();
                        que.push((tmp, e.to));
                        proof {
                            broadcast use vstd::multiset::group_multiset_axioms;

                            assert forall|x: int|
                                0 <= x < n && !#[trigger] fixed@[x] implies que.entries().count(
                                (d2@[x], x as usize),
                            ) > 0 by {
                                if x != e.to as int {
                                    assert(q1.count((d2@[x], x as usize)) > 0);
                                }
                            }
                        }
                    }
                    proof {
                        assert forall|w: int, j: int|
                            #[trigger] self.is_edge(w, j) && fixed@[w] && (w != v || j < i + 1)
                                && self.edge(w, j).cap > 0 implies d2@[self.edge(w, j).to as int]
                            <= d2@[w] + self.edge(w, j).cost + self.p@[w] - self.p@[self.edge(
                            w,
                            j,
                        ).to as int] + 1 by {
                            if w == v && j == i {
                            } else {
                                assert(w != e.to as int || !fixed@[e.to as int] || d2@ == d2_before);
                            }
                        }
                    }
                }
                i = i + 1;
            }
        }
        proof {
            assert forall|x: int| 0 <= x < n implies #[trigger] fixed@[x] by {
                if !fixed@[x] {
                    broadcast use vstd::multiset::group_multiset_axioms;

                    assert(que.entries().count((d2@[x], x as usize)) > 0);
                }
            }
            assert forall|w: int, j: int|
                #[trigger] es_is_edge(self.es@, w, j) && es_edge(self.es@, w, j).cap > 0 implies es_edge(
                self.es@,
                w,
                j,
            ).cost * 1 + (n as int) * d@[w] - (n as int) * d@[es_edge(self.es@, w, j).to as int] >= r[es_edge(
                self.es@,
                w,
                j,
            ).to as int] - r[w] - 1 by {
                let t = es_edge(self.es@, w, j).to as int;
                assert(self.is_edge(w, j));
                assert(fixed@[w]);
                assert(d@[w] * (n as int) == (n as int) * d@[w]) by (nonlinear_arith);
                assert(d@[t] * (n as int) == (n as int) * d@[t]) by (nonlinear_arith);
            }
            assert(ranks_within(r, n as int));
        }
        self.p = d;
        true
    }

    /// Computes a circulation that meets the demands given by the excesses,
    /// by the cost-scaling method for minimum-cost flow: afterwards the flow
    /// on an edge is `init - cap`.
    /// Returns whether a flow meeting every demand was found.
    /// For a minimum-cost flow of value F from s to t, set `ex[s] = F` and
    /// `ex[t] = -F`. Every cost times the number of vertices must fit in
    /// `i64`, and so must the total capacity of the edges at a vertex.
    ///
    /// Costs are multiplied by the number of vertices, refined by cost
    /// scaling (eps divided by 4 each round, down to 1), and the result is
    /// certified by fitting potentials. Every refinement keeps the flow
    /// eps-optimal, so after the round at eps = 1 the fitting succeeds: the
    /// round budget (counted down from `u64::MAX`) is never reached.
    /// On success the potentials left in `p` fit every residual edge up to
    /// ranks (`ranked_fit`), so no residual cycle with fewer edges than
    /// vertices has negative cost (`lemma_solved_cycles_nonnegative`); a
    /// cycle through every vertex of cost -1 is not excluded and can remain.
    /// It returns `false` only with some excess still positive, or when
    /// saturating an edge would move an excess out of `i64`; a network
    /// with nothing to move and no negative residual edge is accepted as it
    /// is.
    pub fn solve(&mut self) -> (ok: bool)
        requires
            old(self).wf(),
            old(self).capacities_ok(),
            old(self).costs_scale_by(old(self).num_vertices() as int),
            old(self).num_vertices() <= i64::MAX,
        ensures
            final(self).wf(),
            final(self).capacities_ok(),
            old(self).same_shape(final(self)),
            old(self).same_costs(final(self)),
            old(self).conserves(final(self)),
            ok ==> forall|w: int| 0 <= w < old(self).num_vertices() ==> #[trigger] final(self).ex@[w] <= 0,
            ok ==> seq_sum(old(self).ex@) <= 0,
            ok && seq_sum(old(self).ex@) == 0 ==> forall|w: int|
                0 <= w < old(self).num_vertices() ==> #[trigger] final(self).ex@[w] == 0,
            ok && seq_sum(old(self).ex@) == 0 ==> forall|w: int|
                0 <= w < old(self).num_vertices() ==> #[trigger] row_outflow(final(self).es@[w]@)
                    == old(self).balance(w),
            ok ==> ranked_fit(final(self).es@, final(self).p@, old(self).num_vertices() as int),
            old(self).settled_at_start() ==> ok,
            !ok ==> (exists|w: int| 0 <= w < old(self).num_vertices() && #[trigger] final(self).ex@[w] > 0)
                || final(self).saturation_blocked_at_scale(old(self).num_vertices() as int),
    {
        let ghost g0 = *self;
        let n = self.es.len();
        let mut eps = self.scale_costs();
        let ghost g1 = *self;
        let ghost settled = g0.settled_at_start();
        proof {
            if settled {
                assert forall|v: int, i: int| #[trigger] g1.is_edge(v, i) && g1.edge(v, i).cap > 0 implies g1.edge(
                    v,
                    i,
                ).cost + g1.p@[v] - g1.p@[g1.edge(v, i).to as int] + 1 >= 0 by {
                    assert(es_is_edge(g0.es@, v, i));
                    assert(g0.is_edge(v, i));
                }
            }
        }
        let ghost mut first = true;
        let mut iter: Vec<usize> = Vec::new();
        let mut visit: Vec<bool> = Vec::new();
        let mut on_path: Vec<bool> = Vec::new();
        let mut stack: Vec<usize> = Vec::new();
        let mut k: usize = 0;
        while k < n
            invariant
                k <= n,
                iter@.len() == k,
                visit@.len() == k,
                on_path@.len() == k,
                forall|w: int| 0 <= w < k ==> !#[trigger] on_path@[w],
            decreases n - k,
        {
            iter.push(0);
            visit.push(false);
            on_path.push(false);
            k = k + 1;
        }
        let mut ok = self.all_excess_zero();
        proof {
            if settled {
                assert forall|w: int| 0 <= w < self.ex@.len() implies #[trigger] self.ex@[w] == 0 by {
                    assert(g0.ex@[w] == 0);
                }
            }
        }
        let mut rounds: u64 = u64::MAX;
        let mut result = false;
        let ghost mut used: int = 0;
        let ghost mut refined_at_one = false;
        let ghost path0 = on_path@;
        loop
            invariant_except_break
                !result,
                first ==> *self == g1,
                first && settled ==> ok,
                rounds == u64::MAX - used,
                0 <= used <= 33,
                eps <= quarter_bound(used as nat) || eps <= 1,
                used >= 33 ==> refined_at_one,
                refined_at_one ==> ok && self.eps_optimal(1),
            invariant
                *old(self) == g0,
                n == g0.num_vertices(),
                g0.wf(),
                g0.costs_scale_by(n as int),
                n <= i64::MAX,
                g0.same_shape(&g1),
                es_costs_scaled(g0.es@, g1.es@, n as int),
                self.wf(),
                self.capacities_ok(),
                g1.same_shape(self),
                g1.same_costs(self),
                g0.conserves(self),
                0 <= eps,
                iter@.len() == n,
                visit@.len() == n,
                stack@.len() == 0,
                on_path@ == path0,
                path0.len() == n,
                forall|w: int| 0 <= w < n ==> !#[trigger] path0[w],
                ok ==> forall|w: int| 0 <= w < n ==> #[trigger] self.ex@[w] <= 0,
                settled == g0.settled_at_start(),
                settled ==> g1.one_optimal(),
                settled ==> first,
            ensures
                !result ==> (exists|w: int| 0 <= w < n && #[trigger] self.ex@[w] > 0)
                    || self.saturation_blocked(),
                settled ==> result,
                result ==> forall|w: int| 0 <= w < n ==> #[trigger] self.ex@[w] <= 0,
                result ==> ranked_fit(self.es@, self.p@, 1),
            decreases rounds,
        {
            let ghost eps_head = eps;
            eps = if eps / 4 > 1 {
                eps / 4
            } else {
                1
            };
            proof {
                lemma_quarter_bound_step(used as nat, eps_head as int, eps as int);
            }
            if ok {
                let ghost g2 = *self;
                proof {
                    assert forall|w: int, j: int|
                        #![trigger es_is_edge(g0.es@, w, j)]
                        #![trigger es_is_edge(self.es@, w, j)]
                        es_is_edge(g0.es@, w, j) implies es_edge(self.es@, w, j).cost == es_edge(
                        g0.es@,
                        w,
                        j,
                    ).cost * (n as int) by {
                        assert(es_is_edge(g1.es@, w, j));
                    }
                    assert forall|w: int| 0 <= w < n implies (#[trigger] g0.es@[w])@.len() == self.degree(
                        w,
                    ) by {
                        assert(g1.es@[w]@.len() == g0.es@[w]@.len());
                    }
                }
                let fitted = self.fitting(Ghost(g0.es@));
                proof {
                    assert forall|w: int| 0 <= w < n implies #[trigger] self.balance(w) == g2.balance(w) by {
                    }
                }
                if fitted {
                    result = true;
                    break;
                }
            }
            if rounds == 0 {
                proof {
                    assert(false);
                }
                break;
            }
            rounds = rounds - 1;
            ok = false;
            let ghost g3 = *self;
            let done = self.refine(eps, &mut iter, &mut visit, &mut stack, &mut on_path);
            proof {
                first = false;
            }
            proof {
                Graph::lemma_same_trans(&g1, &g3, self);
            }
            if !done {
                break;
            }
            ok = true;
            proof {
                refined_at_one = eps == 1;
                used = used + 1;
            }
        }
        let ghost g4 = *self;
        proof {
            assert forall|w: int, j: int| #[trigger] es_is_edge(g0.es@, w, j) implies es_edge(
                self.es@,
                w,
                j,
            ).cost == es_edge(g0.es@, w, j).cost * (n as int) by {
                assert(es_is_edge(g1.es@, w, j));
            }
            Graph::lemma_same_trans(&g0, &g1, self);
        }
        self.unscale_costs(Ghost(g0));
        proof {
            Graph::lemma_same_trans(&g0, &g1, &g4);
            Graph::lemma_same_trans(&g0, &g4, self);
            if result {
                lemma_seq_sum_le(self.ex@, Seq::new(n as nat, |k: int| 0i64), 0);
                lemma_seq_sum_zeros(n as nat);
                if seq_sum(g0.ex@) == 0 {
                    lemma_solved_meets_demands(g0, *self);
                }
                let r = choose|r: Seq<int>| ranks_within(r, n as int) && fits_with_ranks(g4.es@, g4.p@, r, 1);
                assert forall|v: int, i: int|
                    #[trigger] es_is_edge(self.es@, v, i) && es_edge(self.es@, v, i).cap > 0 implies es_edge(
                    self.es@,
                    v,
                    i,
                ).cost * (n as int) + self.es@.len() * self.p@[v] - self.es@.len() * self.p@[es_edge(
                    self.es@,
                    v,
                    i,
                ).to as int] >= r[es_edge(self.es@, v, i).to as int] - r[v] - 1 by {
                    assert(es_is_edge(g0.es@, v, i));
                    assert(es_is_edge(g4.es@, v, i));
                    assert(es_edge(g4.es@, v, i).cost * 1 == es_edge(g4.es@, v, i).cost);
                }
                assert(fits_with_ranks(self.es@, self.p@, r, n as int));
            } else if !(exists|w: int| 0 <= w < n && #[trigger] self.ex@[w] > 0) {
                assert(!(exists|w: int| 0 <= w < n && #[trigger] g4.ex@[w] > 0));
                assert(g4.saturation_blocked());
                let (w, j) = choose|w: int, j: int|
                    #[trigger] es_is_edge(g4.es@, w, j) && g4.admissible(w, es_edge(g4.es@, w, j))
                        && g4.saturation_overflows(w, j);
                assert(es_is_edge(g0.es@, w, j));
                assert(es_is_edge(self.es@, w, j));
                assert(es_edge(self.es@, w, j).cost * (n as int) == es_edge(g4.es@, w, j).cost);
                assert(self.saturation_overflows(w, j));
            }
        }
        result
    }
}

/// The network of an assignment problem as built, before any flow: `n`
/// rows with supplies `sup`, `m` columns and a sink (vertex `n + m`). Row
/// `r` has an edge of capacity 1 and cost `-w[r][c]` to every column `c`;
/// every column has an edge of capacity 1 and cost 0 to the sink, whose
/// demand is the total supply.
pub open spec fn assignment_network_built(w: Seq<Vec<i64>>, sup: Seq<i64>, g: Graph) -> bool {
    let n = w.len() as int;
    let m = w[0]@.len() as int;
    &&& g.num_vertices() == n + m + 1
    &&& g.ex@.len() == n + m + 1
    &&& forall|r: int| 0 <= r < n ==> #[trigger] g.degree(r) == m
    &&& forall|r: int| 0 <= r < n ==> #[trigger] g.ex@[r] == sup[r]
    &&& forall|r: int, c: int|
        0 <= r < n && 0 <= c < m ==> #[trigger] g.es@[r]@[c] == forward_edge(
            (n + c) as usize,
            1,
            (-w[r]@[c]) as i64,
            r as usize,
        )
    &&& forall|x: int| n <= x < n + m ==> #[trigger] g.degree(x) == n + 1
    &&& forall|x: int| n <= x < n + m ==> #[trigger] g.ex@[x] == 0
    &&& forall|x: int|
        n <= x < n + m ==> #[trigger] g.es@[x]@[n] == forward_edge((n + m) as usize, 1, 0, (x - n) as usize)
    &&& forall|x: int, r: int|
        n <= x < n + m && 0 <= r < n ==> #[trigger] g.es@[x]@[r] == backward_edge(
            r as usize,
            (-w[r]@[x - n]) as i64,
            (x - n) as usize,
        )
    &&& g.degree(n + m) == m
    &&& g.ex@[n + m] == -seq_sum(sup)
    &&& forall|c: int|
        0 <= c < m ==> #[trigger] g.es@[n + m]@[c] == backward_edge((n + c) as usize, 0, n as usize)
}

/// A flow on the network of an assignment problem, as `solve` leaves it:
/// the edges keep their heads, pairing, capacities and costs, every row
/// keeps its supply `sup[r]` and every column its zero balance.
pub open spec fn assignment_flow(w: Seq<Vec<i64>>, sup: Seq<i64>, g: Graph) -> bool {
    let n = w.len() as int;
    let m = w[0]@.len() as int;
    &&& g.wf()
    &&& g.capacities_ok()
    &&& g.num_vertices() == n + m + 1
    &&& forall|r: int| 0 <= r < n ==> #[trigger] g.degree(r) == m
    &&& forall|r: int| 0 <= r < n ==> #[trigger] g.balance(r) == sup[r]
    &&& forall|r: int, c: int|
        0 <= r < n && 0 <= c < m ==> {
            &&& (#[trigger] g.edge(r, c)).to == n + c
            &&& g.edge(r, c).init == 1
            &&& g.edge(r, c).rev == r
            &&& g.edge(r, c).cost == -w[r]@[c]
        }
    &&& forall|x: int| n <= x < n + m ==> #[trigger] g.degree(x) == n + 1
    &&& forall|x: int| n <= x < n + m ==> #[trigger] g.balance(x) == 0
    &&& forall|x: int| n <= x < n + m ==> (#[trigger] g.edge(x, n)).to == n + m && g.edge(x, n).init == 1
    &&& forall|x: int, r: int|
        n <= x < n + m && 0 <= r < n ==> (#[trigger] g.edge(x, r)).to == r && g.edge(x, r).init == 0
            && g.edge(x, r).rev == x - n
    &&& forall|x: int| n <= x < n + m ==> (#[trigger] g.edge(x, n)).rev == x - n && g.edge(x, n).cost == 0
    &&& g.degree(n + m) == m
    &&& forall|c: int|
        0 <= c < m ==> (#[trigger] g.edge(n + m, c)).to == n + c && g.edge(n + m, c).init == 0 && g.edge(
            n + m,
            c,
        ).rev == n
}

/// The sum of the first `k` entries of non-negative machine integers is at
/// most the sum of them all.
proof fn lemma_seq_sum_prefix(s: Seq<i64>, k: int)
    requires
        0 <= k <= s.len(),
        forall|i: int| 0 <= i < s.len() ==> 0 <= #[trigger] s[i],
    ensures
        0 <= seq_sum(s.take(k)) <= seq_sum(s),
        k < s.len() ==> seq_sum(s.take(k + 1)) == seq_sum(s.take(k)) + s[k],
    decreases s.len(),
{
    if k < s.len() {
        assert(s.take(k + 1).drop_last() =~= s.take(k));
        lemma_seq_sum_prefix(s.drop_last(), if k < s.len() - 1 { k } else { k });
        if k < s.len() - 1 {
            assert(s.drop_last().take(k) =~= s.take(k));
            lemma_seq_sum_prefix(s.drop_last(), k);
        } else {
            assert(s.take(k) =~= s.drop_last());
        }
    } else {
        assert(s.take(k) =~= s);
        if s.len() > 0 {
            lemma_seq_sum_prefix(s.drop_last(), s.len() - 1);
            assert(s.drop_last().take(s.len() - 1) =~= s.drop_last());
        }
    }
}

/// How many of the first `k` columns row `r` sends flow to (their edge has
/// no capacity left).
pub open spec fn columns_taken(g: Graph, r: int, k: int) -> int
    decreases k,
{
    if k <= 0 {
        0
    } else {
        columns_taken(g, r, k - 1) + (if g.edge(r, k - 1).cap == 0 {
            1int
        } else {
            0
        })
    }
}

/// How many of the first `k` rows send flow to column `c`.
pub open spec fn rows_taking(g: Graph, c: int, k: int) -> int
    decreases k,
{
    if k <= 0 {
        0
    } else {
        rows_taking(g, c, k - 1) + (if g.edge(k - 1, c).cap == 0 {
            1int
        } else {
            0
        })
    }
}

/// On the edges from row `r` to the first `k` columns, the outflow is the
/// number of columns taken.
proof fn lemma_row_outflow_counts(w: Seq<Vec<i64>>, sup: Seq<i64>, g: Graph, r: int, k: int)
    requires
        assignment_flow(w, sup, g),
        0 <= r < w.len(),
        0 <= k <= w[0]@.len(),
    ensures
        row_outflow(g.es@[r]@.take(k)) == columns_taken(g, r, k),
    decreases k,
{
    if k > 0 {
        let n = w.len() as int;
        lemma_row_outflow_counts(w, sup, g, r, k - 1);
        assert(g.es@[r]@.take(k).drop_last() =~= g.es@[r]@.take(k - 1));
        assert(g.is_edge(r, k - 1));
        let e = g.edge(r, k - 1);
        assert(e.to == n + k - 1 && e.init == 1 && e.rev == r);
        assert(g.is_edge(n + k - 1, r));
        assert(g.edge(n + k - 1, r).init == 0);
        assert(g.partner(r, k - 1) == g.edge(n + k - 1, r));
    }
}

/// On the edges from column `n + c` back to the first `k` rows, the
/// outflow is minus the number of rows that send flow to `c`.
proof fn lemma_column_outflow_counts(w: Seq<Vec<i64>>, sup: Seq<i64>, g: Graph, c: int, k: int)
    requires
        assignment_flow(w, sup, g),
        0 <= c < w[0]@.len(),
        0 <= k <= w.len(),
    ensures
        row_outflow(g.es@[w.len() + c]@.take(k)) == -rows_taking(g, c, k),
    decreases k,
{
    if k > 0 {
        let n = w.len() as int;
        let x = n + c;
        lemma_column_outflow_counts(w, sup, g, c, k - 1);
        assert(g.es@[x]@.take(k).drop_last() =~= g.es@[x]@.take(k - 1));
        assert(g.is_edge(x, k - 1));
        let e = g.edge(x, k - 1);
        assert(e.to == k - 1 && e.init == 0 && e.rev == c);
        assert(g.is_edge(k - 1, c));
        assert(g.edge(k - 1, c).init == 1);
        assert(g.partner(x, k - 1) == g.edge(k - 1, c));
    }
}

/// Two different rows that both send flow to `c` count twice.
proof fn lemma_rows_taking_two(g: Graph, c: int, k: int, r1: int, r2: int)
    requires
        0 <= r1 < k,
        0 <= r2 < k,
        r1 != r2,
        g.edge(r1, c).cap == 0,
        g.edge(r2, c).cap == 0,
    ensures
        rows_taking(g, c, k) >= 2,
    decreases k,
{
    lemma_rows_taking_nonneg(g, c, k - 1);
    if r1 < k - 1 && r2 < k - 1 {
        lemma_rows_taking_two(g, c, k - 1, r1, r2);
    } else if r1 == k - 1 {
        lemma_rows_taking_one(g, c, k - 1, r2);
    } else {
        lemma_rows_taking_one(g, c, k - 1, r1);
    }
}

/// Two different columns that row `r` sends flow to count twice.
proof fn lemma_columns_taken_two(g: Graph, r: int, k: int, c1: int, c2: int)
    requires
        0 <= c1 < k,
        0 <= c2 < k,
        c1 != c2,
        g.edge(r, c1).cap == 0,
        g.edge(r, c2).cap == 0,
    ensures
        columns_taken(g, r, k) >= 2,
    decreases k,
{
    lemma_columns_taken_bounds(g, r, k - 1);
    if c1 < k - 1 && c2 < k - 1 {
        lemma_columns_taken_two(g, r, k - 1, c1, c2);
    } else if c1 == k - 1 {
        lemma_columns_taken_one(g, r, k - 1, c2);
    } else {
        lemma_columns_taken_one(g, r, k - 1, c1);
    }
}

/// A column that row `r` sends flow to counts once.
proof fn lemma_columns_taken_one(g: Graph, r: int, k: int, c: int)
    requires
        0 <= c < k,
        g.edge(r, c).cap == 0,
    ensures
        columns_taken(g, r, k) >= 1,
    decreases k,
{
    lemma_columns_taken_bounds(g, r, k - 1);
    if c < k - 1 {
        lemma_columns_taken_one(g, r, k - 1, c);
    }
}

proof fn lemma_columns_taken_bounds(g: Graph, r: int, k: int)
    ensures
        columns_taken(g, r, k) >= 0,
    decreases k,
{
    if k > 0 {
        lemma_columns_taken_bounds(g, r, k - 1);
    }
}

/// A row that sends flow to `c` counts once.
proof fn lemma_rows_taking_one(g: Graph, c: int, k: int, r: int)
    requires
        0 <= r < k,
        g.edge(r, c).cap == 0,
    ensures
        rows_taking(g, c, k) >= 1,
    decreases k,
{
    lemma_rows_taking_nonneg(g, c, k - 1);
    if r < k - 1 {
        lemma_rows_taking_one(g, c, k - 1, r);
    }
}

proof fn lemma_rows_taking_nonneg(g: Graph, c: int, k: int)
    ensures
        rows_taking(g, c, k) >= 0,
    decreases k,
{
    if k > 0 {
        lemma_rows_taking_nonneg(g, c, k - 1);
    }
}

/// A flow on the network of an assignment problem that leaves no excess at
/// the rows and columns is an assignment: every row `r` sends flow to
/// exactly `sup[r]` columns, and no column receives flow from two rows.
pub proof fn lemma_balanced_assignment(w: Seq<Vec<i64>>, sup: Seq<i64>, g: Graph)
    requires
        assignment_flow(w, sup, g),
        w.len() >= 1,
        forall|v: int| 0 <= v < w.len() + w[0]@.len() ==> #[trigger] g.ex@[v] == 0,
    ensures
        forall|r: int| 0 <= r < w.len() ==> #[trigger] columns_taken(g, r, w[0]@.len() as int) == sup[r],
        forall|c: int, r1: int, r2: int|
            0 <= c < w[0]@.len() && 0 <= r1 < w.len() && 0 <= r2 < w.len() && r1 != r2
                && #[trigger] g.edge(r1, c).cap == 0 ==> #[trigger] g.edge(r2, c).cap != 0,
{
    let n = w.len() as int;
    let m = w[0]@.len() as int;
    assert forall|r: int| 0 <= r < n implies #[trigger] columns_taken(g, r, m) == sup[r] by {
        lemma_row_outflow_counts(w, sup, g, r, m);
        assert(g.es@[r]@.take(m) =~= g.es@[r]@);
        assert(g.balance(r) == sup[r]);
    }
    assert forall|c: int, r1: int, r2: int|
        0 <= c < m && 0 <= r1 < n && 0 <= r2 < n && r1 != r2 && #[trigger] g.edge(r1, c).cap == 0 implies #[trigger] g.edge(
        r2,
        c,
    ).cap != 0 by {
        let x = n + c;
        lemma_column_outflow_counts(w, sup, g, c, n);
        assert(g.es@[x]@.take(n + 1).drop_last() =~= g.es@[x]@.take(n));
        assert(g.es@[x]@.take(n + 1) =~= g.es@[x]@);
        assert(g.is_edge(x, n));
        assert(g.balance(x) == 0);
        assert(g.edge(x, n).cap >= 0);
        if g.edge(r2, c).cap == 0 {
            lemma_rows_taking_two(g, c, n, r1, r2);
        }
    }
}

/// Exchange optimality of a certified assignment flow: when row `r1`
/// takes column `c1` and row `r2` takes column `c2` (and neither takes the
/// other's), giving `r1` column `c2` and `r2` column `c1` cannot raise the
/// total weight. The swap is a residual cycle of four edges, which the
/// certificate makes non-negative once the network has more than four
/// vertices.
pub proof fn lemma_assignment_swap(
    w: Seq<Vec<i64>>,
    sup: Seq<i64>,
    g: Graph,
    r1: int,
    r2: int,
    c1: int,
    c2: int,
)
    requires
        assignment_flow(w, sup, g),
        ranked_fit(g.es@, g.p@, g.num_vertices() as int),
        w.len() + w[0]@.len() >= 4,
        0 <= r1 < w.len(),
        0 <= r2 < w.len(),
        r1 != r2,
        0 <= c1 < w[0]@.len(),
        0 <= c2 < w[0]@.len(),
        c1 != c2,
        g.edge(r1, c1).cap == 0,
        g.edge(r2, c2).cap == 0,
        g.edge(r1, c2).cap != 0,
        g.edge(r2, c1).cap != 0,
    ensures
        w[r1]@[c1] + w[r2]@[c2] >= w[r1]@[c2] + w[r2]@[c1],
{
    let n = w.len() as int;
    let walk = seq![(r1, c2), (n + c2, r2), (r2, c1), (n + c1, r1)];
    assert(g.is_edge(r1, c2) && g.is_edge(r2, c1) && g.is_edge(r1, c1) && g.is_edge(r2, c2));
    assert(g.is_edge(n + c2, r2) && g.is_edge(n + c1, r1));
    assert(g.edge(r2, c2).to == n + c2 && g.edge(r2, c2).rev == r2);
    assert(g.partner(r2, c2) == g.edge(n + c2, r2));
    assert(g.edge(r1, c1).to == n + c1 && g.edge(r1, c1).rev == r1);
    assert(g.partner(r1, c1) == g.edge(n + c1, r1));
    assert(g.edge(n + c2, r2).cap > 0);
    assert(g.edge(n + c1, r1).cap > 0);
    assert(residual_cycle(g.es@, walk));
    lemma_solved_cycles_nonnegative(g, walk);
    reveal_with_fuel(walk_cost, 5);
    assert(walk.drop_last().drop_last().drop_last().drop_last() =~= Seq::<(int, int)>::empty());
    assert(walk_cost(g.es@, walk) == -w[r1]@[c2] + w[r2]@[c2] - w[r2]@[c1] + w[r1]@[c1]);
}

/// Exchange optimality against a free column: when row `r` takes column
/// `c` and no row takes column `c2`, moving `r` to `c2` cannot raise the
/// total weight (once the network has more than four vertices).
pub proof fn lemma_assignment_move(w: Seq<Vec<i64>>, sup: Seq<i64>, g: Graph, r: int, c: int, c2: int)
    requires
        assignment_flow(w, sup, g),
        ranked_fit(g.es@, g.p@, g.num_vertices() as int),
        w.len() + w[0]@.len() >= 4,
        forall|v: int| 0 <= v < w.len() + w[0]@.len() ==> #[trigger] g.ex@[v] == 0,
        0 <= r < w.len(),
        0 <= c < w[0]@.len(),
        0 <= c2 < w[0]@.len(),
        g.edge(r, c).cap == 0,
        forall|r2: int| 0 <= r2 < w.len() ==> #[trigger] g.edge(r2, c2).cap != 0,
    ensures
        w[r]@[c] >= w[r]@[c2],
{
    let n = w.len() as int;
    let m = w[0]@.len() as int;
    let walk = seq![(r, c2), (n + c2, n), (n + m, c), (n + c, r)];
    assert(c != c2);
    assert(g.is_edge(r, c2) && g.is_edge(r, c));
    assert(g.is_edge(n + c2, n) && g.is_edge(n + c, n) && g.is_edge(n + m, c) && g.is_edge(n + c, r));
    assert(g.edge(r, c).to == n + c && g.edge(r, c).rev == r);
    assert(g.partner(r, c) == g.edge(n + c, r));
    assert(g.partner(n + m, c) == g.edge(n + c, n));
    // column c2 receives nothing, so its edge to the sink is unused
    lemma_column_outflow_counts(w, sup, g, c2, n);
    lemma_rows_taking_zero(g, c2, n);
    assert(g.es@[n + c2]@.take(n + 1).drop_last() =~= g.es@[n + c2]@.take(n));
    assert(g.es@[n + c2]@.take(n + 1) =~= g.es@[n + c2]@);
    assert(g.balance(n + c2) == 0);
    assert(g.edge(n + c2, n).cap > 0);
    // column c receives from r, so its edge to the sink carries flow
    lemma_column_outflow_counts(w, sup, g, c, n);
    lemma_rows_taking_one(g, c, n, r);
    assert(g.es@[n + c]@.take(n + 1).drop_last() =~= g.es@[n + c]@.take(n));
    assert(g.es@[n + c]@.take(n + 1) =~= g.es@[n + c]@);
    assert(g.balance(n + c) == 0);
    assert(g.edge(n + c, n).cap >= 0);
    assert(g.edge(n + c, n).cap == 0);
    assert(g.edge(n + m, c).cap > 0);
    assert(g.edge(n + c, r).cap > 0);
    assert(g.edge(n + m, c).cost == 0);
    assert(residual_cycle(g.es@, walk));
    lemma_solved_cycles_nonnegative(g, walk);
    reveal_with_fuel(walk_cost, 5);
    assert(walk.drop_last().drop_last().drop_last().drop_last() =~= Seq::<(int, int)>::empty());
    assert(walk_cost(g.es@, walk) == -w[r]@[c2] + w[r]@[c]);
}

/// No row sending flow to `c` counts nothing.
proof fn lemma_rows_taking_zero(g: Graph, c: int, k: int)
    requires
        forall|r: int| 0 <= r < k ==> #[trigger] g.edge(r, c).cap != 0,
    ensures
        rows_taking(g, c, k) == 0,
    decreases k,
{
    if k > 0 {
        lemma_rows_taking_zero(g, c, k - 1);
    }
}

/// `solve` on a built assignment network leaves a flow on that network.
proof fn lemma_assignment_flow_after_solve(w: Seq<Vec<i64>>, sup: Seq<i64>, g0: Graph, g1: Graph)
    requires
        g0.wf(),
        forall|v: int, i: int| #[trigger] g0.is_edge(v, i) ==> g0.edge(v, i).cap == g0.edge(v, i).init,
        assignment_network_built(w, sup, g0),
        g1.wf(),
        g1.capacities_ok(),
        g0.same_shape(&g1),
        g0.same_costs(&g1),
        g0.conserves(&g1),
        forall|r: int, c: int|
            0 <= r < w.len() && 0 <= c < w[0]@.len() ==> i64::MIN < #[trigger] w[r]@[c],
        w.len() + w[0]@.len() + 1 <= usize::MAX,
    ensures
        assignment_flow(w, sup, g1),
{
    let n = w.len() as int;
    let m = w[0]@.len() as int;
    lemma_unused_balance_is_excess(g0);
    assert forall|r: int, c: int| 0 <= r < n && 0 <= c < m implies {
        &&& (#[trigger] g1.edge(r, c)).to == n + c
        &&& g1.edge(r, c).init == 1
        &&& g1.edge(r, c).rev == r
        &&& g1.edge(r, c).cost == -w[r]@[c]
    } by {
        assert(g0.es@[r]@[c] == forward_edge((n + c) as usize, 1, (-w[r]@[c]) as i64, r as usize));
        assert(es_is_edge(g0.es@, r, c));
        assert(i64::MIN < w[r]@[c]);
    }
    assert forall|x: int| n <= x < n + m implies (#[trigger] g1.edge(x, n)).to == n + m && g1.edge(x, n).init
        == 1 by {
        assert(g0.es@[x]@[n] == forward_edge((n + m) as usize, 1, 0, (x - n) as usize));
        assert(es_is_edge(g0.es@, x, n));
    }
    assert forall|x: int, r: int| n <= x < n + m && 0 <= r < n implies (#[trigger] g1.edge(x, r)).to == r
        && g1.edge(x, r).init == 0 && g1.edge(x, r).rev == x - n by {
        assert(es_is_edge(g0.es@, x, r));
    }
    assert forall|r: int| 0 <= r < n implies #[trigger] g1.degree(r) == m by {
        assert(g0.degree(r) == m);
    }
    assert forall|r: int| 0 <= r < n implies #[trigger] g1.balance(r) == sup[r] by {
        assert(g0.balance(r) == g0.ex@[r]);
    }
    assert forall|x: int| n <= x < n + m implies #[trigger] g1.degree(x) == n + 1 by {
        assert(g0.degree(x) == n + 1);
    }
    assert forall|x: int| n <= x < n + m implies #[trigger] g1.balance(x) == 0 by {
        assert(g0.balance(x) == g0.ex@[x]);
    }
    assert forall|x: int| n <= x < n + m implies (#[trigger] g1.edge(x, n)).rev == x - n && g1.edge(
        x,
        n,
    ).cost == 0 by {
        assert(g0.es@[x]@[n] == forward_edge((n + m) as usize, 1, 0, (x - n) as usize));
        assert(es_is_edge(g0.es@, x, n));
    }
    assert forall|c: int| 0 <= c < m implies (#[trigger] g1.edge(n + m, c)).to == n + c && g1.edge(
        n + m,
        c,
    ).init == 0 && g1.edge(n + m, c).rev == n by {
        assert(g0.es@[n + m]@[c] == backward_edge((n + c) as usize, 0, n as usize));
        assert(es_is_edge(g0.es@, n + m, c));
    }
}

/// The supplies `cap[0..n]` as machine integers.
pub open spec fn caps_supply(cap: Seq<usize>, n: nat) -> Seq<i64> {
    Seq::new(n, |i: int| cap[i] as i64)
}

/// `n` supplies of one unit each.
pub open spec fn ones(n: nat) -> Seq<i64> {
    Seq::new(n, |i: int| 1i64)
}

proof fn lemma_seq_sum_ones(n: nat)
    ensures
        seq_sum(ones(n)) == n,
    decreases n,
{
    if n > 0 {
        assert(ones(n).drop_last() =~= ones((n - 1) as nat));
        lemma_seq_sum_ones((n - 1) as nat);
    }
}

/// Builds the network of the assignment problem with weights `w` and row
/// supplies `sup`: an edge of capacity 1 from every row to every column,
/// of cost minus the weight; an edge of capacity 1 from every column to the
/// sink; the sink demands the total supply.
fn build_assignment_network(w: &Vec<Vec<i64>>, sup: &Vec<i64>) -> (g: Graph)
    requires
        w@.len() >= 1,
        sup@.len() == w@.len(),
        w@.len() + w@[0]@.len() + 1 <= i64::MAX,
        w@.len() + w@[0]@.len() + 1 <= usize::MAX,
        weights_within(w@, w@.len() as int, w@[0]@.len() as int, (w@.len() + w@[0]@.len() + 1) as int),
        forall|i: int| 0 <= i < sup@.len() ==> 0 <= #[trigger] sup@[i],
        seq_sum(sup@) <= i64::MAX,
    ensures
        g.wf(),
        g.capacities_ok(),
        g.costs_scale_by(g.num_vertices() as int),
        forall|v: int, i: int| #[trigger] g.is_edge(v, i) ==> g.edge(v, i).cap == g.edge(v, i).init,
        assignment_network_built(w@, sup@, g),
{
    let n = w.len();
    let m = w[0].len();
    let big = n + m + 1;
    let mut g = Graph::new(big);
    let mut i: usize = 0;
    while i < n
        invariant
            n == w@.len(),
            m == w@[0]@.len(),
            n >= 1,
            big == n + m + 1,
            big <= i64::MAX,
            sup@.len() == n,
            forall|k: int| 0 <= k < n ==> 0 <= #[trigger] sup@[k],
            seq_sum(sup@) <= i64::MAX,
            weights_within(w@, n as int, m as int, big as int),
            i <= n,
            g.wf(),
            g.capacities_ok(),
            g.num_vertices() == big,
            g.ex@.len() == big,
            g.costs_scale_by(big as int),
            forall|v: int, k: int| #[trigger] g.is_edge(v, k) ==> g.edge(v, k).cap == g.edge(v, k).init,
            forall|r: int| 0 <= r < i ==> #[trigger] g.degree(r) == m,
            forall|r: int| 0 <= r < i ==> #[trigger] g.ex@[r] == sup@[r],
            forall|r: int| i <= r < n ==> #[trigger] g.degree(r) == 0,
            forall|r: int, c: int|
                0 <= r < i && 0 <= c < m ==> #[trigger] g.es@[r]@[c] == forward_edge(
                    (n + c) as usize,
                    1,
                    (-w@[r]@[c]) as i64,
                    r as usize,
                ),
            forall|x: int| n <= x < n + m ==> #[trigger] g.degree(x) == i,
            forall|x: int| n <= x < n + m ==> #[trigger] g.ex@[x] == 0,
            forall|x: int, r: int|
                n <= x < n + m && 0 <= r < i ==> #[trigger] g.es@[x]@[r] == backward_edge(
                    r as usize,
                    (-w@[r]@[x - n]) as i64,
                    (x - n) as usize,
                ),
            g.degree(n + m) == 0,
            g.ex@[(n + m) as int] == -seq_sum(sup@.take(i as int)),
        decreases n - i,
    {
        proof {
            lemma_seq_sum_prefix(sup@, i as int);
            lemma_seq_sum_prefix(sup@, i + 1);
        }
        let c0 = sup[i];
        g.ex[i] = c0;
        let e_sink = g.ex[n + m];
        g.ex[n + m] = e_sink - c0;
        let mut j: usize = 0;
        while j < m
            invariant
                n == w@.len(),
                m == w@[0]@.len(),
                big == n + m + 1,
                big <= i64::MAX,
                sup@.len() == n,
                weights_within(w@, n as int, m as int, big as int),
                i < n,
                j <= m,
                g.wf(),
                g.capacities_ok(),
                g.num_vertices() == big,
                g.ex@.len() == big,
                g.costs_scale_by(big as int),
                forall|v: int, k: int| #[trigger] g.is_edge(v, k) ==> g.edge(v, k).cap == g.edge(v, k).init,
                forall|r: int| 0 <= r <= i ==> #[trigger] g.ex@[r] == sup@[r],
                forall|r: int| 0 <= r < i ==> #[trigger] g.degree(r) == m,
                forall|r: int| i < r < n ==> #[trigger] g.degree(r) == 0,
                g.degree(i as int) == j,
                forall|r: int, c: int|
                    0 <= r < i && 0 <= c < m ==> #[trigger] g.es@[r]@[c] == forward_edge(
                        (n + c) as usize,
                        1,
                        (-w@[r]@[c]) as i64,
                        r as usize,
                    ),
                forall|c: int|
                    0 <= c < j ==> #[trigger] g.es@[i as int]@[c] == forward_edge(
                        (n + c) as usize,
                        1,
                        (-w@[i as int]@[c]) as i64,
                        i as usize,
                    ),
                forall|x: int| n <= x < n + m ==> #[trigger] g.degree(x) == (if x < n + j {
                    i + 1
                } else {
                    i as int
                }),
                forall|x: int| n <= x < n + m ==> #[trigger] g.ex@[x] == 0,
                forall|x: int, r: int|
                    n <= x < n + m && 0 <= r < i ==> #[trigger] g.es@[x]@[r] == backward_edge(
                        r as usize,
                        (-w@[r]@[x - n]) as i64,
                        (x - n) as usize,
                    ),
                forall|x: int|
                    n <= x < n + j ==> #[trigger] g.es@[x]@[i as int] == backward_edge(
                        i as usize,
                        (-w@[i as int]@[x - n]) as i64,
                        (x - n) as usize,
                    ),
                g.degree(n + m) == 0,
                g.ex@[(n + m) as int] == -seq_sum(sup@.take(i + 1)),
            decreases m - j,
        {
            proof {
                lemma_negatable(w@[i as int]@[j as int] as int, big as int);
            }
            let ghost g0 = g;
            g.add(i, n + j, 1, -w[i][j]);
            proof {
                let t = (n + j) as int;
                assert forall|v: int, k: int| #[trigger] g.is_edge(v, k) implies g.edge(v, k).cap == g.edge(
                    v,
                    k,
                ).init by {
                    if v == i && k == j {
                    } else if v == t && k == i {
                    } else if v == i || v == t {
                        assert(g0.is_edge(v, k));
                    } else {
                        assert(g.es@[v] == g0.es@[v]);
                        assert(g0.is_edge(v, k));
                    }
                }
                assert forall|r: int| 0 <= r < i implies #[trigger] g.degree(r) == m by {
                    assert(g.es@[r] == g0.es@[r]);
                }
                assert forall|r: int| i < r < n implies #[trigger] g.degree(r) == 0 by {
                    assert(g.es@[r] == g0.es@[r]);
                }
                assert forall|r: int, c: int|
                    0 <= r < i && 0 <= c < m implies #[trigger] g.es@[r]@[c] == forward_edge(
                    (n + c) as usize,
                    1,
                    (-w@[r]@[c]) as i64,
                    r as usize,
                ) by {
                    assert(g.es@[r] == g0.es@[r]);
                }
                assert forall|c: int|
                    0 <= c < j + 1 implies #[trigger] g.es@[i as int]@[c] == forward_edge(
                    (n + c) as usize,
                    1,
                    (-w@[i as int]@[c]) as i64,
                    i as usize,
                ) by {
                    if c < j {
                        assert(g.es@[i as int]@[c] == g0.es@[i as int]@[c]);
                    }
                }
                assert forall|x: int| n <= x < n + m implies #[trigger] g.degree(x) == (if x < n + j + 1 {
                    i + 1
                } else {
                    i as int
                }) by {
                    if x != t {
                        assert(g.es@[x] == g0.es@[x]);
                    }
                }
                assert forall|x: int, r: int|
                    n <= x < n + m && 0 <= r < i implies #[trigger] g.es@[x]@[r] == backward_edge(
                    r as usize,
                    (-w@[r]@[x - n]) as i64,
                    (x - n) as usize,
                ) by {
                    if x != t {
                        assert(g.es@[x] == g0.es@[x]);
                    } else {
                        assert(g.es@[x]@[r] == g0.es@[x]@[r]);
                    }
                }
                assert forall|x: int|
                    n <= x < n + j + 1 implies #[trigger] g.es@[x]@[i as int] == backward_edge(
                    i as usize,
                    (-w@[i as int]@[x - n]) as i64,
                    (x - n) as usize,
                ) by {
                    if x != t {
                        assert(g.es@[x] == g0.es@[x]);
                    }
                }
                assert(g.es@[(n + m) as int] == g0.es@[(n + m) as int]);
            }
            j = j + 1;
        }
        i = i + 1;
    }
    proof {
        assert(sup@.take(n as int) =~= sup@);
    }
    let mut j: usize = 0;
    while j < m
        invariant
            n == w@.len(),
            m == w@[0]@.len(),
            big == n + m + 1,
            big <= i64::MAX,
            sup@.len() == n,
            j <= m,
            g.wf(),
            g.capacities_ok(),
            g.num_vertices() == big,
            g.ex@.len() == big,
            g.costs_scale_by(big as int),
            forall|v: int, k: int| #[trigger] g.is_edge(v, k) ==> g.edge(v, k).cap == g.edge(v, k).init,
            forall|r: int| 0 <= r < n ==> #[trigger] g.degree(r) == m,
            forall|r: int| 0 <= r < n ==> #[trigger] g.ex@[r] == sup@[r],
            forall|r: int, c: int|
                0 <= r < n && 0 <= c < m ==> #[trigger] g.es@[r]@[c] == forward_edge(
                    (n + c) as usize,
                    1,
                    (-w@[r]@[c]) as i64,
                    r as usize,
                ),
            forall|x: int| n <= x < n + m ==> #[trigger] g.degree(x) == (if x < n + j {
                n + 1
            } else {
                n as int
            }),
            forall|x: int| n <= x < n + m ==> #[trigger] g.ex@[x] == 0,
            forall|x: int|
                n <= x < n + j ==> #[trigger] g.es@[x]@[n as int] == forward_edge(
                    (n + m) as usize,
                    1,
                    0,
                    (x - n) as usize,
                ),
            forall|x: int, r: int|
                n <= x < n + m && 0 <= r < n ==> #[trigger] g.es@[x]@[r] == backward_edge(
                    r as usize,
                    (-w@[r]@[x - n]) as i64,
                    (x - n) as usize,
                ),
            g.degree(n + m) == j,
            forall|c: int|
                0 <= c < j ==> #[trigger] g.es@[(n + m) as int]@[c] == backward_edge(
                    (n + c) as usize,
                    0,
                    n as usize,
                ),
            g.ex@[(n + m) as int] == -seq_sum(sup@),
        decreases m - j,
    {
        proof {
            lemma_negatable(0, big as int);
        }
        let ghost g0 = g;
        g.add(n + j, n + m, 1, 0);
        proof {
            let t = (n + j) as int;
            let sk = (n + m) as int;
            assert forall|v: int, k: int| #[trigger] g.is_edge(v, k) implies g.edge(v, k).cap == g.edge(
                v,
                k,
            ).init by {
                if v == t && k == n {
                } else if v == sk && k == j {
                } else if v == t || v == sk {
                    assert(g0.is_edge(v, k));
                } else {
                    assert(g.es@[v] == g0.es@[v]);
                    assert(g0.is_edge(v, k));
                }
            }
            assert forall|r: int| 0 <= r < n implies #[trigger] g.degree(r) == m by {
                assert(g.es@[r] == g0.es@[r]);
            }
            assert forall|r: int, c: int|
                0 <= r < n && 0 <= c < m implies #[trigger] g.es@[r]@[c] == forward_edge(
                (n + c) as usize,
                1,
                (-w@[r]@[c]) as i64,
                r as usize,
            ) by {
                assert(g.es@[r] == g0.es@[r]);
            }
            assert forall|x: int| n <= x < n + m implies #[trigger] g.degree(x) == (if x < n + j + 1 {
                n + 1
            } else {
                n as int
            }) by {
                if x != t {
                    assert(g.es@[x] == g0.es@[x]);
                }
            }
            assert forall|x: int|
                n <= x < n + j + 1 implies #[trigger] g.es@[x]@[n as int] == forward_edge(
                (n + m) as usize,
                1,
                0,
                (x - n) as usize,
            ) by {
                if x != t {
                    assert(g.es@[x] == g0.es@[x]);
                }
            }
            assert forall|x: int, r: int|
                n <= x < n + m && 0 <= r < n implies #[trigger] g.es@[x]@[r] == backward_edge(
                r as usize,
                (-w@[r]@[x - n]) as i64,
                (x - n) as usize,
            ) by {
                if x != t {
                    assert(g.es@[x] == g0.es@[x]);
                } else {
                    assert(g.es@[x]@[r] == g0.es@[x]@[r]);
                }
            }
            assert forall|c: int|
                0 <= c < j + 1 implies #[trigger] g.es@[(n + m) as int]@[c] == backward_edge(
                (n + c) as usize,
                0,
                n as usize,
            ) by {
                if c < j {
                    assert(g.es@[sk]@[c] == g0.es@[sk]@[c]);
                }
            }
        }
        j = j + 1;
    }
    g
}

/// Sum of the weights that the first `k` rows are assigned to.
pub open spec fn assignment_score(w: Seq<Vec<i64>>, to: Seq<usize>, k: int) -> int
    decreases k,
{
    if k <= 0 {
        0
    } else {
        assignment_score(w, to, k - 1) + w[k - 1]@[to[k - 1] as int]
    }
}

/// Sum of the weights of one row at the chosen columns.
pub open spec fn row_picks_score(row: Seq<i64>, picks: Seq<usize>) -> int
    decreases picks.len(),
{
    if picks.len() == 0 {
        0
    } else {
        row_picks_score(row, picks.drop_last()) + row[picks.last() as int]
    }
}

/// Sum of the weights that the first `k` rows are assigned to, when a row
/// may take several columns.
pub open spec fn multi_assignment_score(w: Seq<Vec<i64>>, to: Seq<Vec<usize>>, k: int) -> int
    decreases k,
{
    if k <= 0 {
        0
    } else {
        multi_assignment_score(w, to, k - 1) + row_picks_score(w[k - 1]@, to[k - 1]@)
    }
}

/// Sum of the first `k` entries.
pub open spec fn usize_prefix_sum(s: Seq<usize>, k: int) -> int
    decreases k,
{
    if k <= 0 {
        0
    } else {
        usize_prefix_sum(s, k - 1) + s[k - 1]
    }
}

/// The weight table has `n` rows of at least `m` entries, each entry times
/// `bound` a machine integer.
pub open spec fn weights_within(w: Seq<Vec<i64>>, n: int, m: int, bound: int) -> bool {
    &&& w.len() == n
    &&& forall|i: int| 0 <= i < n ==> #[trigger] w[i]@.len() >= m
    &&& forall|i: int, j: int|
        0 <= i < n && 0 <= j < m ==> i64::MIN < #[trigger] w[i]@[j] * bound <= i64::MAX
}

/// Adding one more term to a running sum keeps `|sum| * bound <= k * MAX`.
proof fn lemma_bounded_sum_step(sum: int, x: int, k: int, bound: int)
    requires
        bound >= 1,
        0 <= k,
        k + 1 <= bound,
        -(k * i64::MAX) <= sum * bound <= k * i64::MAX,
        i64::MIN < x * bound <= i64::MAX,
    ensures
        -((k + 1) * i64::MAX) <= (sum + x) * bound <= (k + 1) * i64::MAX,
        i64::MIN <= sum + x <= i64::MAX,
{
    assert((sum + x) * bound == sum * bound + x * bound) by (nonlinear_arith);
    assert((k + 1) * i64::MAX == k * i64::MAX + i64::MAX) by (nonlinear_arith);
    assert((k + 1) * i64::MAX <= bound * i64::MAX) by (nonlinear_arith)
        requires
            k + 1 <= bound,
    ;
    let t = sum + x;
    assert(t <= i64::MAX) by (nonlinear_arith)
        requires
            t * bound <= bound * i64::MAX,
            bound >= 1,
    ;
    assert(t >= -i64::MAX) by (nonlinear_arith)
        requires
            -(bound * i64::MAX) <= t * bound,
            bound >= 1,
    ;
}

/// A weight whose product with a bound of at least 2 is a machine integer
/// can be negated.
proof fn lemma_negatable(x: int, bound: int)
    requires
        bound >= 2,
        i64::MIN < x * bound <= i64::MAX,
    ensures
        i64::MIN < x,
        i64::MIN < (-x) * bound <= i64::MAX,
        i64::MIN < 0 * bound <= i64::MAX,
{
    assert(i64::MIN < x) by (nonlinear_arith)
        requires
            bound >= 2,
            i64::MIN < x * bound,
    ;
    assert((-x) * bound == -(x * bound)) by (nonlinear_arith);
    assert(0 * bound == 0) by (nonlinear_arith);
}

/// Assignment of every row `i` of `w` to a column `to[i]` by a minimum-cost
/// flow (cost minus the weight) from the rows through the columns, each
/// used once, to a sink; needs at least as many columns as rows. Row `i`
/// takes the last column whose edge carries flow. The flow is as optimal as
/// `solve` certifies: no residual cycle shorter than the whole network has
/// negative cost, and a cycle through every vertex of cost -1 may remain
/// (for the single row `[2, 3]` the result is column 0). Returns the total
/// weight and `to`.
pub fn weighted_matching(w: &Vec<Vec<i64>>) -> (res: (i64, Vec<usize>))
    requires
        w@.len() >= 1,
        w@[0]@.len() >= 1,
        w@.len() + w@[0]@.len() + 1 <= i64::MAX,
        w@.len() + w@[0]@.len() + 1 <= usize::MAX,
        weights_within(w@, w@.len() as int, w@[0]@.len() as int, (w@.len() + w@[0]@.len() + 1) as int),
    ensures
        res.1@.len() == w@.len(),
        forall|i: int| 0 <= i < w@.len() ==> #[trigger] res.1@[i] < w@[0]@.len(),
        res.0 == assignment_score(w@, res.1@, w@.len() as int),
        exists|g: Graph|
            #![trigger assignment_flow(w@, ones(w@.len()), g)]
            {
                &&& assignment_flow(w@, ones(w@.len()), g)
                &&& forall|r: int|
                    0 <= r < w@.len() ==> columns_taken(g, r, w@[0]@.len() as int) > 0 ==> g.edge(
                        r,
                        #[trigger] res.1@[r] as int,
                    ).cap == 0
                &&& (forall|v: int| 0 <= v < w@.len() + w@[0]@.len() ==> #[trigger] g.ex@[v] == 0)
                    ==> forall|r1: int, r2: int|
                    0 <= r1 < w@.len() && 0 <= r2 < w@.len() && r1 != r2 ==> #[trigger] res.1@[r1]
                        != #[trigger] res.1@[r2]
                &&& (forall|v: int| 0 <= v < w@.len() + w@[0]@.len() ==> #[trigger] g.ex@[v] == 0)
                    && ranked_fit(g.es@, g.p@, g.num_vertices() as int) && w@.len() + w@[0]@.len() >= 4
                    ==> {
                    &&& forall|r1: int, r2: int|
                        0 <= r1 < w@.len() && 0 <= r2 < w@.len() && r1 != r2 ==> w@[r1]@[#[trigger] res.1@[r1] as int]
                            + w@[r2]@[#[trigger] res.1@[r2] as int] >= w@[r1]@[res.1@[r2] as int]
                            + w@[r2]@[res.1@[r1] as int]
                    &&& forall|r: int, c: int|
                        0 <= r < w@.len() && 0 <= c < w@[0]@.len() && (forall|r2: int|
                            0 <= r2 < w@.len() ==> res.1@[r2] != c) ==> w@[r]@[#[trigger] res.1@[r] as int]
                            >= #[trigger] w@[r]@[c]
                }
            },
{
    let n = w.len();
    let m = w[0].len();
    assert(n + m + 1 <= i64::MAX);
    let big = n + m + 1;
    let mut sup: Vec<i64> = Vec::new();
    let mut k: usize = 0;
    while k < n
        invariant
            k <= n,
            n == w@.len(),
            sup@ == ones(k as nat),
        decreases n - k,
    {
        sup.push(1);
        proof {
            assert(sup@ =~= ones((k + 1) as nat));
        }
        k = k + 1;
    }
    proof {
        lemma_seq_sum_ones(n as nat);
        assert forall|i: int| 0 <= i < sup@.len() implies 0 <= #[trigger] sup@[i] by {
        }
    }
    let mut g = build_assignment_network(w, &sup);
    let ghost g1 = g;
    proof {
        assert forall|r: int| 0 <= r < n implies (#[trigger] g1.es@[r])@.len() == m by {
            assert(g1.degree(r) == m);
        }
        assert forall|r: int, c: int| 0 <= r < n && 0 <= c < m implies (#[trigger] g1.es@[r]@[c]).to == n
            + c by {
            assert(g1.es@[r]@[c] == forward_edge(
                (n + c) as usize,
                1,
                (-w@[r]@[c]) as i64,
                r as usize,
            ));
        }
    }
    g.solve();
    proof {
        assert forall|r: int, c: int|
            0 <= r < w@.len() && 0 <= c < w@[0]@.len() implies i64::MIN < #[trigger] w@[r]@[c] by {
            lemma_negatable(w@[r]@[c] as int, big as int);
        }
        lemma_assignment_flow_after_solve(w@, sup@, g1, g);
    }
    let mut to: Vec<usize> = Vec::new();
    let mut score: i64 = 0;
    let mut i: usize = 0;
    while i < n
        invariant
            n == w@.len(),
            m == w@[0]@.len(),
            big == n + m + 1,
            big <= i64::MAX,
            weights_within(w@, n as int, m as int, big as int),
            i <= n,
            g.num_vertices() == big,
            g1.same_shape(&g),
            forall|r: int| 0 <= r < n ==> (#[trigger] g1.es@[r])@.len() == m,
            forall|r: int, c: int| 0 <= r < n && 0 <= c < m ==> (#[trigger] g1.es@[r]@[c]).to == n + c,
            to@.len() == i,
            forall|r: int| 0 <= r < i ==> #[trigger] to@[r] < m,
            score == assignment_score(w@, to@, i as int),
            -(i * i64::MAX) <= score * big <= i * i64::MAX,
            m >= 1,
            g1.num_vertices() == big,
            assignment_flow(w@, ones(n as nat), g),
            forall|r: int|
                0 <= r < i ==> columns_taken(g, r, m as int) > 0 ==> g.edge(r, #[trigger] to@[r] as int).cap
                    == 0,
        decreases n - i,
    {
        let deg = g.es[i].len();
        proof {
            assert(g.degree(i as int) == g1.degree(i as int));
        }
        let mut t: usize = 0;
        let mut k: usize = 0;
        while k < deg
            invariant
                n == w@.len(),
                m == w@[0]@.len(),
                i < n,
                deg == m,
                deg == g.degree(i as int),
                g.num_vertices() == big,
                g1.same_shape(&g),
                g1.num_vertices() == big,
                big == n + m + 1,
                m >= 1,
                g1.es@[i as int]@.len() == m,
                forall|c: int| 0 <= c < m ==> (#[trigger] g1.es@[i as int]@[c]).to == n + c,
                k <= deg,
                t < m,
                columns_taken(g, i as int, k as int) > 0 ==> g.edge(i as int, t as int).cap == 0,
            decreases deg - k,
        {
            let e = g.es[i][k];
            proof {
                assert(es_is_edge(g1.es@, i as int, k as int));
                assert(e.to == n + k);
            }
            if e.cap == 0 {
                t = e.to - n;
            }
            k = k + 1;
        }
        proof {
            lemma_bounded_sum_step(score as int, w@[i as int]@[t as int] as int, i as int, big as int);
        }
        score = score + w[i][t];
        let ghost to_old = to@;
        to.push(t);
        proof {
            assert(to@.take(i as int) =~= to_old);
            assert forall|r: int|
                0 <= r < i + 1 implies columns_taken(g, r, m as int) > 0 ==> g.edge(
                r,
                #[trigger] to@[r] as int,
            ).cap == 0 by {
                if r < i {
                    assert(to@[r] == to_old[r]);
                }
            }
            lemma_assignment_score_prefix(w@, to@, i as int, i as int);
        }
        i = i + 1;
    }
    proof {
        if forall|v: int| 0 <= v < n + m ==> #[trigger] g.ex@[v] == 0 {
            lemma_balanced_assignment(w@, ones(n as nat), g);
            assert forall|r1: int, r2: int|
                0 <= r1 < n && 0 <= r2 < n && r1 != r2 implies #[trigger] to@[r1] != #[trigger] to@[r2] by {
                assert(columns_taken(g, r1, m as int) == 1);
                assert(columns_taken(g, r2, m as int) == 1);
                assert(g.edge(r1, to@[r1] as int).cap == 0);
                assert(g.edge(r2, to@[r2] as int).cap == 0);
            }
            if ranked_fit(g.es@, g.p@, g.num_vertices() as int) && n + m >= 4 {
                assert forall|r1: int, r2: int|
                    0 <= r1 < n && 0 <= r2 < n && r1 != r2 implies w@[r1]@[#[trigger] to@[r1] as int]
                    + w@[r2]@[#[trigger] to@[r2] as int] >= w@[r1]@[to@[r2] as int] + w@[r2]@[to@[r1] as int] by {
                    let c1 = to@[r1] as int;
                    let c2 = to@[r2] as int;
                    assert(columns_taken(g, r1, m as int) == 1);
                    assert(columns_taken(g, r2, m as int) == 1);
                    assert(g.edge(r1, c1).cap == 0);
                    assert(g.edge(r2, c2).cap == 0);
                    assert(to@[r1] != to@[r2]);
                    assert(g.edge(r1, c2).cap != 0);
                    assert(g.edge(r2, c1).cap != 0);
                    lemma_assignment_swap(w@, ones(n as nat), g, r1, r2, c1, c2);
                }
                assert forall|r: int, c: int|
                    0 <= r < n && 0 <= c < m && (forall|r2: int| 0 <= r2 < n ==> to@[r2] != c) implies w@[r]@[#[trigger] to@[r] as int]
                    >= #[trigger] w@[r]@[c] by {
                    assert(columns_taken(g, r, m as int) == 1);
                    assert(g.edge(r, to@[r] as int).cap == 0);
                    assert forall|r2: int| 0 <= r2 < n implies #[trigger] g.edge(r2, c).cap != 0 by {
                        assert(columns_taken(g, r2, m as int) == 1);
                        assert(g.edge(r2, to@[r2] as int).cap == 0);
                        assert(to@[r2] != c);
                        if g.edge(r2, c).cap == 0 {
                            lemma_columns_taken_two(g, r2, m as int, c, to@[r2] as int);
                        }
                    }
                    lemma_assignment_move(w@, ones(n as nat), g, r, to@[r] as int, c);
                }
            }
        }
    }
    (score, to)
}

/// The score of a prefix only looks at the assignments of that prefix.
proof fn lemma_assignment_score_prefix(w: Seq<Vec<i64>>, to: Seq<usize>, len: int, r: int)
    requires
        0 <= r <= len <= to.len(),
    ensures
        assignment_score(w, to.take(len), r) == assignment_score(w, to, r),
    decreases r,
{
    if r > 0 {
        lemma_assignment_score_prefix(w, to, len, r - 1);
    }
}

/// The picks are strictly increasing column indices below `m`.
pub open spec fn picks_ok(picks: Seq<usize>, m: int) -> bool {
    &&& forall|t: int| 0 <= t < picks.len() ==> #[trigger] picks[t] < m
    &&& forall|s: int, t: int| 0 <= s < t < picks.len() ==> #[trigger] picks[s] < #[trigger] picks[t]
}

/// Assignment in which row `i` of `w` takes `cap[i]` columns, each column
/// at most once, by the same minimum-cost flow as `weighted_matching`
/// (with its guarantee). Row `i` takes the columns whose edges carry flow.
/// Every weight times the number of vertices must fit in `i64`, and so must
/// the sum of the absolute weights (the score is summed in `i64`). Returns
/// the total weight and, for every row, its columns in increasing order.
pub fn weighted_matching_with_capacity(w: &Vec<Vec<i64>>, cap: &Vec<usize>) -> (res: (
    i64,
    Vec<Vec<usize>>,
))
    requires
        w@.len() >= 1,
        cap@.len() >= w@.len(),
        usize_prefix_sum(cap@, w@.len() as int) <= i64::MAX,
        w@.len() + w@[0]@.len() + 1 <= i64::MAX,
        w@.len() + w@[0]@.len() + 1 <= usize::MAX,
        weights_within(w@, w@.len() as int, w@[0]@.len() as int, (w@.len() + w@[0]@.len() + 1) as int),
        table_abs_sum(w@, w@.len() as int, w@[0]@.len() as int) <= i64::MAX,
    ensures
        res.1@.len() == w@.len(),
        forall|i: int| 0 <= i < w@.len() ==> picks_ok(#[trigger] res.1@[i]@, w@[0]@.len() as int),
        res.0 == multi_assignment_score(w@, res.1@, w@.len() as int),
        exists|g: Graph|
            #![trigger assignment_flow(w@, caps_supply(cap@, w@.len()), g)]
            {
                &&& assignment_flow(w@, caps_supply(cap@, w@.len()), g)
                &&& forall|r: int|
                    0 <= r < w@.len() ==> (#[trigger] res.1@[r])@.len() == columns_taken(
                        g,
                        r,
                        w@[0]@.len() as int,
                    )
                &&& forall|r: int, t: int|
                    0 <= r < w@.len() && 0 <= t < res.1@[r]@.len() ==> g.edge(r, #[trigger] res.1@[r]@[t] as int).cap
                        == 0
                &&& forall|r: int, c: int|
                    0 <= r < w@.len() && 0 <= c < w@[0]@.len() && g.edge(r, c).cap == 0
                        ==> #[trigger] res.1@[r]@.contains(c as usize)
                &&& (forall|v: int| 0 <= v < w@.len() + w@[0]@.len() ==> #[trigger] g.ex@[v] == 0)
                    && ranked_fit(g.es@, g.p@, g.num_vertices() as int) && w@.len() + w@[0]@.len() >= 4
                    ==> {
                    &&& forall|r1: int, r2: int, s: int, t: int|
                        0 <= r1 < w@.len() && 0 <= r2 < w@.len() && r1 != r2 && 0 <= s < res.1@[r1]@.len()
                            && 0 <= t < res.1@[r2]@.len() && !res.1@[r1]@.contains(res.1@[r2]@[t])
                            && !res.1@[r2]@.contains(res.1@[r1]@[s]) ==> w@[r1]@[#[trigger] res.1@[r1]@[s] as int]
                            + w@[r2]@[#[trigger] res.1@[r2]@[t] as int] >= w@[r1]@[res.1@[r2]@[t] as int]
                            + w@[r2]@[res.1@[r1]@[s] as int]
                    &&& forall|r: int, s: int, c: int|
                        0 <= r < w@.len() && 0 <= s < res.1@[r]@.len() && 0 <= c < w@[0]@.len() && (forall|r2: int|
                            0 <= r2 < w@.len() ==> !res.1@[r2]@.contains(c as usize)) ==> w@[r]@[#[trigger] res.1@[r]@[s] as int]
                            >= #[trigger] w@[r]@[c]
                }
                &&& (forall|v: int| 0 <= v < w@.len() + w@[0]@.len() ==> #[trigger] g.ex@[v] == 0)
                    ==> {
                    &&& forall|r: int| 0 <= r < w@.len() ==> (#[trigger] res.1@[r])@.len() == cap@[r]
                    &&& forall|r1: int, r2: int, s: int, t: int|
                        0 <= r1 < w@.len() && 0 <= r2 < w@.len() && r1 != r2 && 0 <= s < res.1@[r1]@.len()
                            && 0 <= t < res.1@[r2]@.len() ==> #[trigger] res.1@[r1]@[s] != #[trigger] res.1@[r2]@[t]
                }
            },
{
    let n = w.len();
    let m = w[0].len();
    let big = n + m + 1;
    let mut sup: Vec<i64> = Vec::new();
    let mut k: usize = 0;
    while k < n
        invariant
            k <= n,
            n == w@.len(),
            cap@.len() >= n,
            usize_prefix_sum(cap@, n as int) <= i64::MAX,
            sup@ == caps_supply(cap@, k as nat),
            seq_sum(sup@) == usize_prefix_sum(cap@, k as int),
        decreases n - k,
    {
        proof {
            lemma_usize_prefix_sum_mono(cap@, k as int, n as int);
            lemma_usize_prefix_sum_mono(cap@, k + 1, n as int);
        }
        let c = cap[k] as i64;
        let ghost sup0 = sup@;
        sup.push(c);
        proof {
            assert(sup@ =~= caps_supply(cap@, (k + 1) as nat));
            assert(sup@.drop_last() =~= sup0);
        }
        k = k + 1;
    }
    proof {
        assert forall|i: int| 0 <= i < sup@.len() implies 0 <= #[trigger] sup@[i] by {
            lemma_usize_entry_within(cap@, i, n as int);
        }
    }
    let mut g = build_assignment_network(w, &sup);
    let ghost g1 = g;
    proof {
        assert forall|r: int| 0 <= r < n implies (#[trigger] g1.es@[r])@.len() == m by {
            assert(g1.degree(r) == m);
        }
        assert forall|r: int, c: int| 0 <= r < n && 0 <= c < m implies (#[trigger] g1.es@[r]@[c]).to == n
            + c by {
            assert(g1.es@[r]@[c] == forward_edge(
                (n + c) as usize,
                1,
                (-w@[r]@[c]) as i64,
                r as usize,
            ));
        }
    }
    g.solve();
    proof {
        assert forall|r: int, c: int|
            0 <= r < w@.len() && 0 <= c < w@[0]@.len() implies i64::MIN < #[trigger] w@[r]@[c] by {
            lemma_negatable(w@[r]@[c] as int, big as int);
        }
        lemma_assignment_flow_after_solve(w@, sup@, g1, g);
    }
    let mut to: Vec<Vec<usize>> = Vec::new();
    let mut score: i64 = 0;
    let mut i: usize = 0;
    while i < n
        invariant
            n == w@.len(),
            m == w@[0]@.len(),
            big == n + m + 1,
            table_abs_sum(w@, n as int, m as int) <= i64::MAX,
            forall|r: int| 0 <= r < n ==> #[trigger] w@[r]@.len() >= m,
            i <= n,
            g.num_vertices() == big,
            g1.num_vertices() == big,
            g1.same_shape(&g),
            forall|r: int| 0 <= r < n ==> (#[trigger] g1.es@[r])@.len() == m,
            forall|r: int, c: int| 0 <= r < n && 0 <= c < m ==> (#[trigger] g1.es@[r]@[c]).to == n + c,
            to@.len() == i,
            forall|r: int| 0 <= r < i ==> picks_ok(#[trigger] to@[r]@, m as int),
            score == multi_assignment_score(w@, to@, i as int),
            -table_abs_sum(w@, i as int, m as int) <= score <= table_abs_sum(w@, i as int, m as int),
            assignment_flow(w@, caps_supply(cap@, n as nat), g),
            forall|r: int| 0 <= r < i ==> (#[trigger] to@[r])@.len() == columns_taken(g, r, m as int),
            forall|r: int, t: int|
                0 <= r < i && 0 <= t < to@[r]@.len() ==> g.edge(r, #[trigger] to@[r]@[t] as int).cap == 0,
            forall|r: int, c: int|
                0 <= r < i && 0 <= c < m && g.edge(r, c).cap == 0 ==> #[trigger] to@[r]@.contains(c as usize),
        decreases n - i,
    {
        let deg = g.es[i].len();
        let mut picks: Vec<usize> = Vec::new();
        let ghost base = score as int;
        let mut k: usize = 0;
        while k < deg
            invariant
                n == w@.len(),
                m == w@[0]@.len(),
                i < n,
                big == n + m + 1,
                table_abs_sum(w@, n as int, m as int) <= i64::MAX,
                forall|r: int| 0 <= r < n ==> #[trigger] w@[r]@.len() >= m,
                deg == m,
                deg == g.degree(i as int),
                g.num_vertices() == big,
                g1.num_vertices() == big,
                g1.same_shape(&g),
                g1.es@[i as int]@.len() == m,
                forall|c: int| 0 <= c < m ==> (#[trigger] g1.es@[i as int]@[c]).to == n + c,
                k <= deg,
                picks_ok(picks@, k as int),
                picks@.len() <= k,
                base == multi_assignment_score(w@, to@, i as int),
                -table_abs_sum(w@, i as int, m as int) <= base <= table_abs_sum(w@, i as int, m as int),
                -row_abs_sum(w@[i as int]@, k as int) <= row_picks_score(w@[i as int]@, picks@)
                    <= row_abs_sum(w@[i as int]@, k as int),
                score == base + row_picks_score(w@[i as int]@, picks@),
                picks@.len() == columns_taken(g, i as int, k as int),
                forall|t: int| 0 <= t < picks@.len() ==> g.edge(i as int, #[trigger] picks@[t] as int).cap == 0,
                forall|c: int|
                    0 <= c < k && g.edge(i as int, c).cap == 0 ==> #[trigger] picks@.contains(c as usize),
            decreases deg - k,
        {
            let e = g.es[i][k];
            proof {
                assert(es_is_edge(g1.es@, i as int, k as int));
                assert(e.to == n + k);
            }
            if e.cap == 0 {
                let col = e.to - n;
                proof {
                    lemma_abs_sums_within(w@, n as int, m as int, i as int, k as int + 1);
                    assert(row_abs_sum(w@[i as int]@, k + 1) == row_abs_sum(w@[i as int]@, k as int)
                        + (if w@[i as int]@[k as int] < 0 {
                        -w@[i as int]@[k as int]
                    } else {
                        w@[i as int]@[k as int] as int
                    }));
                }
                score = score + w[i][col];
                let ghost picks_old = picks@;
                picks.push(col);
                proof {
                    assert(picks@.drop_last() =~= picks_old);
                    assert forall|t: int| 0 <= t < picks@.len() implies g.edge(
                        i as int,
                        #[trigger] picks@[t] as int,
                    ).cap == 0 by {
                        if t < picks_old.len() {
                            assert(picks@[t] == picks_old[t]);
                        }
                    }
                    assert forall|c: int|
                        0 <= c < k + 1 && g.edge(i as int, c).cap == 0 implies #[trigger] picks@.contains(
                        c as usize,
                    ) by {
                        if c < k {
                            assert(picks_old.contains(c as usize));
                            let q = choose|q: int| 0 <= q < picks_old.len() && picks_old[q] == c as usize;
                            assert(picks@[q] == c as usize);
                        } else {
                            assert(picks@[picks@.len() - 1] == c as usize);
                        }
                    }
                }
            }
            proof {
                lemma_row_abs_sum_step(w@[i as int]@, k as int);
            }
            k = k + 1;
        }
        let ghost to_old = to@;
        to.push(picks);
        proof {
            assert(to@.take(i as int) =~= to_old);
            assert forall|r: int| 0 <= r < i + 1 implies (#[trigger] to@[r])@.len() == columns_taken(
                g,
                r,
                m as int,
            ) by {
                if r < i {
                    assert(to@[r] == to_old[r]);
                }
            }
            assert forall|r: int, t: int|
                0 <= r < i + 1 && 0 <= t < to@[r]@.len() implies g.edge(r, #[trigger] to@[r]@[t] as int).cap
                    == 0 by {
                if r < i {
                    assert(to@[r] == to_old[r]);
                }
            }
            assert forall|r: int, c: int|
                0 <= r < i + 1 && 0 <= c < m && g.edge(r, c).cap == 0 implies #[trigger] to@[r]@.contains(
                c as usize,
            ) by {
                if r < i {
                    assert(to@[r] == to_old[r]);
                }
            }
            lemma_multi_assignment_score_prefix(w@, to@, i as int, i as int);
        }
        i = i + 1;
    }
    proof {
        if forall|v: int| 0 <= v < n + m ==> #[trigger] g.ex@[v] == 0 {
            lemma_balanced_assignment(w@, caps_supply(cap@, n as nat), g);
            assert forall|r: int| 0 <= r < n implies (#[trigger] to@[r])@.len() == cap@[r] by {
                lemma_usize_entry_within(cap@, r, n as int);
                assert(columns_taken(g, r, m as int) == caps_supply(cap@, n as nat)[r]);
            }
            assert forall|r1: int, r2: int, s: int, t: int|
                0 <= r1 < n && 0 <= r2 < n && r1 != r2 && 0 <= s < to@[r1]@.len() && 0 <= t
                    < to@[r2]@.len() implies #[trigger] to@[r1]@[s] != #[trigger] to@[r2]@[t] by {
                assert(g.edge(r1, to@[r1]@[s] as int).cap == 0);
                assert(g.edge(r2, to@[r2]@[t] as int).cap == 0);
                assert(to@[r1]@[s] < m);
            }
            if ranked_fit(g.es@, g.p@, g.num_vertices() as int) && n + m >= 4 {
                assert forall|r1: int, r2: int, s: int, t: int|
                    0 <= r1 < n && 0 <= r2 < n && r1 != r2 && 0 <= s < to@[r1]@.len() && 0 <= t
                        < to@[r2]@.len() && !to@[r1]@.contains(to@[r2]@[t]) && !to@[r2]@.contains(to@[r1]@[s])
                    implies w@[r1]@[#[trigger] to@[r1]@[s] as int] + w@[r2]@[#[trigger] to@[r2]@[t] as int]
                    >= w@[r1]@[to@[r2]@[t] as int] + w@[r2]@[to@[r1]@[s] as int] by {
                    let c1 = to@[r1]@[s] as int;
                    let c2 = to@[r2]@[t] as int;
                    assert(picks_ok(to@[r1]@, m as int));
                    assert(picks_ok(to@[r2]@, m as int));
                    assert(to@[r1]@.contains(to@[r1]@[s]));
                    assert(c1 != c2);
                    assert(g.edge(r1, c1).cap == 0);
                    assert(g.edge(r2, c2).cap == 0);
                    if g.edge(r1, c2).cap == 0 {
                        assert(to@[r1]@.contains(c2 as usize));
                    }
                    if g.edge(r2, c1).cap == 0 {
                        assert(to@[r2]@.contains(c1 as usize));
                    }
                    lemma_assignment_swap(w@, caps_supply(cap@, n as nat), g, r1, r2, c1, c2);
                }
                assert forall|r: int, s: int, c: int|
                    0 <= r < n && 0 <= s < to@[r]@.len() && 0 <= c < m && (forall|r2: int|
                        0 <= r2 < n ==> !to@[r2]@.contains(c as usize)) implies w@[r]@[#[trigger] to@[r]@[s] as int]
                    >= #[trigger] w@[r]@[c] by {
                    assert(picks_ok(to@[r]@, m as int));
                    assert(g.edge(r, to@[r]@[s] as int).cap == 0);
                    assert forall|r2: int| 0 <= r2 < n implies #[trigger] g.edge(r2, c).cap != 0 by {
                        assert(!to@[r2]@.contains(c as usize));
                    }
                    lemma_assignment_move(w@, caps_supply(cap@, n as nat), g, r, to@[r]@[s] as int, c);
                }
            }
        }
    }
    (score, to)
}

/// Sum of the absolute values of the first `k` entries of a row.
pub open spec fn row_abs_sum(row: Seq<i64>, k: int) -> int
    decreases k,
{
    if k <= 0 {
        0
    } else {
        row_abs_sum(row, k - 1) + (if row[k - 1] < 0 {
            -row[k - 1]
        } else {
            row[k - 1] as int
        })
    }
}

/// Sum of the absolute values of the first `m` entries of the first `i`
/// rows.
pub open spec fn table_abs_sum(w: Seq<Vec<i64>>, i: int, m: int) -> int
    decreases i,
{
    if i <= 0 {
        0
    } else {
        table_abs_sum(w, i - 1, m) + row_abs_sum(w[i - 1]@, m)
    }
}

/// One more entry of a row: the row sum grows by its absolute value.
proof fn lemma_row_abs_sum_step(row: Seq<i64>, k: int)
    requires
        0 <= k,
    ensures
        row_abs_sum(row, k + 1) == row_abs_sum(row, k) + (if row[k] < 0 {
            -row[k]
        } else {
            row[k] as int
        }),
{
}

/// Absolute row sums are non-negative and grow with the prefix.
proof fn lemma_row_abs_sum_mono(row: Seq<i64>, a: int, b: int)
    requires
        0 <= a <= b,
    ensures
        0 <= row_abs_sum(row, a) <= row_abs_sum(row, b),
    decreases b,
{
    if b > a {
        lemma_row_abs_sum_mono(row, a, b - 1);
    } else if a > 0 {
        lemma_row_abs_sum_mono(row, a - 1, a - 1);
    }
}

/// Absolute table sums grow with the number of rows.
proof fn lemma_table_abs_sum_mono(w: Seq<Vec<i64>>, m: int, a: int, b: int)
    requires
        0 <= a <= b,
        0 <= m,
    ensures
        0 <= table_abs_sum(w, a, m) <= table_abs_sum(w, b, m),
    decreases b,
{
    if b > a {
        lemma_table_abs_sum_mono(w, m, a, b - 1);
        lemma_row_abs_sum_mono(w[b - 1]@, 0, m);
    } else if a > 0 {
        lemma_table_abs_sum_mono(w, m, a - 1, a - 1);
        lemma_row_abs_sum_mono(w[a - 1]@, 0, m);
    }
}

/// The rows before `i` and the first `k` entries of row `i` weigh no more
/// than the whole table.
proof fn lemma_abs_sums_within(w: Seq<Vec<i64>>, n: int, m: int, i: int, k: int)
    requires
        0 <= i < n,
        0 <= k <= m,
    ensures
        0 <= table_abs_sum(w, i, m),
        0 <= row_abs_sum(w[i]@, k),
        table_abs_sum(w, i, m) + row_abs_sum(w[i]@, k) <= table_abs_sum(w, n, m),
{
    lemma_table_abs_sum_mono(w, m, 0, i);
    lemma_table_abs_sum_mono(w, m, i + 1, n);
    lemma_row_abs_sum_mono(w[i]@, 0, k);
    lemma_row_abs_sum_mono(w[i]@, k, m);
}

/// The score of a prefix only looks at the assignments of that prefix.
proof fn lemma_multi_assignment_score_prefix(w: Seq<Vec<i64>>, to: Seq<Vec<usize>>, len: int, r: int)
    requires
        0 <= r <= len <= to.len(),
    ensures
        multi_assignment_score(w, to.take(len), r) == multi_assignment_score(w, to, r),
    decreases r,
{
    if r > 0 {
        lemma_multi_assignment_score_prefix(w, to, len, r - 1);
    }
}

/// One entry is at most the sum of a prefix that holds it.
proof fn lemma_usize_entry_within(s: Seq<usize>, i: int, n: int)
    requires
        0 <= i < n <= s.len(),
    ensures
        0 <= s[i] <= usize_prefix_sum(s, n),
{
    lemma_usize_prefix_sum_mono(s, 0, i);
    lemma_usize_prefix_sum_mono(s, i + 1, n);
}

/// Prefix sums of unsigned integers grow with the prefix.
proof fn lemma_usize_prefix_sum_mono(s: Seq<usize>, a: int, b: int)
    requires
        0 <= a <= b <= s.len(),
    ensures
        0 <= usize_prefix_sum(s, a) <= usize_prefix_sum(s, b),
    decreases b,
{
    if b > a {
        lemma_usize_prefix_sum_mono(s, a, b - 1);
    } else if a > 0 {
        lemma_usize_prefix_sum_mono(s, a - 1, a - 1);
    }
}

/// A sum of non-positive integers is zero only when every one is zero.
proof fn lemma_nonpositive_sum_zero(s: Seq<i64>)
    requires
        forall|k: int| 0 <= k < s.len() ==> #[trigger] s[k] <= 0,
        seq_sum(s) == 0,
    ensures
        forall|k: int| 0 <= k < s.len() ==> #[trigger] s[k] == 0,
    decreases s.len(),
{
    if s.len() > 0 {
        lemma_seq_sum_le(s.drop_last(), Seq::new((s.len() - 1) as nat, |k: int| 0i64), 0);
        lemma_seq_sum_zeros((s.len() - 1) as nat);
        lemma_nonpositive_sum_zero(s.drop_last());
        assert forall|k: int| 0 <= k < s.len() implies #[trigger] s[k] == 0 by {
            if k < s.len() - 1 {
                assert(s.drop_last()[k] == s[k]);
            }
        }
    }
}

/// A sequence of zeros sums to zero.
proof fn lemma_seq_sum_zeros(n: nat)
    ensures
        seq_sum(Seq::new(n, |k: int| 0i64)) == 0,
    decreases n,
{
    if n > 0 {
        assert(Seq::new(n, |k: int| 0i64).drop_last() =~= Seq::new((n - 1) as nat, |k: int| 0i64));
        lemma_seq_sum_zeros((n - 1) as nat);
    }
}

/// Flow conservation of a solved circulation: when the supplies (the
/// excesses before `solve`) sum to zero and `solve` succeeds (no excess is
/// left positive), every excess is zero afterwards, so every vertex sends
/// out exactly its supply.
pub proof fn lemma_solved_meets_demands(before: Graph, after: Graph)
    requires
        before.wf(),
        before.conserves(&after),
        seq_sum(before.ex@) == 0,
        forall|w: int| 0 <= w < after.ex@.len() ==> #[trigger] after.ex@[w] <= 0,
        after.es@.len() == before.es@.len(),
    ensures
        forall|w: int| 0 <= w < after.ex@.len() ==> #[trigger] after.ex@[w] == 0,
        forall|w: int|
            0 <= w < before.num_vertices() ==> #[trigger] row_outflow(after.es@[w]@)
                == before.balance(w),
{
    lemma_nonpositive_sum_zero(after.ex@);
    assert forall|w: int| 0 <= w < before.num_vertices() implies #[trigger] row_outflow(
        after.es@[w]@,
    ) == before.balance(w) by {
        assert(after.balance(w) == before.balance(w));
        assert(after.ex@[w] == 0);
    }
}

/// Capacity constraints: in a well-formed network whose residual
/// capacities are non-negative, the flow `init - cap` on every edge lies
/// between minus the initial capacity of its partner and its own
/// initial capacity.
pub proof fn lemma_flow_within_capacity(g: Graph)
    requires
        g.wf(),
        g.capacities_ok(),
    ensures
        forall|v: int, i: int|
            #[trigger] g.is_edge(v, i) ==> -g.partner(v, i).init <= g.edge(v, i).init - g.edge(
                v,
                i,
            ).cap <= g.edge(v, i).init,
{
    assert forall|v: int, i: int| #[trigger] g.is_edge(v, i) implies -g.partner(v, i).init
        <= g.edge(v, i).init - g.edge(v, i).cap <= g.edge(v, i).init by {
        let e = g.edge(v, i);
        assert(g.is_edge(e.to as int, e.rev as int));
    }
}

/// Skew symmetry of the flow: the flow `init - cap` on an edge is minus the
/// flow on its partner, so the net outflow of a vertex counts each flow
/// once leaving its tail and once entering its head.
pub proof fn lemma_flow_antisymmetric(g: Graph)
    requires
        g.wf(),
    ensures
        forall|v: int, i: int|
            #[trigger] g.is_edge(v, i) ==> g.edge(v, i).init - g.edge(v, i).cap == -(g.partner(
                v,
                i,
            ).init - g.partner(v, i).cap),
{
}

/// A list whose edges all carry no flow has no net outflow.
proof fn lemma_row_outflow_unused(row: Seq<E>)
    requires
        forall|i: int| 0 <= i < row.len() ==> (#[trigger] row[i]).cap == row[i].init,
    ensures
        row_outflow(row) == 0,
    decreases row.len(),
{
    if row.len() > 0 {
        lemma_row_outflow_unused(row.drop_last());
    }
}

/// Before any flow is sent (every edge has its whole capacity, as `add`
/// leaves it), the supply of every vertex is its excess.
pub proof fn lemma_unused_balance_is_excess(g: Graph)
    requires
        g.wf(),
        forall|v: int, i: int| #[trigger] g.is_edge(v, i) ==> g.edge(v, i).cap == g.edge(v, i).init,
    ensures
        forall|v: int| 0 <= v < g.num_vertices() ==> #[trigger] g.balance(v) == g.ex@[v],
{
    assert forall|v: int| 0 <= v < g.num_vertices() implies #[trigger] g.balance(v) == g.ex@[v] by {
        assert forall|i: int| 0 <= i < g.es@[v]@.len() implies (#[trigger] g.es@[v]@[i]).cap
            == g.es@[v]@[i].init by {
            assert(g.is_edge(v, i));
        }
        lemma_row_outflow_unused(g.es@[v]@);
    }
}

/// A closed walk of residual edges, given by edge ids `(v, i)`: every edge
/// has capacity left, leaves the vertex that the previous one enters, and
/// the last enters the tail of the first.
pub open spec fn residual_cycle(es: Seq<Vec<E>>, walk: Seq<(int, int)>) -> bool {
    &&& walk.len() > 0
    &&& forall|k: int|
        0 <= k < walk.len() ==> es_is_edge(es, (#[trigger] walk[k]).0, walk[k].1) && es_edge(
            es,
            walk[k].0,
            walk[k].1,
        ).cap > 0
    &&& forall|k: int|
        0 <= k < walk.len() - 1 ==> es_edge(es, (#[trigger] walk[k]).0, walk[k].1).to == walk[k + 1].0
    &&& es_edge(es, walk.last().0, walk.last().1).to == walk[0].0
}

/// Total cost of the edges of a walk.
pub open spec fn walk_cost(es: Seq<Vec<E>>, walk: Seq<(int, int)>) -> int
    decreases walk.len(),
{
    if walk.len() == 0 {
        0
    } else {
        walk_cost(es, walk.drop_last()) + es_edge(es, walk.last().0, walk.last().1).cost
    }
}

/// Along the first `k` edges of a walk, the fit inequalities add up: the
/// potentials and ranks telescope to their values at both ends.
proof fn lemma_walk_prefix_fit(es: Seq<Vec<E>>, p: Seq<i64>, r: Seq<int>, scale: int, walk: Seq<(int, int)>, k: int)
    requires
        fits_with_ranks(es, p, r, scale),
        residual_cycle(es, walk),
        1 <= k <= walk.len(),
    ensures
        ({
            let last = es_edge(es, walk[k - 1].0, walk[k - 1].1).to as int;
            walk_cost(es, walk.take(k)) * scale + es.len() * p[walk[0].0] - es.len() * p[last]
                >= r[last] - r[walk[0].0] - k
        }),
    decreases k,
{
    let e = es_edge(es, walk[k - 1].0, walk[k - 1].1);
    assert(es_is_edge(es, walk[k - 1].0, walk[k - 1].1) && e.cap > 0);
    assert(walk.take(k).drop_last() =~= walk.take(k - 1));
    assert(walk.take(k).last() == walk[k - 1]);
    let w = walk_cost(es, walk.take(k - 1));
    assert((w + e.cost) * scale == w * scale + e.cost * scale) by (nonlinear_arith);
    if k > 1 {
        lemma_walk_prefix_fit(es, p, r, scale, walk, k - 1);
        assert(es_edge(es, walk[k - 2].0, walk[k - 2].1).to == walk[k - 1].0);
    } else {
        assert(walk.take(0) =~= Seq::<(int, int)>::empty());
        assert(w == 0);
    }
}

/// Optimality as far as the solver certifies it: after a successful
/// `solve`, `n` times the cost of any closed walk of residual edges is at
/// least minus its number of edges. So no residual cycle with fewer edges
/// than vertices has negative cost, and no residual cycle costs less than
/// -1; a negative cycle through every vertex, of cost -1, may remain.
pub proof fn lemma_solved_cycles_nonnegative(g: Graph, walk: Seq<(int, int)>)
    requires
        ranked_fit(g.es@, g.p@, g.num_vertices() as int),
        residual_cycle(g.es@, walk),
    ensures
        walk_cost(g.es@, walk) * g.num_vertices() >= -walk.len(),
        walk.len() < g.num_vertices() ==> walk_cost(g.es@, walk) >= 0,
        walk.len() <= g.num_vertices() ==> walk_cost(g.es@, walk) >= -1,
{
    let n = g.num_vertices() as int;
    let r = choose|r: Seq<int>| ranks_within(r, n) && fits_with_ranks(g.es@, g.p@, r, n);
    lemma_walk_prefix_fit(g.es@, g.p@, r, n, walk, walk.len() as int);
    assert(walk.take(walk.len() as int) =~= walk);
    let c = walk_cost(g.es@, walk);
    let l = walk.len() as int;
    assert(c * n >= -l);
    assert(n >= 1) by {
        assert(es_is_edge(g.es@, walk[0].0, walk[0].1));
    }
    if l < n {
        assert(c >= 0) by (nonlinear_arith)
            requires
                c * n >= -l,
                l < n,
                n >= 1,
        ;
    }
    if l <= n {
        assert(c >= -1) by (nonlinear_arith)
            requires
                c * n >= -l,
                l <= n,
                n >= 1,
        ;
    }
}

/// The flow law for a network that `add` built (no flow sent yet) with
/// supplies summing to zero, once the solver has succeeded (no excess left
/// positive): every excess is zero, every vertex sends out exactly its
/// supply, the flow `init - cap` of every edge whose partner started empty
/// (the edges `add` creates first) lies between 0 and its capacity, and the
/// flow on a partner is minus the flow on its edge.
pub proof fn lemma_solved_flow_from_supplies(before: Graph, after: Graph)
    requires
        before.wf(),
        forall|v: int, i: int| #[trigger] before.is_edge(v, i) ==> before.edge(v, i).cap == before.edge(v, i).init,
        seq_sum(before.ex@) == 0,
        after.wf(),
        after.capacities_ok(),
        before.same_shape(&after),
        before.conserves(&after),
        forall|w: int| 0 <= w < after.ex@.len() ==> #[trigger] after.ex@[w] <= 0,
    ensures
        forall|w: int| 0 <= w < after.ex@.len() ==> #[trigger] after.ex@[w] == 0,
        forall|w: int|
            0 <= w < before.num_vertices() ==> #[trigger] row_outflow(after.es@[w]@) == before.ex@[w],
        forall|v: int, i: int|
            #[trigger] after.is_edge(v, i) && after.partner(v, i).init == 0 ==> 0 <= after.edge(v, i).init
                - after.edge(v, i).cap <= after.edge(v, i).init,
        forall|v: int, i: int|
            #[trigger] after.is_edge(v, i) ==> after.edge(v, i).init - after.edge(v, i).cap == -(
            after.partner(v, i).init - after.partner(v, i).cap),
{
    lemma_unused_balance_is_excess(before);
    lemma_solved_meets_demands(before, after);
    lemma_flow_within_capacity(after);
    lemma_flow_antisymmetric(after);
}

} // verus!
