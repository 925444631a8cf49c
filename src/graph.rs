//! The de Bruijn graph, its reachability closure and the search for an edge
//! ordering that puts as many edges as possible on cycles.
use vstd::prelude::*;
use vstd::arithmetic::power::pow;
use vstd::arithmetic::div_mod::lemma_fundamental_div_mod_converse;
use vstd::arithmetic::div_mod::lemma_fundamental_div_mod;
use crate::model::Edge;
use crate::model::closed_at;
use crate::model::count_active;
use crate::model::count_members;
use crate::model::cycle_count;
use crate::model::falses;
use crate::model::has_active_edge;
use crate::model::holds_edges;
use crate::model::is_active;
use crate::model::is_closure;
use crate::model::is_square;
use crate::model::labels_ok;
use crate::model::lemma_closed_is_complete;
use crate::model::lemma_count_active_bound;
use crate::model::lemma_count_active_update;
use crate::model::lemma_matrix_mark;
use crate::model::lemma_nothing_active;
use crate::model::lemma_reaches_edge;
use crate::model::lemma_reaches_step;
use crate::model::marks_reach;
use crate::model::reaches;
use crate::model::same_shape;
use crate::model::lemma_outgoing_sound;
use crate::model::outgoing;
use crate::model::lemma_outgoing_contains;
use crate::model::lemma_count_members_positive;
use crate::model::lemma_active_self_loop_is_member;
use crate::model::search;
use crate::model::rounds;
use crate::model::improves;
use crate::model::set_label;
use crate::model::scan;
use crate::model::step;
use crate::model::round;
use crate::model::walk;
use crate::text::edge_line;
use crate::text::edge_lines;
use crate::text::push_char;
use crate::text::push_decimal;
use crate::text::push_signed_decimal;
use crate::text::rendered;

verus! {

/// Why a graph could not be built.
#[derive(Debug, Clone, Copy, PartialEq, Eq, Structural)]
pub enum GraphError {
    /// A parameter is zero, an endpoint or a label is out of range, or the
    /// graph would have more edges than a label can count.
    InvalidParameters,
}

/// A directed graph with labeled edges and, for each node, the indices of
/// its outgoing edges.
pub struct Graph {
    edges: Vec<Edge>,
    nodes: Vec<Vec<usize>>,
    neighborhood: usize,
    nb_states: usize,
    nb_nodes: usize,
}

/// The largest number of edges a graph may have: labels are `isize`.
pub open spec fn max_edges() -> int {
    isize::MAX as int
}

/// The unlabeled edges of the de Bruijn graph: edge `k` goes from
/// `k / nb_states` to `k % nb_nodes` with symbol `k % nb_states`.
pub open spec fn de_bruijn_edges(neighborhood: nat, nb_states: nat) -> Seq<Edge> {
    let n = pow(nb_states as int, (neighborhood - 1) as nat);
    Seq::new(
        (n * nb_states) as nat,
        |k: int| ((k / (nb_states as int)) as usize, (k % n) as usize, (k % (nb_states as int)) as usize, -1isize),
    )
}

/// `s` to the power `e` grows with `e` when `s` is at least one.
proof fn lemma_pow_grows(s: int, a: nat, b: nat)
    requires
        s >= 1,
        a <= b,
    ensures
        1 <= pow(s, a) <= pow(s, b),
    decreases b,
{
    reveal(pow);
    if a < b {
        lemma_pow_grows(s, a, (b - 1) as nat);
        assert(pow(s, b) == s * pow(s, (b - 1) as nat));
        assert(pow(s, (b - 1) as nat) <= s * pow(s, (b - 1) as nat)) by (nonlinear_arith)
            requires
                s >= 1,
                pow(s, (b - 1) as nat) >= 1,
        ;
    } else if b > 0 {
        lemma_pow_grows(s, 0, (b - 1) as nat);
        assert(1 <= s * pow(s, (b - 1) as nat)) by (nonlinear_arith)
            requires
                s >= 1,
                pow(s, (b - 1) as nat) >= 1,
        ;
    }
}

impl Graph {
    /// The edges in index order.
    pub closed spec fn edges_seq(&self) -> Seq<Edge> {
        self.edges@
    }

    /// For node `i`, the indices of its outgoing edges.
    pub closed spec fn out_edges(&self, i: int) -> Seq<usize> {
        self.nodes@[i]@
    }

    /// The number of nodes.
    pub closed spec fn node_count(&self) -> nat {
        self.nb_nodes as nat
    }

    /// The context length plus one that the graph was built for (0 if it was
    /// given edge by edge).
    pub closed spec fn spec_neighborhood(&self) -> nat {
        self.neighborhood as nat
    }

    /// The alphabet size that the graph was built for (0 if it was given edge
    /// by edge).
    pub closed spec fn spec_nb_states(&self) -> nat {
        self.nb_states as nat
    }

    /// Endpoints name nodes, labels are unset or non-negative, the edge count
    /// fits a label, and each node lists exactly its own outgoing edges.
    pub closed spec fn wf(&self) -> bool {
        &&& self.edges@.len() <= max_edges()
        &&& self.nodes@.len() == self.nb_nodes
        &&& forall|k: int|
            0 <= k < self.edges@.len() ==> (#[trigger] self.edges@[k]).0 < self.nb_nodes
                && self.edges@[k].1 < self.nb_nodes && self.edges@[k].3 >= -1
        &&& forall|i: int, t: int|
            0 <= i < self.nb_nodes && 0 <= t < self.nodes@[i]@.len() ==> #[trigger] self.nodes@[i]@[t]
                < self.edges@.len() && self.edges@[self.nodes@[i]@[t] as int].0 == i
        &&& forall|k: int|
            0 <= k < self.edges@.len() ==> self.nodes@[(#[trigger] self.edges@[k]).0 as int]@.contains(
                k as usize,
            )
    }

    /// The shape of the de Bruijn graph for `neighborhood` and `nb_states`:
    /// edge `k` goes from `k / nb_states` to `k % nb_nodes` with symbol
    /// `k % nb_states`, and node `i` lists edges `i * nb_states + j`.
    pub open spec fn is_de_bruijn(&self, neighborhood: nat, nb_states: nat) -> bool {
        let n = self.node_count();
        let e = self.edges_seq();
        &&& self.spec_neighborhood() == neighborhood
        &&& self.spec_nb_states() == nb_states
        &&& neighborhood >= 1
        &&& nb_states >= 1
        &&& n == pow(nb_states as int, (neighborhood - 1) as nat)
        &&& e.len() == n * nb_states
        &&& forall|k: int|
            0 <= k < e.len() ==> (#[trigger] e[k]).0 == k / (nb_states as int) && e[k].1 == k % (
            n as int) && e[k].2 == k % (nb_states as int)
        &&& forall|i: int|
            0 <= i < n ==> (#[trigger] self.out_edges(i)).len() == nb_states && forall|j: int|
                0 <= j < nb_states ==> #[trigger] self.out_edges(i)[j] == i * nb_states + j
    }

    /// Builds the de Bruijn graph over `nb_states` symbols whose nodes are the
    /// words of length `neighborhood - 1`, with every label unset.
    pub fn new(neighborhood: usize, nb_states: usize) -> (r: Result<Graph, GraphError>)
        ensures
            r is Err <==> (neighborhood == 0 || nb_states == 0 || pow(
                nb_states as int,
                neighborhood as nat,
            ) > max_edges()),
            r matches Ok(g) ==> {
                &&& g.wf()
                &&& g.is_de_bruijn(neighborhood as nat, nb_states as nat)
                &&& g.edges_seq().len() == pow(nb_states as int, neighborhood as nat)
                &&& forall|k: int| 0 <= k < g.edges_seq().len() ==> (#[trigger] g.edges_seq()[k]).3 == -1
                &&& g.edges_seq() == de_bruijn_edges(neighborhood as nat, nb_states as nat)
            },
    {
        if neighborhood == 0 || nb_states == 0 {
            return Err(GraphError::InvalidParameters);
        }
        let limit: usize = isize::MAX as usize;
        let mut nb_nodes: usize = 1;
        let mut t: usize = 0;
        proof {
            reveal(pow);
        }
        while t + 1 < neighborhood
            invariant
                1 <= t + 1 <= neighborhood,
                nb_states >= 1,
                nb_nodes == pow(nb_states as int, t as nat),
                nb_nodes <= limit,
                limit == max_edges(),
            decreases neighborhood - t,
        {
            if nb_nodes > limit / nb_states {
                proof {
                    assert(nb_nodes * nb_states > limit) by (nonlinear_arith)
                        requires
                            nb_nodes > limit / nb_states,
                            nb_states >= 1,
                    ;
                    reveal(pow);
                    assert(pow(nb_states as int, (t + 1) as nat) == nb_states * pow(
                        nb_states as int,
                        t as nat,
                    ));
                    lemma_pow_grows(nb_states as int, (t + 1) as nat, neighborhood as nat);
                }
                return Err(GraphError::InvalidParameters);
            }
            proof {
                assert(nb_nodes * nb_states <= limit) by (nonlinear_arith)
                    requires
                        nb_nodes <= limit / nb_states,
                        nb_states >= 1,
                ;
                reveal(pow);
                assert(pow(nb_states as int, (t + 1) as nat) == nb_states * pow(
                    nb_states as int,
                    t as nat,
                ));
            }
            nb_nodes = nb_nodes * nb_states;
            t = t + 1;
        }
        proof {
            reveal(pow);
            assert(pow(nb_states as int, neighborhood as nat) == nb_states * pow(
                nb_states as int,
                t as nat,
            ));
        }
        if nb_nodes > limit / nb_states {
            proof {
                assert(nb_nodes * nb_states > limit) by (nonlinear_arith)
                    requires
                        nb_nodes > limit / nb_states,
                        nb_states >= 1,
                ;
            }
            return Err(GraphError::InvalidParameters);
        }
        proof {
            assert(nb_nodes * nb_states <= limit) by (nonlinear_arith)
                requires
                    nb_nodes <= limit / nb_states,
                    nb_states >= 1,
            ;
            lemma_pow_grows(nb_states as int, 0, t as nat);
        }
        let mut edges: Vec<Edge> = Vec::new();
        let mut nodes: Vec<Vec<usize>> = Vec::new();
        let mut i: usize = 0;
        while i < nb_nodes
            invariant
                0 <= i <= nb_nodes,
                nb_states >= 1,
                nb_nodes >= 1,
                nb_nodes * nb_states <= limit,
                limit == max_edges(),
                edges@.len() == i * nb_states,
                nodes@.len() == i,
                forall|k: int|
                    0 <= k < edges@.len() ==> #[trigger] edges@[k] == (
                    (k / (nb_states as int)) as usize,
                    (k % (nb_nodes as int)) as usize,
                    (k % (nb_states as int)) as usize,
                    -1isize,
                ),
                forall|a: int|
                    0 <= a < i ==> (#[trigger] nodes@[a])@.len() == nb_states && forall|j: int|
                        0 <= j < nb_states ==> #[trigger] nodes@[a]@[j] == a * nb_states + j,
            decreases nb_nodes - i,
        {
            proof {
                assert((i + 1) * nb_states <= nb_nodes * nb_states) by (nonlinear_arith)
                    requires
                        i + 1 <= nb_nodes,
                ;
                assert((i + 1) * nb_states == i * nb_states + nb_states) by (nonlinear_arith);
            }
            let mut out: Vec<usize> = Vec::new();
            let mut j: usize = 0;
            while j < nb_states
                invariant
                    0 <= j <= nb_states,
                    0 <= i < nb_nodes,
                    nb_states >= 1,
                    nb_nodes >= 1,
                    (i + 1) * nb_states <= limit,
                    (i + 1) * nb_states == i * nb_states + nb_states,
                    edges@.len() == i * nb_states + j,
                    out@.len() == j,
                    forall|t: int| 0 <= t < j ==> #[trigger] out@[t] == i * nb_states + t,
                    forall|k: int|
                        0 <= k < edges@.len() ==> #[trigger] edges@[k] == (
                        (k / (nb_states as int)) as usize,
                        (k % (nb_nodes as int)) as usize,
                        (k % (nb_states as int)) as usize,
                        -1isize,
                    ),
                decreases nb_states - j,
            {
                let index: usize = i * nb_states + j;
                proof {
                    lemma_fundamental_div_mod_converse(
                        index as int,
                        nb_states as int,
                        i as int,
                        j as int,
                    );
                }
                edges.push((i, index % nb_nodes, j, -1));
                out.push(index);
                j = j + 1;
            }
            nodes.push(out);
            i = i + 1;
        }
        let g = Graph { edges, nodes, neighborhood, nb_states, nb_nodes };
        proof {
            assert(nb_nodes * nb_states == nb_states * nb_nodes) by (nonlinear_arith);
            assert(g.edges_seq().len() == pow(nb_states as int, neighborhood as nat));
            assert(t == neighborhood - 1);
            assert(g.node_count() == pow(nb_states as int, (neighborhood - 1) as nat));
            assert forall|k: int| 0 <= k < g.edges@.len() implies (#[trigger] g.edges@[k]).0 < nb_nodes by {
                lemma_fundamental_div_mod(k, nb_states as int);
                let q = k / (nb_states as int);
                assert(q < nb_nodes) by (nonlinear_arith)
                    requires
                        k == nb_states * q + k % (nb_states as int),
                        0 <= k % (nb_states as int),
                        k < nb_nodes * nb_states,
                        nb_states >= 1,
                ;
            }
            assert forall|k: int| 0 <= k < g.edges_seq().len() implies (#[trigger] g.edges_seq()[k]).3 == -1 by {
                assert(g.edges_seq()[k] == g.edges@[k]);
            }
            assert(g.edges_seq() =~= de_bruijn_edges(neighborhood as nat, nb_states as nat));
            assert forall|k: int| 0 <= k < g.edges@.len() implies g.nodes@[(#[trigger] g.edges@[k]).0 as int]@.contains(
                k as usize) by {
                lemma_fundamental_div_mod(k, nb_states as int);
                let q = k / (nb_states as int);
                let r = k % (nb_states as int);
                assert(k == q * nb_states + r) by (nonlinear_arith)
                    requires
                        k == nb_states * q + r,
                ;
                assert(g.edges@[k].0 == q);
                assert(q < nb_nodes);
                assert(0 <= r < nb_states);
                assert(g.nodes@[q]@.len() == nb_states);
                assert(g.nodes@[q]@[r] == q * nb_states + r);
                assert(g.nodes@[q]@[r] == k as usize);
            }
            assert forall|a: int, t: int|
                0 <= a < g.nb_nodes && 0 <= t < g.nodes@[a]@.len() implies #[trigger] g.nodes@[a]@[t]
                < g.edges@.len() && g.edges@[g.nodes@[a]@[t] as int].0 == a by {
                let k = a * nb_states + t;
                assert(k < nb_nodes * nb_states) by (nonlinear_arith)
                    requires
                        0 <= a < nb_nodes,
                        0 <= t < nb_states,
                        k == a * nb_states + t,
                ;
                lemma_fundamental_div_mod_converse(k, nb_states as int, a, t);
            }
            assert forall|a: int| 0 <= a < g.node_count() implies (#[trigger] g.out_edges(a)).len()
                == nb_states && forall|j: int|
                0 <= j < nb_states ==> #[trigger] g.out_edges(a)[j] == a * nb_states + j by {
                assert(g.out_edges(a) == g.nodes@[a]@);
            }
        }
        Ok(g)
    }
}

impl Graph {
    /// For every pair of nodes `(i, j)`: can `j` be reached from `i` through
    /// one or more active edges? Computed by marking the active edges and then
    /// sweeping the matrix, extending marks by one active edge, until a sweep
    /// marks nothing new.
    pub fn reachability(&self) -> (r: Vec<Vec<bool>>)
        requires
            self.wf(),
        ensures
            is_closure(self.edges_seq(), r@, self.node_count() as int),
    {
        let size = self.nb_nodes;
        let ghost edges = self.edges@;
        let mut reach: Vec<Vec<bool>> = Vec::new();
        let mut i: usize = 0;
        while i < size
            invariant
                0 <= i <= size,
                reach@.len() == i,
                forall|a: int, b: int|
                    0 <= a < i && 0 <= b < reach@[a]@.len() ==> !#[trigger] reach@[a]@[b],
                forall|a: int| 0 <= a < i ==> (#[trigger] reach@[a])@.len() == size,
            decreases size - i,
        {
            let mut row: Vec<bool> = Vec::new();
            let mut j: usize = 0;
            while j < size
                invariant
                    0 <= j <= size,
                    row@.len() == j,
                    forall|b: int| 0 <= b < j ==> !(#[trigger] row@[b]),
                decreases size - j,
            {
                row.push(false);
                j = j + 1;
            }
            reach.push(row);
            i = i + 1;
        }
        let n = self.edges.len();
        let mut k: usize = 0;
        while k < n
            invariant
                self.wf(),
                edges == self.edges@,
                n == edges.len(),
                size == self.nb_nodes,
                0 <= k <= n,
                is_square(reach@, size as int),
                marks_reach(edges, reach@, size as int),
                forall|e: int|
                    0 <= e < k && is_active(#[trigger] edges[e]) ==> reach@[edges[e].0 as int]@[edges[e].1 as int],
            decreases n - k,
        {
            let edge = self.edges[k];
            if edge.3 > -1 {
                proof {
                    lemma_reaches_edge(edges, edge.0 as int, edge.1 as int);
                }
                reach[edge.0][edge.1] = true;
            }
            k = k + 1;
        }
        loop
            invariant
                self.wf(),
                edges == self.edges@,
                n == edges.len(),
                size == self.nb_nodes,
                is_square(reach@, size as int),
                marks_reach(edges, reach@, size as int),
                holds_edges(edges, reach@),
            ensures
                is_square(reach@, size as int),
                marks_reach(edges, reach@, size as int),
                forall|u: int, v: int|
                    0 <= u < size && 0 <= v < size && reaches(edges, u, v) ==> #[trigger] reach@[u]@[v],
            decreases falses(reach@),
        {
            let ghost start = reach@;
            let mut changed = false;
            let mut i: usize = 0;
            while i < size
                invariant
                    self.wf(),
                    edges == self.edges@,
                    n == edges.len(),
                    size == self.nb_nodes,
                    0 <= i <= size,
                    is_square(reach@, size as int),
                    marks_reach(edges, reach@, size as int),
                    holds_edges(edges, reach@),
                    changed ==> falses(reach@) < falses(start),
                    !changed ==> reach@ == start,
                    !changed ==> forall|a: int, b: int|
                        0 <= a < i && 0 <= b < size ==> #[trigger] closed_at(edges, reach@, a, b),
                decreases size - i,
            {
                let mut j: usize = 0;
                while j < size
                    invariant
                        self.wf(),
                        edges == self.edges@,
                        n == edges.len(),
                        size == self.nb_nodes,
                        0 <= i < size,
                        0 <= j <= size,
                        is_square(reach@, size as int),
                        marks_reach(edges, reach@, size as int),
                        holds_edges(edges, reach@),
                        changed ==> falses(reach@) < falses(start),
                        !changed ==> reach@ == start,
                        !changed ==> forall|a: int, b: int|
                            (0 <= a < i && 0 <= b < size) || (a == i && 0 <= b < j) ==> #[trigger] closed_at(edges, reach@, a, b),
                    decreases size - j,
                {
                    if !reach[i][j] {
                        let mut found = false;
                        let mut e: usize = 0;
                        while e < n && !found
                            invariant
                                self.wf(),
                                edges == self.edges@,
                                n == edges.len(),
                                size == self.nb_nodes,
                                0 <= i < size,
                                0 <= j < size,
                                0 <= e <= n,
                                is_square(reach@, size as int),
                                !found ==> !reach@[i as int]@[j as int],
                                marks_reach(edges, reach@, size as int),
                                found ==> reaches(edges, i as int, j as int),
                                forall|c: int|
                                    0 <= c < e ==> !((#[trigger] edges[c]).0 == i && is_active(edges[c])
                                        && reach@[edges[c].1 as int]@[j as int]),
                            decreases n - e + if found { 0int } else { 1int },
                        {
                            let edge = self.edges[e];
                            if edge.0 == i && edge.3 > -1 && reach[edge.1][j] {
                                proof {
                                    assert(edge.1 < size);
                                    assert(has_active_edge(edges, i as int, edge.1 as int)) by {
                                        assert(edges[e as int] == edge);
                                    }
                                    lemma_reaches_step(edges, i as int, edge.1 as int, j as int);
                                }
                                found = true;
                            } else {
                                e = e + 1;
                            }
                        }
                        if found {
                            let ghost before = reach@;
                            reach[i][j] = true;
                            changed = true;
                            proof {
                                lemma_matrix_mark(before, reach@, i as int, j as int);
                                assert(is_square(reach@, size as int));
                                assert(marks_reach(edges, reach@, size as int));
                                assert(holds_edges(edges, reach@));
                            }
                        }
                    }
                    j = j + 1;
                }
                i = i + 1;
            }
            if !changed {
                proof {
                    assert forall|u: int, v: int|
                        0 <= u < size && 0 <= v < size && reaches(edges, u, v) implies #[trigger] reach@[u]@[v] by {
                        let w = choose|w: nat| #[trigger] walk(edges, w, u, v);
                        lemma_closed_is_complete(edges, reach@, size as int, w, u, v);
                    }
                }
                break;
            }
        }
        reach
    }
}

impl Graph {
    /// The number of active edges whose destination leads back to their
    /// source through active edges.
    pub fn nb_edges_in_cycle(&self) -> (r: usize)
        requires
            self.wf(),
        ensures
            r == cycle_count(self.edges_seq()),
    {
        let reach = self.reachability();
        let ghost edges = self.edges@;
        let n = self.edges.len();
        let mut total: usize = 0;
        let mut k: usize = 0;
        while k < n
            invariant
                self.wf(),
                edges == self.edges@,
                n == edges.len(),
                0 <= k <= n,
                total <= k,
                total == count_members(edges, k as int),
                is_square(reach@, self.nb_nodes as int),
                forall|i: int, j: int|
                    0 <= i < self.nb_nodes && 0 <= j < self.nb_nodes ==> (#[trigger] reach@[i]@[j]
                        <==> reaches(edges, i, j)),
            decreases n - k,
        {
            let edge = self.edges[k];
            if edge.3 > -1 && reach[edge.1][edge.0] {
                total = total + 1;
            }
            k = k + 1;
        }
        total
    }

    /// One round of the search: labels up to `edges_to_add` unlabeled edges,
    /// taken in index order, with `next`, `next + 1`, ..., keeping an
    /// assignment only when the number of cycle members then exceeds
    /// `edges_in_cycle`, and undoing it otherwise. The outcome is exactly the
    /// one that `round` describes: on success `edges_in_cycle` holds the count
    /// of the labeling kept; on failure nothing has changed.
    pub fn find_cycle_at_size(
        &mut self,
        next: &mut isize,
        edges_in_cycle: &mut usize,
        edges_to_add: usize,
    ) -> (success: bool)
        requires
            old(self).wf(),
            labels_ok(old(self).edges_seq(), *old(next) as int),
            edges_to_add >= 1,
        ensures
            final(self).wf(),
            final(self).node_count() == old(self).node_count(),
            final(self).spec_neighborhood() == old(self).spec_neighborhood(),
            final(self).spec_nb_states() == old(self).spec_nb_states(),
            forall|i: int| 0 <= i < old(self).node_count() ==> #[trigger] final(self).out_edges(i) == old(self).out_edges(i),
            same_shape(old(self).edges_seq(), final(self).edges_seq()),
            labels_ok(final(self).edges_seq(), *final(next) as int),
            forall|k: int|
                0 <= k < old(self).edges_seq().len() && is_active(#[trigger] old(self).edges_seq()[k])
                    ==> final(self).edges_seq()[k] == old(self).edges_seq()[k],
            *final(edges_in_cycle) >= *old(edges_in_cycle),
            success ==> *final(edges_in_cycle) > *old(edges_in_cycle),
            success ==> *final(edges_in_cycle) == cycle_count(final(self).edges_seq()),
            !success ==> final(self).edges_seq() == old(self).edges_seq(),
            !success ==> *final(next) == *old(next),
            !success ==> *final(edges_in_cycle) == *old(edges_in_cycle),
            success ==> *final(next) > *old(next),
            (forall|k: int| 0 <= k < old(self).edges_seq().len() ==> (#[trigger] old(self).edges_seq()[k]).3
                != -1) ==> !success,
            edges_to_add == 1 ==> (success <==> exists|j: int|
                0 <= j < old(self).edges_seq().len() && #[trigger] improves(
                    old(self).edges_seq(),
                    *old(next) as int,
                    *old(edges_in_cycle) as int,
                    j,
                )),
            ({
                let r = round(
                    old(self).edges_seq(),
                    *old(next) as int,
                    *old(edges_in_cycle) as int,
                    edges_to_add as nat,
                );
                &&& final(self).edges_seq() == r.0
                &&& *final(next) == r.1
                &&& *final(edges_in_cycle) == r.2
                &&& success == r.3
            }),
        decreases edges_to_add,
    {
        let ghost edges0 = self.edges@;
        let ghost next0 = *next;
        let ghost best0 = *edges_in_cycle;
        let mut success = false;
        let n = self.edges.len();
        let mut i: usize = 0;
        while i < n
            invariant
                self.wf(),
                self.nb_nodes == old(self).nb_nodes,
                self.neighborhood == old(self).neighborhood,
                self.nb_states == old(self).nb_states,
                forall|a: int| 0 <= a < self.nb_nodes ==> #[trigger] self.nodes@[a]@ == old(self).nodes@[a]@,
                edges0 == old(self).edges@,
                next0 == *old(next),
                best0 == *old(edges_in_cycle),
                n == self.edges@.len(),
                0 <= i <= n,
                same_shape(edges0, self.edges@),
                labels_ok(self.edges@, *next as int),
                forall|k: int|
                    0 <= k < n && is_active(#[trigger] edges0[k]) ==> self.edges@[k] == edges0[k],
                *edges_in_cycle >= best0,
                success ==> *edges_in_cycle > best0,
                success ==> *edges_in_cycle == cycle_count(self.edges@),
                !success ==> self.edges@ == edges0,
                !success ==> *next == next0,
                !success ==> *edges_in_cycle == best0,
                edges_to_add >= 1,
                *next >= next0,
                success ==> *next > next0,
                (forall|k: int| 0 <= k < n ==> (#[trigger] edges0[k]).3 != -1) ==> !success,
                edges_to_add == 1 ==> (success <==> exists|j: int|
                    0 <= j < i && #[trigger] improves(edges0, next0 as int, best0 as int, j)),
                ({
                    let r = round(edges0, next0 as int, best0 as int, edges_to_add as nat);
                    let rest = scan(
                        self.edges@,
                        *next as int,
                        *edges_in_cycle as int,
                        edges_to_add as nat,
                        i as int,
                        n as int,
                    );
                    &&& rest.0 == r.0
                    &&& rest.1 == r.1
                    &&& rest.2 == r.2
                    &&& r.3 == (success || rest.3)
                }),
            decreases n - i,
        {
            let ghost before = self.edges@;
            let ghost next_before = *next;
            let ghost best_before = *edges_in_cycle;
            let ghost success_before = success;
            let ghost step_ok = false;
            if self.edges[i].3 == -1 {
                let edge = self.edges[i];
                proof {
                    lemma_count_active_update(before, n as int, i as int, (edge.0, edge.1, edge.2, *next));
                    lemma_count_active_bound(before.update(i as int, (edge.0, edge.1, edge.2, *next)), n as int);
                }
                self.edges.set(i, (edge.0, edge.1, edge.2, *next));
                *next = *next + 1;
                proof {
                    assert(labels_ok(self.edges@, *next as int));
                }
                if edges_to_add > 1 {
                    let ghost labeled = self.edges@;
                    let next_success = self.find_cycle_at_size(next, edges_in_cycle, edges_to_add - 1);
                    proof {
                        assert forall|k: int| 0 <= k < n implies (#[trigger] edges0[k]).0 == self.edges@[k].0
                            && edges0[k].1 == self.edges@[k].1 && edges0[k].2 == self.edges@[k].2 by {
                            assert(labeled[k].0 == self.edges@[k].0);
                        }
                        assert forall|k: int| 0 <= k < n && is_active(#[trigger] edges0[k]) implies self.edges@[k] == edges0[k] by {
                            assert(labeled[k] == before[k]);
                        }
                        assert forall|a: int| 0 <= a < self.nb_nodes implies #[trigger] self.nodes@[a]@ == old(self).nodes@[a]@ by {
                            assert(self.out_edges(a) == old(self).out_edges(a));
                        }
                    }
                    if next_success {
                        success = true;
                        proof {
                            step_ok = true;
                        }
                    } else {
                        self.edges.set(i, edge);
                        *next = *next - 1;
                        proof {
                            assert(self.edges@ =~= before);
                        }
                    }
                } else {
                    let new_edges_in_cycles = self.nb_edges_in_cycle();
                    if new_edges_in_cycles > *edges_in_cycle {
                        *edges_in_cycle = new_edges_in_cycles;
                        success = true;
                        proof {
                            step_ok = true;
                        }
                    } else {
                        self.edges.set(i, edge);
                        *next = *next - 1;
                        proof {
                            assert(self.edges@ =~= before);
                        }
                    }
                }
            }
            proof {
                let rest = scan(
                    self.edges@,
                    *next as int,
                    *edges_in_cycle as int,
                    edges_to_add as nat,
                    i + 1,
                    n as int,
                );
                let st = step(before, next_before as int, best_before as int, edges_to_add as nat, i as int, n as int);
                if before[i as int].3 == -1 {
                    assert(set_label(before, i as int, next_before as int) =~= before.update(
                        i as int,
                        (before[i as int].0, before[i as int].1, before[i as int].2, next_before),
                    ));
                }
                assert(self.edges@ == st.0);
                assert(*next == st.1);
                assert(*edges_in_cycle == st.2);
                assert(step_ok == st.3);
                assert(scan(before, next_before as int, best_before as int, edges_to_add as nat, i as int, n as int)
                    == (rest.0, rest.1, rest.2, step_ok || rest.3));
                if edges_to_add == 1 && !success_before {
                    assert(step_ok == improves(edges0, next0 as int, best0 as int, i as int));
                }
            }
            i = i + 1;
        }
        success
    }
}

impl Graph {
    /// Orders the edges of an unlabeled graph: runs the rounds of
    /// `find_cycle_at_size` for `1, 2, ..., edges` labels, and returns the
    /// number of cycle members of the labeling that it leaves; labeling and
    /// count are exactly those of `search`.
    pub fn order_maximise_cycle(&mut self) -> (r: usize)
        requires
            old(self).wf(),
            forall|k: int| 0 <= k < old(self).edges_seq().len() ==> (#[trigger] old(self).edges_seq()[k]).3 == -1,
        ensures
            final(self).wf(),
            final(self).node_count() == old(self).node_count(),
            final(self).spec_neighborhood() == old(self).spec_neighborhood(),
            final(self).spec_nb_states() == old(self).spec_nb_states(),
            forall|i: int| 0 <= i < old(self).node_count() ==> #[trigger] final(self).out_edges(i) == old(self).out_edges(i),
            same_shape(old(self).edges_seq(), final(self).edges_seq()),
            labels_ok(final(self).edges_seq(), count_active(final(self).edges_seq(), final(self).edges_seq().len() as int) as int),
            r == cycle_count(final(self).edges_seq()),
            final(self).edges_seq() == search(old(self).edges_seq()).0,
            r == search(old(self).edges_seq()).2,
            (exists|k: int|
                0 <= k < old(self).edges_seq().len() && (#[trigger] old(self).edges_seq()[k]).0
                    == old(self).edges_seq()[k].1) ==> r >= 1,
    {
        let mut edges_in_cycle: usize = 0;
        let mut next: isize = 0;
        let ghost edges0 = self.edges@;
        proof {
            assert forall|k: int| 0 <= k < edges0.len() implies !is_active(#[trigger] edges0[k]) by {
                assert(old(self).edges_seq()[k] == edges0[k]);
            }
            lemma_nothing_active(edges0, edges0.len() as int);
            assert(same_shape(edges0, self.edges@));
            assert forall|k: int| 0 <= k < edges0.len() implies (#[trigger] edges0[k]).3 == -1 by {
                assert(old(self).edges_seq()[k] == edges0[k]);
            }
            assert(labels_ok(self.edges@, 0));
        }
        let n = self.edges.len();
        let mut i: usize = 1;
        while i <= n
            invariant
                self.wf(),
                n == self.edges@.len(),
                n <= max_edges(),
                1 <= i <= n + 1,
                self.nb_nodes == old(self).nb_nodes,
                self.neighborhood == old(self).neighborhood,
                self.nb_states == old(self).nb_states,
                forall|a: int| 0 <= a < self.nb_nodes ==> #[trigger] self.out_edges(a) == old(self).out_edges(a),
                edges0 == old(self).edges@,
                same_shape(edges0, self.edges@),
                labels_ok(self.edges@, next as int),
                edges_in_cycle == cycle_count(self.edges@),
                rounds(self.edges@, next as int, edges_in_cycle as int, i as nat, n as nat) == search(edges0),
                i == 1 ==> self.edges@ == edges0 && next == 0 && edges_in_cycle == 0,
                i > 1 && (exists|k: int| 0 <= k < n && (#[trigger] edges0[k]).0 == edges0[k].1) ==> edges_in_cycle >= 1,
                forall|k: int| 0 <= k < n ==> (#[trigger] edges0[k]).3 == -1,
            decreases n + 1 - i,
        {
            let ghost before = self.edges@;
            let ghost next_before = next;
            let ghost best_before = edges_in_cycle;
            if i == 1 {
                proof {
                    if exists|k: int| 0 <= k < n && (#[trigger] edges0[k]).0 == edges0[k].1 {
                        let k = choose|k: int| 0 <= k < n && (#[trigger] edges0[k]).0 == edges0[k].1;
                        let lab = set_label(edges0, k, 0);
                        lemma_active_self_loop_is_member(lab, k);
                        lemma_count_members_positive(lab, n as int, k);
                        assert(improves(edges0, 0, 0, k));
                    }
                }
            }
            self.find_cycle_at_size(&mut next, &mut edges_in_cycle, i);
            proof {
                assert(rounds(before, next_before as int, best_before as int, i as nat, n as nat)
                    == rounds(self.edges@, next as int, edges_in_cycle as int, (i + 1) as nat, n as nat));
                assert forall|k: int| 0 <= k < n implies (#[trigger] edges0[k]).0 == self.edges@[k].0
                    && edges0[k].1 == self.edges@[k].1 && edges0[k].2 == self.edges@[k].2 by {
                    assert(before[k].0 == self.edges@[k].0);
                }
            }
            i = i + 1;
        }
        proof {
            assert(rounds(self.edges@, next as int, edges_in_cycle as int, i as nat, n as nat)
                == (self.edges@, next as int, edges_in_cycle as int));
            if exists|k: int| 0 <= k < old(self).edges_seq().len() && (#[trigger] old(self).edges_seq()[k]).0
                == old(self).edges_seq()[k].1 {
                let k = choose|k: int| 0 <= k < old(self).edges_seq().len() && (#[trigger] old(self).edges_seq()[k]).0
                    == old(self).edges_seq()[k].1;
                assert(edges0[k].0 == edges0[k].1);
            }
        }
        edges_in_cycle
    }
}

/// Builds the de Bruijn graph for `neighborhood` and `nb_states` and orders
/// its edges so as to put as many of them as the search finds on cycles.
pub fn maximize_cycle_labeling(neighborhood: usize, nb_states: usize) -> (r: Result<Graph, GraphError>)
    ensures
        r is Err <==> (neighborhood == 0 || nb_states == 0 || pow(nb_states as int, neighborhood as nat)
            > max_edges()),
        r matches Ok(g) ==> {
            &&& g.wf()
            &&& g.is_de_bruijn(neighborhood as nat, nb_states as nat)
            &&& g.edges_seq().len() == pow(nb_states as int, neighborhood as nat)
            &&& labels_ok(g.edges_seq(), count_active(g.edges_seq(), g.edges_seq().len() as int) as int)
            &&& g.edges_seq() == search(de_bruijn_edges(neighborhood as nat, nb_states as nat)).0
            &&& cycle_count(g.edges_seq()) >= 1
        },
{
    match Graph::new(neighborhood, nb_states) {
        Err(e) => Err(e),
        Ok(g) => {
            let mut g = g;
            let ghost g0 = g;
            proof {
                lemma_pow_grows(nb_states as int, 0, neighborhood as nat);
                lemma_pow_grows(nb_states as int, 0, (neighborhood - 1) as nat);
                assert(g0.edges_seq()[0].0 == 0int / (nb_states as int));
                assert(g0.edges_seq()[0].1 == 0int % (g0.node_count() as int));
            }
            g.order_maximise_cycle();
            proof {
                assert forall|k: int| 0 <= k < g.edges_seq().len() implies (#[trigger] g.edges_seq()[k]).0 == k / (nb_states as int)
                    && g.edges_seq()[k].1 == k % (g.node_count() as int) && g.edges_seq()[k].2 == k % (nb_states as int) by {
                    assert(g0.edges_seq()[k].0 == g.edges_seq()[k].0);
                }
                assert forall|i: int| 0 <= i < g.node_count() implies (#[trigger] g.out_edges(i)).len() == nb_states
                    && forall|j: int| 0 <= j < nb_states ==> #[trigger] g.out_edges(i)[j] == i * nb_states + j by {
                    assert(g.out_edges(i) == g0.out_edges(i));
                }
            }
            Ok(g)
        },
    }
}

/// The edge is not one that a graph of `nb_nodes` nodes can hold.
pub open spec fn edge_out_of_range(e: Edge, nb_nodes: nat) -> bool {
    e.0 >= nb_nodes || e.1 >= nb_nodes || e.3 < -1
}

impl Graph {
    /// A graph of `nb_nodes` nodes with the given edges, labels included;
    /// each node lists its outgoing edges in index order.
    pub fn from_edges(nb_nodes: usize, edges: Vec<Edge>) -> (r: Result<Graph, GraphError>)
        ensures
            r is Err <==> (edges@.len() > max_edges() || exists|k: int|
                0 <= k < edges@.len() && edge_out_of_range(#[trigger] edges@[k], nb_nodes as nat)),
            r matches Ok(g) ==> {
                &&& g.wf()
                &&& g.edges_seq() == edges@
                &&& g.node_count() == nb_nodes
                &&& g.spec_neighborhood() == 0
                &&& g.spec_nb_states() == 0
                &&& forall|i: int| 0 <= i < nb_nodes ==> #[trigger] g.out_edges(i) == outgoing(edges@, i, edges@.len() as int)
            },
    {
        let n = edges.len();
        if n > isize::MAX as usize {
            return Err(GraphError::InvalidParameters);
        }
        let mut k: usize = 0;
        while k < n
            invariant
                n == edges@.len(),
                0 <= k <= n,
                forall|c: int| 0 <= c < k ==> !edge_out_of_range(#[trigger] edges@[c], nb_nodes as nat),
            decreases n - k,
        {
            let e = edges[k];
            if e.0 >= nb_nodes || e.1 >= nb_nodes || e.3 < -1 {
                proof {
                    assert(edge_out_of_range(edges@[k as int], nb_nodes as nat));
                }
                return Err(GraphError::InvalidParameters);
            }
            k = k + 1;
        }
        let mut nodes: Vec<Vec<usize>> = Vec::new();
        let mut i: usize = 0;
        while i < nb_nodes
            invariant
                0 <= i <= nb_nodes,
                nodes@.len() == i,
                forall|a: int| 0 <= a < i ==> (#[trigger] nodes@[a])@.len() == 0,
            decreases nb_nodes - i,
        {
            nodes.push(Vec::new());
            i = i + 1;
        }
        let mut k: usize = 0;
        proof {
            assert forall|a: int| 0 <= a < nb_nodes implies #[trigger] nodes@[a]@ == outgoing(edges@, a, 0) by {
                assert(nodes@[a]@ =~= outgoing(edges@, a, 0));
            }
        }
        while k < n
            invariant
                n == edges@.len(),
                0 <= k <= n,
                nodes@.len() == nb_nodes,
                forall|c: int| 0 <= c < n ==> !edge_out_of_range(#[trigger] edges@[c], nb_nodes as nat),
                forall|a: int| 0 <= a < nb_nodes ==> #[trigger] nodes@[a]@ == outgoing(edges@, a, k as int),
            decreases n - k,
        {
            let src = edges[k].0;
            proof {
                assert(!edge_out_of_range(edges@[k as int], nb_nodes as nat));
            }
            let ghost before = nodes@;
            nodes[src].push(k);
            proof {
                assert forall|a: int| 0 <= a < nb_nodes implies #[trigger] nodes@[a]@ == outgoing(edges@, a, k + 1) by {
                    if a == src {
                        assert(nodes@[a]@ =~= outgoing(edges@, a, k + 1));
                    } else {
                        assert(nodes@[a]@ == before[a]@);
                        assert(outgoing(edges@, a, k + 1) =~= outgoing(edges@, a, k as int));
                    }
                }
            }
            k = k + 1;
        }
        let g = Graph { edges, nodes, neighborhood: 0, nb_states: 0, nb_nodes };
        proof {
            assert forall|c: int| 0 <= c < g.edges@.len() implies (#[trigger] g.edges@[c]).0 < g.nb_nodes
                && g.edges@[c].1 < g.nb_nodes && g.edges@[c].3 >= -1 by {
                assert(!edge_out_of_range(g.edges@[c], nb_nodes as nat));
            }
            assert forall|a: int, t: int|
                0 <= a < g.nb_nodes && 0 <= t < g.nodes@[a]@.len() implies #[trigger] g.nodes@[a]@[t]
                < g.edges@.len() && g.edges@[g.nodes@[a]@[t] as int].0 == a by {
                lemma_outgoing_sound(g.edges@, a, n as int);
            }
            assert forall|c: int| 0 <= c < g.edges@.len() implies g.nodes@[(#[trigger] g.edges@[c]).0 as int]@.contains(
                c as usize) by {
                assert(!edge_out_of_range(g.edges@[c], nb_nodes as nat));
                lemma_outgoing_contains(g.edges@, g.edges@[c].0 as int, n as int, c);
            }
        }
        Ok(g)
    }
}

impl Graph {
    /// Appends the description of the graph: a `digraph deBruijn` block
    /// holding `\t<source> -> <destination> [label=<label>]` for each edge in
    /// index order, unset labels shown as `-1`.
    pub fn render_to(&self, output: &mut String)
        ensures
            final(output)@ == old(output)@ + rendered(self.edges_seq()),
    {
        output.append("digraph deBruijn {\n");
        let ghost start = output@;
        let n = self.edges.len();
        let mut k: usize = 0;
        while k < n
            invariant
                n == self.edges@.len(),
                0 <= k <= n,
                start == old(output)@ + "digraph deBruijn {\n"@,
                output@ == start + edge_lines(self.edges@.subrange(0, k as int)),
            decreases n - k,
        {
            let edge = self.edges[k];
            let ghost before = output@;
            push_char(output, '\t');
            push_decimal(output, edge.0);
            output.append(" -> ");
            push_decimal(output, edge.1);
            output.append(" [label=");
            push_signed_decimal(output, edge.3);
            output.append("]\n");
            proof {
                let s = self.edges@.subrange(0, k + 1);
                assert(s.drop_last() =~= self.edges@.subrange(0, k as int));
                assert(output@ =~= before + edge_line(edge));
            }
            k = k + 1;
        }
        output.append("}\n");
        proof {
            assert(self.edges@.subrange(0, n as int) =~= self.edges@);
            assert(output@ =~= old(output)@ + rendered(self.edges_seq()));
        }
    }
}

/// In the de Bruijn graph every node `i` has exactly `nb_states` outgoing
/// edges: those with indices `i * nb_states` up to `(i + 1) * nb_states`,
/// which is also what the node lists.
pub proof fn lemma_out_degree(g: &Graph, neighborhood: nat, nb_states: nat, i: int)
    requires
        g.is_de_bruijn(neighborhood, nb_states),
        0 <= i < g.node_count(),
    ensures
        i * nb_states + nb_states <= g.edges_seq().len(),
        forall|k: int|
            0 <= k < g.edges_seq().len() ==> ((#[trigger] g.edges_seq()[k]).0 == i <==> i * nb_states <= k
                < i * nb_states + nb_states),
        g.out_edges(i).len() == nb_states,
{
    let s = nb_states as int;
    let n = g.node_count() as int;
    assert(i * s + s <= n * s) by (nonlinear_arith)
        requires
            0 <= i < n,
            s >= 1,
    ;
    assert forall|k: int| 0 <= k < g.edges_seq().len() implies ((#[trigger] g.edges_seq()[k]).0 == i <==> i * s <= k
        < i * s + s) by {
        lemma_fundamental_div_mod(k, s);
        let q = k / s;
        let r = k % s;
        assert(g.edges_seq()[k].0 == q);
        assert(q == i <==> i * s <= k < i * s + s) by (nonlinear_arith)
            requires
                k == s * q + r,
                0 <= r < s,
        ;
    }
}

impl Graph {
    /// The edges in index order.
    pub fn edges(&self) -> (r: &Vec<Edge>)
        ensures
            r@ == self.edges_seq(),
    {
        &self.edges
    }

    /// The number of nodes.
    pub fn nb_nodes(&self) -> (r: usize)
        ensures
            r == self.node_count(),
    {
        self.nb_nodes
    }

    /// The indices of the outgoing edges of node `i`.
    pub fn node_edges(&self, i: usize) -> (r: &Vec<usize>)
        requires
            self.wf(),
            i < self.node_count(),
        ensures
            r@ == self.out_edges(i as int),
    {
        &self.nodes[i]
    }
}

/// What a well-formed graph guarantees: the edge count fits a label, every
/// edge joins two of its nodes with a label that is unset or non-negative,
/// and each node lists exactly the edges that leave it.
pub proof fn lemma_wf_endpoints(g: &Graph)
    requires
        g.wf(),
    ensures
        g.edges_seq().len() <= max_edges(),
        forall|k: int|
            0 <= k < g.edges_seq().len() ==> (#[trigger] g.edges_seq()[k]).0 < g.node_count()
                && g.edges_seq()[k].1 < g.node_count() && g.edges_seq()[k].3 >= -1,
        forall|i: int, t: int|
            0 <= i < g.node_count() && 0 <= t < g.out_edges(i).len() ==> #[trigger] g.out_edges(i)[t]
                < g.edges_seq().len() && g.edges_seq()[g.out_edges(i)[t] as int].0 == i,
        forall|k: int|
            0 <= k < g.edges_seq().len() ==> g.out_edges((#[trigger] g.edges_seq()[k]).0 as int).contains(
                k as usize,
            ),
{
}

} // verus!