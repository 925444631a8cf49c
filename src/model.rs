//! Mathematical model of a labeled graph: active edges, walks, reachability,
//! cycle membership and the bookkeeping of order labels.
use vstd::prelude::*;

verus! {

/// An edge: `(source, destination, symbol, label)`; a label of `-1` means unset.
pub type Edge = (usize, usize, usize, isize);

/// An edge is active once it carries an order label.
pub open spec fn is_active(e: Edge) -> bool {
    e.3 >= 0
}

/// Some active edge goes directly from `u` to `v`.
pub open spec fn has_active_edge(edges: Seq<Edge>, u: int, v: int) -> bool {
    exists|k: int|
        0 <= k < edges.len() && is_active(#[trigger] edges[k]) && edges[k].0 == u && edges[k].1
            == v
}

/// A walk of at most `n + 1` active edges leads from `u` to `v`.
pub open spec fn walk(edges: Seq<Edge>, n: nat, u: int, v: int) -> bool
    decreases n,
{
    has_active_edge(edges, u, v) || (n > 0 && exists|w: int|
        #[trigger] has_active_edge(edges, u, w) && walk(edges, (n - 1) as nat, w, v))
}

/// `v` can be reached from `u` through one or more active edges.
pub open spec fn reaches(edges: Seq<Edge>, u: int, v: int) -> bool {
    exists|n: nat| #[trigger] walk(edges, n, u, v)
}

/// Edge `k` is active and its destination leads back to its source.
pub open spec fn is_cycle_member(edges: Seq<Edge>, k: int) -> bool {
    is_active(edges[k]) && reaches(edges, edges[k].1 as int, edges[k].0 as int)
}

/// The number of cycle members among the first `n` edges.
pub open spec fn count_members(edges: Seq<Edge>, n: int) -> nat
    decreases n,
{
    if n <= 0 {
        0
    } else {
        count_members(edges, n - 1) + if is_cycle_member(edges, n - 1) {
            1nat
        } else {
            0nat
        }
    }
}

/// The number of edges that lie on a cycle of active edges.
pub open spec fn cycle_count(edges: Seq<Edge>) -> nat {
    count_members(edges, edges.len() as int)
}

/// The number of active edges among the first `n` edges.
pub open spec fn count_active(edges: Seq<Edge>, n: int) -> nat
    decreases n,
{
    if n <= 0 {
        0
    } else {
        count_active(edges, n - 1) + if is_active(edges[n - 1]) {
            1nat
        } else {
            0nat
        }
    }
}

/// Two edge sequences that differ at most in their labels.
pub open spec fn same_shape(a: Seq<Edge>, b: Seq<Edge>) -> bool {
    &&& a.len() == b.len()
    &&& forall|k: int|
        0 <= k < a.len() ==> (#[trigger] a[k]).0 == b[k].0 && a[k].1 == b[k].1 && a[k].2 == b[k].2
}

/// The labels in use are distinct and are exactly `0, 1, ..., next - 1`.
pub open spec fn labels_ok(edges: Seq<Edge>, next: int) -> bool {
    &&& forall|k: int| 0 <= k < edges.len() ==> -1 <= (#[trigger] edges[k]).3 < next
    &&& forall|k1: int, k2: int|
        0 <= k1 < edges.len() && 0 <= k2 < edges.len() && k1 != k2 && is_active(
            #[trigger] edges[k1],
        ) && is_active(#[trigger] edges[k2]) ==> edges[k1].3 != edges[k2].3
    &&& count_active(edges, edges.len() as int) == next
}

/// A count of active edges never exceeds the number of edges counted.
pub proof fn lemma_count_active_bound(edges: Seq<Edge>, n: int)
    requires
        0 <= n <= edges.len(),
    ensures
        count_active(edges, n) <= n,
    decreases n,
{
    if n > 0 {
        lemma_count_active_bound(edges, n - 1);
    }
}

/// Changing one label changes the active count only by that edge's activity.
pub proof fn lemma_count_active_update(edges: Seq<Edge>, n: int, i: int, e: Edge)
    requires
        0 <= i < edges.len(),
        0 <= n <= edges.len(),
    ensures
        count_active(edges.update(i, e), n) + (if i < n && is_active(edges[i]) {
            1int
        } else {
            0int
        }) == count_active(edges, n) + (if i < n && is_active(e) {
            1int
        } else {
            0int
        }),
    decreases n,
{
    if n > 0 {
        lemma_count_active_update(edges, n - 1, i, e);
    }
}

/// With no active edge nothing is counted.
pub proof fn lemma_nothing_active(edges: Seq<Edge>, n: int)
    requires
        0 <= n <= edges.len(),
        forall|k: int| 0 <= k < edges.len() ==> !is_active(#[trigger] edges[k]),
    ensures
        count_active(edges, n) == 0,
        count_members(edges, n) == 0,
    decreases n,
{
    if n > 0 {
        lemma_nothing_active(edges, n - 1);
    }
}

/// An active edge followed by a path is a path.
pub proof fn lemma_reaches_step(edges: Seq<Edge>, u: int, w: int, v: int)
    requires
        has_active_edge(edges, u, w),
        reaches(edges, w, v),
    ensures
        reaches(edges, u, v),
{
    let n = choose|n: nat| #[trigger] walk(edges, n, w, v);
    let m = (n + 1) as nat;
    assert(walk(edges, (m - 1) as nat, w, v));
    assert(walk(edges, m, u, v));
}

/// A single active edge is a path.
pub proof fn lemma_reaches_edge(edges: Seq<Edge>, u: int, v: int)
    requires
        has_active_edge(edges, u, v),
    ensures
        reaches(edges, u, v),
{
    assert(walk(edges, 0, u, v));
}

/// Every edge joins two of the first `size` nodes.
pub open spec fn endpoints_below(edges: Seq<Edge>, size: int) -> bool {
    forall|k: int| 0 <= k < edges.len() ==> (#[trigger] edges[k]).0 < size && edges[k].1 < size
}

/// `m` is a `size` by `size` matrix.
pub open spec fn is_square(m: Seq<Vec<bool>>, size: int) -> bool {
    m.len() == size && forall|i: int| 0 <= i < size ==> (#[trigger] m[i])@.len() == size
}

/// The matrix marks both ends of every active edge.
pub open spec fn holds_edges(edges: Seq<Edge>, m: Seq<Vec<bool>>) -> bool {
    forall|k: int|
        0 <= k < edges.len() && is_active(#[trigger] edges[k]) ==> m[edges[k].0 as int]@[edges[k].1 as int]
}

/// Each mark stands for a path of active edges.
pub open spec fn marks_reach(edges: Seq<Edge>, m: Seq<Vec<bool>>, size: int) -> bool {
    forall|i: int, j: int|
        0 <= i < size && 0 <= j < size && #[trigger] m[i]@[j] ==> reaches(edges, i, j)
}

/// Pair `(i, j)` is marked, or no active edge from `i` leads to a node marked
/// for `j`.
pub open spec fn closed_at(edges: Seq<Edge>, m: Seq<Vec<bool>>, i: int, j: int) -> bool {
    m[i]@[j] || forall|k: int|
        0 <= k < edges.len() ==> !((#[trigger] edges[k]).0 == i && is_active(edges[k]) && m[edges[k].1 as int]@[j])
}

/// The number of unmarked cells of a row.
pub open spec fn row_falses(row: Seq<bool>) -> nat
    decreases row.len(),
{
    if row.len() == 0 {
        0
    } else {
        row_falses(row.drop_last()) + if row.last() {
            0nat
        } else {
            1nat
        }
    }
}

/// The number of unmarked cells of a matrix.
pub open spec fn falses(m: Seq<Vec<bool>>) -> nat
    decreases m.len(),
{
    if m.len() == 0 {
        0
    } else {
        falses(m.drop_last()) + row_falses(m.last()@)
    }
}

/// Marking an unmarked cell of a row removes one unmarked cell.
pub proof fn lemma_row_mark(row: Seq<bool>, j: int)
    requires
        0 <= j < row.len(),
        !row[j],
    ensures
        row_falses(row.update(j, true)) + 1 == row_falses(row),
    decreases row.len(),
{
    let r2 = row.update(j, true);
    if j < row.len() - 1 {
        lemma_row_mark(row.drop_last(), j);
        assert(r2.drop_last() =~= row.drop_last().update(j, true));
    } else {
        assert(r2.drop_last() =~= row.drop_last());
    }
}

/// Marking an unmarked cell of a matrix removes one unmarked cell.
pub proof fn lemma_matrix_mark(m: Seq<Vec<bool>>, m2: Seq<Vec<bool>>, i: int, j: int)
    requires
        0 <= i < m.len(),
        0 <= j < m[i]@.len(),
        !m[i]@[j],
        m2.len() == m.len(),
        m2[i]@ == m[i]@.update(j, true),
        forall|a: int| 0 <= a < m.len() && a != i ==> (#[trigger] m2[a])@ == m[a]@,
    ensures
        falses(m2) + 1 == falses(m),
    decreases m.len(),
{
    if i < m.len() - 1 {
        lemma_matrix_mark(m.drop_last(), m2.drop_last(), i, j);
        assert(m2.last()@ == m.last()@);
    } else {
        lemma_row_mark(m[i]@, j);
        lemma_falses_same_views(m.drop_last(), m2.drop_last());
    }
}

/// Matrices with the same rows have the same unmarked cells.
pub proof fn lemma_falses_same_views(m: Seq<Vec<bool>>, m2: Seq<Vec<bool>>)
    requires
        m2.len() == m.len(),
        forall|a: int| 0 <= a < m.len() ==> (#[trigger] m2[a])@ == m[a]@,
    ensures
        falses(m2) == falses(m),
    decreases m.len(),
{
    if m.len() > 0 {
        lemma_falses_same_views(m.drop_last(), m2.drop_last());
        assert(m2.last()@ == m.last()@);
    }
}

/// A matrix that holds every active edge and is closed at every pair marks
/// every pair joined by a walk.
pub proof fn lemma_closed_is_complete(
    edges: Seq<Edge>,
    m: Seq<Vec<bool>>,
    size: int,
    n: nat,
    u: int,
    v: int,
)
    requires
        endpoints_below(edges, size),
        is_square(m, size),
        holds_edges(edges, m),
        forall|i: int, j: int| 0 <= i < size && 0 <= j < size ==> #[trigger] closed_at(edges, m, i, j),
        0 <= v < size,
        walk(edges, n, u, v),
    ensures
        0 <= u < size,
        m[u]@[v],
    decreases n,
{
    if has_active_edge(edges, u, v) {
        let k = choose|k: int|
            0 <= k < edges.len() && is_active(#[trigger] edges[k]) && edges[k].0 == u && edges[k].1 == v;
        assert(edges[k].0 < size);
    } else {
        let w = choose|w: int| #[trigger] has_active_edge(edges, u, w) && walk(edges, (n - 1) as nat, w, v);
        lemma_closed_is_complete(edges, m, size, (n - 1) as nat, w, v);
        let k = choose|k: int|
            0 <= k < edges.len() && is_active(#[trigger] edges[k]) && edges[k].0 == u && edges[k].1 == w;
        assert(edges[k].0 < size);
        assert(closed_at(edges, m, u, v));
    }
}

/// Walks of each length agree on two edge sequences that join the same pairs
/// of nodes by active edges.
proof fn lemma_walk_same(a: Seq<Edge>, b: Seq<Edge>, n: nat)
    requires
        forall|x: int, y: int|
            #![trigger has_active_edge(a, x, y)]
            #![trigger has_active_edge(b, x, y)]
            has_active_edge(a, x, y) == has_active_edge(b, x, y),
    ensures
        forall|u: int, v: int| #[trigger] walk(a, n, u, v) == walk(b, n, u, v),
    decreases n,
{
    if n > 0 {
        lemma_walk_same(a, b, (n - 1) as nat);
        assert forall|u: int, v: int| #[trigger] walk(a, n, u, v) == walk(b, n, u, v) by {
            if walk(a, n, u, v) && !has_active_edge(a, u, v) {
                let w = choose|w: int| #[trigger] has_active_edge(a, u, w) && walk(a, (n - 1) as nat, w, v);
                assert(has_active_edge(b, u, w) && walk(b, (n - 1) as nat, w, v));
            }
            if walk(b, n, u, v) && !has_active_edge(b, u, v) {
                let w = choose|w: int| #[trigger] has_active_edge(b, u, w) && walk(b, (n - 1) as nat, w, v);
                assert(has_active_edge(a, u, w) && walk(a, (n - 1) as nat, w, v));
            }
        }
    }
}

/// Reachability depends only on which pairs of nodes an active edge joins:
/// not on inactive edges, on the order of the edges, or on their labels'
/// values.
pub proof fn lemma_reach_depends_only_on_active_edges(a: Seq<Edge>, b: Seq<Edge>)
    requires
        forall|x: int, y: int|
            #![trigger has_active_edge(a, x, y)]
            #![trigger has_active_edge(b, x, y)]
            has_active_edge(a, x, y) == has_active_edge(b, x, y),
    ensures
        forall|u: int, v: int| #[trigger] reaches(a, u, v) == reaches(b, u, v),
{
    assert forall|u: int, v: int| #[trigger] reaches(a, u, v) == reaches(b, u, v) by {
        if reaches(a, u, v) {
            let n = choose|n: nat| #[trigger] walk(a, n, u, v);
            lemma_walk_same(a, b, n);
            assert(walk(b, n, u, v));
        }
        if reaches(b, u, v) {
            let n = choose|n: nat| #[trigger] walk(b, n, u, v);
            lemma_walk_same(a, b, n);
            assert(walk(a, n, u, v));
        }
    }
}

/// The active edges alone, in their order.
pub open spec fn active_only(edges: Seq<Edge>) -> Seq<Edge> {
    edges.filter(|e: Edge| is_active(e))
}

/// Removing the inactive edges leaves every reachability unchanged.
pub proof fn lemma_removing_inactive_keeps_reach(edges: Seq<Edge>)
    ensures
        forall|u: int, v: int| #[trigger] reaches(active_only(edges), u, v) == reaches(edges, u, v),
{
    let f = active_only(edges);
    let pred = |e: Edge| is_active(e);
    assert forall|x: int, y: int|
        #![trigger has_active_edge(f, x, y)]
        #![trigger has_active_edge(edges, x, y)]
        has_active_edge(f, x, y) == has_active_edge(edges, x, y) by {
        if has_active_edge(edges, x, y) {
            let k = choose|k: int| 0 <= k < edges.len() && is_active(#[trigger] edges[k]) && edges[k].0 == x && edges[k].1 == y;
            edges.lemma_filter_contains(pred, k);
            let k2 = choose|k2: int| 0 <= k2 < f.len() && f[k2] == edges[k];
            assert(is_active(f[k2]));
        }
        if has_active_edge(f, x, y) {
            let k = choose|k: int| 0 <= k < f.len() && is_active(#[trigger] f[k]) && f[k].0 == x && f[k].1 == y;
            assert(f.contains(f[k]));
            edges.lemma_filter_contains_rev(pred, f[k]);
            let k2 = choose|k2: int| 0 <= k2 < edges.len() && edges[k2] == f[k];
            assert(is_active(edges[k2]));
        }
    }
    lemma_reach_depends_only_on_active_edges(f, edges);
}

/// An active edge from a node to itself is always a cycle member.
pub proof fn lemma_active_self_loop_is_member(edges: Seq<Edge>, k: int)
    requires
        0 <= k < edges.len(),
        is_active(edges[k]),
        edges[k].0 == edges[k].1,
    ensures
        is_cycle_member(edges, k),
{
    assert(has_active_edge(edges, edges[k].1 as int, edges[k].0 as int));
    lemma_reaches_edge(edges, edges[k].1 as int, edges[k].0 as int);
}

/// `m` answers, for each pair of the first `size` nodes, whether the second
/// can be reached from the first through active edges.
pub open spec fn is_closure(edges: Seq<Edge>, m: Seq<Vec<bool>>, size: int) -> bool {
    &&& is_square(m, size)
    &&& forall|i: int, j: int|
        0 <= i < size && 0 <= j < size ==> (#[trigger] m[i]@[j] <==> reaches(edges, i, j))
}

/// The reachability matrix is fixed by the pairs that active edges join:
/// computing it twice on one labeling, or again once the inactive edges are
/// removed, gives the same matrix.
pub proof fn lemma_closure_is_unique(
    a: Seq<Edge>,
    b: Seq<Edge>,
    ma: Seq<Vec<bool>>,
    mb: Seq<Vec<bool>>,
    size: int,
)
    requires
        is_closure(a, ma, size),
        is_closure(b, mb, size),
        forall|x: int, y: int|
            #![trigger has_active_edge(a, x, y)]
            #![trigger has_active_edge(b, x, y)]
            has_active_edge(a, x, y) == has_active_edge(b, x, y),
    ensures
        forall|i: int| 0 <= i < size ==> (#[trigger] ma[i])@ == mb[i]@,
{
    lemma_reach_depends_only_on_active_edges(a, b);
    assert forall|i: int| 0 <= i < size implies (#[trigger] ma[i])@ == mb[i]@ by {
        assert forall|j: int| 0 <= j < size implies ma[i]@[j] == mb[i]@[j] by {
            assert(reaches(a, i, j) == reaches(b, i, j));
        }
        assert(ma[i]@ =~= mb[i]@);
    }
}

/// Removing the inactive edges leaves the reachability matrix as it is.
pub proof fn lemma_closure_without_inactive(edges: Seq<Edge>, m: Seq<Vec<bool>>, size: int)
    requires
        is_closure(edges, m, size),
    ensures
        is_closure(active_only(edges), m, size),
{
    lemma_removing_inactive_keeps_reach(edges);
}

/// The edges with edge `i` given label `l`.
pub open spec fn set_label(edges: Seq<Edge>, i: int, l: int) -> Seq<Edge> {
    edges.update(i, (edges[i].0, edges[i].1, edges[i].2, l as isize))
}

/// One step of a round at edge `i`: the edges, the next label, the best
/// count and whether the step succeeded. An unlabeled edge takes label
/// `next`; with `k > 1` labels still to place the round recurses for `k - 1`
/// more and keeps the label only if that succeeds; with one label left the
/// whole labeling is scored and kept only if its cycle count exceeds `best`.
/// A step that does not succeed changes nothing.
pub open spec fn step(edges: Seq<Edge>, next: int, best: int, k: nat, i: int, n: int) -> (
    Seq<Edge>,
    int,
    int,
    bool,
)
    decreases k, n - i, 0int,
{
    if 0 <= i < n && k > 0 && edges[i].3 == -1 {
        let lab = set_label(edges, i, next);
        if k > 1 {
            let r = scan(lab, next + 1, best, (k - 1) as nat, 0, n);
            if r.3 {
                r
            } else {
                (edges, next, best, false)
            }
        } else if cycle_count(lab) > best {
            (lab, next + 1, cycle_count(lab) as int, true)
        } else {
            (edges, next, best, false)
        }
    } else {
        (edges, next, best, false)
    }
}

/// The rest of one round of the search, from edge `i` to edge `n - 1`: the
/// state after each step in turn, and whether some step succeeded.
pub open spec fn scan(edges: Seq<Edge>, next: int, best: int, k: nat, i: int, n: int) -> (
    Seq<Edge>,
    int,
    int,
    bool,
)
    decreases k, n - i, 1int,
{
    if i >= n || k == 0 || i < 0 {
        (edges, next, best, false)
    } else {
        let st = step(edges, next, best, k, i, n);
        let rest = scan(st.0, st.1, st.2, k, i + 1, n);
        (rest.0, rest.1, rest.2, st.3 || rest.3)
    }
}

/// One round of the search placing up to `k` labels, over all edges.
pub open spec fn round(edges: Seq<Edge>, next: int, best: int, k: nat) -> (Seq<Edge>, int, int, bool) {
    scan(edges, next, best, k, 0, edges.len() as int)
}

/// Rounds `from`, `from + 1`, ..., `to` in turn.
pub open spec fn rounds(edges: Seq<Edge>, next: int, best: int, from: nat, to: nat) -> (
    Seq<Edge>,
    int,
    int,
)
    decreases to + 1 - from,
{
    if from > to {
        (edges, next, best)
    } else {
        let r = round(edges, next, best, from);
        rounds(r.0, r.1, r.2, from + 1, to)
    }
}

/// The whole search: rounds `1..=edges` from label 0 and best count 0.
pub open spec fn search(edges: Seq<Edge>) -> (Seq<Edge>, int, int) {
    rounds(edges, 0, 0, 1, edges.len() as nat)
}

/// Edge `j` is unlabeled and labeling it `next` lifts the count above `best`.
pub open spec fn improves(edges: Seq<Edge>, next: int, best: int, j: int) -> bool {
    edges[j].3 == -1 && cycle_count(set_label(edges, j, next)) > best
}

/// A count of cycle members is at least one once some counted edge is one.
pub proof fn lemma_count_members_positive(edges: Seq<Edge>, n: int, k: int)
    requires
        0 <= k < n <= edges.len(),
        is_cycle_member(edges, k),
    ensures
        count_members(edges, n) >= 1,
    decreases n,
{
    if k < n - 1 {
        lemma_count_members_positive(edges, n - 1, k);
    }
}

/// The indices below `n` of the edges that leave node `i`, in increasing
/// order.
pub open spec fn outgoing(edges: Seq<Edge>, i: int, n: int) -> Seq<usize>
    decreases n,
{
    if n <= 0 {
        Seq::empty()
    } else {
        outgoing(edges, i, n - 1) + if edges[n - 1].0 == i {
            seq![(n - 1) as usize]
        } else {
            Seq::empty()
        }
    }
}

/// Every edge below `n` that leaves `i` is among its outgoing indices.
pub proof fn lemma_outgoing_contains(edges: Seq<Edge>, i: int, n: int, k: int)
    requires
        0 <= k < n,
        edges[k].0 == i,
    ensures
        outgoing(edges, i, n).contains(k as usize),
    decreases n,
{
    if k < n - 1 {
        lemma_outgoing_contains(edges, i, n - 1, k);
        let t = choose|t: int| 0 <= t < outgoing(edges, i, n - 1).len() && #[trigger] outgoing(edges, i, n - 1)[t] == k as usize;
        assert(outgoing(edges, i, n)[t] == k as usize);
    } else {
        assert(outgoing(edges, i, n)[outgoing(edges, i, n - 1).len() as int] == k as usize);
    }
}

/// Every outgoing index of `i` below `n` names an edge that leaves `i`.
pub proof fn lemma_outgoing_sound(edges: Seq<Edge>, i: int, n: int)
    requires
        0 <= n <= edges.len(),
        n <= usize::MAX,
    ensures
        forall|t: int|
            0 <= t < outgoing(edges, i, n).len() ==> #[trigger] outgoing(edges, i, n)[t] < n
                && edges[outgoing(edges, i, n)[t] as int].0 == i,
    decreases n,
{
    if n > 0 {
        lemma_outgoing_sound(edges, i, n - 1);
        let o = outgoing(edges, i, n);
        let p = outgoing(edges, i, n - 1);
        let tail = if edges[n - 1].0 == i {
            seq![(n - 1) as usize]
        } else {
            Seq::<usize>::empty()
        };
        assert(o == p + tail);
        assert forall|t: int| 0 <= t < o.len() implies #[trigger] o[t] < n && edges[o[t] as int].0 == i by {
            if t < p.len() {
                assert(o[t] == p[t]);
            } else {
                assert(tail.len() > 0);
                assert(edges[n - 1].0 == i);
                assert(o[t] == tail[t - p.len()]);
            }
        }
    }
}

} // verus!
