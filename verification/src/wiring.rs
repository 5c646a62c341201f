//! The dependency relation between stores, as mathematics.
//!
//! A wiring lists, for each store, the stores it reads. Store `d` reads store
//! `u` exactly when `u` occurs in the list of `d`; a change of `u` then has to
//! reach `d`.

use vstd::prelude::*;

verus! {

/// Every store named in the wiring exists.
pub open spec fn in_range(w: Seq<Seq<int>>) -> bool {
    forall|d: int, k: int|
        0 <= d < w.len() && 0 <= k < w[d].len() ==> 0 <= #[trigger] w[d][k] < w.len()
}

/// Store `d` reads store `u`.
pub open spec fn edge(w: Seq<Seq<int>>, u: int, d: int) -> bool {
    0 <= d < w.len() && w[d].contains(u)
}

/// `p` walks from a store to a store that reads it, and so on.
pub open spec fn is_path(w: Seq<Seq<int>>, p: Seq<int>) -> bool {
    &&& p.len() >= 1
    &&& forall|i: int| 0 <= i < p.len() - 1 ==> edge(w, #[trigger] p[i], p[i + 1])
}

/// A change of `a` reaches `b`: `b` is `a` itself or depends on it, directly
/// or through other stores.
pub open spec fn reaches(w: Seq<Seq<int>>, a: int, b: int) -> bool {
    exists|p: Seq<int>| #[trigger] is_path(w, p) && p.first() == a && p.last() == b
}

/// No store depends on itself.
pub open spec fn acyclic(w: Seq<Seq<int>>) -> bool {
    forall|p: Seq<int>| #[trigger] is_path(w, p) && p.len() >= 2 ==> p.first() != p.last()
}

/// `rank` numbers the stores so that every store has a larger number than
/// each store it reads.
pub open spec fn ranked(w: Seq<Seq<int>>, rank: Seq<int>) -> bool {
    &&& rank.len() == w.len()
    &&& forall|d: int, k: int|
        0 <= d < w.len() && 0 <= k < w[d].len() ==> rank[#[trigger] w[d][k]] < rank[d]
}

/// The wiring in which `d` also reads `u`.
pub open spec fn add_edge(w: Seq<Seq<int>>, u: int, d: int) -> Seq<Seq<int>> {
    w.update(d, w[d].push(u))
}

/// The wiring with one more store, which reads nothing.
pub open spec fn add_node(w: Seq<Seq<int>>) -> Seq<Seq<int>> {
    w.push(Seq::empty())
}

pub proof fn lemma_reaches_self(w: Seq<Seq<int>>, a: int)
    ensures
        reaches(w, a, a),
{
    let p = seq![a];
    assert(is_path(w, p));
    assert(p.first() == a && p.last() == a);
}

pub proof fn lemma_reaches_step(w: Seq<Seq<int>>, a: int, x: int, y: int)
    requires
        reaches(w, a, x),
        edge(w, x, y),
    ensures
        reaches(w, a, y),
{
    let p = choose|p: Seq<int>| #[trigger] is_path(w, p) && p.first() == a && p.last() == x;
    let q = p.push(y);
    assert forall|i: int| 0 <= i < q.len() - 1 implies edge(w, #[trigger] q[i], q[i + 1]) by {
        if i < p.len() - 1 {
            assert(q[i] == p[i] && q[i + 1] == p[i + 1]);
        }
    }
    assert(is_path(w, q));
    assert(q.first() == a && q.last() == y);
}

/// A change that reaches another store reaches a store that it reads.
pub proof fn lemma_reaches_last(w: Seq<Seq<int>>, a: int, b: int)
    requires
        reaches(w, a, b),
        a != b,
    ensures
        exists|u: int| reaches(w, a, u) && #[trigger] edge(w, u, b),
{
    let p = choose|p: Seq<int>| #[trigger] is_path(w, p) && p.first() == a && p.last() == b;
    let q = p.drop_last();
    assert forall|i: int| 0 <= i < q.len() - 1 implies edge(w, #[trigger] q[i], q[i + 1]) by {
        assert(q[i] == p[i] && q[i + 1] == p[i + 1]);
    }
    assert(is_path(w, q));
    assert(q.first() == a);
    assert(edge(w, p[p.len() - 2], p[p.len() - 2 + 1]));
    assert(reaches(w, a, q.last()));
    assert(edge(w, q.last(), b));
}

/// A change of a store that nothing reads reaches that store alone.
pub proof fn lemma_unread_reaches_itself(w: Seq<Seq<int>>, a: int, b: int)
    requires
        forall|d: int| !edge(w, a, d),
        reaches(w, a, b),
    ensures
        a == b,
{
    let p = choose|p: Seq<int>| #[trigger] is_path(w, p) && p.first() == a && p.last() == b;
    if p.len() >= 2 {
        assert(edge(w, p[0int], p[0int + 1]));
    }
}

/// A store that reads another is reached by a change of it.
pub proof fn lemma_edge_reaches(w: Seq<Seq<int>>, u: int, d: int)
    requires
        edge(w, u, d),
    ensures
        reaches(w, u, d),
{
    lemma_reaches_self(w, u);
    lemma_reaches_step(w, u, u, d);
}

proof fn lemma_rank_grows(w: Seq<Seq<int>>, rank: Seq<int>, p: Seq<int>, i: int)
    requires
        in_range(w),
        ranked(w, rank),
        is_path(w, p),
        p.len() >= 2,
        1 <= i < p.len(),
    ensures
        0 <= p[0] < w.len(),
        0 <= p[i] < w.len(),
        rank[p[0]] < rank[p[i]],
    decreases i,
{
    assert(edge(w, p[i - 1], p[i - 1 + 1]));
    let k = choose|k: int| 0 <= k < w[p[i]].len() && w[p[i]][k] == p[i - 1];
    assert(rank[w[p[i]][k]] < rank[p[i]]);
    if i > 1 {
        lemma_rank_grows(w, rank, p, i - 1);
    }
}

/// A wiring that can be ranked has no cycle.
pub proof fn lemma_ranked_is_acyclic(w: Seq<Seq<int>>, rank: Seq<int>)
    requires
        in_range(w),
        ranked(w, rank),
    ensures
        acyclic(w),
{
    assert forall|p: Seq<int>| #[trigger] is_path(w, p) && p.len() >= 2 implies p.first()
        != p.last() by {
        lemma_rank_grows(w, rank, p, p.len() - 1);
    }
}

/// In a ranked wiring a change reaches only stores of a larger rank.
pub proof fn lemma_reaches_ranks(w: Seq<Seq<int>>, rank: Seq<int>, a: int, b: int)
    requires
        in_range(w),
        ranked(w, rank),
        reaches(w, a, b),
        a != b,
    ensures
        0 <= a < w.len(),
        0 <= b < w.len(),
        rank[a] < rank[b],
{
    let p = choose|p: Seq<int>| #[trigger] is_path(w, p) && p.first() == a && p.last() == b;
    lemma_rank_grows(w, rank, p, p.len() - 1);
}

/// Every edge of a wiring is an edge of the wiring with one more edge.
pub proof fn lemma_add_edge_keeps_edges(w: Seq<Seq<int>>, u: int, d: int, a: int, b: int)
    requires
        0 <= d < w.len(),
        edge(w, a, b),
    ensures
        edge(add_edge(w, u, d), a, b),
{
    let k = choose|k: int| 0 <= k < w[b].len() && w[b][k] == a;
    assert(add_edge(w, u, d)[b][k] == a);
}

/// The wiring with one more edge has that edge and those it had.
pub proof fn lemma_add_edge_edges(w: Seq<Seq<int>>, u: int, d: int, a: int, b: int)
    requires
        0 <= d < w.len(),
        edge(add_edge(w, u, d), a, b),
    ensures
        edge(w, a, b) || (a == u && b == d),
{
    let w2 = add_edge(w, u, d);
    let k = choose|k: int| 0 <= k < w2[b].len() && w2[b][k] == a;
    if !(b == d && k == w[d].len()) {
        assert(w[b][k] == a);
    }
}

proof fn lemma_add_edge_keeps_paths(w: Seq<Seq<int>>, u: int, d: int, p: Seq<int>)
    requires
        0 <= d < w.len(),
        is_path(w, p),
    ensures
        is_path(add_edge(w, u, d), p),
{
    assert forall|i: int| 0 <= i < p.len() - 1 implies edge(
        add_edge(w, u, d),
        #[trigger] p[i],
        p[i + 1],
    ) by {
        lemma_add_edge_keeps_edges(w, u, d, p[i], p[i + 1]);
    }
}

/// To let `d` read `u` when a change of `d` reaches `u` closes a cycle.
pub proof fn lemma_back_edge_closes_cycle(w: Seq<Seq<int>>, u: int, d: int)
    requires
        0 <= d < w.len(),
        reaches(w, d, u),
    ensures
        !acyclic(add_edge(w, u, d)),
{
    let w2 = add_edge(w, u, d);
    let p = choose|p: Seq<int>| #[trigger] is_path(w, p) && p.first() == d && p.last() == u;
    lemma_add_edge_keeps_paths(w, u, d, p);
    let q = p.push(d);
    assert(w2[d][w[d].len() as int] == u);
    assert(edge(w2, u, d));
    assert forall|i: int| 0 <= i < q.len() - 1 implies edge(w2, #[trigger] q[i], q[i + 1]) by {
        if i < p.len() - 1 {
            assert(q[i] == p[i] && q[i + 1] == p[i + 1]);
            assert(edge(w2, p[i], p[i + 1]));
        }
    }
    assert(is_path(w2, q) && q.len() >= 2 && q.first() == q.last());
}

/// The wiring with one more edge has that edge.
pub proof fn lemma_add_edge_has_edge(w: Seq<Seq<int>>, u: int, d: int)
    requires
        0 <= d < w.len(),
    ensures
        edge(add_edge(w, u, d), u, d),
{
    assert(add_edge(w, u, d)[d][w[d].len() as int] == u);
}

/// A numbering `pos` ranks the wiring in which `d` also reads `u`, if it
/// puts `u` before `d` and keeps the order that a ranking of the wiring as
/// it is gives to two stores, but where it moves the first of them into a
/// set of stores and not the second. The set holds `d`, not `u`, and with
/// each store those that read it.
pub proof fn lemma_add_edge_ranked(
    w: Seq<Seq<int>>,
    rank: Seq<int>,
    pos: Seq<int>,
    inside: Set<int>,
    u: int,
    d: int,
)
    requires
        in_range(w),
        ranked(w, rank),
        pos.len() == w.len(),
        0 <= u < w.len(),
        0 <= d < w.len(),
        inside.contains(d),
        !inside.contains(u),
        forall|a: int, b: int| inside.contains(a) && edge(w, a, b) ==> inside.contains(b),
        pos[u] < pos[d],
        forall|a: int, b: int|
            0 <= a < w.len() && 0 <= b < w.len() && rank[a] < rank[b] && !(inside.contains(a)
                && !inside.contains(b)) ==> #[trigger] pos[a] < #[trigger] pos[b],
    ensures
        in_range(add_edge(w, u, d)),
        ranked(add_edge(w, u, d), pos),
{
    let w2 = add_edge(w, u, d);
    assert forall|x: int, k: int| 0 <= x < w2.len() && 0 <= k < w2[x].len() implies 0
        <= #[trigger] w2[x][k] < w2.len() && pos[w2[x][k]] < pos[x] by {
        if x == d && k == w[d].len() {
            assert(w2[x][k] == u);
        } else {
            let y = w[x][k];
            assert(w2[x][k] == y);
            assert(0 <= y < w.len());
            assert(rank[y] < rank[x]);
            assert(edge(w, y, x));
        }
    }
}

/// To let `d` read `u` when no change of `d` reaches `u` closes no cycle:
/// the stores that a change of `d` reaches can all be ranked behind `u`.
pub proof fn lemma_forward_edge_keeps_acyclic(w: Seq<Seq<int>>, rank: Seq<int>, u: int, d: int)
    requires
        in_range(w),
        ranked(w, rank),
        0 <= u < w.len(),
        0 <= d < w.len(),
        !reaches(w, d, u),
    ensures
        in_range(add_edge(w, u, d)),
        acyclic(add_edge(w, u, d)),
{
    let shift = if rank[u] - rank[d] + 1 > 0 {
        rank[u] - rank[d] + 1
    } else {
        0
    };
    let moved = Seq::new(w.len(), |v: int| if reaches(w, d, v) { rank[v] + shift } else { rank[v] });
    let inside = Set::new(|v: int| reaches(w, d, v));
    lemma_reaches_self(w, d);
    assert forall|a: int, b: int| inside.contains(a) && edge(w, a, b) implies inside.contains(
        b,
    ) by {
        lemma_reaches_step(w, d, a, b);
    }
    lemma_add_edge_ranked(w, rank, moved, inside, u, d);
    lemma_ranked_is_acyclic(add_edge(w, u, d), moved);
}

} // verus!
