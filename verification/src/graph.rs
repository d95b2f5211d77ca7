//! The abstract import graph. Nodes are indices into the engine's table of
//! absolute paths; an edge `(a, b)` records that file `a` imports file `b`.
//! Affectedness is reachability: a node is affected exactly when some import
//! path leads from it to a changed node. The lemmas here are the backbone of
//! the engine's correctness argument.

use vstd::prelude::*;

verus! {

/// Every endpoint of every edge lies below `n`.
pub open spec fn edges_wf(edges: Seq<(usize, usize)>, n: int) -> bool {
    forall|i: int|
        0 <= i < edges.len() ==> (#[trigger] edges[i]).0 < n && edges[i].1 < n
}

/// `p` walks forward along import edges.
pub open spec fn is_edge_path(edges: Seq<(usize, usize)>, p: Seq<usize>) -> bool {
    p.len() >= 1 && forall|i: int|
        #![trigger p[i]]
        0 <= i < p.len() - 1 ==> edges.contains((p[i], p[i + 1]))
}

/// Some import path leads from `from` to a changed node.
#[verifier::opaque]
pub open spec fn reaches_changed(
    edges: Seq<(usize, usize)>,
    changed: Seq<bool>,
    from: usize,
) -> bool {
    exists|p: Seq<usize>|
        is_edge_path(edges, p) && p[0] == from && p.last() < changed.len() && changed[p.last() as int]
}

/// A changed node reaches the changed set by the one-node path.
pub proof fn lemma_reaches_trivial(edges: Seq<(usize, usize)>, changed: Seq<bool>, from: usize)
    requires
        from < changed.len(),
        changed[from as int],
    ensures
        reaches_changed(edges, changed, from),
{
    reveal(crate::graph::reaches_changed);
    let p = seq![from];
    assert(p.last() == from);
    assert(is_edge_path(edges, p) && p[0] == from && p.last() < changed.len() && changed[p.last() as int]);
}

/// Reachability steps backwards across an edge.
pub proof fn lemma_reaches_step(
    edges: Seq<(usize, usize)>,
    changed: Seq<bool>,
    a: usize,
    b: usize,
)
    requires
        edges.contains((a, b)),
        reaches_changed(edges, changed, b),
    ensures
        reaches_changed(edges, changed, a),
{
    reveal(crate::graph::reaches_changed);
    let p = choose|p: Seq<usize>|
        is_edge_path(edges, p) && p[0] == b && p.last() < changed.len() && changed[p.last() as int];
    let q = seq![a] + p;
    assert(q[0] == a);
    assert(q.last() == p.last());
    assert forall|i: int| #![trigger q[i]] 0 <= i < q.len() - 1 implies edges.contains(
        (q[i], q[i + 1]),
    ) by {
        if i == 0 {
            assert(q[0] == a && q[1] == p[0]);
        } else {
            assert(q[i] == p[i - 1] && q[i + 1] == p[i]);
        }
    }
    assert(is_edge_path(edges, q) && q[0] == a && q.last() < changed.len() && changed[q.last() as int]);
}

/// Reachability survives the growth of the graph and of the changed table,
/// as long as no changed mark is withdrawn.
pub proof fn lemma_reaches_monotone(
    edges1: Seq<(usize, usize)>,
    changed1: Seq<bool>,
    edges2: Seq<(usize, usize)>,
    changed2: Seq<bool>,
    from: usize,
)
    requires
        reaches_changed(edges1, changed1, from),
        forall|e: (usize, usize)| edges1.contains(e) ==> edges2.contains(e),
        changed1.len() <= changed2.len(),
        forall|i: int| 0 <= i < changed1.len() ==> (changed1[i] ==> #[trigger] changed2[i]),
    ensures
        reaches_changed(edges2, changed2, from),
{
    reveal(crate::graph::reaches_changed);
    let p = choose|p: Seq<usize>|
        is_edge_path(edges1, p) && p[0] == from && p.last() < changed1.len() && changed1[p.last() as int];
    assert forall|i: int| #![trigger p[i]] 0 <= i < p.len() - 1 implies edges2.contains(
        (p[i], p[i + 1]),
    ) by {
        assert(edges1.contains((p[i], p[i + 1])));
    }
    assert(is_edge_path(edges2, p) && p[0] == from && p.last() < changed2.len() && changed2[p.last() as int]);
}

/// Every node of an import path from a node below `n` stays below `n` when
/// the edges are well formed.
pub proof fn lemma_path_nodes_wf(edges: Seq<(usize, usize)>, n: int, p: Seq<usize>)
    requires
        edges_wf(edges, n),
        is_edge_path(edges, p),
        p[0] < n,
    ensures
        forall|i: int| 0 <= i < p.len() ==> p[i] < n,
    decreases p.len(),
{
    if p.len() > 1 {
        let idx = choose|j: int| 0 <= j < edges.len() && edges[j] == (p[0], p[1]);
        assert(p[1] < n);
        let q = p.subrange(1, p.len() as int);
        assert forall|i: int| #![trigger q[i]] 0 <= i < q.len() - 1 implies edges.contains(
            (q[i], q[i + 1]),
        ) by {
            assert(q[i] == p[i + 1] && q[i + 1] == p[i + 2]);
        }
        lemma_path_nodes_wf(edges, n, q);
        assert forall|i: int| 0 <= i < p.len() implies p[i] < n by {
            if i >= 1 {
                assert(q[i - 1] < n);
            }
        }
    }
}

/// Along a path whose tail end is affected, affectedness flows all the way
/// back to the head: every discovered edge either already marked its
/// importer or filed it in the dependents row of its importee, and affected
/// importees have affected dependents rows.
proof fn lemma_path_head_affected(
    edges: Seq<(usize, usize)>,
    deps: Seq<Seq<usize>>,
    affected: Seq<bool>,
    changed: Seq<bool>,
    p: Seq<usize>,
)
    requires
        affected.len() == deps.len(),
        changed.len() == deps.len(),
        edges_wf(edges, deps.len() as int),
        forall|i: int| 0 <= i < changed.len() ==> (changed[i] ==> #[trigger] affected[i]),
        forall|e: (usize, usize)|
            #[trigger] edges.contains(e) ==> (affected[e.0 as int] || deps[e.1 as int].contains(
                e.0,
            )),
        forall|b: int, j: int|
            0 <= b < deps.len() && affected[b] && 0 <= j < deps[b].len() ==> affected[
                #[trigger] deps[b][j] as int
            ],
        is_edge_path(edges, p),
        p[0] < deps.len(),
        p.last() < changed.len(),
        changed[p.last() as int],
    ensures
        affected[p[0] as int],
    decreases p.len(),
{
    if p.len() == 1 {
        assert(affected[p[0] as int]);
    } else {
        let q = p.subrange(1, p.len() as int);
        assert(edges.contains((p[0], p[1])));
        lemma_path_nodes_wf(edges, deps.len() as int, p);
        assert forall|i: int| #![trigger q[i]] 0 <= i < q.len() - 1 implies edges.contains(
            (q[i], q[i + 1]),
        ) by {
            assert(q[i] == p[i + 1] && q[i + 1] == p[i + 2]);
        }
        assert(q.last() == p.last());
        lemma_path_head_affected(edges, deps, affected, changed, q);
        assert(affected[p[1] as int]);
        if !affected[p[0] as int] {
            assert(deps[p[1] as int].contains(p[0]));
            let j = choose|j: int| 0 <= j < deps[p[1] as int].len() && deps[p[1] as int][j] == p[0];
            assert(affected[deps[p[1] as int][j] as int]);
        }
    }
}

/// The closure half of the engine's characterization: under the running
/// invariants, every node that reaches the changed set is affected.
pub proof fn lemma_reaching_is_affected(
    edges: Seq<(usize, usize)>,
    deps: Seq<Seq<usize>>,
    affected: Seq<bool>,
    changed: Seq<bool>,
    k: usize,
)
    requires
        affected.len() == deps.len(),
        changed.len() == deps.len(),
        edges_wf(edges, deps.len() as int),
        forall|i: int| 0 <= i < changed.len() ==> (changed[i] ==> #[trigger] affected[i]),
        forall|e: (usize, usize)|
            #[trigger] edges.contains(e) ==> (affected[e.0 as int] || deps[e.1 as int].contains(
                e.0,
            )),
        forall|b: int, j: int|
            0 <= b < deps.len() && affected[b] && 0 <= j < deps[b].len() ==> affected[
                #[trigger] deps[b][j] as int
            ],
        k < deps.len(),
        reaches_changed(edges, changed, k),
    ensures
        affected[k as int],
{
    reveal(crate::graph::reaches_changed);
    let p = choose|p: Seq<usize>|
        is_edge_path(edges, p) && p[0] == k && p.last() < changed.len() && changed[p.last() as int];
    lemma_path_head_affected(edges, deps, affected, changed, p);
}

/// `p` walks forward along dependents rows: each next node imports the one
/// before it.
pub open spec fn is_dep_path(deps: Seq<Seq<usize>>, p: Seq<usize>) -> bool {
    p.len() >= 1 && forall|i: int|
        #![trigger p[i]]
        0 <= i < p.len() - 1 ==> p[i] < deps.len() && deps[p[i] as int].contains(p[i + 1])
}

/// `dst` can be reached from `src` along dependents rows without stepping
/// onto a blocked node after the start.
#[verifier::opaque]
pub open spec fn dep_reaches_avoiding(
    deps: Seq<Seq<usize>>,
    blocked: Seq<bool>,
    src: usize,
    dst: usize,
) -> bool {
    exists|p: Seq<usize>|
        is_dep_path(deps, p) && p[0] == src && p.last() == dst && forall|i: int|
            1 <= i < p.len() ==> !(p[i] < blocked.len() && blocked[#[trigger] p[i] as int])
}

/// The one-node dependents path.
pub proof fn lemma_dep_reaches_trivial(deps: Seq<Seq<usize>>, blocked: Seq<bool>, src: usize)
    ensures
        dep_reaches_avoiding(deps, blocked, src, src),
{
    reveal(crate::graph::dep_reaches_avoiding);
    let p = seq![src];
    assert(p.last() == src);
    assert(is_dep_path(deps, p) && p[0] == src && p.last() == src);
    assert(forall|i: int| 1 <= i < p.len() ==> !(p[i] < blocked.len() && blocked[#[trigger] p[i] as int]));
}

/// A dependents path extends by one unblocked dependent.
pub proof fn lemma_dep_reaches_extend(
    deps: Seq<Seq<usize>>,
    blocked: Seq<bool>,
    src: usize,
    x: usize,
    y: usize,
)
    requires
        dep_reaches_avoiding(deps, blocked, src, x),
        x < deps.len(),
        deps[x as int].contains(y),
        !(y < blocked.len() && blocked[y as int]),
    ensures
        dep_reaches_avoiding(deps, blocked, src, y),
{
    reveal(crate::graph::dep_reaches_avoiding);
    let p = choose|p: Seq<usize>|
        is_dep_path(deps, p) && p[0] == src && p.last() == x && forall|i: int|
            1 <= i < p.len() ==> !(p[i] < blocked.len() && blocked[#[trigger] p[i] as int]);
    let q = p.push(y);
    assert(q.last() == y);
    assert(q[0] == src);
    assert forall|i: int| #![trigger q[i]] 0 <= i < q.len() - 1 implies q[i] < deps.len()
        && deps[q[i] as int].contains(q[i + 1]) by {
        if i < p.len() - 1 {
            assert(q[i] == p[i] && q[i + 1] == p[i + 1]);
        } else {
            assert(q[i] == p.last() && q[i + 1] == y);
        }
    }
    assert forall|i: int| 1 <= i < q.len() implies !(q[i] < blocked.len() && blocked[
        #[trigger] q[i] as int
    ]) by {
        if i < p.len() {
            assert(q[i] == p[i]);
        } else {
            assert(q[i] == y);
        }
    }
    assert(is_dep_path(deps, q) && q[0] == src && q.last() == y);
}

/// Dependents rows only ever record discovered edges, so a dependents path
/// from `src` to `k` turns a witness that `src` reaches the changed set into
/// one for `k`.
pub proof fn lemma_dep_reach_transfers(
    edges: Seq<(usize, usize)>,
    deps: Seq<Seq<usize>>,
    changed: Seq<bool>,
    blocked: Seq<bool>,
    src: usize,
    k: usize,
)
    requires
        forall|b: int, j: int|
            0 <= b < deps.len() && 0 <= j < deps[b].len() ==> edges.contains(
                ((#[trigger] deps[b][j]), b as usize),
            ),
        dep_reaches_avoiding(deps, blocked, src, k),
        reaches_changed(edges, changed, src),
    ensures
        reaches_changed(edges, changed, k),
{
    reveal(crate::graph::dep_reaches_avoiding);
    let p = choose|p: Seq<usize>|
        is_dep_path(deps, p) && p[0] == src && p.last() == k && forall|i: int|
            1 <= i < p.len() ==> !(p[i] < blocked.len() && blocked[#[trigger] p[i] as int]);
    lemma_dep_path_transfers(edges, deps, changed, p);
}

proof fn lemma_dep_path_transfers(
    edges: Seq<(usize, usize)>,
    deps: Seq<Seq<usize>>,
    changed: Seq<bool>,
    p: Seq<usize>,
)
    requires
        forall|b: int, j: int|
            0 <= b < deps.len() && 0 <= j < deps[b].len() ==> edges.contains(
                ((#[trigger] deps[b][j]), b as usize),
            ),
        is_dep_path(deps, p),
        reaches_changed(edges, changed, p[0]),
    ensures
        reaches_changed(edges, changed, p.last()),
    decreases p.len(),
{
    if p.len() > 1 {
        assert(deps[p[0] as int].contains(p[1]));
        let j = choose|j: int| 0 <= j < deps[p[0] as int].len() && deps[p[0] as int][j] == p[1];
        assert(edges.contains((p[1], p[0])));
        lemma_reaches_step(edges, changed, p[1], p[0]);
        let q = p.subrange(1, p.len() as int);
        assert forall|i: int| #![trigger q[i]] 0 <= i < q.len() - 1 implies q[i] < deps.len()
            && deps[q[i] as int].contains(q[i + 1]) by {
            assert(q[i] == p[i + 1] && q[i + 1] == p[i + 2]);
        }
        assert(q.last() == p.last());
        lemma_dep_path_transfers(edges, deps, changed, q);
    }
}

/// How many entries of the table are still false.
pub open spec fn count_false(s: Seq<bool>) -> nat
    decreases s.len(),
{
    if s.len() == 0 {
        0
    } else {
        count_false(s.drop_last()) + (if s.last() {
            0nat
        } else {
            1nat
        })
    }
}

/// Appending an entry raises the count by one exactly when it is false.
pub proof fn lemma_count_false_push(s: Seq<bool>, b: bool)
    ensures
        count_false(s.push(b)) == count_false(s) + (if b {
            0nat
        } else {
            1nat
        }),
{
    assert(s.push(b).drop_last() =~= s);
    assert(s.push(b).last() == b);
}

/// Setting a false entry true lowers the count by one.
pub proof fn lemma_count_false_update(s: Seq<bool>, i: int)
    requires
        0 <= i < s.len(),
        !s[i],
    ensures
        count_false(s.update(i, true)) + 1 == count_false(s),
    decreases s.len(),
{
    let t = s.update(i, true);
    if i == s.len() - 1 {
        assert(t.drop_last() =~= s.drop_last());
        assert(t.last() == true && s.last() == false);
    } else {
        assert(t.drop_last() =~= s.drop_last().update(i, true));
        lemma_count_false_update(s.drop_last(), i);
        assert(t.last() == s.last());
    }
}

} // verus!
