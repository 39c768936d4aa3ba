//! Reachability theory for a directed adjacency relation over node labels.
//!
//! The adjacency relation is modeled as a finite map from a node label to the
//! set of its direct successors.  Reachability is existence of a path, where a
//! path of length one is allowed, so every node reaches itself.  A relation is
//! acyclic when no edge runs back into a node that reaches the edge's source.

use vstd::prelude::*;

verus! {

/// A directed adjacency relation: node label to successor labels.
pub type AdjacencyMap = Map<Seq<char>, Set<Seq<char>>>;

/// The direct successors of `x`, empty when `x` has no outgoing edges.
pub open spec fn succs(adj: AdjacencyMap, x: Seq<char>) -> Set<Seq<char>> {
    if adj.dom().contains(x) {
        adj[x]
    } else {
        Set::empty()
    }
}

/// A directed edge from `x` to `y`.
pub open spec fn has_edge(adj: AdjacencyMap, x: Seq<char>, y: Seq<char>) -> bool {
    succs(adj, x).contains(y)
}

/// `p` lists at least one node, and consecutive nodes are joined by edges.
pub open spec fn is_path(adj: AdjacencyMap, p: Seq<Seq<char>>) -> bool {
    &&& p.len() >= 1
    &&& forall|i: int| 0 <= i < p.len() - 1 ==> #[trigger] has_edge(adj, p[i], p[i + 1])
}

/// Some path leads from `x` to `y`; in particular every node reaches itself.
pub open spec fn reaches(adj: AdjacencyMap, x: Seq<char>, y: Seq<char>) -> bool {
    exists|p: Seq<Seq<char>>| is_path(adj, p) && p.first() == x && p.last() == y
}

/// The relation after adding the edge from `a` to `b`.
pub open spec fn insert_edge(adj: AdjacencyMap, a: Seq<char>, b: Seq<char>) -> AdjacencyMap {
    adj.insert(a, succs(adj, a).insert(b))
}

/// No edge returns to a node that reaches its source; equivalently, the
/// relation has no directed cycle.
pub open spec fn acyclic(adj: AdjacencyMap) -> bool {
    forall|x: Seq<char>, y: Seq<char>| has_edge(adj, x, y) ==> !reaches(adj, y, x)
}

/// A directed cycle: a path of at least one edge that returns to its start.
pub open spec fn has_cycle(adj: AdjacencyMap) -> bool {
    exists|p: Seq<Seq<char>>| is_path(adj, p) && p.len() >= 2 && p.first() == p.last()
}

/// Law: every node reaches itself, by the one-node path.  With the contract
/// of the cycle-guarded insertion this forces a self-edge to be refused.
pub proof fn lemma_reaches_self(adj: AdjacencyMap, x: Seq<char>)
    ensures
        reaches(adj, x, x),
{
    let p = seq![x];
    assert(is_path(adj, p));
    assert(p.first() == x && p.last() == x);
}

/// Extending a path by one outgoing edge keeps it a path.
pub proof fn lemma_reaches_step(adj: AdjacencyMap, x: Seq<char>, y: Seq<char>, z: Seq<char>)
    requires
        reaches(adj, x, y),
        has_edge(adj, y, z),
    ensures
        reaches(adj, x, z),
{
    let p = choose|p: Seq<Seq<char>>| is_path(adj, p) && p.first() == x && p.last() == y;
    let q = p.push(z);
    assert forall|i: int| 0 <= i < q.len() - 1 implies #[trigger] has_edge(adj, q[i], q[i + 1]) by {
        if i < p.len() - 1 {
            assert(q[i] == p[i] && q[i + 1] == p[i + 1]);
        } else {
            assert(q[i] == p.last() && q[i + 1] == z);
        }
    }
    assert(is_path(adj, q) && q.first() == x && q.last() == z);
}

/// A contiguous part of a path is itself a path.
pub proof fn lemma_subpath(adj: AdjacencyMap, p: Seq<Seq<char>>, i: int, j: int)
    requires
        is_path(adj, p),
        0 <= i < j <= p.len(),
    ensures
        is_path(adj, p.subrange(i, j)),
        p.subrange(i, j).first() == p[i],
        p.subrange(i, j).last() == p[j - 1],
{
    let q = p.subrange(i, j);
    assert forall|n: int| 0 <= n < q.len() - 1 implies #[trigger] has_edge(adj, q[n], q[n + 1]) by {
        assert(q[n] == p[i + n] && q[n + 1] == p[i + n + 1]);
        assert(has_edge(adj, p[i + n], p[i + n + 1]));
    }
}

/// Two paths that meet end to start concatenate to one path.
pub proof fn lemma_path_concat(adj: AdjacencyMap, p: Seq<Seq<char>>, q: Seq<Seq<char>>)
    requires
        is_path(adj, p),
        is_path(adj, q),
        p.last() == q.first(),
    ensures
        is_path(adj, p + q.drop_first()),
        (p + q.drop_first()).first() == p.first(),
        (p + q.drop_first()).last() == q.last(),
{
    let r = p + q.drop_first();
    assert(r.len() == p.len() + q.len() - 1);
    assert forall|i: int| 0 <= i < r.len() - 1 implies #[trigger] has_edge(adj, r[i], r[i + 1]) by {
        if i < p.len() - 1 {
            assert(r[i] == p[i] && r[i + 1] == p[i + 1]);
        } else if i == p.len() - 1 {
            assert(r[i] == p.last());
            assert(r[i + 1] == q.drop_first()[0]);
            assert(q.drop_first()[0] == q[1]);
            assert(has_edge(adj, q[0], q[1]));
        } else {
            let n = i - p.len() + 1;
            assert(r[i] == q.drop_first()[i - p.len()]);
            assert(q.drop_first()[i - p.len()] == q[n]);
            assert(r[i + 1] == q.drop_first()[i + 1 - p.len()]);
            assert(q.drop_first()[i + 1 - p.len()] == q[n + 1]);
            assert(has_edge(adj, q[n], q[n + 1]));
        }
    }
    if q.len() == 1 {
        assert(r =~= p);
        assert(r.last() == q.last());
    } else {
        assert(r.last() == q.drop_first().last());
        assert(q.drop_first().last() == q.last());
    }
}

/// When `b` cannot reach `a`, a path of the extended relation that ends in
/// `a` never crosses the new edge, so it already exists in `adj`.
proof fn lemma_new_path_to_tail(
    adj: AdjacencyMap,
    a: Seq<char>,
    b: Seq<char>,
    p: Seq<Seq<char>>,
)
    requires
        !reaches(adj, b, a),
        is_path(insert_edge(adj, a, b), p),
        p.last() == a,
    ensures
        is_path(adj, p),
    decreases p.len(),
{
    let next = insert_edge(adj, a, b);
    if exists|i: int| 0 <= i < p.len() - 1 && (#[trigger] p[i]) == a && p[i + 1] == b {
        let i = choose|i: int| 0 <= i < p.len() - 1 && (#[trigger] p[i]) == a && p[i + 1] == b;
        let q = p.subrange(i + 1, p.len() as int);
        lemma_subpath(next, p, i + 1, p.len() as int);
        assert(q.first() == b && q.last() == a);
        assert(q.len() < p.len());
        lemma_new_path_to_tail(adj, a, b, q);
        assert(reaches(adj, b, a));
        assert(false);
    } else {
        assert forall|i: int| 0 <= i < p.len() - 1 implies #[trigger] has_edge(adj, p[i], p[i + 1]) by {
            assert(has_edge(next, p[i], p[i + 1]));
            if p[i] == a {
                assert(succs(next, a) == succs(adj, a).insert(b));
                assert(p[i + 1] != b);
                assert(succs(adj, a).contains(p[i + 1]));
            } else {
                assert(succs(next, p[i]) == succs(adj, p[i]));
            }
        }
    }
}

/// Law: the empty relation is acyclic.
pub proof fn lemma_acyclic_empty()
    ensures
        acyclic(Map::empty()),
{
    assert forall|x: Seq<char>, y: Seq<char>|
        has_edge(Map::empty(), x, y) implies !reaches(Map::empty(), y, x) by {
        assert(!Map::<Seq<char>, Set<Seq<char>>>::empty().dom().contains(x));
        assert(succs(Map::empty(), x) == Set::<Seq<char>>::empty());
    }
}

/// Law: the relation is acyclic exactly when it has no directed cycle, so
/// acyclicity as stated here is what a standard cycle-detection pass checks.
pub proof fn lemma_acyclic_no_cycle(adj: AdjacencyMap)
    ensures
        acyclic(adj) <==> !has_cycle(adj),
{
    if has_cycle(adj) {
        let p = choose|p: Seq<Seq<char>>|
            is_path(adj, p) && p.len() >= 2 && p.first() == p.last();
        let i0: int = 0;
        assert(has_edge(adj, p[i0], p[i0 + 1]));
        lemma_subpath(adj, p, 1, p.len() as int);
        assert(reaches(adj, p[1], p[0]));
        assert(!acyclic(adj));
    }
    if !acyclic(adj) {
        let (x, y) = choose|x: Seq<char>, y: Seq<char>|
            has_edge(adj, x, y) && reaches(adj, y, x);
        let q = choose|q: Seq<Seq<char>>| is_path(adj, q) && q.first() == y && q.last() == x;
        let c = seq![x] + q;
        assert forall|i: int| 0 <= i < c.len() - 1 implies #[trigger] has_edge(
            adj,
            c[i],
            c[i + 1],
        ) by {
            if i == 0 {
                assert(c[0] == x && c[1] == q[0]);
            } else {
                assert(c[i] == q[i - 1] && c[i + 1] == q[i]);
                assert(has_edge(adj, q[i - 1], q[i - 1 + 1]));
            }
        }
        assert(is_path(adj, c) && c.len() >= 2 && c.first() == c.last());
        assert(has_cycle(adj));
    }
}

/// Law: adding an edge whose target cannot already reach its source keeps
/// the relation acyclic.  Every run of cycle-guarded insertions that all
/// succeed therefore leaves an acyclic relation.
pub proof fn lemma_acyclic_preserved(adj: AdjacencyMap, a: Seq<char>, b: Seq<char>)
    requires
        acyclic(adj),
        !reaches(adj, b, a),
    ensures
        acyclic(insert_edge(adj, a, b)),
{
    let next = insert_edge(adj, a, b);
    assert forall|x: Seq<char>, y: Seq<char>|
        has_edge(next, x, y) implies !reaches(next, y, x) by {
        if reaches(next, y, x) {
            let q = choose|q: Seq<Seq<char>>|
                is_path(next, q) && q.first() == y && q.last() == x;
            // close the cycle: y -> ... -> x, then the edge x -> y
            let c = q.push(y);
            assert forall|i: int| 0 <= i < c.len() - 1 implies #[trigger] has_edge(next, c[i], c[i + 1]) by {
                if i < q.len() - 1 {
                    assert(c[i] == q[i] && c[i + 1] == q[i + 1]);
                } else {
                    assert(c[i] == q.last() && c[i + 1] == y);
                }
            }
            assert(is_path(next, c));
            assert(c.len() >= 2);
            assert(c.first() == y && c.last() == y);
            if exists|i: int| 0 <= i < c.len() - 1 && (#[trigger] c[i]) == a && c[i + 1] == b {
                // rotate the cycle into a path of the extended relation from
                // b around to a, which cannot exist
                let i = choose|i: int| 0 <= i < c.len() - 1 && (#[trigger] c[i]) == a && c[i + 1] == b;
                let front = c.subrange(i + 1, c.len() as int);
                let back = c.subrange(0, i + 1);
                lemma_subpath(next, c, i + 1, c.len() as int);
                lemma_subpath(next, c, 0, i + 1);
                assert(front.last() == c.last());
                assert(back.first() == c.first());
                lemma_path_concat(next, front, back);
                let r = front + back.drop_first();
                assert(r.first() == b && r.last() == a);
                lemma_new_path_to_tail(adj, a, b, r);
                assert(reaches(adj, b, a));
                assert(false);
            } else {
                // the cycle never crosses the new edge, so it lives in `adj`,
                // where its first step contradicts acyclicity
                assert forall|i: int| 0 <= i < c.len() - 1 implies #[trigger] has_edge(adj, c[i], c[i + 1]) by {
                    assert(has_edge(next, c[i], c[i + 1]));
                    if c[i] == a {
                        assert(succs(next, a) == succs(adj, a).insert(b));
                        assert(c[i + 1] != b);
                        assert(succs(adj, a).contains(c[i + 1]));
                    } else {
                        assert(succs(next, c[i]) == succs(adj, c[i]));
                    }
                }
                assert(is_path(adj, c));
                let i0: int = 0;
                assert(has_edge(adj, c[i0], c[i0 + 1]));
                let tail = c.subrange(1, c.len() as int);
                lemma_subpath(adj, c, 1, c.len() as int);
                assert(tail.first() == c[1] && tail.last() == c[0]);
                assert(reaches(adj, c[1], c[0]));
                assert(false);
            }
        }
    }
}

/// A set of nodes that contains the start of a path and is closed under
/// outgoing edges contains the end of the path.
pub proof fn lemma_closed_blocks(adj: AdjacencyMap, nodes: Set<Seq<char>>, p: Seq<Seq<char>>)
    requires
        is_path(adj, p),
        nodes.contains(p.first()),
        forall|x: Seq<char>, y: Seq<char>|
            nodes.contains(x) && has_edge(adj, x, y) ==> nodes.contains(y),
    ensures
        nodes.contains(p.last()),
    decreases p.len(),
{
    if p.len() == 1 {
    } else {
        let i0: int = 0;
        assert(has_edge(adj, p[i0], p[i0 + 1]));
        let q = p.drop_first();
        lemma_subpath(adj, p, 1, p.len() as int);
        assert(q =~= p.subrange(1, p.len() as int));
        assert(nodes.contains(q.first()));
        lemma_closed_blocks(adj, nodes, q);
        assert(q.last() == p.last());
    }
}

} // verus!
