//! Adjacency-set directed graph.
//!
//! Nodes are keyed by caller-chosen labels; each node label maps to the set
//! of its direct successors.  Plain insertion adds any edge between
//! registered nodes; the cycle-guarded insertion first runs a depth-first
//! reachability check and refuses any edge that would close a directed
//! cycle, so a graph built through it alone stays acyclic.

use crate::graph::GraphConnectError;
use crate::reach::{
    acyclic, has_edge, insert_edge, is_path, lemma_acyclic_preserved, lemma_closed_blocks,
    lemma_reaches_self, lemma_reaches_step, reaches, succs, AdjacencyMap,
};
use crate::table::Table;
use vstd::prelude::*;
use vstd::set_lib::lemma_len_subset;

verus! {

/// The views of a sequence of labels, in order.
pub open spec fn label_views(s: Seq<String>) -> Seq<Seq<char>> {
    s.map_values(|x: String| x@)
}

/// The set of label views held by a sequence of labels.
pub open spec fn label_set(s: Seq<String>) -> Set<Seq<char>> {
    label_views(s).to_set()
}

/// An adjacency-set directed graph: a map from node labels to payloads and a
/// map from node labels to their distinct direct successors.
pub struct DGraph<T> {
    nodes: Table<T>,
    edges: Table<Vec<String>>,
}

impl<T> DGraph<T> {
    /// The registered nodes: label view to payload.
    pub closed spec fn nodes_view(&self) -> Map<Seq<char>, T> {
        self.nodes@
    }

    /// The adjacency relation: label view to the set of successor views.
    pub closed spec fn adj(&self) -> AdjacencyMap {
        Map::new(
            |k: Seq<char>| self.edges@.dom().contains(k),
            |k: Seq<char>| label_set(self.edges@[k]@),
        )
    }

    /// The node and adjacency maps are well formed, every adjacency list
    /// belongs to a registered node, holds registered nodes only, and lists
    /// no successor twice.
    pub closed spec fn wf(&self) -> bool {
        &&& self.nodes.wf()
        &&& self.edges.wf()
        &&& forall|k: Seq<char>| #[trigger]
            self.edges@.dom().contains(k) ==> self.nodes@.dom().contains(k)
        &&& forall|k: Seq<char>, i: int|
            #![trigger self.edges@[k]@[i]]
            self.edges@.dom().contains(k) && 0 <= i < self.edges@[k]@.len()
                ==> self.nodes@.dom().contains(self.edges@[k]@[i]@)
        &&& forall|k: Seq<char>| #[trigger]
            self.edges@.dom().contains(k) ==> label_views(self.edges@[k]@).no_duplicates()
    }

    /// Every edge of a well-formed graph joins registered nodes, and every
    /// successor set is finite.
    pub proof fn lemma_adj_wf(&self)
        requires
            self.wf(),
        ensures
            forall|x: Seq<char>, y: Seq<char>| #[trigger]
                has_edge(self.adj(), x, y) ==> self.nodes_view().dom().contains(x)
                    && self.nodes_view().dom().contains(y),
            forall|x: Seq<char>| (#[trigger] succs(self.adj(), x)).finite(),
    {
        assert forall|x: Seq<char>, y: Seq<char>| #[trigger]
            has_edge(self.adj(), x, y) implies self.nodes_view().dom().contains(x)
            && self.nodes_view().dom().contains(y) by {
            assert(self.edges@.dom().contains(x));
            let l = self.edges@[x]@;
            assert(label_views(l).contains(y));
            let i = choose|i: int| 0 <= i < label_views(l).len() && label_views(l)[i] == y;
            assert(l[i]@ == y);
        }
        assert forall|x: Seq<char>| (#[trigger] succs(self.adj(), x)).finite() by {
            broadcast use vstd::seq_lib::seq_to_set_is_finite;

            if self.adj().dom().contains(x) {
                assert(succs(self.adj(), x) == label_set(self.edges@[x]@));
            } else {
                assert(succs(self.adj(), x) == Set::<Seq<char>>::empty());
            }
        }
    }

    pub fn new() -> (g: Self)
        ensures
            g.wf(),
            g.nodes_view() == Map::<Seq<char>, T>::empty(),
            g.adj() == Map::<Seq<char>, Set<Seq<char>>>::empty(),
    {
        let g = DGraph { nodes: Table::new(), edges: Table::new() };
        proof {
            assert(g.adj() =~= Map::<Seq<char>, Set<Seq<char>>>::empty());
        }
        g
    }

    /// Inserts or replaces the node stored under `label`, handing back the
    /// payload it replaced.
    pub fn add_node(&mut self, label: String, node: T) -> (r: Option<T>)
        requires
            old(self).wf(),
        ensures
            final(self).wf(),
            final(self).nodes_view() == old(self).nodes_view().insert(label@, node),
            final(self).adj() == old(self).adj(),
            r == (if old(self).nodes_view().dom().contains(label@) {
                Some(old(self).nodes_view()[label@])
            } else {
                None::<T>
            }),
    {
        let r = self.nodes.insert(label, node);
        proof {
            assert(self.adj() =~= old(self).adj());
        }
        r
    }

    /// Adds `b` to `a`'s successor set; `true` means the edge is new.  Both
    /// labels must already be registered nodes.
    fn add_edge(&mut self, a: String, b: String) -> (fresh: bool)
        requires
            old(self).wf(),
            old(self).nodes_view().dom().contains(a@),
            old(self).nodes_view().dom().contains(b@),
        ensures
            final(self).wf(),
            final(self).nodes_view() == old(self).nodes_view(),
            final(self).adj() == insert_edge(old(self).adj(), a@, b@),
            fresh == !succs(old(self).adj(), a@).contains(b@),
    {
        let ghost va = a@;
        let ghost vb = b@;
        let ghost oldadj = old(self).adj();
        let removed = self.edges.remove(&a);
        let ghost had = old(self).edges@.dom().contains(va);
        let mut list: Vec<String> = match removed {
            Some(l) => l,
            None => Vec::new(),
        };
        proof {
            if had {
                assert(list@ == old(self).edges@[va]@);
            } else {
                assert(list@ =~= Seq::<String>::empty());
                assert(label_views(list@) =~= Seq::<Seq<char>>::empty());
            }
            assert(label_set(list@) =~= succs(oldadj, va)) by {
                if !had {
                    assert forall|y: Seq<char>| !label_set(list@).contains(y) by {
                        if label_views(list@).contains(y) {
                            let i = choose|i: int|
                                0 <= i < label_views(list@).len() && label_views(list@)[i] == y;
                        }
                    }
                }
            }
        }
        let present = vec_contains_label(&list, &b);
        let ghost oldlist = list@;
        if !present {
            list.push(b);
            proof {
                assert(label_views(list@) =~= label_views(oldlist).push(vb));
                assert forall|p: int, q: int|
                    0 <= p < q < label_views(list@).len() implies label_views(list@)[p]
                    != label_views(list@)[q] by {
                    if q < label_views(list@).len() - 1 {
                        assert(label_views(oldlist).no_duplicates());
                        assert(label_views(oldlist)[p] != label_views(oldlist)[q]);
                    } else {
                        assert(label_views(list@)[q] == vb);
                        if label_views(oldlist)[p] == vb {
                            assert(label_set(oldlist).contains(vb));
                        }
                    }
                }
                assert(label_views(list@).no_duplicates());
                assert(label_set(list@) =~= label_set(oldlist).insert(vb)) by {
                    assert forall|y: Seq<char>|
                        label_set(list@).contains(y) implies label_set(oldlist).insert(
                        vb,
                    ).contains(y) by {
                        let i = choose|i: int|
                            0 <= i < label_views(list@).len() && label_views(list@)[i] == y;
                        if i < label_views(list@).len() - 1 {
                            assert(label_views(oldlist)[i] == y);
                        }
                    }
                    assert forall|y: Seq<char>|
                        label_set(oldlist).insert(vb).contains(y) implies label_set(
                        list@,
                    ).contains(y) by {
                        if y == vb {
                            assert(label_views(list@).last() == vb);
                        } else {
                            let i = choose|i: int|
                                0 <= i < label_views(oldlist).len() && label_views(oldlist)[i]
                                    == y;
                            assert(label_views(list@)[i] == y);
                        }
                    }
                }
            }
        } else {
            proof {
                assert(label_set(list@) =~= label_set(oldlist).insert(vb));
            }
        }
        let ghost newlist = list@;
        let _ = self.edges.insert(a, list);
        proof {
            assert(self.edges@ =~= old(self).edges@.insert(va, list));
            // well-formedness of the updated adjacency map
            assert forall|k: Seq<char>| #[trigger]
                self.edges@.dom().contains(k) implies self.nodes@.dom().contains(k)
                && label_views(self.edges@[k]@).no_duplicates() by {
                if k != va {
                    assert(old(self).edges@.dom().contains(k));
                } else {
                    if present {
                        assert(had);
                    }
                }
            }
            assert forall|k: Seq<char>, i: int|
                #![trigger self.edges@[k]@[i]]
                self.edges@.dom().contains(k) && 0 <= i < self.edges@[k]@.len() implies
                self.nodes@.dom().contains(self.edges@[k]@[i]@) by {
                if k != va {
                    assert(old(self).edges@.dom().contains(k));
                    assert(old(self).edges@[k]@[i] == self.edges@[k]@[i]);
                } else {
                    assert(self.edges@[va]@ == newlist);
                    if i < oldlist.len() {
                        assert(newlist[i] == oldlist[i]);
                        if had {
                            assert(old(self).edges@[va]@[i] == oldlist[i]);
                        }
                    } else {
                        assert(newlist[i] == b);
                    }
                }
            }
            assert(self.wf());
            // the adjacency relation gained exactly the one edge
            assert(self.adj() =~= insert_edge(oldadj, va, vb)) by {
                assert(self.adj().dom() =~= insert_edge(oldadj, va, vb).dom());
                assert(self.adj()[va] == label_set(newlist));
                assert(label_set(newlist) == succs(oldadj, va).insert(vb));
                assert forall|k: Seq<char>|
                    self.adj().dom().contains(k) && k != va implies #[trigger] self.adj()[k]
                    == insert_edge(oldadj, va, vb)[k] by {
                    assert(self.edges@[k] == old(self).edges@[k]);
                }
            }
            assert(present == succs(oldadj, va).contains(vb));
        }
        !present
    }

    /// Adds the directed edge from `a` to `b`, provided both are registered
    /// nodes; `Ok(true)` means the edge is new, `Ok(false)` that it already
    /// existed.  Fails with `NodeNotExit`, mutating nothing, when either
    /// endpoint is missing.  No cycle checking is done.
    pub fn connect(&mut self, a: String, b: String) -> (r: Result<bool, GraphConnectError>)
        requires
            old(self).wf(),
        ensures
            final(self).wf(),
            final(self).nodes_view() == old(self).nodes_view(),
            match r {
                Ok(fresh) => {
                    &&& old(self).nodes_view().dom().contains(a@)
                    &&& old(self).nodes_view().dom().contains(b@)
                    &&& final(self).adj() == insert_edge(old(self).adj(), a@, b@)
                    &&& fresh == !succs(old(self).adj(), a@).contains(b@)
                },
                Err(e) => {
                    &&& e == GraphConnectError::NodeNotExit
                    &&& !(old(self).nodes_view().dom().contains(a@)
                        && old(self).nodes_view().dom().contains(b@))
                    &&& *final(self) == *old(self)
                },
            },
    {
        if self.nodes.contains_key(&a) && self.nodes.contains_key(&b) {
            Ok(self.add_edge(a, b))
        } else {
            Err(GraphConnectError::NodeNotExit)
        }
    }

    /// The depth-first reachability check behind the cycle-guarded
    /// insertion: `true` means `b` cannot reach `a`, so the edge from `a` to
    /// `b` is safe to add.  The worklist keeps an explicit visited list, so
    /// the search terminates even on a graph that plain `connect` calls have
    /// already made cyclic.
    fn connect_acyclic_test(&self, a: &String, b: &String) -> (r: bool)
        requires
            self.wf(),
            self.nodes_view().dom().contains(b@),
        ensures
            r == !reaches(self.adj(), b@, a@),
    {
        let ghost am = self.adj();
        let mut visited: Vec<String> = Vec::new();
        let mut stack: Vec<String> = Vec::new();
        stack.push(b.clone());
        proof {
            self.nodes.lemma_dom_finite();
            self.lemma_adj_wf();
            lemma_reaches_self(am, b@);
            assert(label_set(stack@).contains(b@)) by {
                assert(label_views(stack@)[0] == b@);
            }
        }
        while 0 < stack.len()
            invariant
                self.wf(),
                am == self.adj(),
                self.nodes_view().dom().finite(),
                forall|x: Seq<char>, y: Seq<char>| #[trigger]
                    has_edge(am, x, y) ==> self.nodes_view().dom().contains(x)
                        && self.nodes_view().dom().contains(y),
                forall|i: int|
                    0 <= i < stack@.len() ==> reaches(am, b@, (#[trigger] stack@[i])@),
                forall|i: int|
                    0 <= i < stack@.len() ==> self.nodes_view().dom().contains(
                        (#[trigger] stack@[i])@,
                    ),
                !label_set(visited@).contains(a@),
                forall|i: int, y: Seq<char>|
                    #![trigger has_edge(am, visited@[i]@, y)]
                    0 <= i < visited@.len() && has_edge(am, visited@[i]@, y) ==> label_set(
                        visited@,
                    ).contains(y) || label_set(stack@).contains(y),
                label_set(visited@).contains(b@) || label_set(stack@).contains(b@),
                forall|i: int|
                    0 <= i < visited@.len() ==> self.nodes_view().dom().contains(
                        (#[trigger] visited@[i])@,
                    ),
                label_views(visited@).no_duplicates(),
                visited@.len() <= self.nodes_view().dom().len(),
            decreases self.nodes_view().dom().len() - visited@.len(), stack@.len(),
        {
            let ghost prev_stack = stack@;
            let ghost prev_visited = visited@;
            let x = stack.pop().unwrap();
            let ghost vx = x@;
            proof {
                assert(prev_stack[prev_stack.len() - 1] == x);
                assert(reaches(am, b@, vx));
                assert(self.nodes_view().dom().contains(vx));
                assert(stack@ == prev_stack.subrange(0, prev_stack.len() - 1));
            }
            if *a == x {
                return false;
            }
            if !vec_contains_label(&visited, &x) {
                let succ_opt = self.edges.get(&x);
                visited.push(x);
                proof {
                    assert(visited@.last()@ == vx);
                    // distinctness and size of the grown visited list
                    assert(label_views(visited@) =~= label_views(prev_visited).push(vx));
                    assert forall|p: int, q: int|
                        0 <= p < q < label_views(visited@).len() implies label_views(
                        visited@,
                    )[p] != label_views(visited@)[q] by {
                        if q < label_views(visited@).len() - 1 {
                            assert(label_views(prev_visited)[p] != label_views(prev_visited)[q]);
                        } else {
                            assert(label_views(visited@)[q] == vx);
                            if label_views(prev_visited)[p] == vx {
                                assert(label_set(prev_visited).contains(vx));
                            }
                        }
                    }
                    assert(label_views(visited@).no_duplicates());
                    label_views(visited@).unique_seq_to_set();
                    assert forall|y: Seq<char>|
                        label_set(visited@).contains(y) implies self.nodes_view().dom().contains(
                        y,
                    ) by {
                        let i = choose|i: int|
                            0 <= i < label_views(visited@).len() && label_views(visited@)[i] == y;
                        assert(visited@[i]@ == y);
                        if i < visited@.len() - 1 {
                            assert(visited@[i] == prev_visited[i]);
                        }
                    }
                    lemma_len_subset(label_set(visited@), self.nodes_view().dom());
                    assert(visited@.len() <= self.nodes_view().dom().len());
                    // `a` is still unvisited
                    assert(!label_set(visited@).contains(a@)) by {
                        if label_set(visited@).contains(a@) {
                            let i = choose|i: int|
                                0 <= i < label_views(visited@).len() && label_views(visited@)[i]
                                    == a@;
                            if i < visited@.len() - 1 {
                                assert(label_views(prev_visited)[i] == a@);
                                assert(label_set(prev_visited).contains(a@));
                            } else {
                                assert(vx == a@);
                            }
                        }
                    }
                    // `b` stays covered by visited together with the stack
                    assert(label_set(visited@).contains(b@) || label_set(stack@).contains(
                        b@,
                    )) by {
                        if label_set(prev_visited).contains(b@) {
                            let i = choose|i: int|
                                0 <= i < label_views(prev_visited).len() && label_views(
                                    prev_visited,
                                )[i] == b@;
                            assert(label_views(visited@)[i] == b@);
                        } else {
                            assert(label_set(prev_stack).contains(b@));
                            let i = choose|i: int|
                                0 <= i < label_views(prev_stack).len() && label_views(
                                    prev_stack,
                                )[i] == b@;
                            if i < prev_stack.len() - 1 {
                                assert(stack@[i] == prev_stack[i]);
                                assert(label_views(stack@)[i] == b@);
                            } else {
                                assert(vx == b@);
                                assert(label_views(visited@).last() == b@);
                            }
                        }
                    }
                    // the old visited entries keep their closure property
                    assert forall|i: int, y: Seq<char>|
                        #![trigger has_edge(am, visited@[i]@, y)]
                        0 <= i < visited@.len() - 1 && has_edge(am, visited@[i]@, y) implies
                        label_set(visited@).contains(y) || label_set(stack@).contains(y) by {
                        assert(visited@[i] == prev_visited[i]);
                        assert(has_edge(am, prev_visited[i]@, y));
                        if label_set(prev_visited).contains(y) {
                            let t = choose|t: int|
                                0 <= t < label_views(prev_visited).len() && label_views(
                                    prev_visited,
                                )[t] == y;
                            assert(label_views(visited@)[t] == y);
                        } else {
                            assert(label_set(prev_stack).contains(y));
                            let t = choose|t: int|
                                0 <= t < label_views(prev_stack).len() && label_views(
                                    prev_stack,
                                )[t] == y;
                            if t < prev_stack.len() - 1 {
                                assert(label_views(stack@)[t] == y);
                            } else {
                                assert(y == vx);
                                assert(label_views(visited@).last() == vx);
                            }
                        }
                    }
                }
                match succ_opt {
                    Some(succ) => {
                        let mut j: usize = 0;
                        while j < succ.len()
                            invariant
                                self.wf(),
                                am == self.adj(),
                                self.nodes_view().dom().finite(),
                                forall|x0: Seq<char>, y: Seq<char>| #[trigger]
                                    has_edge(am, x0, y) ==> self.nodes_view().dom().contains(x0)
                                        && self.nodes_view().dom().contains(y),
                                j <= succ@.len(),
                                visited@.len() >= 1,
                                visited@.last()@ == vx,
                                self.edges@.dom().contains(vx),
                                succ@ == self.edges@[vx]@,
                                reaches(am, b@, vx),
                                forall|i: int|
                                    0 <= i < stack@.len() ==> reaches(
                                        am,
                                        b@,
                                        (#[trigger] stack@[i])@,
                                    ),
                                forall|i: int|
                                    0 <= i < stack@.len() ==> self.nodes_view().dom().contains(
                                        (#[trigger] stack@[i])@,
                                    ),
                                !label_set(visited@).contains(a@),
                                forall|i: int, y: Seq<char>|
                                    #![trigger has_edge(am, visited@[i]@, y)]
                                    0 <= i < visited@.len() - 1 && has_edge(am, visited@[i]@, y)
                                        ==> label_set(visited@).contains(y) || label_set(
                                        stack@,
                                    ).contains(y),
                                forall|t: int|
                                    0 <= t < j ==> label_set(stack@).contains(
                                        (#[trigger] succ@[t])@,
                                    ),
                                label_set(visited@).contains(b@) || label_set(stack@).contains(b@),
                                forall|i: int|
                                    0 <= i < visited@.len() ==> self.nodes_view().dom().contains(
                                        (#[trigger] visited@[i])@,
                                    ),
                                label_views(visited@).no_duplicates(),
                                visited@.len() <= self.nodes_view().dom().len(),
                            decreases succ@.len() - j,
                        {
                            let ghost before = stack@;
                            let next = succ[j].clone();
                            let ghost vy = next@;
                            stack.push(next);
                            proof {
                                assert(vy == succ@[j as int]@);
                                assert(succs(am, vx) == label_set(succ@));
                                assert(label_views(succ@)[j as int] == vy);
                                assert(label_set(succ@).contains(vy));
                                assert(has_edge(am, vx, vy));
                                lemma_reaches_step(am, b@, vx, vy);
                                assert(stack@.last()@ == vy);
                                assert forall|y: Seq<char>|
                                    label_set(before).contains(y) implies label_set(
                                    stack@,
                                ).contains(y) by {
                                    let i = choose|i: int|
                                        0 <= i < label_views(before).len() && label_views(
                                            before,
                                        )[i] == y;
                                    assert(label_views(stack@)[i] == y);
                                }
                                assert(label_set(stack@).contains(vy)) by {
                                    assert(label_views(stack@).last() == vy);
                                }
                                assert forall|t: int|
                                    0 <= t < j + 1 implies label_set(stack@).contains(
                                    (#[trigger] succ@[t])@,
                                ) by {
                                    if t < j {
                                        assert(label_set(before).contains(succ@[t]@));
                                    }
                                }
                            }
                            j = j + 1;
                        }
                        proof {
                            // all of `x`'s successors now sit on the stack,
                            // so the full visited list is closed
                            assert forall|i: int, y: Seq<char>|
                                #![trigger has_edge(am, visited@[i]@, y)]
                                0 <= i < visited@.len() && has_edge(am, visited@[i]@, y) implies
                                label_set(visited@).contains(y) || label_set(stack@).contains(
                                y,
                            ) by {
                                if i == visited@.len() - 1 {
                                    assert(succs(am, vx) == label_set(succ@));
                                    assert(label_set(succ@).contains(y));
                                    let t = choose|t: int|
                                        0 <= t < label_views(succ@).len() && label_views(
                                            succ@,
                                        )[t] == y;
                                    assert(succ@[t]@ == y);
                                    assert(label_set(stack@).contains(succ@[t]@));
                                }
                            }
                        }
                    },
                    None => {
                        proof {
                            assert(!self.edges@.dom().contains(vx));
                            assert(!am.dom().contains(vx));
                            assert(succs(am, vx) =~= Set::<Seq<char>>::empty());
                            assert forall|i: int, y: Seq<char>|
                                #![trigger has_edge(am, visited@[i]@, y)]
                                0 <= i < visited@.len() && has_edge(am, visited@[i]@, y) implies
                                label_set(visited@).contains(y) || label_set(stack@).contains(
                                y,
                            ) by {
                                if i == visited@.len() - 1 {
                                    assert(visited@[i]@ == vx);
                                    assert(!has_edge(am, vx, y));
                                }
                            }
                        }
                    },
                }
            } else {
                proof {
                    // a visited label was popped again; `b` stays covered
                    assert(label_set(visited@).contains(vx));
                    if !label_set(visited@).contains(b@) {
                        assert(label_set(prev_stack).contains(b@));
                        let i = choose|i: int|
                            0 <= i < label_views(prev_stack).len() && label_views(prev_stack)[i]
                                == b@;
                        if i < prev_stack.len() - 1 {
                            assert(stack@[i] == prev_stack[i]);
                            assert(label_views(stack@)[i] == b@);
                            assert(label_set(stack@).contains(b@));
                        } else {
                            assert(vx == b@);
                        }
                    }
                    // closure survives losing the popped stack entry
                    assert forall|i: int, y: Seq<char>|
                        #![trigger has_edge(am, visited@[i]@, y)]
                        0 <= i < visited@.len() && has_edge(am, visited@[i]@, y) implies
                        label_set(visited@).contains(y) || label_set(stack@).contains(y) by {
                        if !label_set(visited@).contains(y) {
                            assert(label_set(prev_stack).contains(y));
                            let t = choose|t: int|
                                0 <= t < label_views(prev_stack).len() && label_views(
                                    prev_stack,
                                )[t] == y;
                            if t < prev_stack.len() - 1 {
                                assert(stack@[t] == prev_stack[t]);
                                assert(label_views(stack@)[t] == y);
                            } else {
                                assert(y == vx);
                            }
                        }
                    }
                }
            }
        }
        proof {
            // the stack is empty: the visited labels are closed under edges,
            // include `b`, and exclude `a`, so no path from `b` reaches `a`
            assert(label_set(visited@).contains(b@)) by {
                if label_set(stack@).contains(b@) {
                    let i = choose|i: int|
                        0 <= i < label_views(stack@).len() && label_views(stack@)[i] == b@;
                }
            }
            if reaches(am, b@, a@) {
                let p = choose|p: Seq<Seq<char>>|
                    is_path(am, p) && p.first() == b@ && p.last() == a@;
                assert forall|x0: Seq<char>, y: Seq<char>|
                    label_set(visited@).contains(x0) && has_edge(am, x0, y) implies label_set(
                    visited@,
                ).contains(y) by {
                    let i = choose|i: int|
                        0 <= i < label_views(visited@).len() && label_views(visited@)[i] == x0;
                    assert(visited@[i]@ == x0);
                    assert(has_edge(am, visited@[i]@, y));
                    if label_set(stack@).contains(y) {
                        let t = choose|t: int|
                            0 <= t < label_views(stack@).len() && label_views(stack@)[t] == y;
                    }
                }
                lemma_closed_blocks(am, label_set(visited@), p);
                assert(label_set(visited@).contains(a@));
                assert(false);
            }
        }
        true
    }

    /// Adds the directed edge from `a` to `b` exactly as `connect` does, but
    /// only after checking that `b` cannot already reach `a`; otherwise it
    /// fails with `CyclicConnect` and mutates nothing.  A self-edge is
    /// always refused, since every node reaches itself, and a graph whose
    /// edges all come from this operation stays acyclic.
    pub fn acyclic_connect(&mut self, a: String, b: String) -> (r: Result<
        bool,
        GraphConnectError,
    >)
        requires
            old(self).wf(),
        ensures
            final(self).wf(),
            final(self).nodes_view() == old(self).nodes_view(),
            match r {
                Ok(fresh) => {
                    &&& old(self).nodes_view().dom().contains(a@)
                    &&& old(self).nodes_view().dom().contains(b@)
                    &&& !reaches(old(self).adj(), b@, a@)
                    &&& final(self).adj() == insert_edge(old(self).adj(), a@, b@)
                    &&& fresh == !succs(old(self).adj(), a@).contains(b@)
                    &&& (acyclic(old(self).adj()) ==> acyclic(final(self).adj()))
                },
                Err(e) => {
                    &&& *final(self) == *old(self)
                    &&& ((e == GraphConnectError::NodeNotExit) <==> !(old(
                        self,
                    ).nodes_view().dom().contains(a@) && old(self).nodes_view().dom().contains(
                        b@,
                    )))
                    &&& ((e == GraphConnectError::CyclicConnect) <==> (old(
                        self,
                    ).nodes_view().dom().contains(a@) && old(self).nodes_view().dom().contains(b@)
                        && reaches(old(self).adj(), b@, a@)))
                },
            },
    {
        let ghost va = a@;
        let ghost vb = b@;
        if self.nodes.contains_key(&a) && self.nodes.contains_key(&b) {
            if self.connect_acyclic_test(&a, &b) {
                let ghost oldadj = self.adj();
                let fresh = self.add_edge(a, b);
                proof {
                    if acyclic(oldadj) {
                        lemma_acyclic_preserved(oldadj, va, vb);
                    }
                }
                Ok(fresh)
            } else {
                Err(GraphConnectError::CyclicConnect)
            }
        } else {
            Err(GraphConnectError::NodeNotExit)
        }
    }
}

/// Whether some label of `v` has the view of `x`.
fn vec_contains_label(v: &Vec<String>, x: &String) -> (r: bool)
    ensures
        r == label_set(v@).contains(x@),
{
    let mut i: usize = 0;
    while i < v.len()
        invariant
            i <= v@.len(),
            forall|j: int| 0 <= j < i ==> (#[trigger] v@[j])@ != x@,
        decreases v@.len() - i,
    {
        if v[i] == *x {
            proof {
                assert(label_views(v@)[i as int] == x@);
            }
            return true;
        }
        i = i + 1;
    }
    proof {
        if label_set(v@).contains(x@) {
            let j = choose|j: int| 0 <= j < label_views(v@).len() && label_views(v@)[j] == x@;
            assert(v@[j]@ == x@);
            assert(false);
        }
    }
    false
}

/// Law: inserting the same directed edge twice leaves the relation exactly
/// as one insertion does, the second insertion finds the edge present, and
/// the successor set of the source grows by one on a new edge and not at
/// all on a repeated one.
pub proof fn lemma_connect_idempotent(adj: AdjacencyMap, a: Seq<char>, b: Seq<char>)
    requires
        succs(adj, a).finite(),
    ensures
        succs(insert_edge(adj, a, b), a).contains(b),
        insert_edge(insert_edge(adj, a, b), a, b) == insert_edge(adj, a, b),
        !succs(adj, a).contains(b) ==> succs(insert_edge(adj, a, b), a).len() == succs(
            adj,
            a,
        ).len() + 1,
        succs(adj, a).contains(b) ==> succs(insert_edge(adj, a, b), a).len() == succs(
            adj,
            a,
        ).len(),
{
    broadcast use vstd::set::axiom_set_insert_len;

    assert(succs(insert_edge(adj, a, b), a) == succs(adj, a).insert(b));
    assert(insert_edge(insert_edge(adj, a, b), a, b) =~~= insert_edge(adj, a, b));
    if succs(adj, a).contains(b) {
        assert(succs(adj, a).insert(b) =~= succs(adj, a));
    }
}

} // verus!
