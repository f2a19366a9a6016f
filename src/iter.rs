//! Iteration over the leaves of a fragment of a span tree.

use vstd::prelude::*;
use vstd::set_lib::lemma_len_subset;

use crate::crumbs::{
    is_proper_prefix, lemma_increasing_no_duplicates, lemma_lex_asymmetric, lemma_lex_total,
    lemma_lex_transitive, lemma_sorted_unique, lex_lt, lt_at, strictly_increasing,
};
use crate::node::{Kind, Node, lemma_node_at_prefix, lemma_paths_finite, node_at, paths};

verus! {

/// The part of a tree that an iteration covers.
#[derive(Clone, Copy, Debug, PartialEq, Eq, Structural)]
pub enum TreeFragment {
    /// The whole tree: every node with children is expanded.
    AllNodes,
    /// The chain that starts at the base and the direct children of its nodes:
    /// only chained nodes are expanded.
    ChainAndDirectChildren,
}

/// Whether the iteration over fragment `f` goes past `n` into its children.
pub open spec fn descends<T>(f: TreeFragment, n: Node<T>) -> bool {
    f == TreeFragment::AllNodes || n.kind == Kind::Chained
}

/// `p` leads from `base` to a leaf of fragment `f`: the base is always expanded,
/// every node strictly between the base and the end of `p` is expanded, and the
/// node at the end is not, being childless or (below the base) not expandable.
pub open spec fn is_leaf_path<T>(base: Node<T>, f: TreeFragment, p: Seq<usize>) -> bool {
    &&& node_at(base, p) is Some
    &&& forall|i: int| 0 < i < p.len() ==> descends(f, #[trigger] node_at(base, p.take(i))->0)
    &&& (node_at(base, p)->0.children@.len() == 0 || (p.len() > 0 && !descends(
        f,
        node_at(base, p)->0,
    )))
}

/// `s` lists every leaf path of fragment `f` below `base` once, in increasing
/// order, and nothing else.
pub open spec fn is_leaf_listing<T>(base: Node<T>, f: TreeFragment, s: Seq<Seq<usize>>) -> bool {
    &&& strictly_increasing(s)
    &&& forall|p: Seq<usize>| #[trigger] s.contains(p) <==> is_leaf_path(base, f, p)
}

/// `y` is how far an iteration over fragment `f` below `base` has come, with
/// `pending` the path it hands out next (`None` once it is done): `y` holds leaf
/// paths in increasing order, all before `pending`, and no leaf path before
/// `pending` is missing from it; once done, no leaf path at all is missing.
pub open spec fn is_partial_listing<T>(
    base: Node<T>,
    f: TreeFragment,
    y: Seq<Seq<usize>>,
    pending: Option<Seq<usize>>,
) -> bool {
    &&& strictly_increasing(y)
    &&& forall|i: int| 0 <= i < y.len() ==> is_leaf_path(base, f, #[trigger] y[i])
    &&& match pending {
        Some(p) => {
            &&& is_leaf_path(base, f, p)
            &&& forall|i: int| 0 <= i < y.len() ==> lex_lt(#[trigger] y[i], p)
            &&& forall|q: Seq<usize>|
                #[trigger] is_leaf_path(base, f, q) && lex_lt(q, p) ==> y.contains(q)
        },
        None => forall|q: Seq<usize>| #[trigger] is_leaf_path(base, f, q) ==> y.contains(q),
    }
}

/// A node of a tree with its path from the base of an iteration.
#[derive(Debug)]
pub struct NodeRef<'a, T> {
    /// The node.
    pub node: &'a Node<T>,
    /// The child indices that lead from the base to the node.
    pub crumbs: Vec<usize>,
}

/// A stack frame of the depth-first search: a node and the index of the child
/// being visited.
#[derive(Debug)]
struct StackFrame<'a, T> {
    node: &'a Node<T>,
    child_being_visited: usize,
}

/// An iterator over the leaves of a fragment of a span tree, from left to right.
/// See `TreeFragment` for the fragments.
pub struct LeafIterator<'a, T> {
    stack: Vec<StackFrame<'a, T>>,
    next_node: Option<&'a Node<T>>,
    base_node: &'a Node<T>,
    fragment: TreeFragment,
    yielded: Ghost<Seq<Seq<usize>>>,
}

impl<T> Node<T> {
    /// An iterator over all the leaves below this node.
    pub fn leaf_iter(&self) -> (r: LeafIterator<'_, T>)
        ensures
            r.wf(),
            r.base() == *self,
            r.fragment() == TreeFragment::AllNodes,
            r.yielded() == Seq::<Seq<usize>>::empty(),
            is_partial_listing(*self, TreeFragment::AllNodes, r.yielded(), r.pending()),
    {
        LeafIterator::new(self, TreeFragment::AllNodes)
    }

    /// An iterator over the chain that starts at this node and the direct children
    /// of its nodes.
    pub fn chain_children_iter(&self) -> (r: LeafIterator<'_, T>)
        ensures
            r.wf(),
            r.base() == *self,
            r.fragment() == TreeFragment::ChainAndDirectChildren,
            r.yielded() == Seq::<Seq<usize>>::empty(),
            is_partial_listing(
                *self,
                TreeFragment::ChainAndDirectChildren,
                r.yielded(),
                r.pending(),
            ),
    {
        LeafIterator::new(self, TreeFragment::ChainAndDirectChildren)
    }
}

spec fn path_of<'a, T>(s: Seq<StackFrame<'a, T>>) -> Seq<usize> {
    Seq::new(s.len(), |i: int| s[i].child_being_visited)
}

/// No leaf path comes strictly between `cur` and `next`.
spec fn no_leaf_between<T>(base: Node<T>, f: TreeFragment, cur: Seq<usize>, next: Seq<usize>) -> bool {
    forall|q: Seq<usize>|
        #[trigger] is_leaf_path(base, f, q) && lex_lt(cur, q) ==> q == next || lex_lt(next, q)
}

/// At depth `j` of path `p`, the index is that of the last child there, or past it.
spec fn is_last_child_at<T>(base: Node<T>, p: Seq<usize>, j: int) -> bool {
    p[j] + 1 >= node_at(base, p.take(j))->0.children@.len()
}

/// Some leaf path `q` differs from `cur` first at an index below `d`.
spec fn diverges_before(cur: Seq<usize>, q: Seq<usize>, d: int) -> bool {
    exists|k: int| 0 <= k < d && lt_at(cur, q, k)
}

impl<'a, T> LeafIterator<'a, T> {
    spec fn path(&self) -> Seq<usize> {
        path_of(self.stack@)
    }

    spec fn frames_ok(&self) -> bool {
        forall|i: int|
            0 <= i < self.stack@.len() ==> node_at(*self.base_node, #[trigger] self.path().take(i))
                == Some(*self.stack@[i].node)
    }

    /// The node that the iteration started from.
    pub closed spec fn base(&self) -> Node<T> {
        *self.base_node
    }

    /// The fragment iterated over.
    pub closed spec fn fragment(&self) -> TreeFragment {
        self.fragment
    }

    /// The paths handed out so far, in order.
    pub closed spec fn yielded(&self) -> Seq<Seq<usize>> {
        self.yielded@
    }

    /// The path that the next call hands out, or `None` once all are out.
    pub closed spec fn pending(&self) -> Option<Seq<usize>> {
        if self.next_node is Some {
            Some(self.path())
        } else {
            None
        }
    }

    /// The iterator's invariant.
    pub closed spec fn wf(&self) -> bool {
        &&& self.frames_ok()
        &&& self.next_node is Some ==> node_at(*self.base_node, self.path()) == Some(
            *self.next_node->0,
        )
        &&& is_partial_listing(*self.base_node, self.fragment, self.yielded@, self.pending())
    }
}

impl<'a, T> LeafIterator<'a, T> {
    /// Creates an iterator over the leaves of fragment `fragment` of the subtree
    /// rooted at `node`. The base itself is always expanded; a base without
    /// children is its own single leaf, with empty crumbs.
    pub fn new(node: &'a Node<T>, fragment: TreeFragment) -> (r: Self)
        ensures
            r.wf(),
            r.base() == *node,
            r.fragment() == fragment,
            r.yielded() == Seq::<Seq<usize>>::empty(),
            r.pending() is Some,
            node.children@.len() == 0 ==> r.pending() == Some(Seq::<usize>::empty()),
            is_partial_listing(*node, fragment, r.yielded(), r.pending()),
    {
        let ghost base = *node;
        let ghost f = fragment;
        if node.children.len() == 0 {
            let this = LeafIterator {
                stack: Vec::new(),
                next_node: Some(node),
                base_node: node,
                fragment,
                yielded: Ghost(Seq::empty()),
            };
            proof {
                assert(this.path() =~= Seq::<usize>::empty());
                assert forall|q: Seq<usize>| #[trigger]
                    is_leaf_path(base, f, q) && lex_lt(q, this.path()) implies this.yielded@.contains(
                    q,
                ) by {
                    let k = choose|k: int| lt_at(q, this.path(), k);
                }
            }
            this
        } else {
            let mut stack: Vec<StackFrame<'a, T>> = Vec::new();
            stack.push(StackFrame { node, child_being_visited: 0 });
            let mut this = LeafIterator {
                stack,
                next_node: Some(&node.children[0].node),
                base_node: node,
                fragment,
                yielded: Ghost(Seq::empty()),
            };
            let ghost first = this.path();
            proof {
                assert(first =~= seq![0usize]);
                assert(first.take(0) =~= Seq::<usize>::empty());
                assert(first.drop_last() =~= Seq::<usize>::empty());
            }
            this.descend_to_leaf();
            proof {
                let p = this.path();
                assert forall|q: Seq<usize>| #[trigger] is_leaf_path(base, f, q) implies q == p
                    || lex_lt(p, q) by {
                    if q.len() == 0 {
                    } else if q[0] > 0 {
                        assert(lt_at(first, q, 0));
                    } else if q.len() == 1 {
                        assert(q =~= first);
                    } else {
                        assert(lt_at(first, q, 1));
                    }
                }
                assert forall|q: Seq<usize>| #[trigger]
                    is_leaf_path(base, f, q) && lex_lt(q, p) implies this.yielded@.contains(q) by {
                    lemma_lex_asymmetric(q, p);
                }
            }
            this
        }
    }

    /// Hands out the pending leaf with its crumbs and moves on to the next one,
    /// or returns `None` once every leaf has been handed out (and from then on).
    /// The node handed out is the one that the crumbs lead to from the base: the
    /// frames keep the nodes they visit, so no path has to be resolved again and
    /// no resolution can fail.
    pub fn next(&mut self) -> (r: Option<NodeRef<'a, T>>)
        requires
            old(self).wf(),
        ensures
            final(self).wf(),
            final(self).base() == old(self).base(),
            final(self).fragment() == old(self).fragment(),
            is_partial_listing(
                final(self).base(),
                final(self).fragment(),
                final(self).yielded(),
                final(self).pending(),
            ),
            match r {
                Some(item) => {
                    &&& old(self).pending() == Some(item.crumbs@)
                    &&& node_at(old(self).base(), item.crumbs@) == Some(*item.node)
                    &&& final(self).yielded() == old(self).yielded().push(item.crumbs@)
                },
                None => {
                    &&& old(self).pending() is None
                    &&& final(self).pending() is None
                    &&& final(self).yielded() == old(self).yielded()
                },
            },
    {
        match self.next_node {
            Some(node) => {
                let ghost base = *self.base_node;
                let ghost f = self.fragment;
                let ghost y = self.yielded@;
                let ghost cur = self.path();
                let mut crumbs: Vec<usize> = Vec::new();
                let mut i: usize = 0;
                while i < self.stack.len()
                    invariant
                        i <= self.stack@.len(),
                        self.path() == cur,
                        crumbs@ == cur.take(i as int),
                    decreases self.stack@.len() - i,
                {
                    crumbs.push(self.stack[i].child_being_visited);
                    proof {
                        assert(crumbs@ =~= cur.take(i + 1));
                    }
                    i = i + 1;
                }
                proof {
                    assert(crumbs@ =~= cur);
                }
                self.make_dfs_step();
                let ghost l = self.path();
                self.descend_to_leaf();
                self.yielded = Ghost(y.push(cur));
                proof {
                    let y1 = self.yielded@;
                    assert forall|i: int, j: int| 0 <= i < j < y1.len() implies lex_lt(
                        #[trigger] y1[i],
                        #[trigger] y1[j],
                    ) by {
                        if j < y.len() {
                            assert(lex_lt(y[i], y[j]));
                        } else {
                            assert(lex_lt(y[i], cur));
                        }
                    }
                    assert forall|i: int| 0 <= i < y1.len() implies is_leaf_path(
                        base,
                        f,
                        #[trigger] y1[i],
                    ) by {
                        if i < y.len() {
                            assert(is_leaf_path(base, f, y[i]));
                        }
                    }
                    if self.next_node is Some {
                        let p = self.path();
                        if l != p {
                            lemma_lex_transitive(cur, l, p);
                        }
                        assert forall|i: int| 0 <= i < y1.len() implies lex_lt(#[trigger] y1[i], p) by {
                            if i < y.len() {
                                assert(lex_lt(y[i], cur));
                                lemma_lex_transitive(y[i], cur, p);
                            }
                        }
                        assert forall|q: Seq<usize>| #[trigger]
                            is_leaf_path(base, f, q) && lex_lt(q, p) implies y1.contains(q) by {
                            if q == cur {
                                assert(y1[y.len() as int] == q);
                            } else {
                                lemma_lex_total(q, cur);
                                if lex_lt(q, cur) {
                                    let k = choose|k: int| 0 <= k < y.len() && y[k] == q;
                                    assert(y1[k] == q);
                                } else {
                                    lemma_lex_asymmetric(q, p);
                                }
                            }
                        }
                    } else {
                        assert forall|q: Seq<usize>| #[trigger] is_leaf_path(base, f, q) implies y1.contains(
                            q,
                        ) by {
                            if q == cur {
                                assert(y1[y.len() as int] == q);
                            } else {
                                lemma_lex_total(q, cur);
                                let k = choose|k: int| 0 <= k < y.len() && y[k] == q;
                                assert(y1[k] == q);
                            }
                        }
                    }
                }
                Some(NodeRef { node, crumbs })
            },
            None => None,
        }
    }

    fn can_descend(&self, current_node: &Node<T>) -> (r: bool)
        ensures
            r == descends(self.fragment, *current_node),
    {
        match self.fragment {
            TreeFragment::AllNodes => true,
            TreeFragment::ChainAndDirectChildren => current_node.kind.is_chained(),
        }
    }

    /// Goes down from the pending node along first children for as long as the
    /// fragment lets it, so that the pending node becomes a leaf.
    fn descend_to_leaf(&mut self)
        requires
            old(self).frames_ok(),
            old(self).next_node is Some ==> {
                &&& node_at(*old(self).base_node, old(self).path()) == Some(*old(self).next_node->0)
                &&& forall|i: int|
                    0 < i < old(self).path().len() ==> descends(
                        old(self).fragment,
                        #[trigger] node_at(*old(self).base_node, old(self).path().take(i))->0,
                    )
                &&& old(self).path().len() > 0 || old(self).base_node.children@.len() == 0
            },
        ensures
            final(self).frames_ok(),
            final(self).base_node == old(self).base_node,
            final(self).fragment == old(self).fragment,
            final(self).yielded == old(self).yielded,
            old(self).next_node is None ==> {
                &&& final(self).stack@ == old(self).stack@
                &&& final(self).next_node is None
            },
            old(self).next_node is Some ==> {
                &&& final(self).next_node is Some
                &&& old(self).stack@.len() <= final(self).stack@.len()
                &&& forall|i: int|
                    0 <= i < old(self).stack@.len() ==> final(self).stack@[i] == old(self).stack@[i]
                &&& forall|i: int|
                    old(self).stack@.len() <= i < final(self).stack@.len()
                        ==> final(self).stack@[i].child_being_visited == 0
                &&& node_at(*final(self).base_node, final(self).path()) == Some(
                    *final(self).next_node->0,
                )
                &&& is_leaf_path(*final(self).base_node, final(self).fragment, final(self).path())
                &&& old(self).path() == final(self).path() || lex_lt(
                    old(self).path(),
                    final(self).path(),
                )
                &&& forall|q: Seq<usize>|
                    #[trigger] is_leaf_path(*final(self).base_node, final(self).fragment, q) && (q
                        == old(self).path() || lex_lt(old(self).path(), q)) ==> q == final(self).path()
                        || lex_lt(final(self).path(), q)
            },
    {
        let ghost base = *self.base_node;
        let ghost f = self.fragment;
        let ghost p0 = self.path();
        let ghost s0 = self.stack@;
        if let Some(first) = self.next_node {
            let mut current: &'a Node<T> = first;
            while self.can_descend(current) && current.children.len() > 0
                invariant
                    self.frames_ok(),
                    *self.base_node == base,
                    self.fragment == f,
                    self.yielded == old(self).yielded,
                    self.base_node == old(self).base_node,
                    node_at(base, self.path()) == Some(*current),
                    forall|i: int|
                        0 < i < self.path().len() ==> descends(
                            f,
                            #[trigger] node_at(base, self.path().take(i))->0,
                        ),
                    self.path().len() > 0 || current.children@.len() == 0,
                    p0 == self.path() || lex_lt(p0, self.path()),
                    forall|q: Seq<usize>|
                        #[trigger] is_leaf_path(base, f, q) && (q == p0 || lex_lt(p0, q)) ==> q
                            == self.path() || lex_lt(self.path(), q),
                    s0.len() <= self.stack@.len(),
                    forall|i: int| 0 <= i < s0.len() ==> self.stack@[i] == s0[i],
                    forall|i: int|
                        s0.len() <= i < self.stack@.len() ==> self.stack@[i].child_being_visited
                            == 0,
                decreases *current,
            {
                let ghost p = self.path();
                self.stack.push(StackFrame { node: current, child_being_visited: 0 });
                let ghost p1 = self.path();
                proof {
                    assert(p1 =~= p.push(0));
                    assert(p1.drop_last() == p);
                    assert forall|i: int| 0 <= i < self.stack@.len() implies node_at(
                        base,
                        #[trigger] self.path().take(i),
                    ) == Some(*self.stack@[i].node) by {
                        if i < p.len() {
                            assert(p1.take(i) == p.take(i));
                        } else {
                            assert(p1.take(i) == p);
                        }
                    }
                    assert forall|i: int| 0 < i < p1.len() implies descends(
                        f,
                        #[trigger] node_at(base, p1.take(i))->0,
                    ) by {
                        if i < p.len() {
                            assert(p1.take(i) == p.take(i));
                        } else {
                            assert(p1.take(i) == p);
                        }
                    }
                    assert(lex_lt(p, p1)) by {
                        assert(lt_at(p, p1, p.len() as int));
                    }
                    if p0 != p {
                        lemma_lex_transitive(p0, p, p1);
                    }
                    assert forall|q: Seq<usize>|
                        #[trigger] is_leaf_path(base, f, q) && (q == p0 || lex_lt(p0, q)) implies q
                            == p1 || lex_lt(p1, q) by {
                        if q == p {
                        } else {
                            let k = choose|k: int| lt_at(p, q, k);
                            if k < p.len() {
                                assert(lt_at(p1, q, k));
                            } else if q[k] > 0 {
                                assert(lt_at(p1, q, k));
                            } else if q.len() == k + 1 {
                                assert(q =~= p1);
                            } else {
                                assert(lt_at(p1, q, k + 1));
                            }
                        }
                    }
                }
                current = &current.children[0].node;
            }
            self.next_node = Some(current);
        }
    }

    /// Moves to the next sibling of the pending node, or of the nearest ancestor
    /// that has one, dropping the frames of exhausted subtrees on the way. With
    /// nothing pending it changes nothing.
    fn make_dfs_step(&mut self)
        requires
            old(self).frames_ok(),
            old(self).next_node is Some ==> {
                &&& node_at(*old(self).base_node, old(self).path()) == Some(*old(self).next_node->0)
                &&& is_leaf_path(*old(self).base_node, old(self).fragment, old(self).path())
            },
        ensures
            final(self).frames_ok(),
            final(self).base_node == old(self).base_node,
            final(self).fragment == old(self).fragment,
            final(self).yielded == old(self).yielded,
            old(self).next_node is None ==> {
                &&& final(self).stack@ == old(self).stack@
                &&& final(self).next_node is None
            },
            old(self).next_node is Some && final(self).next_node is Some ==> {
                let d = final(self).path().len() - 1;
                &&& 0 <= d < old(self).path().len()
                &&& final(self).path() == old(self).path().take(d).push(
                    (old(self).path()[d] + 1) as usize,
                )
                &&& forall|i: int| 0 <= i < d ==> final(self).stack@[i] == old(self).stack@[i]
                &&& final(self).stack@[d].node == old(self).stack@[d].node
                &&& forall|j: int|
                    d < j < old(self).path().len() ==> is_last_child_at(
                        *old(self).base_node,
                        old(self).path(),
                        j,
                    )
                &&& node_at(*final(self).base_node, final(self).path()) == Some(
                    *final(self).next_node->0,
                )
                &&& forall|i: int|
                    0 < i < final(self).path().len() ==> descends(
                        final(self).fragment,
                        #[trigger] node_at(*final(self).base_node, final(self).path().take(i))->0,
                    )
                &&& lex_lt(old(self).path(), final(self).path())
                &&& no_leaf_between(
                    *final(self).base_node,
                    final(self).fragment,
                    old(self).path(),
                    final(self).path(),
                )
            },
            old(self).next_node is Some && final(self).next_node is None ==> {
                &&& final(self).stack@.len() == 0
                &&& forall|j: int|
                    0 <= j < old(self).path().len() ==> is_last_child_at(
                        *old(self).base_node,
                        old(self).path(),
                        j,
                    )
                &&& forall|q: Seq<usize>|
                    #[trigger] is_leaf_path(*final(self).base_node, final(self).fragment, q)
                        ==> !lex_lt(old(self).path(), q)
            },
    {
        if self.next_node.is_some() {
            let ghost base = *self.base_node;
            let ghost f = self.fragment;
            let ghost cur = self.path();
            let ghost old_stack = self.stack@;
            self.next_node = None;
            proof {
                assert(cur.take(cur.len() as int) == cur);
                assert forall|q: Seq<usize>| #[trigger]
                    is_leaf_path(base, f, q) && lex_lt(cur, q) implies diverges_before(
                    cur,
                    q,
                    cur.len() as int,
                ) by {
                    let k = choose|k: int| lt_at(cur, q, k);
                    if k == cur.len() {
                        lemma_node_at_prefix(base, q, k);
                        assert(q.take(k) =~= cur);
                        if k > 0 {
                            assert(descends(f, node_at(base, q.take(k))->0));
                        }
                    }
                }
            }
            while self.next_node.is_none() && self.stack.len() > 0
                invariant
                    self.frames_ok(),
                    *self.base_node == base,
                    self.base_node == old(self).base_node,
                    self.fragment == f,
                    self.yielded == old(self).yielded,
                    is_leaf_path(base, f, cur),
                    old_stack.len() == cur.len(),
                    path_of(old_stack) == cur,
                    self.stack@.len() <= cur.len(),
                    forall|j: int|
                        self.stack@.len() <= j < cur.len() ==> is_last_child_at(base, cur, j),
                    self.next_node is None ==> {
                        &&& self.path() == cur.take(self.stack@.len() as int)
                        &&& forall|i: int|
                            0 <= i < self.stack@.len() ==> self.stack@[i] == old_stack[i]
                        &&& forall|q: Seq<usize>| #[trigger]
                            is_leaf_path(base, f, q) && lex_lt(cur, q) ==> diverges_before(
                                cur,
                                q,
                                self.stack@.len() as int,
                            )
                    },
                    self.next_node is Some ==> {
                        let d = self.path().len() - 1;
                        &&& 0 <= d < cur.len()
                        &&& self.path() == cur.take(d).push((cur[d] + 1) as usize)
                        &&& forall|i: int| 0 <= i < d ==> self.stack@[i] == old_stack[i]
                        &&& self.stack@[d].node == old_stack[d].node
                        &&& node_at(base, self.path()) == Some(*self.next_node->0)
                        &&& forall|i: int|
                            0 < i < self.path().len() ==> descends(
                                f,
                                #[trigger] node_at(base, self.path().take(i))->0,
                            )
                        &&& lex_lt(cur, self.path())
                        &&& no_leaf_between(base, f, cur, self.path())
                    },
                decreases self.stack@.len() + (if self.next_node is None {
                    1int
                } else {
                    0int
                }),
            {
                let last: usize = self.stack.len() - 1;
                let top_node: &'a Node<T> = self.stack[last].node;
                proof {
                    assert(cur.take(last as int) == self.path().take(last as int));
                    lemma_node_at_prefix(base, cur, last as int);
                }
                // The index being visited is below this count, so the step to the next
                // sibling cannot overflow.
                let n_children: usize = top_node.children.len();
                proof {
                    assert(self.stack@[last as int].child_being_visited == cur[last as int]);
                    assert(cur[last as int] < n_children);
                }
                let idx: usize = self.stack[last].child_being_visited + 1;
                let ghost before = self.path();
                let ghost before_stack = self.stack@;
                self.stack.set(last, StackFrame { node: top_node, child_being_visited: idx });
                proof {
                    assert forall|i: int| 0 <= i <= last implies #[trigger] self.path().take(i)
                        == before.take(i) by {
                        assert(self.path().take(i) =~= before.take(i));
                    }
                    assert forall|i: int| 0 <= i < self.stack@.len() implies node_at(
                        base,
                        #[trigger] self.path().take(i),
                    ) == Some(*self.stack@[i].node) by {
                        assert(self.path().take(i) == before.take(i));
                        assert(before_stack[i].node == self.stack@[i].node);
                    }
                }
                match top_node.get_child(idx) {
                    Some(child) => {
                        self.next_node = Some(child);
                        proof {
                            let l = self.path();
                            assert(l =~= cur.take(last as int).push(idx));
                            assert(l.drop_last() == cur.take(last as int));
                            assert(lt_at(cur, l, last as int));
                            assert(self.stack@[last as int].node == old_stack[last as int].node);
                            assert forall|i: int| 0 < i < l.len() implies descends(
                                f,
                                #[trigger] node_at(base, l.take(i))->0,
                            ) by {
                                assert(l.take(i) =~= cur.take(i));
                            }
                            assert forall|q: Seq<usize>| #[trigger]
                                is_leaf_path(base, f, q) && lex_lt(cur, q) implies q == l
                                || lex_lt(l, q) by {
                                let k = choose|k: int| 0 <= k < last + 1 && lt_at(cur, q, k);
                                if k < last {
                                    assert(lt_at(l, q, k));
                                } else if q[k] > idx {
                                    assert(lt_at(l, q, k));
                                } else if q.len() == k + 1 {
                                    assert(q =~= l);
                                } else {
                                    assert(lt_at(l, q, k + 1));
                                }
                            }
                        }
                    },
                    None => {
                        self.stack.pop();
                        proof {
                            assert(self.path() =~= cur.take(last as int));
                            assert(is_last_child_at(base, cur, last as int));
                            assert forall|i: int| 0 <= i < self.stack@.len() implies node_at(
                                base,
                                #[trigger] self.path().take(i),
                            ) == Some(*self.stack@[i].node) by {
                                assert(self.path().take(i) =~= before.take(i));
                            }
                            assert forall|q: Seq<usize>| #[trigger]
                                is_leaf_path(base, f, q) && lex_lt(cur, q) implies diverges_before(
                                cur,
                                q,
                                last as int,
                            ) by {
                                let k = choose|k: int| 0 <= k < last + 1 && lt_at(cur, q, k);
                                if k == last {
                                    lemma_node_at_prefix(base, q, k);
                                    assert(q.take(k) =~= cur.take(k));
                                }
                            }
                        }
                    },
                }
            }
        }
    }
}

/// With the whole tree as fragment, the leaf paths are exactly the paths to
/// nodes without children, and a listing of them holds each once.
pub proof fn lemma_all_nodes_leaves<T>(base: Node<T>, s: Seq<Seq<usize>>)
    requires
        is_leaf_listing(base, TreeFragment::AllNodes, s),
    ensures
        s.no_duplicates(),
        forall|p: Seq<usize>|
            #[trigger] s.contains(p) <==> (node_at(base, p) is Some && node_at(
                base,
                p,
            )->0.children@.len() == 0),
{
    lemma_increasing_no_duplicates(s);
    assert forall|p: Seq<usize>|
        #[trigger] s.contains(p) <==> (node_at(base, p) is Some && node_at(
            base,
            p,
        )->0.children@.len() == 0) by {
        if node_at(base, p) is Some && node_at(base, p)->0.children@.len() == 0 {
            assert(is_leaf_path(base, TreeFragment::AllNodes, p));
        }
    }
}

/// Restricted to chains, iteration expands a node below the base exactly when it
/// is chained: along a path whose inner nodes are all chained, the node at the end
/// is a leaf if and only if it is not chained or has no children, and nothing
/// below a node that is not chained is ever a leaf.
pub proof fn lemma_chain_expansion<T>(base: Node<T>, p: Seq<usize>)
    requires
        p.len() > 0,
        node_at(base, p) is Some,
        forall|i: int|
            0 < i < p.len() ==> (#[trigger] node_at(base, p.take(i)))->0.kind == Kind::Chained,
    ensures
        is_leaf_path(base, TreeFragment::ChainAndDirectChildren, p) <==> (node_at(
            base,
            p,
        )->0.kind != Kind::Chained || node_at(base, p)->0.children@.len() == 0),
        node_at(base, p)->0.kind != Kind::Chained ==> forall|q: Seq<usize>|
            is_proper_prefix(p, q) ==> !#[trigger] is_leaf_path(
                base,
                TreeFragment::ChainAndDirectChildren,
                q,
            ),
{
    if node_at(base, p)->0.kind != Kind::Chained {
        assert forall|q: Seq<usize>|
            is_proper_prefix(p, q) implies !#[trigger] is_leaf_path(
            base,
            TreeFragment::ChainAndDirectChildren,
            q,
        ) by {
            let i = p.len() as int;
            assert(!descends(TreeFragment::ChainAndDirectChildren, node_at(base, q.take(i))->0));
        }
    }
}

/// A base without children is its own single leaf: the listing is the empty path
/// alone, whatever the fragment.
pub proof fn lemma_childless_base<T>(base: Node<T>, f: TreeFragment, s: Seq<Seq<usize>>)
    requires
        base.children@.len() == 0,
        is_leaf_listing(base, f, s),
    ensures
        s == seq![Seq::<usize>::empty()],
{
    let e = Seq::<usize>::empty();
    assert(e.len() == 0);
    assert(node_at(base, e) == Some(base));
    assert(is_leaf_path(base, f, e));
    assert(s.contains(e));
    assert forall|i: int| 0 <= i < s.len() implies s[i] == e by {
        assert(s.contains(s[i]));
        if s[i].len() > 0 {
            lemma_node_at_prefix(base, s[i], 0);
            assert(s[i].take(0) =~= e);
        }
        assert(s[i] =~= e);
    }
    if s.len() > 1 {
        assert(lex_lt(s[0], s[1]));
        lemma_lex_asymmetric(e, e);
    }
    assert(s =~= seq![e]);
}

/// Once an iteration is done, what it handed out is the leaf listing.
pub proof fn lemma_exhausted_listing<T>(base: Node<T>, f: TreeFragment, y: Seq<Seq<usize>>)
    requires
        is_partial_listing(base, f, y, None),
    ensures
        is_leaf_listing(base, f, y),
{
    assert forall|p: Seq<usize>| #[trigger] y.contains(p) implies is_leaf_path(base, f, p) by {
        let i = choose|i: int| 0 <= i < y.len() && y[i] == p;
        assert(is_leaf_path(base, f, y[i]));
    }
}

/// There is one leaf listing for a base and a fragment.
pub proof fn lemma_listing_unique<T>(
    base: Node<T>,
    f: TreeFragment,
    a: Seq<Seq<usize>>,
    b: Seq<Seq<usize>>,
)
    requires
        is_leaf_listing(base, f, a),
        is_leaf_listing(base, f, b),
    ensures
        a == b,
{
    lemma_sorted_unique(a, b);
}

/// Two iterations over the same base and fragment, both run to the end, hand out
/// the same crumbs in the same order.
pub proof fn lemma_restartable<'a, 'b, T>(a: &LeafIterator<'a, T>, b: &LeafIterator<'b, T>)
    requires
        a.wf(),
        b.wf(),
        a.base() == b.base(),
        a.fragment() == b.fragment(),
        is_partial_listing(a.base(), a.fragment(), a.yielded(), a.pending()),
        is_partial_listing(b.base(), b.fragment(), b.yielded(), b.pending()),
        a.pending() is None,
        b.pending() is None,
    ensures
        a.yielded() == b.yielded(),
{
    lemma_exhausted_listing(a.base(), a.fragment(), a.yielded());
    lemma_exhausted_listing(b.base(), b.fragment(), b.yielded());
    lemma_listing_unique(a.base(), a.fragment(), a.yielded(), b.yielded());
}

/// An iteration hands out at most as many leaves as the subtree of its base has
/// nodes, counting the one still pending: it always comes to an end.
pub proof fn lemma_iteration_bounded<T>(
    base: Node<T>,
    f: TreeFragment,
    y: Seq<Seq<usize>>,
    pending: Option<Seq<usize>>,
)
    requires
        is_partial_listing(base, f, y, pending),
    ensures
        paths(base).finite(),
        y.len() + (if pending is Some {
            1int
        } else {
            0int
        }) <= paths(base).len(),
{
    lemma_paths_finite(base);
    lemma_increasing_no_duplicates(y);
    y.unique_seq_to_set();
    let s = match pending {
        Some(p) => y.to_set().insert(p),
        None => y.to_set(),
    };
    assert forall|q: Seq<usize>| #[trigger] s.contains(q) implies paths(base).contains(q) by {
        if y.contains(q) {
            let i = choose|i: int| 0 <= i < y.len() && y[i] == q;
            assert(is_leaf_path(base, f, y[i]));
        }
    }
    if let Some(p) = pending {
        if y.contains(p) {
            let i = choose|i: int| 0 <= i < y.len() && y[i] == p;
            assert(lex_lt(y[i], p));
            lemma_lex_asymmetric(p, p);
        }
        assert(s.len() == y.to_set().len() + 1);
    }
    lemma_len_subset(s, paths(base));
}

} // verus!
