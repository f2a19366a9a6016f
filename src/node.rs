//! The vertices of a span tree.

use vstd::prelude::*;

verus! {

/// The semantic role of a node.
#[derive(Clone, Copy, Debug, PartialEq, Eq, Structural)]
pub enum Kind {
    /// The root of a whole tree.
    Root,
    /// A node of a flattened chain of operator or method applications.
    Chained,
    /// The `this` operand of an application.
    This,
    /// The operator or function of an application.
    Operation,
    /// An argument of an application.
    Argument,
    /// A placeholder where a new argument may be inserted.
    Empty,
}

impl Kind {
    /// A node in the role of the `this` operand.
    pub fn this() -> (r: Kind)
        ensures
            r == Kind::This,
    {
        Kind::This
    }

    /// A node in the role of an operator or function.
    pub fn operation() -> (r: Kind)
        ensures
            r == Kind::Operation,
    {
        Kind::Operation
    }

    /// A node in the role of an argument.
    pub fn argument() -> (r: Kind)
        ensures
            r == Kind::Argument,
    {
        Kind::Argument
    }

    /// Whether the node is part of a flattened chain.
    pub fn is_chained(&self) -> (r: bool)
        ensures
            r == (*self == Kind::Chained),
    {
        match self {
            Kind::Chained => true,
            _ => false,
        }
    }
}

/// An edge from a node to one of its children: the child and where its span starts
/// within the parent's span.
#[derive(Debug)]
pub struct Child<T> {
    /// Offset of the child's span from the start of the parent's span.
    pub offset: usize,
    /// The child itself.
    pub node: Node<T>,
}

/// A vertex of a span tree: a role, the length of its span, its children in
/// left-to-right order and a payload that traversal does not look at.
#[derive(Debug)]
pub struct Node<T> {
    /// The node's role.
    pub kind: Kind,
    /// The length of the node's span.
    pub size: usize,
    /// The children, ordered by the start of their spans.
    pub children: Vec<Child<T>>,
    /// Data of the tree's user; traversal does not read it.
    pub payload: T,
}

/// The node reached from `n` by following the child indices of `p` in order, if
/// every index is in range.
pub open spec fn node_at<T>(n: Node<T>, p: Seq<usize>) -> Option<Node<T>>
    decreases p.len(),
{
    if p.len() == 0 {
        Some(n)
    } else {
        match node_at(n, p.drop_last()) {
            Some(m) => if p.last() < m.children@.len() {
                Some(m.children@[p.last() as int].node)
            } else {
                None
            },
            None => None,
        }
    }
}

impl<T> Node<T> {
    /// A node without children.
    pub fn new(kind: Kind, size: usize, payload: T) -> (r: Node<T>)
        ensures
            r.kind == kind,
            r.size == size,
            r.children@.len() == 0,
            r.payload == payload,
    {
        Node { kind, size, children: Vec::new(), payload }
    }

    /// Appends `child` as the last child, its span starting at `offset`.
    pub fn add_child(&mut self, offset: usize, child: Node<T>)
        ensures
            final(self).kind == old(self).kind,
            final(self).size == old(self).size,
            final(self).payload == old(self).payload,
            final(self).children@ == old(self).children@.push(Child { offset, node: child }),
    {
        self.children.push(Child { offset, node: child });
    }

    /// The child at index `i`, if there is one.
    pub fn get_child(&self, i: usize) -> (r: Option<&Node<T>>)
        ensures
            match r {
                Some(c) => i < self.children@.len() && *c == self.children@[i as int].node,
                None => i >= self.children@.len(),
            },
    {
        if i < self.children.len() {
            Some(&self.children[i].node)
        } else {
            None
        }
    }

    /// The node reached by following `crumbs` from this one; `None` where an index
    /// is out of range.
    pub fn get_descendant(&self, crumbs: &[usize]) -> (r: Option<&Node<T>>)
        ensures
            match r {
                Some(c) => node_at(*self, crumbs@) == Some(*c),
                None => node_at(*self, crumbs@) is None,
            },
    {
        let mut current: &Node<T> = self;
        let mut i: usize = 0;
        while i < crumbs.len()
            invariant
                i <= crumbs@.len(),
                node_at(*self, crumbs@.take(i as int)) == Some(*current),
            decreases crumbs@.len() - i,
        {
            assert(crumbs@.take(i + 1).drop_last() == crumbs@.take(i as int));
            match current.get_child(crumbs[i]) {
                Some(c) => {
                    current = c;
                },
                None => {
                    proof {
                        lemma_node_at_extend_none(*self, crumbs@, i + 1);
                    }
                    return None;
                },
            }
            i = i + 1;
        }
        assert(crumbs@.take(i as int) == crumbs@);
        Some(current)
    }
}

/// A path that leaves the tree stays outside it however it is extended.
pub proof fn lemma_node_at_extend_none<T>(n: Node<T>, p: Seq<usize>, k: int)
    requires
        0 <= k <= p.len(),
        node_at(n, p.take(k)) is None,
    ensures
        node_at(n, p) is None,
    decreases p.len() - k,
{
    if k < p.len() {
        assert(p.take(k + 1).drop_last() == p.take(k));
        lemma_node_at_extend_none(n, p, k + 1);
    } else {
        assert(p.take(k) == p);
    }
}

/// Every prefix of a path that stays inside the tree stays inside it too, and each
/// step goes to the child that the next index names.
pub proof fn lemma_node_at_prefix<T>(n: Node<T>, q: Seq<usize>, i: int)
    requires
        node_at(n, q) is Some,
        0 <= i < q.len(),
    ensures
        node_at(n, q.take(i)) is Some,
        q[i] < node_at(n, q.take(i))->0.children@.len(),
        node_at(n, q.take(i + 1)) == Some(
            node_at(n, q.take(i))->0.children@[q[i] as int].node,
        ),
{
    if node_at(n, q.take(i)) is None {
        lemma_node_at_extend_none(n, q, i);
    }
    assert(q.take(i + 1).drop_last() == q.take(i));
    if node_at(n, q.take(i + 1)) is None {
        lemma_node_at_extend_none(n, q, i + 1);
    }
}

/// The paths that lead from `n` to a node of its subtree, one for each node.
pub open spec fn paths<T>(n: Node<T>) -> Set<Seq<usize>> {
    Set::new(|p: Seq<usize>| node_at(n, p) is Some)
}

/// The paths of `n`'s subtree that stay at `n` or go through one of its first `k`
/// children.
spec fn paths_through_first<T>(n: Node<T>, k: int) -> Set<Seq<usize>> {
    Set::new(|p: Seq<usize>| node_at(n, p) is Some && (p.len() == 0 || p[0] < k))
}

/// A path that starts with index `i` goes to the `i`-th child first.
pub proof fn lemma_node_at_front<T>(n: Node<T>, i: usize, r: Seq<usize>)
    requires
        i < n.children@.len(),
    ensures
        node_at(n, seq![i] + r) == node_at(n.children@[i as int].node, r),
    decreases r.len(),
{
    let p = seq![i] + r;
    assert(p.last() == if r.len() == 0 {
        i
    } else {
        r.last()
    });
    if r.len() == 0 {
        assert(p.drop_last() =~= Seq::<usize>::empty());
        assert(node_at(n, p.drop_last()) == Some(n));
        assert(node_at(n.children@[i as int].node, r) == Some(n.children@[i as int].node));
    } else {
        assert(p.drop_last() =~= seq![i] + r.drop_last());
        lemma_node_at_front(n, i, r.drop_last());
    }
}

/// A subtree has finitely many nodes.
pub proof fn lemma_paths_finite<T>(n: Node<T>)
    ensures
        paths(n).finite(),
    decreases n, n.children@.len() + 1,
{
    lemma_paths_through_first_finite(n, n.children@.len() as int);
    assert(paths(n) =~= paths_through_first(n, n.children@.len() as int)) by {
        assert forall|p: Seq<usize>| #[trigger] paths(n).contains(p) && p.len() > 0 implies p[0]
            < n.children@.len() by {
            lemma_node_at_prefix(n, p, 0);
            assert(p.take(0) =~= Seq::<usize>::empty());
        }
    }
}

proof fn lemma_paths_through_first_finite<T>(n: Node<T>, k: int)
    requires
        0 <= k <= n.children@.len(),
    ensures
        paths_through_first(n, k).finite(),
    decreases n, k,
{
    if k == 0 {
        assert(paths_through_first(n, 0) =~= set![Seq::<usize>::empty()]) by {
            assert(node_at(n, Seq::<usize>::empty()) is Some);
            assert forall|p: Seq<usize>| #[trigger] paths_through_first(n, 0).contains(p) implies p
                == Seq::<usize>::empty() by {
                assert(p =~= Seq::<usize>::empty());
            }
        }
    } else if k - 1 > usize::MAX {
        lemma_paths_through_first_finite(n, k - 1);
        assert(paths_through_first(n, k) =~= paths_through_first(n, k - 1));
    } else {
        let i = (k - 1) as usize;
        let child = n.children@[k - 1].node;
        assert(decreases_to!(n => child)) by {
            assert(decreases_to!(n.children => n.children@));
            assert(decreases_to!(n.children@ => n.children@[k - 1]));
        }
        lemma_paths_through_first_finite(n, k - 1);
        lemma_paths_finite(child);
        let f = |r: Seq<usize>| seq![i] + r;
        paths(child).lemma_map_finite(f);
        let below = paths_through_first(n, k - 1).union(paths(child).map(f));
        assert(paths_through_first(n, k) =~= below) by {
            assert forall|p: Seq<usize>| #[trigger] paths_through_first(n, k).contains(p) implies below.contains(p) by {
                if p.len() > 0 && p[0] == i {
                    let r = p.drop_first();
                    assert(p =~= seq![i] + r);
                    lemma_node_at_front(n, i, r);
                    assert(paths(child).contains(r));
                    assert(f(r) == p);
                }
            }
            assert forall|p: Seq<usize>| #[trigger] below.contains(p) implies paths_through_first(n, k).contains(p) by {
                if paths(child).map(f).contains(p) {
                    let r = choose|r: Seq<usize>| paths(child).contains(r) && f(r) == p;
                    lemma_node_at_front(n, i, r);
                    assert(p[0] == i);
                }
            }
        }
    }
}

} // verus!
