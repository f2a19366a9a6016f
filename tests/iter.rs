use span_tree::iter::{LeafIterator, TreeFragment};
use span_tree::node::{Kind, Node};

fn leaf(offset: usize, size: usize, kind: Kind) -> (usize, Node<()>) {
    (offset, Node::new(kind, size, ()))
}

fn branch(offset: usize, size: usize, kind: Kind, children: Vec<(usize, Node<()>)>) -> (usize, Node<()>) {
    let mut node = Node::new(kind, size, ());
    for (child_offset, child) in children {
        node.add_child(child_offset, child);
    }
    (offset, node)
}

// root:                (-)
//                    / |  \
// children:        (C) ()  (C)
//                 /|\      / | \
// g-children:   ()()()  () () (C)
//                   /|       / | \
// gg-children:     ()()     ()() ()
fn reference_tree() -> Node<()> {
    let (_, root) = branch(0, 14, Kind::Root, vec![
        branch(0, 10, Kind::Chained, vec![
            leaf(0, 3, Kind::this()),
            leaf(4, 1, Kind::operation()),
            branch(6, 3, Kind::argument(), vec![
                leaf(0, 1, Kind::operation()),
                leaf(2, 1, Kind::this()),
            ]),
        ]),
        leaf(11, 1, Kind::operation()),
        branch(13, 1, Kind::Chained, vec![
            leaf(0, 3, Kind::this()),
            leaf(4, 1, Kind::operation()),
            branch(6, 5, Kind::Chained, vec![
                leaf(0, 1, Kind::this()),
                leaf(2, 1, Kind::operation()),
                leaf(4, 1, Kind::argument()),
            ]),
        ]),
    ]);
    root
}

fn crumbs_of(mut it: LeafIterator<'_, ()>) -> Vec<Vec<usize>> {
    let mut out = Vec::new();
    while let Some(item) = it.next() {
        out.push(item.crumbs);
    }
    out
}

#[test]
fn leaf_iterating() {
    let tree = reference_tree();

    let expected_crumbs: Vec<Vec<usize>> = vec![
        vec![0, 0],
        vec![0, 1],
        vec![0, 2, 0],
        vec![0, 2, 1],
        vec![1],
        vec![2, 0],
        vec![2, 1],
        vec![2, 2, 0],
        vec![2, 2, 1],
        vec![2, 2, 2],
    ];
    assert_eq!(expected_crumbs, crumbs_of(tree.leaf_iter()));

    let expected_crumbs: Vec<Vec<usize>> = vec![
        vec![0, 0],
        vec![0, 1],
        vec![0, 2],
        vec![1],
        vec![2, 0],
        vec![2, 1],
        vec![2, 2, 0],
        vec![2, 2, 1],
        vec![2, 2, 2],
    ];
    assert_eq!(expected_crumbs, crumbs_of(tree.chain_children_iter()));
}

#[test]
fn items_are_the_nodes_at_their_crumbs() {
    let tree = reference_tree();
    let mut it = LeafIterator::new(&tree, TreeFragment::ChainAndDirectChildren);
    let mut count = 0;
    while let Some(item) = it.next() {
        let found = tree.get_descendant(&item.crumbs).expect("crumbs resolve");
        assert!(std::ptr::eq(found, item.node));
        count += 1;
    }
    assert_eq!(count, 9);
    let argument = tree.get_descendant(&[0, 2]).unwrap();
    assert_eq!(argument.kind, Kind::Argument);
    assert_eq!(argument.size, 3);
    assert_eq!(argument.children.len(), 2);
}

#[test]
fn childless_base_is_its_own_leaf() {
    let node: Node<()> = Node::new(Kind::Root, 5, ());
    assert_eq!(crumbs_of(LeafIterator::new(&node, TreeFragment::AllNodes)), vec![Vec::<usize>::new()]);
    assert_eq!(
        crumbs_of(LeafIterator::new(&node, TreeFragment::ChainAndDirectChildren)),
        vec![Vec::<usize>::new()]
    );
}

#[test]
fn exhaustion_is_sticky() {
    let node: Node<()> = Node::new(Kind::This, 1, ());
    let mut it = node.leaf_iter();
    assert!(it.next().is_some());
    assert!(it.next().is_none());
    assert!(it.next().is_none());
}

#[test]
fn fresh_iterators_repeat_the_sequence() {
    let tree = reference_tree();
    for fragment in [TreeFragment::AllNodes, TreeFragment::ChainAndDirectChildren] {
        let first = crumbs_of(LeafIterator::new(&tree, fragment));
        let second = crumbs_of(LeafIterator::new(&tree, fragment));
        assert_eq!(first, second);
    }
}

#[test]
fn crumbs_strictly_increase() {
    let tree = reference_tree();
    for fragment in [TreeFragment::AllNodes, TreeFragment::ChainAndDirectChildren] {
        let crumbs = crumbs_of(LeafIterator::new(&tree, fragment));
        for pair in crumbs.windows(2) {
            assert!(pair[0] < pair[1]);
        }
    }
}

#[test]
fn base_inside_a_tree_gives_relative_crumbs() {
    let tree = reference_tree();
    let chain = tree.get_descendant(&[2]).unwrap();
    assert_eq!(crumbs_of(chain.leaf_iter()), vec![vec![0], vec![1], vec![2, 0], vec![2, 1], vec![2, 2]]);
    let argument = tree.get_descendant(&[0, 2]).unwrap();
    // The base is expanded even where its own role is not chained.
    assert_eq!(crumbs_of(argument.chain_children_iter()), vec![vec![0], vec![1]]);
}

#[test]
fn non_chained_subtree_is_one_leaf() {
    let (_, root) = branch(0, 9, Kind::Root, vec![
        branch(0, 9, Kind::Argument, vec![
            branch(0, 4, Kind::Chained, vec![leaf(0, 1, Kind::this()), leaf(2, 1, Kind::operation())]),
            leaf(6, 1, Kind::this()),
        ]),
    ]);
    assert_eq!(crumbs_of(root.chain_children_iter()), vec![vec![0]]);
    assert_eq!(crumbs_of(root.leaf_iter()), vec![vec![0, 0, 0], vec![0, 0, 1], vec![0, 1]]);
}

#[test]
fn get_child_and_get_descendant_out_of_range() {
    let tree = reference_tree();
    assert!(tree.get_child(3).is_none());
    assert_eq!(tree.get_child(1).unwrap().kind, Kind::Operation);
    assert!(tree.get_descendant(&[1, 0]).is_none());
    assert!(tree.get_descendant(&[7]).is_none());
    assert!(std::ptr::eq(tree.get_descendant(&[]).unwrap(), &tree));
    assert_eq!(tree.children[2].offset, 13);
    assert_eq!(tree.get_descendant(&[2, 2, 2]).unwrap().kind, Kind::Argument);
}

#[test]
fn kind_constructors_and_chain_test() {
    assert_eq!(Kind::this(), Kind::This);
    assert_eq!(Kind::operation(), Kind::Operation);
    assert_eq!(Kind::argument(), Kind::Argument);
    assert!(Kind::Chained.is_chained());
    assert!(!Kind::Root.is_chained());
}
