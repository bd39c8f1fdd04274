use javelin::core_structs::Move;
use javelin::search_tree::{GameResult, Node, PhantomNode, SearchTree};

fn node_with_children(parent: i32, child: usize, moves: &[u16]) -> Node {
    let mut node = Node::new(GameResult::Undecided, parent, child);
    for &value in moves {
        node.add_child(PhantomNode::new(-1, Move::from_raw(value), 0));
    }
    node
}

#[test]
fn new_tree_has_only_free_nodes() {
    let tree = SearchTree::new(4);
    assert_eq!(tree.capacity(), 4);
    assert_eq!(tree.node_count(), 0);
    assert_eq!(tree.root_index(), -1);
    assert_eq!(tree.child(-1, 0).index(), 0);
}

#[test]
fn push_takes_free_nodes_in_order() {
    let mut tree = SearchTree::new(3);
    assert_eq!(tree.push(Node::new(GameResult::Undecided, -1, 0)), 0);
    assert_eq!(tree.push(Node::new(GameResult::Draw, 0, 0)), 1);
    assert_eq!(tree.push(Node::new(GameResult::Win(3), 0, 1)), 2);
    assert_eq!(tree.node_count(), 3);
    assert_eq!(tree.node(1).result(), GameResult::Draw);
    assert_eq!(tree.node(2).result(), GameResult::Win(3));
    assert_eq!(tree.node(2).parent(), 0);
    assert_eq!(tree.node(2).child(), 1);
}

#[test]
fn full_tree_replaces_least_recently_used_node() {
    let mut tree = SearchTree::new(2);
    let root = tree.push(node_with_children(-1, 0, &[0x0208, 0x0310]));
    tree.child_mut(-1, 0).set_index(root);
    let first = tree.push(node_with_children(root, 1, &[]));
    tree.child_mut(root, 1).set_index(first);
    assert_eq!((root, first), (0, 1));
    assert_eq!(tree.child(root, 1).index(), 1);

    // The root is touched, so the other node is now the least recently used one.
    tree.make_recently_used(root);
    let replaced = tree.push(Node::new(GameResult::Lose(2), root, 0));
    assert_eq!(replaced, first);
    assert_eq!(tree.child(root, 1).index(), -1);
    assert_eq!(tree.child(root, 1).mv(), Move::from_raw(0x0310));
    assert_eq!(tree.node(replaced).result(), GameResult::Lose(2));
    assert_eq!(tree.node(replaced).parent(), root);
    assert_eq!(tree.node_count(), 2);
}

#[test]
fn full_tree_can_replace_the_root() {
    let mut tree = SearchTree::new(2);
    let root = tree.push(node_with_children(-1, 0, &[0x0208]));
    tree.child_mut(-1, 0).set_index(root);
    let other = tree.push(node_with_children(root, 0, &[]));
    assert_eq!(other, 1);
    // Nothing was touched: the root is the least recently used node.
    let replaced = tree.push(Node::new(GameResult::Undecided, other, 0));
    assert_eq!(replaced, root);
    assert_eq!(tree.child(-1, 0).index(), -1);
    assert!(tree.node(replaced).children().is_empty());
}

#[test]
fn deleted_node_is_taken_next() {
    let mut tree = SearchTree::new(3);
    tree.push(Node::new(GameResult::Undecided, -1, 0));
    let middle = tree.push(node_with_children(0, 0, &[0x0208]));
    tree.push(Node::new(GameResult::Undecided, 0, 1));
    tree.delete_node(middle);
    assert_eq!(tree.node_count(), 2);
    assert!(tree.node(middle).children().is_empty());
    assert_eq!(tree.node(middle).result(), GameResult::Undecided);
    assert_eq!(tree.node(middle).forward_link(), -1);
    assert_eq!(tree.push(Node::new(GameResult::Draw, 0, 0)), middle);
    assert_eq!(tree.node_count(), 3);
}

#[test]
fn node_flags_and_links() {
    let mut node = node_with_children(-1, 0, &[0x0208]);
    assert!(!node.is_terminal());
    assert!(node.is_extended());
    node.set_result(GameResult::Lose(1));
    assert!(node.is_terminal());
    node.set_forward_link(7);
    node.set_backward_link(3);
    assert_eq!((node.forward_link(), node.backward_link()), (7, 3));
    node.clear();
    assert!(node.children().is_empty());
    assert_eq!(node.result(), GameResult::Undecided);
    assert_eq!((node.forward_link(), node.backward_link()), (-1, -1));
    node.clear_parent();
    assert_eq!((node.parent(), node.child()), (-1, 0));
    let fresh = Node::new(GameResult::Undecided, 4, 2);
    assert!(!fresh.is_extended());
}

#[test]
fn phantom_keeps_its_move() {
    let mut phantom = PhantomNode::new(-1, Move::from_raw(0x1234), 17);
    phantom.set_index(9);
    assert_eq!(phantom.index(), 9);
    assert_eq!(phantom.mv(), Move::from_raw(0x1234));
    assert_eq!(phantom.policy_raw(), 17);
    assert_eq!(phantom.visits(), 0);
}
