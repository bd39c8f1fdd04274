use vstd::prelude::*;

use crate::attacks::Attacks;
use crate::board::Board;
use crate::core_structs::Move;
use crate::move_list::{move_list_len, new_move_list};
use crate::movegen::{generated_moves, generation_ready, MoveProvider};

verus! {

/// How a game ends from a node: not yet, lost or won in a number of moves, or drawn.
#[derive(Clone, Copy, PartialEq, Eq, Structural, Debug)]
pub enum GameResult {
    Undecided,
    Lose(u8),
    Draw,
    Win(u8),
}

/// A move out of a node, with the index of the node it leads to (-1 while that node is
/// not in the tree), its policy and how often the search went through it.
#[derive(Clone, Copy)]
pub struct PhantomNode {
    node_index: i32,
    mv: Move,
    policy: i16,
    visits: u32,
}

impl PhantomNode {
    pub closed spec fn index_of(&self) -> i32 {
        self.node_index
    }

    pub closed spec fn move_of(&self) -> Move {
        self.mv
    }

    pub fn new(node_index: i32, mv: Move, policy: i16) -> (r: Self)
        ensures
            r.index_of() == node_index,
            r.move_of() == mv,
            r.policy_of() == policy,
            r.visits_of() == 0,
    {
        Self { node_index, mv, policy, visits: 0 }
    }

    pub fn index(&self) -> (r: i32)
        ensures
            r == self.index_of(),
    {
        self.node_index
    }

    /// The same phantom leading to node `index`.
    pub closed spec fn with_index(self, index: i32) -> PhantomNode {
        PhantomNode { node_index: index, ..self }
    }

    /// The phantom `with_index` gives leads to `index` and keeps the move, the policy and
    /// the visits.
    pub proof fn lemma_with_index(self, index: i32)
        ensures
            self.with_index(index).index_of() == index,
            self.with_index(index).move_of() == self.move_of(),
            self.with_index(index).policy_of() == self.policy_of(),
            self.with_index(index).visits_of() == self.visits_of(),
    {
    }

    pub fn set_index(&mut self, index: i32)
        ensures
            *final(self) == old(self).with_index(index),
            final(self).index_of() == index,
            final(self).move_of() == old(self).move_of(),
    {
        self.node_index = index
    }

    pub fn mv(&self) -> (r: Move)
        ensures
            r == self.move_of(),
    {
        self.mv
    }

    pub closed spec fn visits_of(&self) -> u32 {
        self.visits
    }

    pub closed spec fn policy_of(&self) -> i16 {
        self.policy
    }

    /// How often the search went through this move; none for a new phantom.
    pub fn visits(&self) -> (r: u32)
        ensures
            r == self.visits_of(),
    {
        self.visits
    }

    /// The policy of the move as stored: a fraction of `i16::MAX`.
    pub fn policy_raw(&self) -> (r: i16)
        ensures
            r == self.policy_of(),
    {
        self.policy
    }
}

/// A node of the search tree: the moves out of it, its result, where it hangs (the
/// parent's index and the number of the move that leads to it) and its links in the
/// lists of the tree.
pub struct Node {
    children: Vec<PhantomNode>,
    result: GameResult,
    parent: i32,
    child: u16,
    forward_link: i32,
    backward_link: i32,
}

impl Node {
    pub closed spec fn children_of(&self) -> Seq<PhantomNode> {
        self.children@
    }

    pub closed spec fn result_of(&self) -> GameResult {
        self.result
    }

    pub closed spec fn parent_of(&self) -> i32 {
        self.parent
    }

    pub closed spec fn child_of(&self) -> u16 {
        self.child
    }

    pub fn new(result: GameResult, parent: i32, child: usize) -> (r: Self)
        ensures
            r.children_of() == Seq::<PhantomNode>::empty(),
            r.result_of() == result,
            r.parent_of() == parent,
            r.child_of() == child as u16,
    {
        Self { children: Vec::new(), result, parent, child: child as u16, forward_link: -1, backward_link: -1 }
    }

    pub fn is_terminal(&self) -> (r: bool)
        ensures
            r == (self.result_of() != GameResult::Undecided),
    {
        !(self.result == GameResult::Undecided)
    }

    pub fn is_extended(&self) -> (r: bool)
        ensures
            r == (self.result_of() != GameResult::Undecided || self.children_of().len() > 0),
    {
        self.is_terminal() || self.children.len() > 0
    }

    pub fn children(&self) -> (r: &[PhantomNode])
        ensures
            r@ == self.children_of(),
    {
        self.children.as_slice()
    }

    /// Adds a move out of the node.
    pub fn add_child(&mut self, phantom: PhantomNode)
        ensures
            final(self).children_of() == old(self).children_of().push(phantom),
            final(self).result_of() == old(self).result_of(),
            final(self).parent_of() == old(self).parent_of(),
            final(self).child_of() == old(self).child_of(),
    {
        self.children.push(phantom);
    }

    pub fn result(&self) -> (r: GameResult)
        ensures
            r == self.result_of(),
    {
        self.result
    }

    pub fn set_result(&mut self, result: GameResult)
        ensures
            final(self).result_of() == result,
            final(self).children_of() == old(self).children_of(),
            final(self).parent_of() == old(self).parent_of(),
            final(self).child_of() == old(self).child_of(),
    {
        self.result = result
    }

    pub fn parent(&self) -> (r: i32)
        ensures
            r == self.parent_of(),
    {
        self.parent
    }

    pub fn child(&self) -> (r: usize)
        ensures
            r == self.child_of(),
    {
        self.child as usize
    }

    pub closed spec fn forward_link_of(&self) -> i32 {
        self.forward_link
    }

    pub closed spec fn backward_link_of(&self) -> i32 {
        self.backward_link
    }

    pub fn forward_link(&self) -> (r: i32)
        ensures
            r == self.forward_link_of(),
    {
        self.forward_link
    }

    pub fn set_forward_link(&mut self, new_value: i32)
        ensures
            final(self).forward_link_of() == new_value,
            final(self).backward_link_of() == old(self).backward_link_of(),
            same_payload(*final(self), *old(self)),
    {
        self.forward_link = new_value
    }

    pub fn backward_link(&self) -> (r: i32)
        ensures
            r == self.backward_link_of(),
    {
        self.backward_link
    }

    pub fn set_backward_link(&mut self, new_value: i32)
        ensures
            final(self).backward_link_of() == new_value,
            final(self).forward_link_of() == old(self).forward_link_of(),
            same_payload(*final(self), *old(self)),
    {
        self.backward_link = new_value
    }

    /// Drops the node's moves, result and links; where it hangs stays.
    pub fn clear(&mut self)
        ensures
            final(self).children_of() == Seq::<PhantomNode>::empty(),
            final(self).result_of() == GameResult::Undecided,
            final(self).forward_link_of() == -1,
            final(self).backward_link_of() == -1,
            final(self).parent_of() == old(self).parent_of(),
            final(self).child_of() == old(self).child_of(),
    {
        self.children.clear();
        self.result = GameResult::Undecided;
        self.forward_link = -1;
        self.backward_link = -1;
    }

    pub fn clear_parent(&mut self)
        ensures
            final(self).parent_of() == -1,
            final(self).child_of() == 0,
            final(self).children_of() == old(self).children_of(),
            final(self).result_of() == old(self).result_of(),
    {
        self.parent = -1;
        self.child = 0;
    }
}

/// A node as a new tree holds it: no moves, no result, hanging nowhere.
pub open spec fn fresh_node(n: Node) -> bool {
    &&& n.children_of() == Seq::<PhantomNode>::empty()
    &&& n.result_of() == GameResult::Undecided
    &&& n.parent_of() == -1
    &&& n.child_of() == 0
}

/// The entry at position `k` of a list of node indices, -1 past either end.
pub open spec fn link_at(s: Seq<int>, k: int) -> int {
    if 0 <= k < s.len() {
        s[k]
    } else {
        -1
    }
}

/// Whether every entry of `s` is an index below `n`.
pub open spec fn in_range(s: Seq<int>, n: int) -> bool {
    forall|k: int| 0 <= k < s.len() ==> 0 <= #[trigger] s[k] < n
}

/// The same node but for its links: the same moves, result and place in the tree.
pub open spec fn same_payload(a: Node, b: Node) -> bool {
    &&& a.children_of() == b.children_of()
    &&& a.result_of() == b.result_of()
    &&& a.parent_of() == b.parent_of()
    &&& a.child_of() == b.child_of()
}

/// Whether the nodes `lru` are linked in that order, forward from `head` and backward
/// from the last one.
spec fn lru_links_ok(tree: Seq<Node>, head: i32, lru: Seq<int>) -> bool {
    &&& head == link_at(lru, 0)
    &&& forall|k: int|
        0 <= k < lru.len() ==> #[trigger] tree[lru[k]].forward_link == link_at(lru, k + 1) && tree[lru[k]].backward_link
            == link_at(lru, k - 1)
}

/// Whether the nodes `free` are linked in that order, forward from `empty`.
spec fn free_links_ok(tree: Seq<Node>, empty: i32, free: Seq<int>) -> bool {
    &&& empty == link_at(free, 0)
    &&& forall|k: int| 0 <= k < free.len() ==> #[trigger] tree[free[k]].forward_link == link_at(free, k + 1)
}

/// The kept end of the list of used nodes: its last node, or -1.
spec fn tail_ok(tail: i32, lru: Seq<int>) -> bool {
    tail == -1 || (lru.len() > 0 && tail == lru.last())
}

/// A tree of search nodes in a fixed array. The nodes in use form a doubly linked list,
/// most recently used first; the free nodes form a singly linked list.
pub struct SearchTree {
    tree: Vec<Node>,
    root_phantom: PhantomNode,
    root_index: i32,
    empty_node_index: i32,
    used_nodes_count: usize,
    lru_head: i32,
    lru_tail: i32,
    lru: Ghost<Seq<int>>,
    free: Ghost<Seq<int>>,
}

impl SearchTree {
    /// The nodes in use, most recently used first.
    pub closed spec fn lru_order(&self) -> Seq<int> {
        self.lru@
    }

    /// The free nodes, in the order they will be taken.
    pub closed spec fn free_order(&self) -> Seq<int> {
        self.free@
    }

    pub closed spec fn capacity_of(&self) -> int {
        self.tree@.len() as int
    }

    pub closed spec fn node_at(&self, i: int) -> Node {
        self.tree@[i]
    }

    pub closed spec fn root_phantom_of(&self) -> PhantomNode {
        self.root_phantom
    }

    pub closed spec fn root_index_of(&self) -> i32 {
        self.root_index
    }

    /// Whether the tree knows its least recently used node (or has no node in use).
    pub closed spec fn tail_known(&self) -> bool {
        self.lru@.len() == 0 || self.lru_tail != -1
    }

    /// Whether the two lists cover every node exactly once and are linked as they say.
    pub closed spec fn wf(&self) -> bool {
        let n = self.tree@.len() as int;
        let lru = self.lru@;
        let free = self.free@;
        &&& n <= i32::MAX
        &&& lru.no_duplicates()
        &&& free.no_duplicates()
        &&& in_range(lru, n)
        &&& in_range(free, n)
        &&& lru.len() + free.len() == n
        &&& forall|i: int| 0 <= i < n ==> (#[trigger] lru.contains(i) || free.contains(i))
        &&& forall|i: int| !(#[trigger] lru.contains(i) && free.contains(i))
        &&& lru_links_ok(self.tree@, self.lru_head, lru)
        &&& tail_ok(self.lru_tail, lru)
        &&& free_links_ok(self.tree@, self.empty_node_index, free)
        &&& self.used_nodes_count == lru.len()
    }

    /// A tree of `tree_capacity` free nodes.
    pub fn new(tree_capacity: usize) -> (r: Self)
        requires
            tree_capacity <= i32::MAX,
        ensures
            r.wf(),
            r.capacity_of() == tree_capacity,
            r.lru_order() == Seq::<int>::empty(),
            r.free_order() == Seq::new(tree_capacity as nat, |i: int| i),
            r.root_index_of() == -1,
            r.root_phantom_of().index_of() == 0,
            r.root_phantom_of().move_of() == (Move { value: 0 }),
            forall|i: int| 0 <= i < tree_capacity ==> #[trigger] fresh_node(r.node_at(i)),
    {
        let mut tree: Vec<Node> = Vec::new();
        let mut index: usize = 0;
        while index < tree_capacity
            invariant
                index <= tree_capacity <= i32::MAX,
                tree@.len() == index,
                forall|k: int|
                    0 <= k < index ==> (#[trigger] tree@[k]).forward_link == (if k + 1 < tree_capacity {
                        k + 1
                    } else {
                        -1
                    }),
                forall|k: int| 0 <= k < index ==> #[trigger] fresh_node(tree@[k]),
            decreases tree_capacity - index,
        {
            let forward_link: i32 = if index + 1 < tree_capacity { (index + 1) as i32 } else { -1 };
            tree.push(Node {
                children: Vec::new(),
                result: GameResult::Undecided,
                parent: -1,
                child: 0,
                forward_link,
                backward_link: -1,
            });
            index = index + 1;
        }
        let ghost free = Seq::new(tree_capacity as nat, |i: int| i);
        let r = Self {
            tree,
            root_phantom: PhantomNode::new(0, Move::null(), 0),
            root_index: -1,
            empty_node_index: if tree_capacity > 0 { 0 } else { -1 },
            used_nodes_count: 0,
            lru_head: -1,
            lru_tail: -1,
            lru: Ghost(Seq::empty()),
            free: Ghost(free),
        };
        proof {
            assert forall|k: int| 0 <= k < free.len() implies #[trigger] r.tree@[free[k]].forward_link == link_at(free, k + 1) by {}
            assert forall|i: int| 0 <= i < tree_capacity implies (#[trigger] r.lru@.contains(i) || r.free@.contains(i)) by {
                assert(free[i] == i);
            }
        }
        r
    }

    pub fn node_count(&self) -> (r: usize)
        requires
            self.wf(),
        ensures
            r == self.lru_order().len(),
            r <= self.capacity_of(),
    {
        self.used_nodes_count
    }

    pub fn capacity(&self) -> (r: usize)
        ensures
            r == self.capacity_of(),
    {
        self.tree.len()
    }

    pub fn root_index(&self) -> (r: i32)
        ensures
            r == self.root_index_of(),
    {
        self.root_index
    }

    pub fn set_root_index(&mut self, new_value: i32)
        requires
            old(self).wf(),
        ensures
            final(self).wf(),
            final(self).root_index_of() == new_value,
            final(self).lru_order() == old(self).lru_order(),
            final(self).free_order() == old(self).free_order(),
            final(self).capacity_of() == old(self).capacity_of(),
            forall|i: int| 0 <= i < old(self).capacity_of() ==> #[trigger] final(self).node_at(i) == old(self).node_at(i),
    {
        self.root_index = new_value
    }

    /// The node at `index`.
    pub fn node(&self, index: i32) -> (r: &Node)
        requires
            0 <= index < self.capacity_of(),
        ensures
            *r == self.node_at(index as int),
    {
        &self.tree[index as usize]
    }
}

/// Removing entry `p` of a list of distinct entries leaves distinct entries, and an
/// entry that is not the removed one is still in the list.
proof fn lemma_remove_keeps(s: Seq<int>, p: int)
    requires
        0 <= p < s.len(),
        s.no_duplicates(),
    ensures
        s.remove(p).no_duplicates(),
        forall|i: int| #[trigger] s.remove(p).contains(i) == (s.contains(i) && i != s[p]),
        s.remove(p).len() == s.len() - 1,
{
    let r = s.remove(p);
    assert forall|a: int, b: int| 0 <= a < b < r.len() implies r[a] != r[b] by {
        let a0 = if a < p { a } else { a + 1 };
        let b0 = if b < p { b } else { b + 1 };
        assert(r[a] == s[a0] && r[b] == s[b0]);
    }
    assert forall|i: int| #[trigger] r.contains(i) == (s.contains(i) && i != s[p]) by {
        if r.contains(i) {
            let k = choose|k: int| 0 <= k < r.len() && r[k] == i;
            let k0 = if k < p { k } else { k + 1 };
            assert(s[k0] == i);
        }
        if s.contains(i) && i != s[p] {
            let k0 = choose|k: int| 0 <= k < s.len() && s[k] == i;
            let k = if k0 < p { k0 } else { k0 - 1 };
            assert(r[k] == i);
        }
    }
}

/// Putting a new entry in front of a list of distinct entries.
proof fn lemma_push_front(s: Seq<int>, x: int)
    requires
        s.no_duplicates(),
        !s.contains(x),
    ensures
        (seq![x] + s).no_duplicates(),
        forall|i: int| #[trigger] (seq![x] + s).contains(i) == (s.contains(i) || i == x),
        (seq![x] + s).len() == s.len() + 1,
        (seq![x] + s)[0] == x,
{
    let r = seq![x] + s;
    assert forall|a: int, b: int| 0 <= a < b < r.len() implies r[a] != r[b] by {
        if a == 0 {
            assert(r[b] == s[b - 1]);
        } else {
            assert(r[a] == s[a - 1] && r[b] == s[b - 1]);
        }
    }
    assert forall|i: int| #[trigger] r.contains(i) == (s.contains(i) || i == x) by {
        if r.contains(i) {
            let k = choose|k: int| 0 <= k < r.len() && r[k] == i;
            if k > 0 {
                assert(s[k - 1] == i);
            }
        }
        if s.contains(i) {
            let k = choose|k: int| 0 <= k < s.len() && s[k] == i;
            assert(r[k + 1] == i);
        }
        if i == x {
            assert(r[0] == x);
        }
    }
}

impl SearchTree {
    /// Unlinks the node at position `p` of the list of used nodes; its links become -1.
    fn remove_from_lru(&mut self, node_index: i32, Ghost(p): Ghost<int>)
        requires
            0 <= p < old(self).lru@.len(),
            old(self).lru@[p] == node_index,
            old(self).lru@.no_duplicates(),
            in_range(old(self).lru@, old(self).tree@.len() as int),
            in_range(old(self).free@, old(self).tree@.len() as int),
            old(self).tree@.len() <= i32::MAX,
            lru_links_ok(old(self).tree@, old(self).lru_head, old(self).lru@),
            tail_ok(old(self).lru_tail, old(self).lru@),
            free_links_ok(old(self).tree@, old(self).empty_node_index, old(self).free@),
            forall|i: int| !(#[trigger] old(self).lru@.contains(i) && old(self).free@.contains(i)),
        ensures
            final(self).lru@ == old(self).lru@.remove(p),
            final(self).free@ == old(self).free@,
            final(self).tree@.len() == old(self).tree@.len(),
            forall|i: int| 0 <= i < old(self).tree@.len() ==> same_payload(#[trigger] final(self).tree@[i], old(self).tree@[i]),
            lru_links_ok(final(self).tree@, final(self).lru_head, final(self).lru@),
            tail_ok(final(self).lru_tail, final(self).lru@),
            old(self).lru_tail != -1 && final(self).lru@.len() > 0 ==> final(self).lru_tail != -1,
            free_links_ok(final(self).tree@, final(self).empty_node_index, final(self).free@),
            final(self).tree@[node_index as int].forward_link == -1,
            final(self).tree@[node_index as int].backward_link == -1,
            final(self).empty_node_index == old(self).empty_node_index,
            final(self).used_nodes_count == old(self).used_nodes_count,
            final(self).root_phantom == old(self).root_phantom,
            final(self).root_index == old(self).root_index,
    {
        let ghost lru = self.lru@;
        let ghost t0 = self.tree@;
        let ghost free = self.free@;
        let backward_link = self.tree[node_index as usize].backward_link;
        let forward_link = self.tree[node_index as usize].forward_link;
        proof {
            assert(t0[lru[p]].forward_link == link_at(lru, p + 1));
            if p > 0 {
                assert(t0[lru[p - 1]].forward_link == link_at(lru, p));
            }
            if p + 1 < lru.len() {
                assert(t0[lru[p + 1]].forward_link == link_at(lru, p + 2));
            }
        }
        if backward_link != -1 {
            self.tree[backward_link as usize].forward_link = forward_link;
        } else {
            self.lru_head = forward_link;
        }
        if forward_link != -1 {
            self.tree[forward_link as usize].backward_link = backward_link;
        } else {
            self.lru_tail = backward_link;
        }
        self.tree[node_index as usize].backward_link = -1;
        self.tree[node_index as usize].forward_link = -1;
        self.lru = Ghost(lru.remove(p));
        proof {
            let r = lru.remove(p);
            let t1 = self.tree@;
            assert forall|i: int| 0 <= i < t0.len() implies same_payload(#[trigger] t1[i], t0[i]) by {}
            assert forall|k: int| 0 <= k < r.len() implies #[trigger] t1[r[k]].forward_link == link_at(r, k + 1)
                && t1[r[k]].backward_link == link_at(r, k - 1) by {
                let k0 = if k < p { k } else { k + 1 };
                assert(r[k] == lru[k0]);
                assert(t0[lru[k0]].forward_link == link_at(lru, k0 + 1));
                if k + 1 < r.len() {
                    let k1 = if k + 1 < p { k + 1 } else { k + 2 };
                    assert(r[k + 1] == lru[k1]);
                }
                if k > 0 {
                    let km = if k - 1 < p { k - 1 } else { k };
                    assert(r[k - 1] == lru[km]);
                }
                assert(lru[k0] != lru[p]);
                if p > 0 {
                    assert(lru[p - 1] != lru[p]);
                }
            }
            assert forall|k: int| 0 <= k < free.len() implies #[trigger] t1[free[k]].forward_link == link_at(free, k + 1) by {
                assert(t0[free[k]].forward_link == link_at(free, k + 1));
                assert(!lru.contains(free[k]));
                if p > 0 {
                    assert(lru.contains(lru[p - 1]));
                }
                if p + 1 < lru.len() {
                    assert(lru.contains(lru[p + 1]));
                }
                assert(lru.contains(lru[p]));
            }
            if r.len() > 0 {
                assert(self.lru_head == link_at(r, 0));
            }
        }
    }

    /// Links a node that is in neither list in front of the list of used nodes.
    fn append_to_lru(&mut self, node_index: i32)
        requires
            0 <= node_index < old(self).tree@.len(),
            !old(self).lru@.contains(node_index as int),
            !old(self).free@.contains(node_index as int),
            old(self).lru@.no_duplicates(),
            in_range(old(self).lru@, old(self).tree@.len() as int),
            in_range(old(self).free@, old(self).tree@.len() as int),
            old(self).tree@.len() <= i32::MAX,
            lru_links_ok(old(self).tree@, old(self).lru_head, old(self).lru@),
            tail_ok(old(self).lru_tail, old(self).lru@),
            free_links_ok(old(self).tree@, old(self).empty_node_index, old(self).free@),
            forall|i: int| !(#[trigger] old(self).lru@.contains(i) && old(self).free@.contains(i)),
        ensures
            final(self).lru@ == seq![node_index as int] + old(self).lru@,
            final(self).free@ == old(self).free@,
            final(self).tree@.len() == old(self).tree@.len(),
            forall|i: int| 0 <= i < old(self).tree@.len() ==> same_payload(#[trigger] final(self).tree@[i], old(self).tree@[i]),
            lru_links_ok(final(self).tree@, final(self).lru_head, final(self).lru@),
            final(self).lru_tail == old(self).lru_tail,
            tail_ok(final(self).lru_tail, final(self).lru@),
            free_links_ok(final(self).tree@, final(self).empty_node_index, final(self).free@),
            final(self).empty_node_index == old(self).empty_node_index,
            final(self).used_nodes_count == old(self).used_nodes_count,
            final(self).root_phantom == old(self).root_phantom,
            final(self).root_index == old(self).root_index,
    {
        let ghost lru = self.lru@;
        let ghost t0 = self.tree@;
        let ghost free = self.free@;
        let old_head = self.lru_head;
        proof {
            if lru.len() > 0 {
                assert(t0[lru[0]].forward_link == link_at(lru, 1));
            }
        }
        if old_head != -1 {
            self.tree[old_head as usize].backward_link = node_index;
        }
        self.lru_head = node_index;
        self.tree[node_index as usize].forward_link = old_head;
        self.tree[node_index as usize].backward_link = -1;
        self.lru = Ghost(seq![node_index as int] + lru);
        proof {
            let r = seq![node_index as int] + lru;
            let t1 = self.tree@;
            assert forall|i: int| 0 <= i < t0.len() implies same_payload(#[trigger] t1[i], t0[i]) by {}
            assert forall|k: int| 0 <= k < r.len() implies #[trigger] t1[r[k]].forward_link == link_at(r, k + 1)
                && t1[r[k]].backward_link == link_at(r, k - 1) by {
                if k > 0 {
                    assert(r[k] == lru[k - 1]);
                    assert(t0[lru[k - 1]].forward_link == link_at(lru, k));
                    assert(lru.contains(lru[k - 1]));
                    if k > 1 {
                        assert(lru[k - 1] != lru[0]);
                    }
                }
            }
            assert forall|k: int| 0 <= k < free.len() implies #[trigger] t1[free[k]].forward_link == link_at(free, k + 1) by {
                assert(t0[free[k]].forward_link == link_at(free, k + 1));
                if lru.len() > 0 {
                    assert(lru.contains(lru[0]));
                }
            }
            if lru.len() > 0 {
                assert(r.last() == lru.last());
            }
        }
    }
}


impl SearchTree {
    /// The phantom that leads to move `child_index` of node `node_index`; for node -1,
    /// the phantom of the root.
    pub closed spec fn child_at(&self, node_index: int, child_index: int) -> PhantomNode {
        if node_index == -1 {
            self.root_phantom
        } else {
            self.tree@[node_index].children@[child_index]
        }
    }

    /// Whether `node_index` and `child_index` name a phantom: the root's, or a move of a
    /// node of the tree.
    pub open spec fn hangs_ok(&self, node_index: int, child_index: int) -> bool {
        node_index == -1 || (0 <= node_index < self.capacity_of() && 0 <= child_index
            < self.node_at(node_index).children_of().len())
    }

    /// Whether `new` is `old` with the phantom of move `child_index` of node `node_index`
    /// (the root's phantom for -1) replaced by `phantom`.
    pub closed spec fn child_replaced(
        old: SearchTree,
        new: SearchTree,
        node_index: int,
        child_index: int,
        phantom: PhantomNode,
    ) -> bool {
        &&& new.tree@.len() == old.tree@.len()
        &&& new.lru@ == old.lru@
        &&& new.free@ == old.free@
        &&& new.root_index == old.root_index
        &&& new.empty_node_index == old.empty_node_index
        &&& new.used_nodes_count == old.used_nodes_count
        &&& new.lru_head == old.lru_head
        &&& new.lru_tail == old.lru_tail
        &&& forall|i: int| 0 <= i < old.tree@.len() && i != node_index ==> #[trigger] new.tree@[i] == old.tree@[i]
        &&& if node_index == -1 {
            new.root_phantom == phantom
        } else {
            &&& new.root_phantom == old.root_phantom
            &&& new.tree@[node_index].children@ == old.tree@[node_index].children@.update(child_index, phantom)
            &&& new.tree@[node_index].result == old.tree@[node_index].result
            &&& new.tree@[node_index].parent == old.tree@[node_index].parent
            &&& new.tree@[node_index].child == old.tree@[node_index].child
            &&& new.tree@[node_index].forward_link == old.tree@[node_index].forward_link
            &&& new.tree@[node_index].backward_link == old.tree@[node_index].backward_link
        }
    }

    /// Replacing one phantom leaves the lists, the nodes' places and every other
    /// phantom as they were.
    pub proof fn lemma_child_replaced(
        old: SearchTree,
        new: SearchTree,
        node_index: int,
        child_index: int,
        phantom: PhantomNode,
    )
        requires
            Self::child_replaced(old, new, node_index, child_index, phantom),
            old.wf(),
            old.hangs_ok(node_index, child_index),
        ensures
            new.wf(),
            new.lru_order() == old.lru_order(),
            new.free_order() == old.free_order(),
            new.capacity_of() == old.capacity_of(),
            new.root_index_of() == old.root_index_of(),
            new.tail_known() == old.tail_known(),
            new.child_at(node_index, child_index) == phantom,
            forall|i: int| 0 <= i < old.capacity_of() && i != node_index ==> #[trigger] new.node_at(i) == old.node_at(i),
            0 <= node_index ==> new.node_at(node_index).result_of() == old.node_at(node_index).result_of()
                && new.node_at(node_index).parent_of() == old.node_at(node_index).parent_of()
                && new.node_at(node_index).child_of() == old.node_at(node_index).child_of(),
    {
        let t0 = old.tree@;
        let t1 = new.tree@;
        assert forall|k: int| 0 <= k < old.lru@.len() implies #[trigger] t1[old.lru@[k]].forward_link == link_at(old.lru@, k + 1)
            && t1[old.lru@[k]].backward_link == link_at(old.lru@, k - 1) by {
            assert(t0[old.lru@[k]].forward_link == link_at(old.lru@, k + 1));
        }
        assert forall|k: int| 0 <= k < old.free@.len() implies #[trigger] t1[old.free@[k]].forward_link == link_at(old.free@, k + 1) by {
            assert(t0[old.free@[k]].forward_link == link_at(old.free@, k + 1));
        }
    }

    /// The phantom that leads to move `child_index` of node `node_index`, or the root's
    /// phantom for node -1.
    pub fn child(&self, node_index: i32, child_index: usize) -> (r: &PhantomNode)
        requires
            self.hangs_ok(node_index as int, child_index as int),
        ensures
            *r == self.child_at(node_index as int, child_index as int),
    {
        if node_index == -1 {
            &self.root_phantom
        } else {
            &self.tree[node_index as usize].children[child_index]
        }
    }

    /// The phantom that leads to move `child_index` of node `node_index`, or the root's
    /// phantom for node -1, to be changed in place.
    pub fn child_mut(&mut self, node_index: i32, child_index: usize) -> (r: &mut PhantomNode)
        requires
            old(self).hangs_ok(node_index as int, child_index as int),
        ensures
            *r == old(self).child_at(node_index as int, child_index as int),
            Self::child_replaced(*old(self), *final(self), node_index as int, child_index as int, *final(r)),
    {
        if node_index == -1 {
            &mut self.root_phantom
        } else {
            &mut self.tree[node_index as usize].children[child_index]
        }
    }
}

impl SearchTree {
    /// Gives the node `node_index` back to the free nodes: it leaves the list of used
    /// nodes, loses its moves, its result and its links, and is the next node to be taken.
    pub fn delete_node(&mut self, node_index: i32)
        requires
            old(self).wf(),
            old(self).lru_order().contains(node_index as int),
        ensures
            final(self).wf(),
            final(self).lru_order() == old(self).lru_order().remove(old(self).lru_order().index_of(node_index as int)),
            final(self).free_order() == seq![node_index as int] + old(self).free_order(),
            final(self).capacity_of() == old(self).capacity_of(),
            final(self).root_index_of() == old(self).root_index_of(),
            final(self).root_phantom_of() == old(self).root_phantom_of(),
            old(self).tail_known() ==> final(self).tail_known(),
            final(self).node_at(node_index as int).children_of() == Seq::<PhantomNode>::empty(),
            final(self).node_at(node_index as int).result_of() == GameResult::Undecided,
            final(self).node_at(node_index as int).parent_of() == old(self).node_at(node_index as int).parent_of(),
            final(self).node_at(node_index as int).child_of() == old(self).node_at(node_index as int).child_of(),
            forall|i: int|
                0 <= i < old(self).capacity_of() && i != node_index ==> same_payload(
                    #[trigger] final(self).node_at(i),
                    old(self).node_at(i),
                ),
    {
        let ghost lru = self.lru@;
        let ghost free = self.free@;
        let ghost p = lru.index_of(node_index as int);
        proof {
            assert(lru.contains(lru[p]));
        }
        self.remove_from_lru(node_index, Ghost(p));
        proof {
            lemma_remove_keeps(lru, p);
        }
        let ghost t1 = self.tree@;
        self.tree[node_index as usize].clear();
        let empty_node_index = self.empty_node_index;
        self.tree[node_index as usize].forward_link = empty_node_index;
        self.empty_node_index = node_index;
        self.used_nodes_count = self.used_nodes_count - 1;
        self.free = Ghost(seq![node_index as int] + free);
        proof {
            let r = lru.remove(p);
            let nf = seq![node_index as int] + free;
            let t2 = self.tree@;
            let n = t2.len() as int;
            assert(!free.contains(node_index as int));
            lemma_push_front(free, node_index as int);
            assert forall|i: int| 0 <= i < n implies (#[trigger] r.contains(i) || nf.contains(i)) by {
                assert(lru.contains(i) || free.contains(i));
            }
            assert forall|i: int| !(#[trigger] r.contains(i) && nf.contains(i)) by {}
            assert forall|k: int| 0 <= k < r.len() implies #[trigger] t2[r[k]].forward_link == link_at(r, k + 1)
                && t2[r[k]].backward_link == link_at(r, k - 1) by {
                assert(t1[r[k]].forward_link == link_at(r, k + 1));
                assert(r.contains(r[k]));
            }
            assert forall|k: int| 0 <= k < nf.len() implies #[trigger] t2[nf[k]].forward_link == link_at(nf, k + 1) by {
                if k > 0 {
                    assert(nf[k] == free[k - 1]);
                    assert(t1[free[k - 1]].forward_link == link_at(free, k));
                    assert(free.contains(free[k - 1]));
                }
            }
            assert(in_range(nf, n)) by {
                assert forall|k: int| 0 <= k < nf.len() implies 0 <= #[trigger] nf[k] < n by {
                    if k > 0 {
                        assert(nf[k] == free[k - 1]);
                    }
                }
            }
            assert(in_range(r, n)) by {
                assert forall|k: int| 0 <= k < r.len() implies 0 <= #[trigger] r[k] < n by {
                    assert(r.contains(r[k]));
                    let k0 = choose|j: int| 0 <= j < lru.len() && lru[j] == r[k];
                    assert(lru[k0] == r[k]);
                }
            }
        }
    }

    /// Moves the node `node_index` to the front of the list of used nodes.
    pub fn make_recently_used(&mut self, node_index: i32)
        requires
            old(self).wf(),
            old(self).lru_order().contains(node_index as int),
        ensures
            final(self).wf(),
            final(self).lru_order() == seq![node_index as int] + old(self).lru_order().remove(
                old(self).lru_order().index_of(node_index as int),
            ),
            final(self).free_order() == old(self).free_order(),
            final(self).capacity_of() == old(self).capacity_of(),
            final(self).root_index_of() == old(self).root_index_of(),
            final(self).root_phantom_of() == old(self).root_phantom_of(),
            old(self).tail_known() && old(self).lru_order().len() > 1 ==> final(self).tail_known(),
            forall|i: int| 0 <= i < old(self).capacity_of() ==> same_payload(#[trigger] final(self).node_at(i), old(self).node_at(i)),
    {
        let ghost lru = self.lru@;
        let ghost free = self.free@;
        let ghost p = lru.index_of(node_index as int);
        proof {
            assert(lru.contains(lru[p]));
        }
        self.remove_from_lru(node_index, Ghost(p));
        proof {
            lemma_remove_keeps(lru, p);
            assert(!free.contains(node_index as int));
        }
        self.append_to_lru(node_index);
        proof {
            let r = seq![node_index as int] + lru.remove(p);
            let n = self.tree@.len() as int;
            lemma_push_front(lru.remove(p), node_index as int);
            assert forall|i: int| 0 <= i < n implies (#[trigger] r.contains(i) || free.contains(i)) by {
                assert(lru.contains(i) || free.contains(i));
            }
            assert forall|i: int| !(#[trigger] r.contains(i) && free.contains(i)) by {
                if r.contains(i) {
                    assert(lru.contains(i));
                }
            }
            assert(in_range(r, n)) by {
                assert forall|k: int| 0 <= k < r.len() implies 0 <= #[trigger] r[k] < n by {
                    assert(r.contains(r[k]));
                    if r[k] != node_index {
                        assert(lru.contains(r[k]));
                        let k0 = choose|j: int| 0 <= j < lru.len() && lru[j] == r[k];
                        assert(lru[k0] == r[k]);
                    }
                }
            }
        }
    }
}

impl SearchTree {
    /// The node that the next `push` gives back when no node is free: the least
    /// recently used one.
    pub open spec fn evicted(&self) -> int {
        self.lru_order().last()
    }

    /// Whether `push` can take a node: one is free, or the least recently used node is
    /// known and hangs under a phantom of the tree.
    pub open spec fn can_push(&self) -> bool {
        ||| self.free_order().len() > 0
        ||| {
            &&& self.lru_order().len() > 0
            &&& self.tail_known()
            &&& self.hangs_ok(
                self.node_at(self.evicted()).parent_of() as int,
                self.node_at(self.evicted()).child_of() as int,
            )
        }
    }

    /// Stores `node` and makes it the most recently used node, at the index it returns.
    /// That is the first free node; when no node is free, the least recently used node
    /// is given back first, and the phantom that led to it then leads nowhere (-1).
    pub fn push(&mut self, node: Node) -> (r: i32)
        requires
            old(self).wf(),
            old(self).can_push(),
        ensures
            final(self).wf(),
            final(self).capacity_of() == old(self).capacity_of(),
            final(self).root_index_of() == old(self).root_index_of(),
            old(self).tail_known() ==> final(self).tail_known(),
            same_payload(final(self).node_at(r as int), node),
            old(self).free_order().len() > 0 ==> {
                &&& r == old(self).free_order()[0]
                &&& final(self).free_order() == old(self).free_order().drop_first()
                &&& final(self).lru_order() == seq![r as int] + old(self).lru_order()
                &&& final(self).root_phantom_of() == old(self).root_phantom_of()
                &&& forall|i: int|
                    0 <= i < old(self).capacity_of() && i != r ==> same_payload(
                        #[trigger] final(self).node_at(i),
                        old(self).node_at(i),
                    )
            },
            old(self).free_order().len() == 0 ==> {
                let parent = old(self).node_at(old(self).evicted()).parent_of() as int;
                let child = old(self).node_at(old(self).evicted()).child_of() as int;
                &&& r == old(self).evicted()
                &&& final(self).free_order() == old(self).free_order()
                &&& final(self).lru_order() == seq![r as int] + old(self).lru_order().drop_last()
                &&& parent != r ==> final(self).child_at(parent, child) == old(self).child_at(parent, child).with_index(-1i32)
                &&& parent != -1 ==> final(self).root_phantom_of() == old(self).root_phantom_of()
                &&& 0 <= parent && parent != r ==> {
                    &&& final(self).node_at(parent).children_of() == old(self).node_at(parent).children_of().update(
                        child,
                        old(self).child_at(parent, child).with_index(-1i32),
                    )
                    &&& final(self).node_at(parent).result_of() == old(self).node_at(parent).result_of()
                    &&& final(self).node_at(parent).parent_of() == old(self).node_at(parent).parent_of()
                    &&& final(self).node_at(parent).child_of() == old(self).node_at(parent).child_of()
                }
                &&& forall|i: int|
                    0 <= i < old(self).capacity_of() && i != r && i != parent ==> same_payload(
                        #[trigger] final(self).node_at(i),
                        old(self).node_at(i),
                    )
            },
    {
        let ghost s0 = *self;
        let ghost mut s1 = *self;
        let mut new_node_index = self.empty_node_index;
        if new_node_index == -1 {
            proof {
                if s0.free@.len() > 0 {
                    assert(0 <= s0.free@[0]);
                }
            }
            new_node_index = self.lru_tail;
            let parent_index = self.tree[new_node_index as usize].parent;
            let child_index = self.tree[new_node_index as usize].child as usize;
            let ghost gone = s0.child_at(parent_index as int, child_index as int).with_index(-1i32);
            self.child_mut(parent_index, child_index).set_index(-1);
            proof {
                Self::lemma_child_replaced(s0, *self, parent_index as int, child_index as int, gone);
                assert(self.lru@.contains(self.lru@[self.lru@.len() - 1]));
                s1 = *self;
            }
            self.delete_node(new_node_index);
            proof {
                let p = s1.lru@.index_of(new_node_index as int);
                assert(s1.lru@[p] == s1.lru@[s1.lru@.len() - 1]);
                assert(s1.lru@.remove(p) =~= s1.lru@.drop_last());
            }
        }
        let ghost s2 = *self;
        let ghost free = self.free@;
        let ghost lru = self.lru@;
        proof {
            assert(free.len() > 0 && free[0] == new_node_index);
            assert(s2.tree@[free[0]].forward_link == link_at(free, 1));
        }
        self.used_nodes_count = self.used_nodes_count + 1;
        self.empty_node_index = self.tree[self.empty_node_index as usize].forward_link;
        self.tree[new_node_index as usize] = node;
        self.free = Ghost(free.drop_first());
        proof {
            let nf = free.drop_first();
            let t = self.tree@;
            let n = t.len() as int;
            assert(free.contains(free[0]));
            assert(!lru.contains(new_node_index as int));
            assert forall|k: int| 0 <= k < nf.len() implies #[trigger] t[nf[k]].forward_link == link_at(nf, k + 1) by {
                assert(nf[k] == free[k + 1]);
                assert(s2.tree@[free[k + 1]].forward_link == link_at(free, k + 2));
            }
            assert forall|k: int| 0 <= k < lru.len() implies #[trigger] t[lru[k]].forward_link == link_at(lru, k + 1)
                && t[lru[k]].backward_link == link_at(lru, k - 1) by {
                assert(s2.tree@[lru[k]].forward_link == link_at(lru, k + 1));
                assert(lru.contains(lru[k]));
            }
            assert(in_range(nf, n)) by {
                assert forall|k: int| 0 <= k < nf.len() implies 0 <= #[trigger] nf[k] < n by {
                    assert(nf[k] == free[k + 1]);
                }
            }
            assert(nf.no_duplicates()) by {
                assert forall|a: int, b: int| 0 <= a < b < nf.len() implies nf[a] != nf[b] by {
                    assert(nf[a] == free[a + 1] && nf[b] == free[b + 1]);
                }
            }
            assert forall|i: int| #[trigger] nf.contains(i) == (free.contains(i) && i != free[0]) by {
                if nf.contains(i) {
                    let k = choose|k: int| 0 <= k < nf.len() && nf[k] == i;
                    assert(free[k + 1] == i);
                }
                if free.contains(i) && i != free[0] {
                    let k = choose|k: int| 0 <= k < free.len() && free[k] == i;
                    assert(nf[k - 1] == i);
                }
            }
        }
        self.append_to_lru(new_node_index);
        if self.used_nodes_count == 1 {
            self.lru_tail = new_node_index;
        }
        proof {
            let r = seq![new_node_index as int] + lru;
            let nf = free.drop_first();
            let n = self.tree@.len() as int;
            lemma_push_front(lru, new_node_index as int);
            assert forall|i: int| 0 <= i < n implies (#[trigger] r.contains(i) || nf.contains(i)) by {
                assert(lru.contains(i) || free.contains(i));
            }
            assert forall|i: int| !(#[trigger] r.contains(i) && nf.contains(i)) by {
                if r.contains(i) && i != new_node_index {
                    assert(lru.contains(i));
                }
            }
            assert(in_range(r, n)) by {
                assert forall|k: int| 0 <= k < r.len() implies 0 <= #[trigger] r[k] < n by {
                    if k > 0 {
                        assert(r[k] == lru[k - 1]);
                    }
                }
            }
            if s0.free@.len() == 0 {
                let parent = s0.tree@[s0.evicted()].parent as int;
                let child = s0.tree@[s0.evicted()].child as int;
                assert(new_node_index == s0.evicted());
                assert(lru == s0.lru@.drop_last());
                if 0 <= parent && parent != new_node_index {
                    assert(same_payload(s2.node_at(parent), s1.node_at(parent)));
                    assert(same_payload(self.node_at(parent), s2.node_at(parent)));
                    assert(self.child_at(parent, child) == s1.child_at(parent, child));
                }
                assert forall|i: int|
                    0 <= i < s0.capacity_of() && i != new_node_index && i != parent implies same_payload(
                        #[trigger] self.node_at(i),
                        s0.node_at(i),
                    ) by {
                    assert(same_payload(s2.node_at(i), s1.node_at(i)));
                    assert(s1.node_at(i) == s0.node_at(i));
                }
            }
        }
        new_node_index
    }
}

impl SearchTree {
    /// Every node of a tree is either in use or free, never both: the two lists cover
    /// the capacity exactly, and neither repeats a node.
    pub proof fn lemma_lists_partition(&self)
        requires
            self.wf(),
        ensures
            self.lru_order().len() + self.free_order().len() == self.capacity_of(),
            self.lru_order().no_duplicates(),
            self.free_order().no_duplicates(),
            forall|i: int| 0 <= i < self.capacity_of() ==> (#[trigger] self.lru_order().contains(i) != self.free_order().contains(i)),
            forall|i: int| #[trigger] self.lru_order().contains(i) ==> 0 <= i < self.capacity_of(),
            forall|i: int| #[trigger] self.free_order().contains(i) ==> 0 <= i < self.capacity_of(),
    {
        assert forall|i: int| #[trigger] self.lru_order().contains(i) implies 0 <= i < self.capacity_of() by {
            let k = choose|k: int| 0 <= k < self.lru@.len() && self.lru@[k] == i;
        }
        assert forall|i: int| #[trigger] self.free_order().contains(i) implies 0 <= i < self.capacity_of() by {
            let k = choose|k: int| 0 <= k < self.free@.len() && self.free@[k] == i;
        }
    }

    /// The node used most recently is not the one that a push on a full tree replaces,
    /// unless it is the only node in use.
    pub proof fn lemma_recent_node_is_kept(&self, node_index: int)
        requires
            self.wf(),
            self.lru_order().len() >= 2,
            self.lru_order()[0] == node_index,
        ensures
            self.evicted() != node_index,
    {
        assert(self.lru@[0] != self.lru@[self.lru@.len() - 1]);
    }
}

/// The result of the game at a node: a draw when a draw rule applies (`drawn_by_rule`
/// for insufficient material or threefold repetition, or a hundred half-moves without a
/// capture or pawn move); else, with no move for the side to move, a loss in no moves
/// when it is in check and a draw when it is not; else undecided.
pub open spec fn node_result(b: Board, drawn_by_rule: bool) -> GameResult {
    if drawn_by_rule || b.half_moves >= 100 {
        GameResult::Draw
    } else if generated_moves(b, false).len() == 0 {
        if b.checkers@ != 0 {
            GameResult::Lose(0)
        } else {
            GameResult::Draw
        }
    } else {
        GameResult::Undecided
    }
}

/// The result of the game at the node of `board`, `drawn_by_rule` telling whether the
/// position is drawn by insufficient material or by threefold repetition.
pub fn get_node_result(attacks: &Attacks, board: &Board, drawn_by_rule: bool) -> (r: GameResult)
    requires
        attacks.wf(),
        generation_ready(*board),
        generated_moves(*board, false).len() <= 256,
    ensures
        r == node_result(*board, drawn_by_rule),
{
    if drawn_by_rule || board.half_moves >= 100 {
        return GameResult::Draw;
    }
    let mut move_list = new_move_list();
    MoveProvider::generate_moves::<false>(&mut move_list, attacks, board);
    if move_list_len(&move_list) == 0 {
        return if board.is_in_check() {
            GameResult::Lose(0)
        } else {
            GameResult::Draw
        };
    }
    GameResult::Undecided
}

} // verus!
