use vstd::prelude::*;
use super::direction::Direction;
use super::node::Node;
use super::node_child::{NodeChild, NodeIndex};

verus! {

/// The store of tree nodes. Slot 0 holds the root; deleted slots are kept
/// in a list, linked through their right children, and reused first.
pub struct Nodes {
    items: Vec<Node>,
    last_deleted_node_idx_opt: Option<NodeIndex>,
    removed_nodes_count: usize,
    nodes_limit: usize,
    free: Ghost<Seq<int>>,
}

impl Nodes {
    pub const NUM_ROOTS: usize = 1;

    /// The deleted slots, the most recently deleted first.
    pub closed spec fn free_slots(&self) -> Seq<int> {
        self.free@
    }

    /// The number of slots that the store may use.
    pub closed spec fn limit(&self) -> int {
        self.nodes_limit as int
    }

    /// Whether a slot is on the list of deleted slots.
    pub open spec fn is_free(&self, slot: int) -> bool {
        self.free_slots().contains(slot)
    }

    /// The nodes in the slots.
    pub closed spec fn slots(&self) -> Seq<Node> {
        self.items@
    }

    /// The node in a slot.
    pub open spec fn node(&self, slot: int) -> Node {
        self.slots()[slot]
    }

    pub open spec fn len(&self) -> int {
        self.slots().len() as int
    }

    /// The store's invariant: the root slot exists, the slots fit a node
    /// child, and the list of deleted slots links distinct non-root slots
    /// whose nodes are empty.
    pub closed spec fn wf(&self) -> bool {
        &&& 1 <= self.items.len() <= self.nodes_limit <= 0x7fff_ffff
        &&& self.free@.len() == self.removed_nodes_count
        &&& (self.free@.len() == 0 <==> self.last_deleted_node_idx_opt.is_none())
        &&& self.free@.len() > 0 ==> self.last_deleted_node_idx_opt == Some(NodeIndex { index: self.free@[0] as usize })
        &&& forall|k: int| 0 <= k < self.free@.len() ==> 1 <= #[trigger] self.free@[k] < self.items.len()
        &&& forall|j: int, k: int| 0 <= j < k < self.free@.len() ==> self.free@[j] != self.free@[k]
        &&& forall|k: int| 0 <= k < self.free@.len() ==> {
            let n = #[trigger] self.items@[self.free@[k]];
            &&& n.children.at(Direction::Left).value_of() == -1
            &&& (k + 1 < self.free@.len() ==> n.children.at(Direction::Right).valid()
                && !n.children.at(Direction::Right).is_leaf()
                && n.children.at(Direction::Right).node_slot() == self.free@[k + 1])
            &&& (k + 1 == self.free@.len() ==> n.children.at(Direction::Right).value_of() == -1)
        }
    }

    /// The facts that users of the store rely on.
    pub proof fn lemma_wf(&self)
        requires
            self.wf(),
        ensures
            1 <= self.len() <= self.limit() <= 0x7fff_ffff,
            !self.is_free(0),
            forall|s: int| #[trigger] self.is_free(s) ==> 1 <= s < self.len() && !self.node(s).valid(),
            self.free_slots().len() < self.len(),
    {
        assert(self.free@.len() <= self.items.len() - 1) by {
            vstd::set_lib::lemma_int_range(1, self.items.len() as int);
            let s = self.free@.to_set();
            assert(s.subset_of(vstd::set_lib::set_int_range(1, self.items.len() as int)));
            vstd::set_lib::lemma_len_subset(s, vstd::set_lib::set_int_range(1, self.items.len() as int));
            self.free@.unique_seq_to_set();
        }
        assert forall|s: int| #[trigger] self.is_free(s) implies 1 <= s < self.len() && !self.node(s).valid() by {
            let k = choose|k: int| 0 <= k < self.free@.len() && self.free@[k] == s;
            assert(self.items@[self.free@[k]].children.at(Direction::Left).value_of() == -1);
        }
    }

    /// A store for at most `nodes_limit` nodes, holding an empty root.
    pub fn new(nodes_limit: usize) -> (r: Nodes)
        requires
            1 <= nodes_limit <= 0x7fff_ffff,
        ensures
            r.wf(),
            r.len() == 1,
            r.limit() == nodes_limit,
            !r.node(0).valid(),
            r.free_slots().len() == 0,
    {
        let mut items: Vec<Node> = Vec::new();
        items.push(Node::invalid());
        Nodes {
            items,
            last_deleted_node_idx_opt: None,
            removed_nodes_count: 0,
            nodes_limit,
            free: Ghost(Seq::empty()),
        }
    }

    /// How many more nodes can be added: the deleted slots and the slots
    /// not used yet.
    pub open spec fn spare(&self) -> int {
        self.free_slots().len() + self.limit() - self.len()
    }

    /// The slot that the next added node goes to: the most recently deleted
    /// one, else a new one.
    pub open spec fn next_slot(&self) -> int {
        if self.free_slots().len() > 0 {
            self.free_slots()[0]
        } else {
            self.len()
        }
    }

    /// Whether a node can be added: a deleted slot can be reused, or the
    /// store has room for one more.
    pub open spec fn room_left(&self) -> bool {
        self.free_slots().len() > 0 || self.len() < self.limit()
    }

    /// Stores a node in the most recently deleted slot, or in a new slot
    /// when none is deleted, and returns it as a child.
    pub fn add_node(&mut self, node: Node) -> (r: NodeChild)
        requires
            old(self).wf(),
            old(self).room_left(),
        ensures
            final(self).wf(),
            final(self).limit() == old(self).limit(),
            !r.is_leaf(),
            r.valid(),
            1 <= r.node_slot() < final(self).len(),
            r.node_slot() < old(self).len() ==> !old(self).node(r.node_slot()).valid(),
            old(self).len() <= final(self).len() <= old(self).len() + 1,
            r.node_slot() < old(self).len() ==> old(self).is_free(r.node_slot()),
            final(self).slots() == (if r.node_slot() < old(self).len() {
                old(self).slots().update(r.node_slot(), node)
            } else {
                old(self).slots().push(node)
            }),
            !final(self).is_free(r.node_slot()),
            forall|s: int| #[trigger] final(self).is_free(s) ==> old(self).is_free(s),
            old(self).free_slots().len() > 0 ==> r.node_slot() == old(self).free_slots()[0]
                && final(self).free_slots() == old(self).free_slots().drop_first(),
            old(self).free_slots().len() == 0 ==> r.node_slot() == old(self).len()
                && final(self).free_slots() == old(self).free_slots(),
    {
        proof {
            self.lemma_wf();
        }
        if let Some(last_deleted_node_index) = self.last_deleted_node_idx_opt {
            let ghost free = self.free@;
            let slot = last_deleted_node_index.index;
            self.removed_nodes_count = self.removed_nodes_count - 1;
            let old_node_children = self.items[slot].children;
            let next_deleted_node_handle = old_node_children.get(Direction::Right);
            proof {
                assert(self.items@[free[0]].children.at(Direction::Left).value_of() == -1);
            }
            if next_deleted_node_handle.is_valid() {
                self.last_deleted_node_idx_opt = Some(next_deleted_node_handle.to_node_index());
            } else {
                self.last_deleted_node_idx_opt = None;
            }
            self.items.set(slot, node);
            self.free = Ghost(free.drop_first());
            proof {
                assert forall|k: int| 0 <= k < self.free@.len() implies #[trigger] self.free@[k] != slot by {
                    assert(free[k + 1] != free[0]);
                }
                assert forall|k: int| 0 <= k < self.free@.len() implies {
                    let n = #[trigger] self.items@[self.free@[k]];
                    &&& n.children.at(Direction::Left).value_of() == -1
                    &&& (k + 1 < self.free@.len() ==> n.children.at(Direction::Right).valid()
                        && !n.children.at(Direction::Right).is_leaf()
                        && n.children.at(Direction::Right).node_slot() == self.free@[k + 1])
                    &&& (k + 1 == self.free@.len() ==> n.children.at(Direction::Right).value_of() == -1)
                } by {
                    assert(self.free@[k] == free[k + 1]);
                    assert(self.items@[free[k + 1]] == old(self).items@[free[k + 1]]);
                }
                assert forall|s: int| #[trigger] self.free@.contains(s) implies free.contains(s) by {
                    let k = choose|k: int| 0 <= k < self.free@.len() && self.free@[k] == s;
                    assert(free[k + 1] == s);
                }
                assert(!self.free@.contains(slot as int));
            }
            NodeChild::from_node_index(slot)
        } else {
            let slot = self.items.len();
            let node_child = NodeChild::from_node_index(slot);
            self.items.push(node);
            node_child
        }
    }

    /// Replaces the node in a slot that is in use.
    pub fn update_node(&mut self, node_index: NodeIndex, new_node: Node)
        requires
            old(self).wf(),
            node_index.index < old(self).len(),
            !old(self).is_free(node_index.index as int),
        ensures
            final(self).wf(),
            final(self).limit() == old(self).limit(),
            final(self).free_slots() == old(self).free_slots(),
            final(self).slots() == old(self).slots().update(node_index.index as int, new_node),
    {
        proof {
            assert forall|k: int| 0 <= k < self.free@.len() implies #[trigger] self.free@[k] != node_index.index as int by {
                assert(self.free@.contains(self.free@[k]));
            }
        }
        self.items.set(node_index.index, new_node);
    }

    /// Frees the slot of a present node other than the root.
    pub fn delete_node(&mut self, node_index: NodeIndex)
        requires
            old(self).wf(),
            1 <= node_index.index < old(self).len(),
            old(self).node(node_index.index as int).valid(),
        ensures
            final(self).wf(),
            final(self).limit() == old(self).limit(),
            final(self).len() == old(self).len(),
            final(self).free_slots() == seq![node_index.index as int] + old(self).free_slots(),
            !final(self).node(node_index.index as int).valid(),
            forall|s: int| 0 <= s < old(self).len() && s != node_index.index ==> #[trigger] final(self).node(s) == old(self).node(s),
    {
        proof {
            self.lemma_wf();
        }
        let ghost free = self.free@;
        let slot = node_index.index;
        let mut node = Node::invalid();
        let right = match self.last_deleted_node_idx_opt {
            Some(last) => NodeChild::from_node_index(last.index),
            None => NodeChild::invalid(),
        };
        node.children.set(Direction::Left, NodeChild::invalid());
        node.children.set(Direction::Right, right);
        self.items.set(slot, node);
        self.last_deleted_node_idx_opt = Some(node_index);
        self.removed_nodes_count = self.removed_nodes_count + 1;
        self.free = Ghost(seq![slot as int] + free);
        proof {
            assert(!free.contains(slot as int));
            assert forall|k: int| 0 <= k < free.len() implies #[trigger] free[k] != slot as int by {
                assert(free.contains(free[k]));
            }
            assert forall|k: int| 0 <= k < self.free@.len() implies {
                let n = #[trigger] self.items@[self.free@[k]];
                &&& n.children.at(Direction::Left).value_of() == -1
                &&& (k + 1 < self.free@.len() ==> n.children.at(Direction::Right).valid()
                    && !n.children.at(Direction::Right).is_leaf()
                    && n.children.at(Direction::Right).node_slot() == self.free@[k + 1])
                &&& (k + 1 == self.free@.len() ==> n.children.at(Direction::Right).value_of() == -1)
            } by {
                if k > 0 {
                    assert(self.free@[k] == free[k - 1]);
                    assert(self.items@[free[k - 1]] == old(self).items@[free[k - 1]]);
                }
            }
        }
    }

    /// The number of nodes in the tree: none when the root is empty.
    pub fn live_nodes_count(&self) -> (r: usize)
        requires
            self.wf(),
        ensures
            r == (if self.node(0).valid() {
                self.len() - self.free_slots().len()
            } else {
                0
            }),
    {
        proof {
            self.lemma_wf();
        }
        if self.items[0].is_valid() {
            self.items.len() - self.removed_nodes_count
        } else {
            0
        }
    }

    /// Whether a node can be added.
    pub fn has_room(&self) -> (r: bool)
        requires
            self.wf(),
        ensures
            r == self.room_left(),
    {
        self.removed_nodes_count > 0 || self.items.len() < self.nodes_limit
    }

    /// The number of slots in use or deleted.
    pub fn items_len(&self) -> (r: usize)
        ensures
            r == self.len(),
    {
        self.items.len()
    }

    /// The node in a slot.
    pub fn get(&self, node_index: NodeIndex) -> (r: Node)
        requires
            node_index.index < self.len(),
        ensures
            r == self.node(node_index.index as int),
    {
        self.items[node_index.index]
    }
}

} // verus!
