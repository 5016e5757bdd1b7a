use vstd::prelude::*;
use crate::history::window::WindowIndex;
use super::direction::Direction;

verus! {

/// The position of a node in the node store; slot 0 holds the root.
#[derive(Clone, Copy, Debug, PartialEq, Eq, Structural)]
pub struct NodeIndex {
    pub index: usize,
}

impl NodeIndex {
    pub fn new(index: usize) -> (r: NodeIndex)
        ensures
            r.index == index,
    {
        NodeIndex { index }
    }

    pub fn is_root(&self) -> (r: bool)
        ensures
            r == (self.index == 0),
    {
        self.index == 0
    }

    pub fn raw(&self) -> (r: usize)
        ensures
            r == self.index,
    {
        self.index
    }
}

/// A child of a node: a leaf, given by the window position where its
/// suffix starts (a value of at least 0), or an inner node other than the
/// root, given by the bitwise complement of its slot.
#[derive(Clone, Copy, Debug, PartialEq, Eq, Structural)]
pub struct NodeChild {
    value: i32,
}

impl NodeChild {
    pub closed spec fn value_of(&self) -> i32 {
        self.value
    }

    /// Whether the child is a leaf.
    pub open spec fn is_leaf(&self) -> bool {
        self.value_of() >= 0
    }

    /// The window position of a leaf.
    pub open spec fn leaf_index(&self) -> int {
        self.value_of() as int
    }

    /// The slot of an inner node.
    pub open spec fn node_slot(&self) -> int {
        -(self.value_of() as int) - 1
    }

    /// Whether the child is a leaf or a node other than the root.
    pub open spec fn valid(&self) -> bool {
        self.is_leaf() || self.node_slot() >= 1
    }

    /// The marker of a missing child; the root is never a child.
    pub fn invalid() -> (r: NodeChild)
        ensures
            r.value_of() == -1,
            !r.valid(),
            !r.is_leaf(),
            r.node_slot() == 0,
    {
        NodeChild { value: -1 }
    }

    pub fn is_valid(&self) -> (r: bool)
        ensures
            r == self.valid(),
    {
        self.value >= 0 || -(self.value + 1) >= 1
    }

    pub fn is_window_index(&self) -> (r: bool)
        ensures
            r == self.is_leaf(),
    {
        self.value >= 0
    }

    pub fn is_node_index(&self) -> (r: bool)
        ensures
            r == !self.is_leaf(),
    {
        self.value < 0
    }

    pub fn to_window_index(&self) -> (r: WindowIndex)
        requires
            self.is_leaf(),
        ensures
            r.index() == self.leaf_index(),
    {
        WindowIndex::new(self.value as usize)
    }

    pub fn to_node_index(&self) -> (r: NodeIndex)
        requires
            !self.is_leaf(),
        ensures
            r.index == self.node_slot(),
    {
        NodeIndex::new((-(self.value + 1)) as usize)
    }

    pub fn from_window_index(window_index: WindowIndex) -> (r: NodeChild)
        requires
            window_index.index() <= 0x7fff_ffff,
        ensures
            r.is_leaf(),
            r.leaf_index() == window_index.index(),
    {
        NodeChild { value: window_index.raw() as i32 }
    }

    pub fn from_node_index(node_index: usize) -> (r: NodeChild)
        requires
            1 <= node_index <= 0x7fff_ffff,
        ensures
            !r.is_leaf(),
            r.valid(),
            r.node_slot() == node_index,
    {
        NodeChild { value: -(node_index as i32) - 1 }
    }
}

/// The two children of a node, left and right.
#[derive(Clone, Copy, Debug)]
pub struct NodeChildren(pub [NodeChild; 2]);

impl NodeChildren {
    /// The child in a direction.
    pub open spec fn at(&self, direction: Direction) -> NodeChild {
        self.0@[direction.slot()]
    }

    pub fn invalid() -> (r: NodeChildren)
        ensures
            !r.at(Direction::Left).valid(),
            !r.at(Direction::Right).valid(),
            r.at(Direction::Left).value_of() == -1,
            r.at(Direction::Right).value_of() == -1,
    {
        NodeChildren([NodeChild::invalid(), NodeChild::invalid()])
    }

    pub fn new(children: [NodeChild; 2]) -> (r: NodeChildren)
        ensures
            r.0 == children,
    {
        NodeChildren(children)
    }

    pub fn items(&self) -> (r: &[NodeChild; 2])
        ensures
            *r == self.0,
    {
        &self.0
    }

    /// The child in a direction.
    pub fn get(&self, direction: Direction) -> (r: NodeChild)
        ensures
            r == self.at(direction),
    {
        match direction {
            Direction::Left => self.0[0],
            Direction::Right => self.0[1],
        }
    }

    /// Replaces the child in a direction.
    pub fn set(&mut self, direction: Direction, child: NodeChild)
        ensures
            final(self).at(direction) == child,
            final(self).at(direction.opposite()) == old(self).at(direction.opposite()),
    {
        match direction {
            Direction::Left => self.0[0] = child,
            Direction::Right => self.0[1] = child,
        }
    }
}

} // verus!
