use vstd::prelude::*;
use crate::history::window::{InputWindow, WindowIndex, subtract_spec};
use super::direction::Direction;
use super::node_child::NodeIndex;

verus! {

/// A context of the current byte in the tree: where its last occurrence
/// starts, the node at or below its position, how often the edge into its
/// position was visited, and whether it has reached a leaf.
#[derive(Clone, Copy, Debug, PartialEq, Eq)]
pub struct Context {
    pub suffix_index: WindowIndex,
    pub node_index: NodeIndex,
    pub incoming_edge_visits_count: i32,
    pub in_leaf: bool,
    pub direction_from_parent: Option<Direction>,
}

impl Context {
    /// A copy of the context for comparing with a context found afresh
    /// `offset` bytes later: its suffix moved back by `offset`, no node, no
    /// visits counted.
    pub fn prepare_for_test(&self, offset: usize, window: &InputWindow) -> (r: Context)
        requires
            window.wf(),
            self.suffix_index.index() < offset ==> window.is_full() && offset <= self.suffix_index.index()
                + window.max(),
            self.suffix_index.index() < offset ==> self.suffix_index.index() + window.max() <= usize::MAX,
        ensures
            r.suffix_index.index() == subtract_spec(self.suffix_index.index() as int, offset as int, window.max()),
            r.node_index.index == 0x7fff_ffff,
            r.incoming_edge_visits_count == 0,
            r.in_leaf == self.in_leaf,
            r.direction_from_parent == self.direction_from_parent,
    {
        Context {
            suffix_index: window.index_subtract(self.suffix_index, offset),
            node_index: NodeIndex::new(0x7fff_ffff),
            incoming_edge_visits_count: 0,
            in_leaf: self.in_leaf,
            direction_from_parent: self.direction_from_parent,
        }
    }
}

/// The contexts of the current byte, lowest order first, up to
/// `max_order + 1` of them.
pub struct ActiveContexts {
    pub items: Vec<Context>,
    pub max_order: usize,
}

impl ActiveContexts {
    pub open spec fn max_order_of(&self) -> int {
        self.max_order as int
    }

    pub open spec fn view_items(&self) -> Seq<Context> {
        self.items@
    }

    pub fn new(max_order: usize) -> (r: ActiveContexts)
        ensures
            r.view_items() == Seq::<Context>::empty(),
            r.max_order_of() == max_order,
    {
        ActiveContexts { items: Vec::new(), max_order }
    }

    pub fn max_order(&self) -> (r: usize)
        ensures
            r == self.max_order_of(),
    {
        self.max_order
    }

    pub fn count(&self) -> (r: usize)
        ensures
            r == self.view_items().len(),
    {
        self.items.len()
    }

    /// Keeps the `count` lowest orders.
    pub fn keep_only(&mut self, count: usize)
        requires
            count <= old(self).view_items().len(),
        ensures
            final(self).view_items() == old(self).view_items().subrange(0, count as int),
            final(self).max_order_of() == old(self).max_order_of(),
    {
        self.items.truncate(count);
    }

    pub fn items(&self) -> (r: &[Context])
        ensures
            r@ == self.view_items(),
    {
        self.items.as_slice()
    }

    /// The context of an order.
    pub fn get(&self, index: usize) -> (r: Context)
        requires
            index < self.view_items().len(),
        ensures
            r == self.view_items()[index as int],
    {
        self.items[index]
    }
}

} // verus!
