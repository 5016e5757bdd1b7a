pub mod direction;
pub mod node_child;
pub mod node;
pub mod nodes;
pub mod context;
pub mod integrity;

use vstd::prelude::*;
use crate::bit::Bit;
use crate::history::window::{InputWindow, WindowIndex, bit_of, add_spec, subtract_spec, next_position};
use crate::lut::LookUpTables;
use crate::history::{CollectedContextStates, ContextState};
use self::node::{MAX_OCCURRENCE_COUNT, CostTrackers, counted_edge};
use self::node_child::NodeChildren;
use crate::history::state::recent_bits::{lemma_updated_nonzero, lemma_run_nonzero, run_raw, updated_raw};
use crate::lut::estimator::new_node_raw;
use self::context::{ActiveContexts, Context};
use self::direction::Direction;
use self::node::Node;
use self::node_child::{NodeChild, NodeIndex};
use self::nodes::Nodes;

verus! {

/// Whether the tree has inner nodes.
#[derive(Clone, Copy, Debug, PartialEq, Eq, Structural)]
pub enum TreeState {
    /// Every inner node has two children.
    Proper,
    /// Only the empty root: every byte of the window is the same.
    Degenerate,
}

/// What the tree found when it does not agree with its window: a state
/// that its own updates never produce.
#[derive(Clone, Copy, Debug, PartialEq, Eq, Structural)]
pub enum TreeInconsistency {
    /// A position that the tree refers to is outside the window.
    OutsideWindow,
    /// A walk down the tree did not end at a leaf.
    NoLeaf,
    /// A context is not where the update expects it.
    MisplacedContext,
    /// The node store has no room for a new node.
    NodesExhausted,
    /// The cost trackers given do not match the contexts at nodes.
    CostTrackersMismatch,
}

/// Whether a child is a window position or a present node other than the
/// root.
pub open spec fn child_ok(nodes: &Nodes, max: int, c: NodeChild) -> bool {
    if c.is_leaf() {
        c.leaf_index() < max
    } else {
        1 <= c.node_slot() < nodes.len() && nodes.node(c.node_slot()).valid()
    }
}

/// Whether a present node has valid children, a start in the window's
/// range and a state in range.
pub open spec fn node_ok(nodes: &Nodes, max: int, slot: int) -> bool {
    let n = nodes.node(slot);
    n.valid() ==> {
        &&& child_ok(nodes, max, n.children.at(Direction::Left))
        &&& child_ok(nodes, max, n.children.at(Direction::Right))
        &&& n.text_start < max
        &&& n.state_ok()
    }
}

/// Every present node is in order.
pub open spec fn links_ok(nodes: &Nodes, max: int) -> bool {
    forall|s: int| 0 <= s < nodes.len() ==> #[trigger] node_ok(nodes, max, s)
}

/// Whether the present node in slot `p` has the node in slot `c` as its
/// child in direction `d`.
pub open spec fn is_parent(nodes: &Nodes, p: int, d: Direction, c: int) -> bool {
    &&& 0 <= p < nodes.len()
    &&& nodes.node(p).valid()
    &&& !nodes.node(p).children.at(d).is_leaf()
    &&& nodes.node(p).children.at(d).node_slot() == c
}

/// Every node is the child of at most one present node, in one direction.
pub open spec fn parents_unique(nodes: &Nodes) -> bool {
    forall|p1: int, d1: Direction, p2: int, d2: Direction, c: int|
        #[trigger] is_parent(nodes, p1, d1, c) && #[trigger] is_parent(nodes, p2, d2, c) ==> p1 == p2 && d1 == d2
}

/// Whether the context of order `order` can be read for the next bit: the
/// window reaches back `order` bytes from the cursor, the context's last
/// occurrence is in the window and comes before the current one, and for a
/// context inside a visited edge the byte after the occurrence is in the
/// window.
pub open spec fn context_readable(w: InputWindow, nodes: &Nodes, c: Context, order: int, bit_index: int) -> bool {
    let last = c.suffix_index.index() as int;
    &&& order <= w.size_of() - 1
    &&& w.is_live(last)
    &&& w.offset_of(last) < w.size_of() - 1 - order
    &&& nodes.node(c.node_index.index as int).depth_of() != order * 8 + 7 - bit_index && c.incoming_edge_visits_count > 0
        ==> w.offset_of(last) + order < w.size_of()
}

/// The state that the context of order `order` gives for the bit
/// `bit_index`: at a node of its depth, the node's state; inside an edge
/// that was visited, the edge's repeated bit and count; nothing inside an
/// edge not visited yet. The distance is that between the context's last
/// occurrence and the current one.
pub open spec fn context_state_of(w: InputWindow, nodes: &Nodes, c: Context, order: int, bit_index: int) -> Option<
    ContextState,
> {
    let node = nodes.node(c.node_index.index as int);
    let last = c.suffix_index.index() as int;
    let distance = (w.size_of() - 1 - order - w.offset_of(last)) as usize;
    if node.depth_of() == order * 8 + 7 - bit_index {
        Some(
            ContextState::ForNode {
                last_occurrence_distance: distance,
                probability_estimator: node.probability_estimator,
                bit_history: node.history_state,
                cost_trackers: node.cost_trackers,
            },
        )
    } else if c.incoming_edge_visits_count > 0 {
        Some(
            ContextState::ForEdge {
                last_occurrence_distance: distance,
                occurrence_count: c.incoming_edge_visits_count as u16,
                repeated_bit: Bit::of_bool(bit_of(w.bytes()[add_spec(last, order, w.max())], bit_index)),
            },
        )
    } else {
        None
    }
}

/// The states that the first `n` contexts give, lowest order first.
pub open spec fn gathered_states(w: InputWindow, nodes: &Nodes, items: Seq<Context>, bit_index: int, n: int) -> Seq<
    ContextState,
>
    decreases n,
{
    if n <= 0 {
        Seq::empty()
    } else {
        let before = gathered_states(w, nodes, items, bit_index, n - 1);
        match context_state_of(w, nodes, items[n - 1], n - 1, bit_index) {
            Some(state) => before.push(state),
            None => before,
        }
    }
}

/// Whether a node made by splitting an edge has the state of an edge seen
/// `visits` times with the bit opposite to `bit` and then once with `bit`:
/// estimator, cost trackers and bit history as the tables give them for a
/// new node, and counts of one for `bit` and `visits` for the other bit.
pub open spec fn split_state(r: Node, luts: LookUpTables, bit: Bit, visits: int) -> bool {
    let entry = luts.cost_lut_of().entry(if visits < 1023 { visits } else { 1023 });
    &&& r.estimator_of().raw_of() == new_node_raw(luts.cache_of(), luts.rates_of(), bit, visits)
    &&& r.cost_trackers_of().stationary.raw_of() == entry
    &&& r.cost_trackers_of().non_stationary.raw_of() == entry
    &&& r.history_of().raw_of() == updated_raw(run_raw(bit.flipped(), visits as u16), bit)
    &&& r.left_count_of() == (if bit == Bit::Zero { 1 } else { visits })
    &&& r.right_count_of() == (if bit == Bit::Zero { visits } else { 1 })
}

/// A binary suffix tree over the bits of the input window, with the window
/// it indexes.
pub struct Tree<'a> {
    luts: &'a LookUpTables,
    nodes: Nodes,
    pub window: InputWindow,
    tree_state: TreeState,
    root_index: usize,
}

/// Whether a context points at a present node and a position in range.
pub open spec fn context_ok(nodes: &Nodes, max: int, c: Context) -> bool {
    &&& c.node_index.index < nodes.len()
    &&& nodes.node(c.node_index.index as int).valid()
    &&& c.suffix_index.index() < max
    &&& 0 <= c.incoming_edge_visits_count <= 1000
    &&& c.in_leaf ==> c.direction_from_parent is Some
}

/// The contexts fit their order limit and point into the tree.
pub open spec fn contexts_ok(nodes: &Nodes, max: int, state: TreeState, contexts: &ActiveContexts) -> bool {
    &&& contexts.view_items().len() <= contexts.max_order_of() + 1
    &&& contexts.max_order_of() * 8 + 7 < 0x1_0000
    &&& state == TreeState::Degenerate ==> contexts.view_items().len() == 0
    &&& forall|i: int| 0 <= i < contexts.view_items().len() ==> #[trigger] context_ok(nodes, max, contexts.view_items()[i])
}

impl<'a> Tree<'a> {
    pub closed spec fn nodes_of(&self) -> Nodes {
        self.nodes
    }

    pub closed spec fn window_of(&self) -> InputWindow {
        self.window
    }

    pub closed spec fn state_of(&self) -> TreeState {
        self.tree_state
    }

    pub closed spec fn luts_of(&self) -> LookUpTables {
        *self.luts
    }

    /// The tree's invariant: the window and the node store are in order,
    /// positions fit a node child, the tree is proper exactly when the root
    /// is present, every present node is in order and has one parent at
    /// most.
    pub open spec fn wf(&self) -> bool {
        &&& self.window_of().wf()
        &&& self.nodes_of().wf()
        &&& self.window_of().max() <= 0x7fff_ffff
        &&& self.luts_of().wf()
        &&& (self.state_of() == TreeState::Proper) == self.nodes_of().node(0).valid()
        &&& links_ok(&self.nodes_of(), self.window_of().max())
        &&& parents_unique(&self.nodes_of())
    }

    /// Whether the contexts agree with the tree.
    pub open spec fn contexts_ok(&self, contexts: &ActiveContexts) -> bool {
        contexts_ok(&self.nodes_of(), self.window_of().max(), self.state_of(), contexts)
    }

    /// An empty tree over an empty window of `max_window_size` bytes whose
    /// first byte goes to position `initial_shift`.
    pub fn new(nodes: Nodes, max_window_size: usize, initial_shift: usize, luts: &'a LookUpTables) -> (r: Tree<'a>)
        requires
            nodes.wf(),
            nodes.len() == 1,
            !nodes.node(0).valid(),
            0 < max_window_size <= 0x7fff_ffff,
            initial_shift < max_window_size,
            luts.wf(),
        ensures
            r.wf(),
            r.state_of() == TreeState::Degenerate,
            r.window_of().size_of() == 0,
            r.window_of().max() == max_window_size,
            r.nodes_of() == nodes,
    {
        Tree {
            luts,
            nodes,
            window: InputWindow::new(max_window_size, initial_shift),
            tree_state: TreeState::Degenerate,
            root_index: 0,
        }
    }

    pub fn tree_state(&self) -> (r: TreeState)
        ensures
            r == self.state_of(),
    {
        self.tree_state
    }

    pub fn get_root_node_index(&self) -> (r: NodeIndex)
        ensures
            r.index == 0,
    {
        NodeIndex::new(0)
    }

    pub fn nodes(&self) -> (r: &Nodes)
        ensures
            *r == self.nodes_of(),
    {
        &self.nodes
    }

    /// Moves the start of a present node's text.
    fn set_text_start(&mut self, slot: usize, text_start: WindowIndex)
        requires
            old(self).wf(),
            slot < old(self).nodes_of().len(),
            old(self).nodes_of().node(slot as int).valid(),
            text_start.index() < old(self).window_of().max(),
        ensures
            final(self).wf(),
            final(self).window_of() == old(self).window_of(),
            final(self).state_of() == old(self).state_of(),
            final(self).luts_of() == old(self).luts_of(),
            final(self).nodes_of().len() == old(self).nodes_of().len(),
            forall|s: int| 0 <= s < old(self).nodes_of().len() ==> #[trigger] final(self).nodes_of().node(s).valid()
                == old(self).nodes_of().node(s).valid(),
            final(self).nodes_of().node(slot as int).text_start == text_start.index(),
            final(self).nodes_of().slots() == old(self).nodes_of().slots().update(
                slot as int,
                Node { text_start: text_start.index() as u32, ..old(self).nodes_of().node(slot as int) },
            ),
    {
        let mut node = self.nodes.get(NodeIndex::new(slot));
        node.text_start = text_start.raw() as u32;
        proof {
            self.nodes.lemma_wf();
        }
        self.nodes.update_node(NodeIndex::new(slot), node);
        proof {
            let nodes = self.nodes;
            let old_nodes = old(self).nodes;
            assert forall|s: int| 0 <= s < nodes.len() implies #[trigger] node_ok(&nodes, self.window_of().max(), s) by {
                assert(node_ok(&old_nodes, self.window_of().max(), s));
            }
            assert forall|p1: int, d1: Direction, p2: int, d2: Direction, c: int|
                #[trigger] is_parent(&nodes, p1, d1, c) && #[trigger] is_parent(&nodes, p2, d2, c) implies p1 == p2 && d1 == d2 by {
                assert(is_parent(&old_nodes, p1, d1, c) && is_parent(&old_nodes, p2, d2, c));
            }
        }
    }
}


/// Taking a node out of the tree: its parent gets `x` in its place, where
/// `x` is a window position or the node's child in direction `dx`, and the
/// node's slot is emptied. The tree stays in order.
pub proof fn lemma_splice(
    old_nodes: &Nodes,
    new_nodes: &Nodes,
    max: int,
    p: int,
    dp: Direction,
    n: int,
    x: NodeChild,
    dx: Direction,
)
    requires
        links_ok(old_nodes, max),
        parents_unique(old_nodes),
        new_nodes.len() == old_nodes.len(),
        p != n,
        1 <= n < old_nodes.len(),
        is_parent(old_nodes, p, dp, n),
        !new_nodes.node(n).valid(),
        new_nodes.node(p).valid(),
        new_nodes.node(p).children.at(dp) == x,
        new_nodes.node(p).children.at(dp.opposite()) == old_nodes.node(p).children.at(dp.opposite()),
        new_nodes.node(p).text_start < max,
        new_nodes.node(p).state_ok(),
        x.is_leaf() ==> x.leaf_index() < max,
        !x.is_leaf() ==> is_parent(old_nodes, n, dx, x.node_slot()),
        forall|s: int| 0 <= s < old_nodes.len() && s != p && s != n ==> {
            &&& #[trigger] new_nodes.node(s).valid() == old_nodes.node(s).valid()
            &&& new_nodes.node(s).children == old_nodes.node(s).children
            &&& new_nodes.node(s).valid() ==> new_nodes.node(s).text_start < max && new_nodes.node(s).state_ok()
        },
    ensures
        links_ok(new_nodes, max),
        parents_unique(new_nodes),
{
    assert(node_ok(old_nodes, max, p));
    assert(node_ok(old_nodes, max, n));
    assert forall|s: int| 0 <= s < new_nodes.len() implies #[trigger] node_ok(new_nodes, max, s) by {
        if s != n && new_nodes.node(s).valid() {
            assert(node_ok(old_nodes, max, s));
            assert forall|d: Direction| true implies child_ok(new_nodes, max, #[trigger] new_nodes.node(s).children.at(d)) by {
                let c = new_nodes.node(s).children.at(d);
                if s == p && d == dp {
                    if !x.is_leaf() {
                        let xs = x.node_slot();
                        assert(node_ok(old_nodes, max, n));
                        if xs == n {
                            assert(is_parent(old_nodes, p, dp, n) && is_parent(old_nodes, n, dx, n));
                        }
                    }
                } else {
                    let oc = old_nodes.node(s).children.at(d);
                    assert(oc == c);
                    if !c.is_leaf() {
                        let cs = c.node_slot();
                        if cs == n {
                            assert(is_parent(old_nodes, p, dp, n) && is_parent(old_nodes, s, d, n));
                        }
                    }
                }
            }
            assert(child_ok(new_nodes, max, new_nodes.node(s).children.at(Direction::Left)));
            assert(child_ok(new_nodes, max, new_nodes.node(s).children.at(Direction::Right)));
        }
    }
    assert forall|a: int, da: Direction, b: int, db: Direction, c: int|
        #[trigger] is_parent(new_nodes, a, da, c) && #[trigger] is_parent(new_nodes, b, db, c) implies a == b && da == db by {
        let (oa, oda) = if a == p && da == dp { (n, dx) } else { (a, da) };
        let (ob, odb) = if b == p && db == dp { (n, dx) } else { (b, db) };
        if a == p && da != dp {
            assert(da == dp.opposite());
        }
        if b == p && db != dp {
            assert(db == dp.opposite());
        }
        assert(is_parent(old_nodes, oa, oda, c));
        assert(is_parent(old_nodes, ob, odb, c));
    }
}

/// Moving the root's only inner child into the root: the child's slot is
/// emptied and its children become the root's. The tree stays in order.
pub proof fn lemma_lift_into_root(old_nodes: &Nodes, new_nodes: &Nodes, max: int, d: Direction, s: int)
    requires
        links_ok(old_nodes, max),
        parents_unique(old_nodes),
        new_nodes.len() == old_nodes.len(),
        1 <= s < old_nodes.len(),
        is_parent(old_nodes, 0, d, s),
        old_nodes.node(0).children.at(d.opposite()).is_leaf(),
        !new_nodes.node(s).valid(),
        new_nodes.node(0).valid(),
        new_nodes.node(0).children == old_nodes.node(s).children,
        new_nodes.node(0).text_start < max,
        new_nodes.node(0).state_ok(),
        forall|t: int| 0 <= t < old_nodes.len() && t != 0 && t != s ==> {
            &&& #[trigger] new_nodes.node(t).valid() == old_nodes.node(t).valid()
            &&& new_nodes.node(t).children == old_nodes.node(t).children
            &&& new_nodes.node(t).valid() ==> new_nodes.node(t).text_start < max && new_nodes.node(t).state_ok()
        },
    ensures
        links_ok(new_nodes, max),
        parents_unique(new_nodes),
{
    assert(node_ok(old_nodes, max, s));
    assert(node_ok(old_nodes, max, 0));
    assert forall|t: int| 0 <= t < new_nodes.len() implies #[trigger] node_ok(new_nodes, max, t) by {
        if t != s && new_nodes.node(t).valid() {
            let src = if t == 0 { s } else { t };
            assert(node_ok(old_nodes, max, src));
            assert forall|e: Direction| true implies child_ok(new_nodes, max, #[trigger] new_nodes.node(t).children.at(e)) by {
                let c = new_nodes.node(t).children.at(e);
                assert(c == old_nodes.node(src).children.at(e));
                if !c.is_leaf() && c.node_slot() == s {
                    assert(is_parent(old_nodes, 0, d, s) && is_parent(old_nodes, src, e, s));
                }
            }
            assert(child_ok(new_nodes, max, new_nodes.node(t).children.at(Direction::Left)));
            assert(child_ok(new_nodes, max, new_nodes.node(t).children.at(Direction::Right)));
        }
    }
    assert forall|a: int, da: Direction, b: int, db: Direction, c: int|
        #[trigger] is_parent(new_nodes, a, da, c) && #[trigger] is_parent(new_nodes, b, db, c) implies a == b && da == db by {
        let oa = if a == 0 { s } else { a };
        let ob = if b == 0 { s } else { b };
        assert(is_parent(old_nodes, oa, da, c));
        assert(is_parent(old_nodes, ob, db, c));
    }
}

/// Emptying the root keeps the other nodes in order.
pub proof fn lemma_clear_root(old_nodes: &Nodes, new_nodes: &Nodes, max: int)
    requires
        links_ok(old_nodes, max),
        parents_unique(old_nodes),
        new_nodes.len() == old_nodes.len(),
        !new_nodes.node(0).valid(),
        forall|t: int| 0 < t < old_nodes.len() ==> #[trigger] new_nodes.node(t) == old_nodes.node(t),
    ensures
        links_ok(new_nodes, max),
        parents_unique(new_nodes),
{
    assert forall|t: int| 0 <= t < new_nodes.len() implies #[trigger] node_ok(new_nodes, max, t) by {
        if t != 0 {
            assert(node_ok(old_nodes, max, t));
        }
    }
    assert forall|a: int, da: Direction, b: int, db: Direction, c: int|
        #[trigger] is_parent(new_nodes, a, da, c) && #[trigger] is_parent(new_nodes, b, db, c) implies a == b && da == db by {
        assert(is_parent(old_nodes, a, da, c));
        assert(is_parent(old_nodes, b, db, c));
    }
}


/// The context after redirection: moved from slot `from` to `to`, and, if
/// given, to a new direction and leaf flag.
pub open spec fn redirected(c: Context, from: int, to: NodeIndex, moved: Option<(Direction, bool)>) -> Context {
    if c.node_index.index == from {
        match moved {
            Some((d, leaf)) => Context { node_index: to, direction_from_parent: Some(d), in_leaf: leaf, ..c },
            None => Context { node_index: to, ..c },
        }
    } else {
        c
    }
}

/// The walk from the node in `slot` down along the bits of the oldest
/// suffix of the window: each node reads the bit at its depth, counted from
/// the window's start. It ends at the node whose child that way is a leaf,
/// with that node's parent and the direction; it fails where a depth
/// reaches past the window or where it takes more steps than there are
/// slots.
pub open spec fn leftmost_walk(
    nodes: &Nodes,
    w: InputWindow,
    slot: int,
    parent: Option<(int, Direction)>,
    steps: int,
) -> Result<(int, Option<(int, Direction)>, Direction), TreeInconsistency>
    decreases nodes.len() - steps,
{
    let n = nodes.node(slot);
    let k = n.depth_of() / 8;
    if k >= w.size_of() {
        Err(TreeInconsistency::OutsideWindow)
    } else {
        let d = if bit_of(w.bytes()[add_spec(w.start_of(), k, w.max())], 7 - n.depth_of() % 8) {
            Direction::Right
        } else {
            Direction::Left
        };
        let c = n.children.at(d);
        if c.is_leaf() {
            Ok((slot, parent, d))
        } else if steps >= nodes.len() {
            Err(TreeInconsistency::NoLeaf)
        } else {
            leftmost_walk(nodes, w, c.node_slot(), Some((slot, d)), steps + 1)
        }
    }
}

/// Whether the contexts whose last occurrence starts at `start` are the
/// highest orders.
pub open spec fn starting_contexts_on_top(items: Seq<Context>, start: int) -> bool {
    forall|i: int, j: int|
        0 <= i < j < items.len() && #[trigger] items[i].suffix_index.index() == start ==> #[trigger] items[j].suffix_index.index()
            == start
}

/// What dropping the oldest suffix of a proper tree gives: the walk to its
/// leaf must succeed. When that leaf is not the oldest position, the
/// contexts that start there must be the highest orders. When it is and its
/// node is not the root, the node must not be its own parent, and if a
/// context is at the node, none may be in that leaf and the leaf's sibling
/// must not be the node's parent.
pub open spec fn removal_outcome(nodes: &Nodes, w: InputWindow, items: Seq<Context>) -> Result<(), TreeInconsistency> {
    match leftmost_walk(nodes, w, 0, None, 0) {
        Err(e) => Err(e),
        Ok((slot, parent, d)) => {
            let n = nodes.node(slot);
            let sibling = n.children.at(d.opposite());
            let parent_slot = match parent {
                Some((p, _)) => p,
                None => 0,
            };
            let node_found = exists|j: int| 0 <= j < items.len() && (#[trigger] items[j]).node_index.index == slot;
            let leaf_found = exists|j: int|
                0 <= j < items.len() && (#[trigger] items[j]).node_index.index == slot && items[j].direction_from_parent
                    == Some(d) && items[j].in_leaf;
            if n.children.at(d).leaf_index() != w.start_of() {
                if starting_contexts_on_top(items, w.start_of()) {
                    Ok(())
                } else {
                    Err(TreeInconsistency::MisplacedContext)
                }
            } else if slot == 0 {
                Ok(())
            } else if parent_slot == slot {
                Err(TreeInconsistency::NoLeaf)
            } else if node_found && leaf_found {
                Err(TreeInconsistency::MisplacedContext)
            } else if node_found && !sibling.is_leaf() && sibling.node_slot() == parent_slot {
                Err(TreeInconsistency::NoLeaf)
            } else {
                Ok(())
            }
        },
    }
}

/// What a successful removal of the oldest suffix does to a proper tree,
/// by where the walk to its leaf ended. When the leaf is not the oldest
/// position the nodes stay and the contexts that start there go. Otherwise
/// the leaf goes with its node: at the root, an inner sibling moves into the
/// root (contexts there follow it), and a leaf sibling leaves an empty,
/// degenerate tree without contexts; below the root, the parent takes the
/// sibling in the node's place, or, when a context is at the node and the
/// sibling is a leaf, a leaf at the node's text start; contexts at the node
/// move to the parent or the sibling, and an inner sibling that they move
/// to takes the node's text start.
pub open spec fn removal_effect(
    before: &Nodes,
    after: &Nodes,
    w: InputWindow,
    old_items: Seq<Context>,
    new_items: Seq<Context>,
    state: TreeState,
) -> bool {
    match leftmost_walk(before, w, 0, None, 0) {
        Err(_) => false,
        Ok((slot, parent, d)) => {
            let n = before.node(slot);
            let sibling = n.children.at(d.opposite());
            let start = w.start_of();
            let node_found = exists|j: int| 0 <= j < old_items.len() && (#[trigger] old_items[j]).node_index.index == slot;
            if n.children.at(d).leaf_index() != start {
                &&& *after == *before
                &&& state == TreeState::Proper
                &&& new_items.len() <= old_items.len()
                &&& new_items == old_items.subrange(0, new_items.len() as int)
                &&& forall|i: int| 0 <= i < new_items.len() ==> (#[trigger] old_items[i]).suffix_index.index() != start
                &&& forall|i: int| new_items.len() <= i < old_items.len() ==> (#[trigger] old_items[i]).suffix_index.index()
                    == start
            } else if slot == 0 {
                if !sibling.is_leaf() {
                    let s = sibling.node_slot();
                    &&& state == TreeState::Proper
                    &&& after.len() == before.len()
                    &&& after.free_slots() == seq![s] + before.free_slots()
                    &&& after.node(0) == (Node { text_start: n.text_start, ..before.node(s) })
                    &&& !after.node(s).valid()
                    &&& forall|t: int| 0 < t < before.len() && t != s ==> #[trigger] after.node(t) == before.node(t)
                    &&& new_items.len() == old_items.len()
                    &&& forall|i: int| 0 <= i < old_items.len() ==> #[trigger] new_items[i] == redirected(
                        old_items[i],
                        s,
                        NodeIndex { index: 0 },
                        None,
                    )
                } else {
                    &&& state == TreeState::Degenerate
                    &&& new_items.len() == 0
                    &&& after.len() == before.len()
                    &&& after.free_slots() == before.free_slots()
                    &&& !after.node(0).valid()
                    &&& forall|t: int| 0 < t < before.len() ==> #[trigger] after.node(t) == before.node(t)
                }
            } else {
                let (p, pd) = match parent {
                    Some(pair) => pair,
                    None => (0int, Direction::Left),
                };
                let moves_to_sibling = node_found && !sibling.is_leaf();
                let s = sibling.node_slot();
                &&& state == TreeState::Proper
                &&& after.len() == before.len()
                &&& after.free_slots() == seq![slot] + before.free_slots()
                &&& !after.node(slot).valid()
                &&& after.node(p) == (Node { children: after.node(p).children, ..before.node(p) })
                &&& after.node(p).children.at(pd.opposite()) == before.node(p).children.at(pd.opposite())
                &&& node_found && sibling.is_leaf() ==> after.node(p).children.at(pd).is_leaf()
                    && after.node(p).children.at(pd).leaf_index() == n.text_start
                &&& !(node_found && sibling.is_leaf()) ==> after.node(p).children.at(pd) == sibling
                &&& moves_to_sibling ==> after.node(s) == (Node { text_start: n.text_start, ..before.node(s) })
                &&& forall|t: int| 0 <= t < before.len() && t != p && t != slot && !(moves_to_sibling && t == s) ==> #[trigger] after.node(t)
                    == before.node(t)
                &&& new_items.len() == old_items.len()
                &&& forall|i: int| 0 <= i < old_items.len() ==> #[trigger] new_items[i] == (if node_found {
                    redirected(
                        old_items[i],
                        slot,
                        NodeIndex { index: (if sibling.is_leaf() { p } else { s }) as usize },
                        Some((pd, sibling.is_leaf())),
                    )
                } else {
                    old_items[i]
                })
            }
        },
    }
}

/// Points the contexts at slot `from` to `to` instead.
fn redirect_contexts(contexts: &mut ActiveContexts, from: usize, to: NodeIndex, moved: Option<(Direction, bool)>)
    ensures
        final(contexts).max_order_of() == old(contexts).max_order_of(),
        final(contexts).view_items().len() == old(contexts).view_items().len(),
        forall|i: int| 0 <= i < old(contexts).view_items().len() ==> #[trigger] final(contexts).view_items()[i]
            == redirected(old(contexts).view_items()[i], from as int, to, moved),
{
    let mut i: usize = 0;
    while i < contexts.items.len()
        invariant
            i <= contexts.items.len(),
            contexts.max_order == old(contexts).max_order,
            contexts.items.len() == old(contexts).items.len(),
            forall|k: int| 0 <= k < i ==> #[trigger] contexts.items@[k] == redirected(old(contexts).items@[k], from as int, to, moved),
            forall|k: int| i <= k < contexts.items.len() ==> #[trigger] contexts.items@[k] == old(contexts).items@[k],
        decreases contexts.items.len() - i,
    {
        let ctx = contexts.items[i];
        if ctx.node_index.index == from {
            let new_ctx = match moved {
                Some((d, leaf)) => Context { node_index: to, direction_from_parent: Some(d), in_leaf: leaf, ..ctx },
                None => Context { node_index: to, ..ctx },
            };
            contexts.items.set(i, new_ctx);
        }
        i += 1;
    }
}

impl<'a> Tree<'a> {
    /// Replaces the child of a present node in a direction.
    fn set_child(&mut self, slot: usize, direction: Direction, child: NodeChild)
        requires
            old(self).nodes_of().wf(),
            slot < old(self).nodes_of().len(),
            old(self).nodes_of().node(slot as int).valid(),
        ensures
            final(self).nodes_of().wf(),
            final(self).window_of() == old(self).window_of(),
            final(self).state_of() == old(self).state_of(),
            final(self).luts_of() == old(self).luts_of(),
            final(self).nodes_of().free_slots() == old(self).nodes_of().free_slots(),
            final(self).nodes_of().slots() == old(self).nodes_of().slots().update(
                slot as int,
                Node {
                    children: final(self).nodes_of().node(slot as int).children,
                    ..old(self).nodes_of().node(slot as int)
                },
            ),
            final(self).nodes_of().node(slot as int).children.at(direction) == child,
            final(self).nodes_of().node(slot as int).children.at(direction.opposite())
                == old(self).nodes_of().node(slot as int).children.at(direction.opposite()),
    {
        proof {
            self.nodes.lemma_wf();
        }
        let mut node = self.nodes.get(NodeIndex::new(slot));
        node.children.set(direction, child);
        self.nodes.update_node(NodeIndex::new(slot), node);
    }

    /// Drops the oldest byte of the window and the leaf of the suffix that
    /// starts there, with the node above it when that node is left with a
    /// single child. Contexts at a removed node move to the node that takes
    /// its place; contexts whose last occurrence started at the dropped byte
    /// are dropped.
    pub fn remove_leftmost_suffix(&mut self, contexts: &mut ActiveContexts) -> (r: Result<(), TreeInconsistency>)
        requires
            old(self).wf(),
            old(self).contexts_ok(old(contexts)),
            old(self).window_of().size_of() > 0,
        ensures
            final(self).wf(),
            final(self).contexts_ok(final(contexts)),
            final(self).luts_of() == old(self).luts_of(),
            final(contexts).max_order_of() == old(contexts).max_order_of(),
            final(contexts).view_items().len() <= old(contexts).view_items().len(),
            r is Ok ==> final(self).window_of().size_of() == old(self).window_of().size_of() - 1,
            r is Ok ==> final(self).window_of().max() == old(self).window_of().max(),
            r is Ok ==> final(self).window_of().cursor_of() == old(self).window_of().cursor_of(),
            r is Ok ==> final(self).window_of().bytes() == old(self).window_of().bytes().update(
                old(self).window_of().start_of(),
                0u8,
            ),
            r is Ok ==> final(self).window_of().start_of() == next_position(
                old(self).window_of().start_of(),
                old(self).window_of().max(),
            ),
            r is Ok ==> forall|i: int| 0 <= i < final(contexts).view_items().len() ==> {
                &&& (#[trigger] final(contexts).view_items()[i]).suffix_index == old(contexts).view_items()[i].suffix_index
                &&& final(contexts).view_items()[i].incoming_edge_visits_count
                    == old(contexts).view_items()[i].incoming_edge_visits_count
            },
            r is Err ==> final(self).window_of() == old(self).window_of() && final(self).nodes_of() == old(self).nodes_of()
                && final(self).state_of() == old(self).state_of() && *final(contexts) == *old(contexts),
            old(self).state_of() == TreeState::Degenerate ==> r is Ok && final(self).nodes_of() == old(self).nodes_of()
                && final(self).state_of() == TreeState::Degenerate && *final(contexts) == *old(contexts),
            old(self).state_of() == TreeState::Proper ==> r == removal_outcome(
                &old(self).nodes_of(),
                old(self).window_of(),
                old(contexts).view_items(),
            ),
            old(self).state_of() == TreeState::Proper && r is Ok ==> removal_effect(
                &old(self).nodes_of(),
                &final(self).nodes_of(),
                old(self).window_of(),
                old(contexts).view_items(),
                final(contexts).view_items(),
                final(self).state_of(),
            ),
    {
        proof {
            self.window.lemma_wf();
            self.window.lemma_ends_live();
            self.nodes.lemma_wf();
        }
        let max = Ghost(self.window.max());
        if self.tree_state == TreeState::Degenerate {
            self.window.advance_start();
            return Ok(());
        }
        let mut parent_node_index_opt: Option<usize> = None;
        let mut node_direction_opt: Option<Direction> = None;
        let mut node_index: usize = 0;
        let mut steps: usize = 0;
        let leaf_direction;
        let leaf_sibling;
        loop
            invariant
                self.wf(),
                self.state_of() == TreeState::Proper,
                *self == *old(self),
                *contexts == *old(contexts),
                self.contexts_ok(contexts),
                self.window_of().size_of() > 0,
                max@ == self.window_of().max(),
                node_index < self.nodes_of().len(),
                self.nodes_of().node(node_index as int).valid(),
                steps <= self.nodes_of().len(),
                parent_node_index_opt is None <==> node_index == 0,
                parent_node_index_opt is None <==> node_direction_opt is None,
                parent_node_index_opt is Some ==> is_parent(
                    &self.nodes_of(),
                    parent_node_index_opt->0 as int,
                    node_direction_opt->0,
                    node_index as int,
                ),
                leftmost_walk(&self.nodes_of(), self.window_of(), 0, None, 0) == leftmost_walk(
                    &self.nodes_of(),
                    self.window_of(),
                    node_index as int,
                    match parent_node_index_opt {
                    Some(p) => Some((p as int, node_direction_opt->0)),
                    None => None,
                },
                    steps as int,
                ),
            ensures
                node_index < self.nodes_of().len(),
                self.nodes_of().node(node_index as int).valid(),
                parent_node_index_opt is None <==> node_index == 0,
                parent_node_index_opt is None <==> node_direction_opt is None,
                parent_node_index_opt is Some ==> is_parent(
                    &self.nodes_of(),
                    parent_node_index_opt->0 as int,
                    node_direction_opt->0,
                    node_index as int,
                ),
                self.nodes_of().node(node_index as int).children.at(leaf_direction).is_leaf(),
                leaf_sibling == self.nodes_of().node(node_index as int).children.at(leaf_direction.opposite()),
                leftmost_walk(&self.nodes_of(), self.window_of(), 0, None, 0) == Ok::<
                    (int, Option<(int, Direction)>, Direction),
                    TreeInconsistency,
                >((node_index as int, match parent_node_index_opt {
                    Some(p) => Some((p as int, node_direction_opt->0)),
                    None => None,
                }, leaf_direction)),
            decreases self.nodes_of().len() - steps,
        {
            let node = self.nodes.get(NodeIndex::new(node_index));
            proof {
                assert(node_ok(&self.nodes_of(), max@, node_index as int));
                self.window.lemma_ends_live();
            }
            let depth = node.depth();
            let byte_index = match self.window.checked_forward(self.window.start(), depth / 8) {
                Some(b) => b,
                None => return Err(TreeInconsistency::OutsideWindow),
            };
            let direction = Direction::from_bool(self.window.get_bit(byte_index, 7 - depth % 8));
            let child = node.child(direction);
            if child.is_node_index() {
                if steps >= self.nodes.items_len() {
                    return Err(TreeInconsistency::NoLeaf);
                }
                parent_node_index_opt = Some(node_index);
                node_direction_opt = Some(direction);
                node_index = child.to_node_index().index;
                steps += 1;
            } else {
                leaf_direction = direction;
                leaf_sibling = node.child(direction.negated());
                break;
            }
        }
        proof {
            assert(node_ok(&self.nodes_of(), max@, node_index as int));
        }
        let node = self.nodes.get(NodeIndex::new(node_index));
        let leaf_window_index = node.child(leaf_direction).to_window_index();
        let ghost walk_end = (node_index as int, match parent_node_index_opt {
            Some(p) => Some((p as int, node_direction_opt->0)),
            None => None,
        }, leaf_direction);
        let mut node_found_in_active_contexts = false;
        let mut leaf_found_in_active_contexts = false;
        let mut k: usize = 0;
        while k < contexts.items.len()
            invariant
                k <= contexts.items.len(),
                *contexts == *old(contexts),
                *self == *old(self),
                self.wf(),
                self.contexts_ok(contexts),
                node_found_in_active_contexts <==> exists|j: int| 0 <= j < k
                    && (#[trigger] contexts.items@[j]).node_index.index == node_index,
                leaf_found_in_active_contexts <==> exists|j: int| 0 <= j < k
                    && (#[trigger] contexts.items@[j]).node_index.index == node_index
                    && contexts.items@[j].direction_from_parent == Some(leaf_direction) && contexts.items@[j].in_leaf,
            decreases contexts.items.len() - k,
        {
            let ctx = contexts.items[k];
            if ctx.node_index.index == node_index {
                node_found_in_active_contexts = true;
                if ctx.direction_from_parent == Some(leaf_direction) && ctx.in_leaf {
                    leaf_found_in_active_contexts = true;
                }
            }
            k += 1;
        }
        let start = self.window.start();
        if leaf_window_index.raw() != start.raw() {
            let count = contexts.items.len();
            let mut new_active_contexts_count = count;
            let mut order = count;
            while order > 0
                invariant
                    order <= new_active_contexts_count <= count,
                    count == contexts.items.len(),
                    *contexts == *old(contexts),
                    *self == *old(self),
                    self.wf(),
                    self.contexts_ok(contexts),
                    start.index() == self.window_of().start_of(),
                    self.state_of() == TreeState::Proper,
                    leftmost_walk(&self.nodes_of(), self.window_of(), 0, None, 0) == Ok::<
                        (int, Option<(int, Direction)>, Direction),
                        TreeInconsistency,
                    >(walk_end),
                    self.nodes_of().node(walk_end.0).children.at(walk_end.2).leaf_index() != start.index(),
                    forall|j: int| order <= j < new_active_contexts_count ==> (#[trigger] contexts.items@[j]).suffix_index.index()
                        != start.index(),
                    forall|j: int| new_active_contexts_count <= j < count ==> (#[trigger] contexts.items@[j]).suffix_index.index()
                        == start.index(),
                decreases order,
            {
                order -= 1;
                if contexts.items[order].suffix_index.raw() == start.raw() {
                    new_active_contexts_count -= 1;
                    if new_active_contexts_count != order {
                        proof {
                            let items = contexts.view_items();
                            assert(items[order as int].suffix_index.index() == start.index());
                            assert(items[new_active_contexts_count as int].suffix_index.index() != start.index());
                            assert(!starting_contexts_on_top(items, start.index() as int));
                        }
                        return Err(TreeInconsistency::MisplacedContext);
                    }
                }
            }
            contexts.keep_only(new_active_contexts_count);
            proof {
                assert forall|i: int| 0 <= i < contexts.view_items().len() implies #[trigger] context_ok(
                    &self.nodes_of(), max@, contexts.view_items()[i]) by {
                    assert(context_ok(&self.nodes_of(), max@, old(contexts).view_items()[i]));
                }
            }
            self.window.advance_start();
            return Ok(());
        }
        if node_index == 0 {
            if leaf_sibling.is_node_index() {
                let sibling_index = leaf_sibling.to_node_index();
                let ghost old_nodes = self.nodes_of();
                let mut sibling_node = self.nodes.get(sibling_index);
                sibling_node.text_start = node.text_start;
                proof {
                    assert(is_parent(&old_nodes, 0, leaf_direction.opposite(), sibling_index.index as int));
                    assert(node_ok(&old_nodes, max@, sibling_index.index as int));
                }
                self.nodes.update_node(NodeIndex::new(0), sibling_node);
                let ghost mid_nodes = self.nodes_of();
                self.nodes.delete_node(sibling_index);
                proof {
                    let new_nodes = self.nodes_of();
                    let si = sibling_index.index as int;
                    assert forall|t: int| 0 <= t < old_nodes.len() && t != 0 && t != si implies {
                        &&& #[trigger] new_nodes.node(t).valid() == old_nodes.node(t).valid()
                        &&& new_nodes.node(t).children == old_nodes.node(t).children
                        &&& new_nodes.node(t).valid() ==> new_nodes.node(t).text_start < max@ && new_nodes.node(t).state_ok()
                    } by {
                        assert(new_nodes.node(t) == mid_nodes.node(t));
                        assert(mid_nodes.node(t) == old_nodes.node(t));
                        assert(node_ok(&old_nodes, max@, t));
                    }
                    assert(new_nodes.node(0) == mid_nodes.node(0));
                    lemma_lift_into_root(&old_nodes, &self.nodes_of(), max@, leaf_direction.opposite(), sibling_index.index as int);
                }
                redirect_contexts(contexts, sibling_index.index, NodeIndex::new(0), None);
                proof {
                    let new_nodes = self.nodes_of();
                    assert forall|i: int| 0 <= i < contexts.view_items().len() implies #[trigger] context_ok(
                        &new_nodes, max@, contexts.view_items()[i]) by {
                        let c = old(contexts).view_items()[i];
                        assert(context_ok(&old_nodes, max@, c));
                        let t = c.node_index.index as int;
                        if t != sibling_index.index as int && t != 0 {
                            assert(new_nodes.node(t) == mid_nodes.node(t));
                            assert(mid_nodes.node(t) == old_nodes.node(t));
                        }
                    }
                }
            } else {
                let ghost old_nodes = self.nodes_of();
                self.tree_state = TreeState::Degenerate;
                contexts.keep_only(0);
                self.nodes.update_node(NodeIndex::new(0), Node::invalid());
                proof {
                    lemma_clear_root(&old_nodes, &self.nodes_of(), max@);
                }
            }
        } else {
            let parent_node_index = parent_node_index_opt.unwrap();
            let node_direction = node_direction_opt.unwrap();
            if parent_node_index == node_index {
                return Err(TreeInconsistency::NoLeaf);
            }
            if node_found_in_active_contexts {
                if leaf_found_in_active_contexts {
                    return Err(TreeInconsistency::MisplacedContext);
                }
                if leaf_sibling.is_window_index() {
                    let ghost old_nodes = self.nodes_of();
                    let replacement = NodeChild::from_window_index(node.text_start());
                    proof {
                        assert(node_ok(&old_nodes, max@, parent_node_index as int));
                        assert(node_ok(&old_nodes, max@, node_index as int));
                    }
                    self.set_child(parent_node_index, node_direction, replacement);
                    let ghost mid_nodes = self.nodes_of();
                    self.nodes.delete_node(NodeIndex::new(node_index));
                    proof {
                        let new_nodes = self.nodes_of();
                        let (pp, nn) = (parent_node_index as int, node_index as int);
                        assert forall|t: int| 0 <= t < old_nodes.len() && t != pp && t != nn implies {
                            &&& #[trigger] new_nodes.node(t).valid() == old_nodes.node(t).valid()
                            &&& new_nodes.node(t).children == old_nodes.node(t).children
                            &&& new_nodes.node(t).valid() ==> new_nodes.node(t).text_start < max@ && new_nodes.node(t).state_ok()
                        } by {
                            assert(new_nodes.node(t) == mid_nodes.node(t));
                            assert(node_ok(&old_nodes, max@, t));
                            assert(mid_nodes.node(t) == old_nodes.node(t));
                        }
                        assert(new_nodes.node(pp) == mid_nodes.node(pp));

                        lemma_splice(&old_nodes, &self.nodes_of(), max@, parent_node_index as int, node_direction,
                            node_index as int, replacement, leaf_direction.opposite());
                    }
                    redirect_contexts(contexts, node_index, NodeIndex::new(parent_node_index),
                        Some((node_direction, true)));
                    proof {
                        let new_nodes = self.nodes_of();
                        assert forall|i: int| 0 <= i < contexts.view_items().len() implies #[trigger] context_ok(
                            &new_nodes, max@, contexts.view_items()[i]) by {
                            let c = old(contexts).view_items()[i];
                            assert(context_ok(&old_nodes, max@, c));
                            let t = c.node_index.index as int;
                            if t != node_index as int && t != parent_node_index as int {
                                assert(new_nodes.node(t) == mid_nodes.node(t));
                                assert(mid_nodes.node(t) == old_nodes.node(t));
                            }
                        }
                    }
                } else {
                    let ghost old_nodes = self.nodes_of();
                    let sibling_index = leaf_sibling.to_node_index();
                    if sibling_index.index == parent_node_index {
                        return Err(TreeInconsistency::NoLeaf);
                    }
                    proof {
                        assert(is_parent(&old_nodes, node_index as int, leaf_direction.opposite(), sibling_index.index as int));
                        assert(node_ok(&old_nodes, max@, node_index as int));
                        assert(node_ok(&old_nodes, max@, parent_node_index as int));
                        assert(node_ok(&old_nodes, max@, sibling_index.index as int));
                        if sibling_index.index == parent_node_index {
                            assert(is_parent(&old_nodes, node_index as int, leaf_direction.opposite(), parent_node_index as int));
                        }
                    }
                    let mut sibling_node = self.nodes.get(sibling_index);
                    sibling_node.text_start = node.text_start;
                    self.nodes.update_node(sibling_index, sibling_node);
                    let ghost first_nodes = self.nodes_of();
                    self.set_child(parent_node_index, node_direction, leaf_sibling);
                    let ghost mid_nodes = self.nodes_of();
                    self.nodes.delete_node(NodeIndex::new(node_index));
                    proof {
                        let new_nodes = self.nodes_of();
                        let (pp, nn) = (parent_node_index as int, node_index as int);
                        assert forall|t: int| 0 <= t < old_nodes.len() && t != pp && t != nn implies {
                            &&& #[trigger] new_nodes.node(t).valid() == old_nodes.node(t).valid()
                            &&& new_nodes.node(t).children == old_nodes.node(t).children
                            &&& new_nodes.node(t).valid() ==> new_nodes.node(t).text_start < max@ && new_nodes.node(t).state_ok()
                        } by {
                            assert(new_nodes.node(t) == mid_nodes.node(t));
                            assert(node_ok(&old_nodes, max@, t));
                            assert(mid_nodes.node(t) == first_nodes.node(t));
                            if t == sibling_index.index as int {
                                assert(first_nodes.node(t) == sibling_node);
                            } else {
                                assert(first_nodes.node(t) == old_nodes.node(t));
                            }
                        }
                        assert(new_nodes.node(pp) == mid_nodes.node(pp));

                        assert(first_nodes.node(pp) == old_nodes.node(pp));
                        lemma_splice(&old_nodes, &self.nodes_of(), max@, parent_node_index as int, node_direction,
                            node_index as int, leaf_sibling, leaf_direction.opposite());
                    }
                    redirect_contexts(contexts, node_index, sibling_index, Some((node_direction, false)));
                    proof {
                        let new_nodes = self.nodes_of();
                        assert(new_nodes.node(sibling_index.index as int) == mid_nodes.node(sibling_index.index as int));
                        assert(mid_nodes.node(sibling_index.index as int) == first_nodes.node(sibling_index.index as int));
                        assert forall|i: int| 0 <= i < contexts.view_items().len() implies #[trigger] context_ok(
                            &new_nodes, max@, contexts.view_items()[i]) by {
                            let c = old(contexts).view_items()[i];
                            assert(context_ok(&old_nodes, max@, c));
                            let t = c.node_index.index as int;
                            if t != node_index as int && t != parent_node_index as int {
                                assert(new_nodes.node(t) == mid_nodes.node(t));
                                assert(mid_nodes.node(t) == first_nodes.node(t));
                            }
                        }
                    }
                }
            } else {
                let ghost old_nodes = self.nodes_of();
                proof {
                    assert(node_ok(&old_nodes, max@, parent_node_index as int));
                    assert(node_ok(&old_nodes, max@, node_index as int));
                }
                self.set_child(parent_node_index, node_direction, leaf_sibling);
                let ghost mid_nodes = self.nodes_of();
                self.nodes.delete_node(NodeIndex::new(node_index));
                proof {
                        let new_nodes = self.nodes_of();
                        let (pp, nn) = (parent_node_index as int, node_index as int);
                        assert forall|t: int| 0 <= t < old_nodes.len() && t != pp && t != nn implies {
                            &&& #[trigger] new_nodes.node(t).valid() == old_nodes.node(t).valid()
                            &&& new_nodes.node(t).children == old_nodes.node(t).children
                            &&& new_nodes.node(t).valid() ==> new_nodes.node(t).text_start < max@ && new_nodes.node(t).state_ok()
                        } by {
                            assert(new_nodes.node(t) == mid_nodes.node(t));
                            assert(node_ok(&old_nodes, max@, t));
                            assert(mid_nodes.node(t) == old_nodes.node(t));
                        }
                        assert(new_nodes.node(pp) == mid_nodes.node(pp));

                    lemma_splice(&old_nodes, &self.nodes_of(), max@, parent_node_index as int, node_direction,
                        node_index as int, leaf_sibling, leaf_direction.opposite());
                    assert forall|i: int| 0 <= i < contexts.view_items().len() implies #[trigger] context_ok(
                        &new_nodes, max@, contexts.view_items()[i]) by {
                        let c = contexts.view_items()[i];
                        assert(context_ok(&old_nodes, max@, c));
                        let t = c.node_index.index as int;
                        assert(t != node_index as int);
                        if t != parent_node_index as int {
                            assert(new_nodes.node(t) == mid_nodes.node(t));
                        }
                    }
                }
            }
        }
        self.window.advance_start();
        Ok(())
    }
}


/// What starting the contexts of a new byte does on a proper tree: the
/// highest order falls off when all `max_order + 1` are in use, the others
/// move up one order, and the new order-0 context is at the root, not in a
/// leaf, with its last occurrence one byte before the cursor and the root's
/// visits, capped at 63, as its count; the root's text starts at the cursor
/// and every other node stays.
pub open spec fn shift_effect(
    before: &Nodes,
    after: &Nodes,
    w: InputWindow,
    old_items: Seq<Context>,
    new_items: Seq<Context>,
    max_order: int,
) -> bool {
    let first = new_items[0];
    let root = before.node(0);
    let visits = root.left_count_of() + root.right_count_of();
    &&& new_items.len() == (if old_items.len() == max_order + 1 { old_items.len() } else { old_items.len() + 1 })
    &&& first.suffix_index.index() == subtract_spec(w.cursor_of(), 1, w.max())
    &&& first.node_index.index == 0
    &&& !first.in_leaf
    &&& first.direction_from_parent is None
    &&& first.incoming_edge_visits_count == (if visits < 63 { visits } else { 63 })
    &&& forall|i: int| 1 <= i < new_items.len() ==> #[trigger] new_items[i] == old_items[i - 1]
    &&& after.slots() == before.slots().update(0, Node { text_start: w.cursor_of() as u32, ..root })
}

impl ActiveContexts {
    /// Starts the contexts of a new byte: the order-0 context at the root
    /// comes first and the others move up one order; the highest order
    /// falls off when all are in use. The root's text now starts at the
    /// cursor.
    pub fn shift(&mut self, tree: &mut Tree) -> (r: Result<(), TreeInconsistency>)
        requires
            old(tree).wf(),
            old(tree).contexts_ok(old(self)),
            old(tree).window_of().size_of() > 0,
        ensures
            final(tree).wf(),
            final(tree).contexts_ok(final(self)),
            final(tree).window_of() == old(tree).window_of(),
            final(tree).state_of() == old(tree).state_of(),
            final(tree).luts_of() == old(tree).luts_of(),
            final(self).max_order_of() == old(self).max_order_of(),
            r is Ok <==> old(tree).state_of() == TreeState::Degenerate || old(tree).window_of().size_of() >= 2,
            r is Err ==> *final(tree) == *old(tree) && *final(self) == *old(self),
            r is Ok && old(tree).state_of() == TreeState::Proper ==> shift_effect(
                &old(tree).nodes_of(),
                &final(tree).nodes_of(),
                old(tree).window_of(),
                old(self).view_items(),
                final(self).view_items(),
                old(self).max_order_of(),
            ),
            old(tree).state_of() == TreeState::Degenerate ==> *final(self) == *old(self) && *final(tree) == *old(tree),
    {
        if tree.tree_state == TreeState::Degenerate {
            return Ok(());
        }
        proof {
            tree.window.lemma_ends_live();
            tree.nodes.lemma_wf();
        }
        let cursor = tree.window.cursor();
        let suffix_index = match tree.window.checked_back(cursor, 1) {
            Some(i) => i,
            None => return Err(TreeInconsistency::OutsideWindow),
        };
        let ghost old_items = self.items@;
        if self.max_order + 1 == self.items.len() {
            self.items.pop();
        }
        let ghost kept = self.items@;
        tree.set_text_start(0, cursor);
        let root = tree.nodes.get(NodeIndex::new(0));
        let visits = root.left_count() as u32 + root.right_count() as u32;
        let incoming_edge_visits_count: i32 = if visits < 63 {
            visits as i32
        } else {
            63
        };
        self.items.insert(
            0,
            Context {
                suffix_index,
                node_index: NodeIndex::new(0),
                in_leaf: false,
                incoming_edge_visits_count,
                direction_from_parent: None,
            },
        );
        proof {
            assert forall|i: int| 0 <= i < self.view_items().len() implies #[trigger] context_ok(
                &tree.nodes_of(), tree.window_of().max(), self.view_items()[i]) by {
                if i > 0 {
                    assert(self.view_items()[i] == kept[i - 1]);
                    assert(kept[i - 1] == old_items[i - 1]);
                    assert(context_ok(&old(tree).nodes_of(), tree.window_of().max(), old_items[i - 1]));
                }
            }
            assert forall|i: int| 1 <= i < self.view_items().len() implies #[trigger] self.view_items()[i]
                == old_items[i - 1] by {
                assert(self.view_items()[i] == kept[i - 1]);
            }
        }
        Ok(())
    }
}

impl<'a> Tree<'a> {
    /// Makes room for the next byte: when the window is full its oldest
    /// byte and suffix go first; then the cursor moves to a new empty byte.
    pub fn start_new_byte(&mut self, contexts: &mut ActiveContexts) -> (r: Result<(), TreeInconsistency>)
        requires
            old(self).wf(),
            old(self).contexts_ok(old(contexts)),
        ensures
            final(self).wf(),
            final(self).contexts_ok(final(contexts)),
            final(self).luts_of() == old(self).luts_of(),
            final(contexts).max_order_of() == old(contexts).max_order_of(),
            final(self).window_of().max() == old(self).window_of().max(),
            final(self).window_of().size_of() > 0,
            r is Ok ==> final(self).window_of().size_of() == (if old(self).window_of().size_of() == old(self).window_of().max() {
                old(self).window_of().size_of()
            } else {
                old(self).window_of().size_of() + 1
            }),
            old(self).window_of().size_of() < old(self).window_of().max() || old(self).state_of() == TreeState::Degenerate
                ==> r is Ok,
            old(self).state_of() == TreeState::Degenerate ==> final(self).state_of() == TreeState::Degenerate,
            r is Err ==> final(self).window_of() == old(self).window_of() && final(self).nodes_of() == old(self).nodes_of()
                && final(self).state_of() == old(self).state_of() && *final(contexts) == *old(contexts),
            old(self).window_of().size_of() < old(self).window_of().max() || old(self).state_of() == TreeState::Degenerate
                ==> final(self).nodes_of() == old(self).nodes_of() && *final(contexts) == *old(contexts)
                && final(self).state_of() == old(self).state_of(),
            old(self).window_of().size_of() == old(self).window_of().max() && old(self).state_of() == TreeState::Proper
                ==> r == removal_outcome(&old(self).nodes_of(), old(self).window_of(), old(contexts).view_items()),
            old(self).window_of().size_of() == old(self).window_of().max() && old(self).state_of() == TreeState::Proper
                && r is Ok ==> removal_effect(
                &old(self).nodes_of(),
                &final(self).nodes_of(),
                old(self).window_of(),
                old(contexts).view_items(),
                final(contexts).view_items(),
                final(self).state_of(),
            ),
            r is Ok ==> final(self).window_of().cursor_of() == next_position(
                old(self).window_of().cursor_of(),
                old(self).window_of().max(),
            ),
            r is Ok ==> final(self).window_of().start_of() == (if old(self).window_of().size_of() == old(
                self,
            ).window_of().max() {
                next_position(old(self).window_of().start_of(), old(self).window_of().max())
            } else {
                old(self).window_of().start_of()
            }),
            r is Ok ==> final(self).window_of().bytes() == (if old(self).window_of().is_full() {
                (if old(self).window_of().size_of() == old(self).window_of().max() {
                    old(self).window_of().bytes().update(old(self).window_of().start_of(), 0u8)
                } else {
                    old(self).window_of().bytes()
                }).update(final(self).window_of().cursor_of(), 0u8)
            } else {
                old(self).window_of().bytes().push(0u8)
            }),
    {
        proof {
            self.window.lemma_wf();
        }
        if self.window.size() == self.window.max_size() {
            match self.remove_leftmost_suffix(contexts) {
                Ok(()) => {},
                Err(e) => return Err(e),
            }
        }
        self.window.advance_cursor();
        Ok(())
    }

    /// The states of the contexts of the next bit, which has `bit_index`
    /// in its byte: at a node, the node's state; inside an edge that was
    /// visited before, the edge's repeated bit and count. When the tree is
    /// degenerate every context of the window is a run of one bit.
    pub fn gather_states(
        &self,
        contexts: &ActiveContexts,
        collected_states: &mut CollectedContextStates,
        bit_index: usize,
    ) -> (r: Result<(), TreeInconsistency>)
        requires
            self.wf(),
            self.contexts_ok(contexts),
            old(collected_states).items_view().len() == 0,
            old(collected_states).limit_of() == contexts.max_order_of() + 1,
            bit_index < 8,
            self.window_of().size_of() > 0,
        ensures
            final(collected_states).limit_of() == old(collected_states).limit_of(),
            forall|i: int| 0 <= i < final(collected_states).items_view().len() ==> (#[trigger] final(collected_states).items_view()[i]).wf(),
            self.state_of() == TreeState::Proper ==> final(collected_states).items_view().len() <= contexts.view_items().len(),
            self.state_of() == TreeState::Proper ==> (r is Ok <==> forall|k: int|
                0 <= k < contexts.view_items().len() ==> #[trigger] context_readable(
                    self.window_of(),
                    &self.nodes_of(),
                    contexts.view_items()[k],
                    k,
                    bit_index as int,
                )),
            self.state_of() == TreeState::Proper && r is Ok ==> final(collected_states).items_view() == gathered_states(
                self.window_of(),
                &self.nodes_of(),
                contexts.view_items(),
                bit_index as int,
                contexts.view_items().len() as int,
            ),
            self.state_of() == TreeState::Degenerate ==> r is Ok && final(collected_states).items_view().len() == (
            if contexts.max_order_of() + 1 < self.window_of().size_of() - 1 {
                contexts.max_order_of() + 1
            } else {
                self.window_of().size_of() - 1
            }),
            self.state_of() == TreeState::Degenerate ==> forall|i: int| 0 <= i < final(collected_states).items_view().len() ==>
                #[trigger] final(collected_states).items_view()[i] == (ContextState::ForEdge {
                last_occurrence_distance: 1,
                occurrence_count: (if self.window_of().size_of() - i - 1 < MAX_OCCURRENCE_COUNT {
                    self.window_of().size_of() - i - 1
                } else {
                    MAX_OCCURRENCE_COUNT as int
                }) as u16,
                repeated_bit: Bit::of_bool(bit_of(self.window_of().bytes()[self.window_of().start_of()], bit_index as int)),
            }),
    {
        proof {
            self.window.lemma_wf();
            self.window.lemma_ends_live();
        }
        match self.tree_state {
            TreeState::Proper => {
                let cursor = self.window.cursor();
                let mut order: usize = 0;
                while order < contexts.items.len()
                    invariant
                        self.wf(),
                        self.contexts_ok(contexts),
                        bit_index < 8,
                        order <= contexts.items.len(),
                        cursor.index() == self.window_of().cursor_of(),
                        collected_states.limit_of() == contexts.max_order_of() + 1,
                        collected_states.limit_of() == old(collected_states).limit_of(),
                        collected_states.items_view().len() <= order,
                        forall|i: int| 0 <= i < collected_states.items_view().len() ==> (#[trigger] collected_states.items_view()[i]).wf(),
                        collected_states.items_view() == gathered_states(
                            self.window_of(),
                            &self.nodes_of(),
                            contexts.view_items(),
                            bit_index as int,
                            order as int,
                        ),
                        forall|k: int| 0 <= k < order ==> #[trigger] context_readable(
                            self.window_of(),
                            &self.nodes_of(),
                            contexts.view_items()[k],
                            k,
                            bit_index as int,
                        ),
                        self.state_of() == TreeState::Proper,
                        self.window_of().size_of() > 0,
                    decreases contexts.items.len() - order,
                {
                    let context = contexts.items[order];
                    let ghost readable = context_readable(
                        self.window_of(),
                        &self.nodes_of(),
                        contexts.view_items()[order as int],
                        order as int,
                        bit_index as int,
                    );
                    proof {
                        self.window.lemma_ends_live();
                    }
                    proof {
                        assert(context_ok(&self.nodes_of(), self.window_of().max(), contexts.view_items()[order as int]));
                        assert(node_ok(&self.nodes_of(), self.window_of().max(), context.node_index.index as int));
                    }
                    let node = self.nodes.get(context.node_index);
                    let last_occurrence_index = context.suffix_index;
                    let current_occurrence_index = match self.window.checked_back(cursor, order) {
                        Some(i) => i,
                        None => return Err(TreeInconsistency::OutsideWindow),
                    };
                    let last_offset = match self.window.offset_in_window(last_occurrence_index) {
                        Some(o) => o,
                        None => return Err(TreeInconsistency::OutsideWindow),
                    };
                    let current_offset = self.window.offset_in_window(current_occurrence_index).unwrap();
                    if last_offset >= current_offset {
                        return Err(TreeInconsistency::MisplacedContext);
                    }
                    let last_occurrence_distance = current_offset - last_offset;
                    if node.depth() == order * 8 + 7 - bit_index {
                        collected_states.push(
                            ContextState::ForNode {
                                last_occurrence_distance,
                                probability_estimator: node.probability_estimator(),
                                bit_history: node.history_state(),
                                cost_trackers: node.cost_trackers(),
                            },
                        );
                    } else if context.incoming_edge_visits_count > 0 {
                        let repeated_byte = match self.window.checked_forward(last_occurrence_index, order) {
                            Some(i) => i,
                            None => return Err(TreeInconsistency::OutsideWindow),
                        };
                        let repeated_bit = Bit::from_bool(self.window.get_bit(repeated_byte, bit_index));
                        collected_states.push(
                            ContextState::ForEdge {
                                last_occurrence_distance,
                                repeated_bit,
                                occurrence_count: context.incoming_edge_visits_count as u16,
                            },
                        );
                    }
                    order += 1;
                }
                Ok(())
            },
            TreeState::Degenerate => {
                let size = self.window.size();
                let count = if contexts.max_order + 1 < size - 1 {
                    contexts.max_order + 1
                } else {
                    size - 1
                };
                let repeated_bit = Bit::from_bool(self.window.get_bit(self.window.start(), bit_index));
                let mut order: usize = 0;
                while order < count
                    invariant
                        order <= count,
                        count <= contexts.max_order_of() + 1,
                        count <= size - 1,
                        size == self.window_of().size_of(),
                        collected_states.limit_of() == contexts.max_order_of() + 1,
                        collected_states.limit_of() == old(collected_states).limit_of(),
                        collected_states.items_view().len() == order,
                        repeated_bit == Bit::of_bool(bit_of(self.window_of().bytes()[self.window_of().start_of()], bit_index as int)),
                        forall|i: int| 0 <= i < order ==> #[trigger] collected_states.items_view()[i] == (ContextState::ForEdge {
                            last_occurrence_distance: 1,
                            occurrence_count: (if size - i - 1 < MAX_OCCURRENCE_COUNT {
                                size - i - 1
                            } else {
                                MAX_OCCURRENCE_COUNT as int
                            }) as u16,
                            repeated_bit,
                        }),
                    decreases count - order,
                {
                    let remaining = size - order - 1;
                    let occurrence_count: u16 = if remaining < MAX_OCCURRENCE_COUNT as usize {
                        remaining as u16
                    } else {
                        MAX_OCCURRENCE_COUNT
                    };
                    collected_states.push(
                        ContextState::ForEdge { last_occurrence_distance: 1, occurrence_count, repeated_bit },
                    );
                    order += 1;
                }
                Ok(())
            },
        }
    }
}


/// Whether no present node has the node in slot `c` as a child.
pub open spec fn has_no_parent(nodes: &Nodes, c: int) -> bool {
    forall|p: int, d: Direction| !#[trigger] is_parent(nodes, p, d, c)
}

/// A slot whose node is not present has no parent.
pub proof fn lemma_absent_has_no_parent(nodes: &Nodes, max: int, c: int)
    requires
        links_ok(nodes, max),
        !(0 <= c < nodes.len()) || !nodes.node(c).valid(),
    ensures
        has_no_parent(nodes, c),
{
    assert forall|p: int, d: Direction| !#[trigger] is_parent(nodes, p, d, c) by {
        if is_parent(nodes, p, d, c) {
            assert(node_ok(nodes, max, p));
            assert(child_ok(nodes, max, nodes.node(p).children.at(d)));
        }
    }
}

/// A new present node `f` whose children are window positions or a present
/// node `prev` without a parent joins the tree; `f` has no parent.
pub proof fn lemma_add_node(old_nodes: &Nodes, new_nodes: &Nodes, max: int, f: int, prev: Option<int>)
    requires
        links_ok(old_nodes, max),
        parents_unique(old_nodes),
        0 <= f < new_nodes.len(),
        old_nodes.len() <= new_nodes.len() <= old_nodes.len() + 1,
        new_nodes.len() == old_nodes.len() + 1 ==> f == old_nodes.len(),
        f < old_nodes.len() ==> !old_nodes.node(f).valid(),
        prev matches Some(q) ==> 0 <= q < old_nodes.len() && old_nodes.node(q).valid() && has_no_parent(old_nodes, q),
        new_nodes.node(f).valid(),
        new_nodes.node(f).text_start < max,
        new_nodes.node(f).state_ok(),
        forall|d: Direction| {
            let c = #[trigger] new_nodes.node(f).children.at(d);
            (c.is_leaf() && c.leaf_index() < max) || (!c.is_leaf() && prev == Some(c.node_slot()))
        },
        !new_nodes.node(f).children.at(Direction::Left).is_leaf() ==> new_nodes.node(f).children.at(
            Direction::Right,
        ).is_leaf(),
        forall|t: int| 0 <= t < old_nodes.len() && t != f ==> #[trigger] new_nodes.node(t) == old_nodes.node(t),
    ensures
        links_ok(new_nodes, max),
        parents_unique(new_nodes),
        has_no_parent(new_nodes, f),
{
    lemma_absent_has_no_parent(old_nodes, max, f);
    assert forall|t: int| 0 <= t < new_nodes.len() implies #[trigger] node_ok(new_nodes, max, t) by {
        if t != f && new_nodes.node(t).valid() {
            assert(node_ok(old_nodes, max, t));
            assert forall|d: Direction| true implies child_ok(new_nodes, max, #[trigger] new_nodes.node(t).children.at(d)) by {
                let c = new_nodes.node(t).children.at(d);
                assert(c == old_nodes.node(t).children.at(d));
                if !c.is_leaf() {
                    assert(child_ok(old_nodes, max, old_nodes.node(t).children.at(d)));
                    if c.node_slot() == f {
                        assert(is_parent(old_nodes, t, d, f));
                    }
                }
            }
            assert(child_ok(new_nodes, max, new_nodes.node(t).children.at(Direction::Left)));
            assert(child_ok(new_nodes, max, new_nodes.node(t).children.at(Direction::Right)));
        }
        if t == f {
            assert forall|d: Direction| true implies child_ok(new_nodes, max, #[trigger] new_nodes.node(f).children.at(d)) by {
                let c = new_nodes.node(f).children.at(d);
                if !c.is_leaf() {
                    let q = c.node_slot();
                    assert(q != f);
                    assert(new_nodes.node(q) == old_nodes.node(q));
                }
            }
            assert(child_ok(new_nodes, max, new_nodes.node(f).children.at(Direction::Left)));
            assert(child_ok(new_nodes, max, new_nodes.node(f).children.at(Direction::Right)));
        }
    }
    assert forall|p: int, d: Direction| !#[trigger] is_parent(new_nodes, p, d, f) by {
        if is_parent(new_nodes, p, d, f) {
            if p != f {
                assert(is_parent(old_nodes, p, d, f));
            } else {
                assert(prev == Some(f));
            }
        }
    }
    assert forall|a: int, da: Direction, b: int, db: Direction, c: int|
        #[trigger] is_parent(new_nodes, a, da, c) && #[trigger] is_parent(new_nodes, b, db, c) implies a == b && da == db by {
        if a == f || b == f {
            let q = c;
            assert(prev == Some(q));
            if a != f {
                assert(is_parent(old_nodes, a, da, q));
            }
            if b != f {
                assert(is_parent(old_nodes, b, db, q));
            }
            if a == f && b == f && da != db {
                assert(da == Direction::Left || da == Direction::Right);
            }
        } else {
            assert(is_parent(old_nodes, a, da, c));
            assert(is_parent(old_nodes, b, db, c));
        }
    }
}

/// Splitting the edge into node `n` above it: a new node `f` takes `n`'s
/// children, and `n` gets a new leaf and `f` as children. The tree stays in
/// order.
pub proof fn lemma_split_inner(old_nodes: &Nodes, new_nodes: &Nodes, max: int, n: int, f: int, d: Direction)
    requires
        links_ok(old_nodes, max),
        parents_unique(old_nodes),
        0 <= n < old_nodes.len(),
        old_nodes.node(n).valid(),
        1 <= f < new_nodes.len(),
        old_nodes.len() <= new_nodes.len() <= old_nodes.len() + 1,
        new_nodes.len() == old_nodes.len() + 1 ==> f == old_nodes.len(),
        f < old_nodes.len() ==> !old_nodes.node(f).valid(),
        new_nodes.node(f).children == old_nodes.node(n).children,
        new_nodes.node(f).text_start < max,
        new_nodes.node(f).state_ok(),
        new_nodes.node(n).children.at(d).is_leaf(),
        new_nodes.node(n).children.at(d).leaf_index() < max,
        !new_nodes.node(n).children.at(d.opposite()).is_leaf(),
        new_nodes.node(n).children.at(d.opposite()).node_slot() == f,
        new_nodes.node(n).text_start < max,
        new_nodes.node(n).state_ok(),
        forall|t: int| 0 <= t < old_nodes.len() && t != f && t != n ==> #[trigger] new_nodes.node(t) == old_nodes.node(t),
    ensures
        links_ok(new_nodes, max),
        parents_unique(new_nodes),
{
    lemma_absent_has_no_parent(old_nodes, max, f);
    assert(node_ok(old_nodes, max, n));
    assert(new_nodes.node(n).valid()) by {
        assert(new_nodes.node(n).children.at(d.opposite()).valid());
        if d == Direction::Left {
            assert(d.opposite() == Direction::Right);
        } else {
            assert(d.opposite() == Direction::Left);
        }
    }
    assert forall|t: int| 0 <= t < new_nodes.len() implies #[trigger] node_ok(new_nodes, max, t) by {
        if new_nodes.node(t).valid() {
            let src = if t == f { n } else { t };
            if t != n {
                assert(node_ok(old_nodes, max, src));
            }
            assert forall|e: Direction| true implies child_ok(new_nodes, max, #[trigger] new_nodes.node(t).children.at(e)) by {
                let c = new_nodes.node(t).children.at(e);
                if t == n {
                    if e != d {
                        assert(e == d.opposite());
                        assert(new_nodes.node(f).valid());
                    }
                } else {
                    assert(c == old_nodes.node(src).children.at(e));
                    if !c.is_leaf() {
                        assert(child_ok(old_nodes, max, old_nodes.node(src).children.at(e)));
                        if c.node_slot() == f {
                            assert(is_parent(old_nodes, src, e, f));
                        }
                        if c.node_slot() != n && c.node_slot() != f {
                            assert(new_nodes.node(c.node_slot()) == old_nodes.node(c.node_slot()));
                        }
                    }
                }
            }
            assert(child_ok(new_nodes, max, new_nodes.node(t).children.at(Direction::Left)));
            assert(child_ok(new_nodes, max, new_nodes.node(t).children.at(Direction::Right)));
        }
    }
    assert forall|a: int, da: Direction, b: int, db: Direction, c: int|
        #[trigger] is_parent(new_nodes, a, da, c) && #[trigger] is_parent(new_nodes, b, db, c) implies a == b && da == db by {
        if c == f {
            if a != n {
                let oa = if a == f { n } else { a };
                assert(is_parent(old_nodes, oa, da, f));
            }
            if b != n {
                let ob = if b == f { n } else { b };
                assert(is_parent(old_nodes, ob, db, f));
            }
            if a == n {
                assert(da == d.opposite());
            }
            if b == n {
                assert(db == d.opposite());
            }
        } else {
            if a == n {
                if da == d {
                } else {
                    assert(da == d.opposite());
                }
            }
            if b == n {
                if db == d {
                } else {
                    assert(db == d.opposite());
                }
            }
            let oa = if a == f { n } else { a };
            let ob = if b == f { n } else { b };
            assert(is_parent(old_nodes, oa, da, c));
            assert(is_parent(old_nodes, ob, db, c));
        }
    }
}


/// Hanging a present node `f` without a parent under node `p`, in place of
/// the leaf in direction `d`, keeps the tree in order.
pub proof fn lemma_attach(old_nodes: &Nodes, new_nodes: &Nodes, max: int, p: int, d: Direction, f: int)
    requires
        links_ok(old_nodes, max),
        parents_unique(old_nodes),
        0 <= p < old_nodes.len(),
        old_nodes.node(p).valid(),
        old_nodes.node(p).children.at(d).is_leaf(),
        1 <= f < old_nodes.len(),
        f != p,
        old_nodes.node(f).valid(),
        has_no_parent(old_nodes, f),
        new_nodes.len() == old_nodes.len(),
        !new_nodes.node(p).children.at(d).is_leaf(),
        new_nodes.node(p).children.at(d).node_slot() == f,
        new_nodes.node(p).children.at(d.opposite()) == old_nodes.node(p).children.at(d.opposite()),
        new_nodes.node(p).text_start == old_nodes.node(p).text_start,
        new_nodes.node(p).state_ok() == old_nodes.node(p).state_ok(),
        forall|t: int| 0 <= t < old_nodes.len() && t != p ==> #[trigger] new_nodes.node(t) == old_nodes.node(t),
    ensures
        links_ok(new_nodes, max),
        parents_unique(new_nodes),
{
    assert(node_ok(old_nodes, max, p));
    assert(new_nodes.node(p).valid()) by {
        if d == Direction::Left {
            assert(d.opposite() == Direction::Right);
        } else {
            assert(d.opposite() == Direction::Left);
        }
    }
    assert forall|t: int| 0 <= t < new_nodes.len() implies #[trigger] node_ok(new_nodes, max, t) by {
        assert(node_ok(old_nodes, max, t));
        if new_nodes.node(t).valid() {
            assert forall|e: Direction| true implies child_ok(new_nodes, max, #[trigger] new_nodes.node(t).children.at(e)) by {
                let c = new_nodes.node(t).children.at(e);
                if !(t == p && e == d) {
                    if t == p {
                        assert(e == d.opposite());
                    }
                    assert(c == old_nodes.node(t).children.at(e));
                    if !c.is_leaf() {
                        assert(child_ok(old_nodes, max, old_nodes.node(t).children.at(e)));
                        if c.node_slot() != p {
                            assert(new_nodes.node(c.node_slot()) == old_nodes.node(c.node_slot()));
                        }
                    }
                } else {
                    assert(new_nodes.node(f) == old_nodes.node(f));
                }
            }
            assert(child_ok(new_nodes, max, new_nodes.node(t).children.at(Direction::Left)));
            assert(child_ok(new_nodes, max, new_nodes.node(t).children.at(Direction::Right)));
        }
    }
    assert forall|a: int, da: Direction, b: int, db: Direction, c: int|
        #[trigger] is_parent(new_nodes, a, da, c) && #[trigger] is_parent(new_nodes, b, db, c) implies a == b && da == db by {
        if a == p && da != d {
            assert(da == d.opposite());
        }
        if b == p && db != d {
            assert(db == d.opposite());
        }
        if c == f {
            if !(a == p && da == d) {
                assert(is_parent(old_nodes, a, da, f));
            }
            if !(b == p && db == d) {
                assert(is_parent(old_nodes, b, db, f));
            }
        } else {
            assert(!(a == p && da == d));
            assert(!(b == p && db == d));
            assert(is_parent(old_nodes, a, da, c));
            assert(is_parent(old_nodes, b, db, c));
        }
    }
}


impl<'a> Tree<'a> {
    /// Replaces a present node by one with the same children and text
    /// start and a state in range.
    fn replace_node_state(&mut self, slot: usize, node: Node)
        requires
            old(self).wf(),
            slot < old(self).nodes_of().len(),
            old(self).nodes_of().node(slot as int).valid(),
            node.children == old(self).nodes_of().node(slot as int).children,
            node.text_start == old(self).nodes_of().node(slot as int).text_start,
            node.state_ok(),
        ensures
            final(self).wf(),
            final(self).window_of() == old(self).window_of(),
            final(self).state_of() == old(self).state_of(),
            final(self).luts_of() == old(self).luts_of(),
            final(self).nodes_of().len() == old(self).nodes_of().len(),
            final(self).nodes_of().node(slot as int) == node,
            forall|t: int| 0 <= t < old(self).nodes_of().len() && t != slot ==> #[trigger] final(self).nodes_of().node(t)
                == old(self).nodes_of().node(t),
    {
        proof {
            self.nodes.lemma_wf();
        }
        self.nodes.update_node(NodeIndex::new(slot), node);
        proof {
            let (o, n) = (old(self).nodes_of(), self.nodes_of());
            let max = self.window_of().max();
            assert forall|t: int| 0 <= t < n.len() implies #[trigger] node_ok(&n, max, t) by {
                assert(node_ok(&o, max, t));
            }
            assert forall|a: int, da: Direction, b: int, db: Direction, c: int|
                #[trigger] is_parent(&n, a, da, c) && #[trigger] is_parent(&n, b, db, c) implies a == b && da == db by {
                assert(is_parent(&o, a, da, c) && is_parent(&o, b, db, c));
            }
        }
    }

    /// Replaces a leaf child of a present node by another leaf.
    fn set_leaf_child(&mut self, slot: usize, direction: Direction, leaf: NodeChild)
        requires
            old(self).wf(),
            slot < old(self).nodes_of().len(),
            old(self).nodes_of().node(slot as int).valid(),
            old(self).nodes_of().node(slot as int).children.at(direction).is_leaf(),
            leaf.is_leaf(),
            leaf.leaf_index() < old(self).window_of().max(),
        ensures
            final(self).wf(),
            final(self).window_of() == old(self).window_of(),
            final(self).state_of() == old(self).state_of(),
            final(self).luts_of() == old(self).luts_of(),
            final(self).nodes_of().len() == old(self).nodes_of().len(),
            final(self).nodes_of().node(slot as int).children.at(direction) == leaf,
            final(self).nodes_of().node(slot as int).children.at(direction.opposite())
                == old(self).nodes_of().node(slot as int).children.at(direction.opposite()),
            final(self).nodes_of().node(slot as int) == (Node {
                children: final(self).nodes_of().node(slot as int).children,
                ..old(self).nodes_of().node(slot as int)
            }),
            forall|t: int| 0 <= t < old(self).nodes_of().len() ==> #[trigger] final(self).nodes_of().node(t).valid()
                == old(self).nodes_of().node(t).valid(),
            forall|t: int| 0 <= t < old(self).nodes_of().len() && t != slot ==> #[trigger] final(self).nodes_of().node(t)
                == old(self).nodes_of().node(t),
    {
        self.set_child(slot, direction, leaf);
        proof {
            let (o, n) = (old(self).nodes_of(), self.nodes_of());
            let max = self.window_of().max();
            let od = o.node(slot as int);
            assert(n.node(slot as int).children.at(direction.opposite()) == od.children.at(direction.opposite()));
            assert(n.node(slot as int).valid()) by {
                if direction == Direction::Left {
                    assert(direction.opposite() == Direction::Right);
                } else {
                    assert(direction.opposite() == Direction::Left);
                }
            }
            assert forall|t: int| 0 <= t < n.len() implies #[trigger] node_ok(&n, max, t) by {
                assert(node_ok(&o, max, t));
                if t == slot as int {
                    assert forall|e: Direction| true implies child_ok(&n, max, #[trigger] n.node(t).children.at(e)) by {
                        if e != direction {
                            assert(e == direction.opposite());
                            let c = od.children.at(e);
                            if !c.is_leaf() && c.node_slot() != t {
                                assert(n.node(c.node_slot()) == o.node(c.node_slot()));
                            }
                        }
                    }
                    assert(child_ok(&n, max, n.node(t).children.at(Direction::Left)));
                    assert(child_ok(&n, max, n.node(t).children.at(Direction::Right)));
                } else if n.node(t).valid() {
                    assert forall|e: Direction| true implies child_ok(&n, max, #[trigger] n.node(t).children.at(e)) by {
                        let c = o.node(t).children.at(e);
                        if !c.is_leaf() && c.node_slot() != slot as int {
                            assert(n.node(c.node_slot()) == o.node(c.node_slot()));
                        }
                    }
                    assert(child_ok(&n, max, n.node(t).children.at(Direction::Left)));
                    assert(child_ok(&n, max, n.node(t).children.at(Direction::Right)));
                }
            }
            assert forall|a: int, da: Direction, b: int, db: Direction, c: int|
                #[trigger] is_parent(&n, a, da, c) && #[trigger] is_parent(&n, b, db, c) implies a == b && da == db by {
                if a == slot as int && da != direction {
                    assert(da == direction.opposite());
                }
                if b == slot as int && db != direction {
                    assert(db == direction.opposite());
                }
                assert(is_parent(&o, a, da, c) && is_parent(&o, b, db, c));
            }
        }
    }

    /// The node that splits the edge of a context at the current bit: its
    /// state is that of a context that saw a run of the other bit (as often
    /// as the edge was visited) and then this bit.
    fn setup_split_edge(&self, context: &Context, context_order: usize, bit_index: usize, text_start: WindowIndex) -> (r: Node)
        requires
            self.wf(),
            self.window_of().size_of() > 0,
            0 <= context.incoming_edge_visits_count <= 1000,
            context_order * 8 + 7 < 0x1_0000,
            bit_index < 8,
            text_start.index() < self.window_of().max(),
        ensures
            r.text_start == text_start.index(),
            r.depth_of() == context_order * 8 + 7 - bit_index,
            r.state_ok(),
            !r.children.at(Direction::Left).valid(),
            !r.children.at(Direction::Right).valid(),
            split_state(
                r,
                self.luts_of(),
                Bit::of_bool(bit_of(self.window_of().bytes()[self.window_of().cursor_of()], bit_index as int)),
                context.incoming_edge_visits_count as int,
            ),
    {
        proof {
            self.window.lemma_ends_live();
            self.window.lemma_live(self.window_of().cursor_of());
            self.luts.lemma_wf();
        }
        let incoming_edge_visits_count = context.incoming_edge_visits_count as u16;
        let bit = Bit::from_bool(self.window.get_bit(self.window.cursor(), bit_index));
        let direction = Direction::from_bit(bit);
        let probability_estimator = self.luts.d_estimator_cache().for_new_node(
            bit,
            incoming_edge_visits_count,
            self.luts.d_estimator_rates(),
        );
        let cost_tracker = self.luts.cost_trackers_lut().for_new_node(incoming_edge_visits_count);
        let cost_trackers = CostTrackers::new(cost_tracker, cost_tracker);
        let bit_history = self.luts.history_state_factory().for_new_node(bit, incoming_edge_visits_count);
        proof {
            lemma_run_nonzero(bit.flipped(), incoming_edge_visits_count);
            lemma_updated_nonzero(run_raw(bit.flipped(), incoming_edge_visits_count), bit);
        }
        let (left_count, right_count) = match direction {
            Direction::Left => (1u16, incoming_edge_visits_count),
            Direction::Right => (incoming_edge_visits_count, 1u16),
        };
        Node::new(
            text_start,
            probability_estimator,
            context_order * 8 + 7 - bit_index,
            cost_trackers,
            left_count,
            right_count,
            bit_history,
            NodeChildren::invalid(),
        )
    }

    /// Splits the edge of a context where the current bit leaves it: a new
    /// node at the context's depth gets the new suffix (the one that ends at
    /// the cursor) as a leaf and the rest of the edge as its other child.
    fn split_edge(&mut self, context: &Context, context_order: usize, bit_index: usize) -> (r: Result<(), TreeInconsistency>)
        requires
            old(self).wf(),
            old(self).window_of().size_of() > 0,
            context_ok(&old(self).nodes_of(), old(self).window_of().max(), *context),
            context_order * 8 + 7 < 0x1_0000,
            bit_index < 8,
        ensures
            final(self).wf(),
            final(self).window_of() == old(self).window_of(),
            final(self).state_of() == old(self).state_of(),
            final(self).luts_of() == old(self).luts_of(),
            final(self).nodes_of().len() >= old(self).nodes_of().len(),
            forall|t: int| 0 <= t < old(self).nodes_of().len() && #[trigger] old(self).nodes_of().node(t).valid()
                ==> final(self).nodes_of().node(t).valid(),
            r is Ok <==> {
                &&& context_order < old(self).window_of().size_of()
                &&& old(self).nodes_of().room_left()
                &&& context.in_leaf ==> old(self).nodes_of().node(context.node_index.index as int).children.at(
                    context.direction_from_parent->0,
                ).is_leaf()
            },
            r is Err ==> *final(self) == *old(self),
            context_order >= old(self).window_of().size_of() ==> r == Err::<(), TreeInconsistency>(
                TreeInconsistency::OutsideWindow,
            ),
            context_order < old(self).window_of().size_of() && !old(self).nodes_of().room_left() ==> r == Err::<
                (),
                TreeInconsistency,
            >(TreeInconsistency::NodesExhausted),
            r is Ok ==> split_effect(
                &old(self).nodes_of(),
                &final(self).nodes_of(),
                old(self).luts_of(),
                old(self).window_of(),
                *context,
                context_order as int,
                bit_index as int,
            ),
    {
        proof {
            self.window.lemma_ends_live();
            self.window.lemma_live(self.window_of().cursor_of());
            self.nodes.lemma_wf();
        }
        let max = Ghost(self.window_of().max());
        let cursor = self.window.cursor();
        let direction = Direction::from_bool(self.window.get_bit(cursor, bit_index));
        let new_leaf_start = match self.window.checked_back(cursor, context_order) {
            Some(i) => i,
            None => return Err(TreeInconsistency::OutsideWindow),
        };
        let node_index = context.node_index;
        if !self.nodes.has_room() {
            return Err(TreeInconsistency::NodesExhausted);
        }
        proof {
            assert(node_ok(&self.nodes_of(), max@, node_index.index as int));
        }
        if !context.in_leaf {
            let mut new_node = self.nodes.get(node_index);
            let mut node = self.setup_split_edge(context, context_order, bit_index, new_node.text_start());
            new_node.text_start = context.suffix_index.raw() as u32;
            node.children.set(direction, NodeChild::from_window_index(new_leaf_start));
            let ghost old_nodes = self.nodes_of();
            let added = self.nodes.add_node(new_node);
            node.children.set(direction.negated(), added);
            let ghost mid_nodes = self.nodes_of();
            proof {
                lemma_absent_has_no_parent(&old_nodes, max@, added.node_slot());
                assert(added.node_slot() != node_index.index as int);
                self.nodes.lemma_wf();
            }
            self.nodes.update_node(node_index, node);
            proof {
                let new_nodes = self.nodes_of();
                assert forall|t: int| 0 <= t < old_nodes.len() && t != added.node_slot() && t != node_index.index
                    implies #[trigger] new_nodes.node(t) == old_nodes.node(t) by {
                    assert(mid_nodes.node(t) == old_nodes.node(t));
                }
                assert(new_nodes.node(added.node_slot()) == mid_nodes.node(added.node_slot()));
                lemma_split_inner(&old_nodes, &new_nodes, max@, node_index.index as int, added.node_slot(), direction);
                assert forall|t: int| 0 <= t < old_nodes.len() && #[trigger] old_nodes.node(t).valid()
                    implies new_nodes.node(t).valid() by {
                    if t != node_index.index as int {
                        assert(t != added.node_slot());
                    }
                }
                lemma_added_slot(&old_nodes, &mid_nodes, added);
            }
        } else {
            let leaf_direction = match context.direction_from_parent {
                Some(d) => d,
                None => return Err(TreeInconsistency::MisplacedContext),
            };
            let mut node = self.nodes.get(node_index);
            let old_leaf = node.children.get(leaf_direction);
            if !old_leaf.is_window_index() {
                return Err(TreeInconsistency::MisplacedContext);
            }
            let mut new_node = self.setup_split_edge(context, context_order, bit_index, old_leaf.to_window_index());
            new_node.children.set(direction, NodeChild::from_window_index(new_leaf_start));
            new_node.children.set(direction.negated(), NodeChild::from_window_index(context.suffix_index));
            let ghost old_nodes = self.nodes_of();
            let added = self.nodes.add_node(new_node);
            let ghost mid_nodes = self.nodes_of();
            proof {
                assert(new_node.children.at(direction.opposite()).is_leaf());
                assert forall|e: Direction| {
                    let c = #[trigger] new_node.children.at(e);
                    (c.is_leaf() && c.leaf_index() < max@) || (!c.is_leaf() && None::<int> == Some(c.node_slot()))
                } by {
                    if e != direction {
                        assert(e == direction.opposite());
                    }
                }
                assert forall|t: int| 0 <= t < old_nodes.len() && t != added.node_slot() implies #[trigger] mid_nodes.node(t)
                    == old_nodes.node(t) by {
                }
                lemma_add_node(&old_nodes, &mid_nodes, max@, added.node_slot(), None);
                assert(added.node_slot() != node_index.index as int);
                assert(mid_nodes.node(node_index.index as int) == old_nodes.node(node_index.index as int));
                self.nodes.lemma_wf();
            }
            node.children.set(leaf_direction, added);
            self.nodes.update_node(node_index, node);
            proof {
                let new_nodes = self.nodes_of();
                lemma_attach(&mid_nodes, &new_nodes, max@, node_index.index as int, leaf_direction, added.node_slot());
                assert forall|t: int| 0 <= t < old_nodes.len() && #[trigger] old_nodes.node(t).valid()
                    implies new_nodes.node(t).valid() by {
                    if t != node_index.index as int {
                        assert(new_nodes.node(t) == mid_nodes.node(t));
                    }
                }
                lemma_added_slot(&old_nodes, &mid_nodes, added);
            }
        }
        Ok(())
    }
}


/// What splitting the edge of a context where the current bit leaves it
/// does: a new node at the context's depth, in the slot that the store
/// names next, with the new suffix of this order as a leaf in the bit's
/// direction and the rest of the edge as its other child. Inside an edge to
/// a node, the new node takes the node's place and the node moves to the
/// new slot with the context's last occurrence as its start; inside an edge
/// to a leaf, the new node goes between the parent and the leaf.
pub open spec fn split_effect(
    nodes: &Nodes,
    after: &Nodes,
    luts: LookUpTables,
    w: InputWindow,
    c: Context,
    order: int,
    bit_index: int,
) -> bool {
    let slot = c.node_index.index as int;
    let bit = Bit::of_bool(bit_of(w.bytes()[w.cursor_of()], bit_index));
    let d = Direction::of_bit(bit);
    let a = nodes.next_slot();
    let new_start = subtract_spec(w.cursor_of(), order, w.max());
    let split = if c.in_leaf { after.node(a) } else { after.node(slot) };
    &&& after.len() == (if nodes.free_slots().len() > 0 { nodes.len() } else { nodes.len() + 1 })
    &&& after.spare() == nodes.spare() - 1
    &&& split.depth_of() == order * 8 + 7 - bit_index
    &&& split_state(split, luts, bit, c.incoming_edge_visits_count as int)
    &&& split.children.at(d).is_leaf()
    &&& split.children.at(d).leaf_index() == new_start
    &&& !c.in_leaf ==> {
        &&& split.text_start == nodes.node(slot).text_start
        &&& !split.children.at(d.opposite()).is_leaf()
        &&& split.children.at(d.opposite()).node_slot() == a
        &&& after.node(a) == (Node { text_start: c.suffix_index.index() as u32, ..nodes.node(slot) })
    }
    &&& c.in_leaf ==> {
        let ld = c.direction_from_parent->0;
        &&& split.text_start == nodes.node(slot).children.at(ld).leaf_index()
        &&& split.children.at(d.opposite()).is_leaf()
        &&& split.children.at(d.opposite()).leaf_index() == c.suffix_index.index()
        &&& after.node(slot) == (Node { children: after.node(slot).children, ..nodes.node(slot) })
        &&& !after.node(slot).children.at(ld).is_leaf()
        &&& after.node(slot).children.at(ld).node_slot() == a
        &&& after.node(slot).children.at(ld.opposite()) == nodes.node(slot).children.at(ld.opposite())
    }
    &&& forall|t: int| 0 <= t < nodes.len() && t != slot && t != a ==> #[trigger] after.node(t)
        == nodes.node(t)
}

impl<'a> Tree<'a> {
    /// Makes a degenerate tree proper when the current bit is the first to
    /// differ from the bit before it: a chain of nodes, from the highest
    /// order down to the root, each with the new suffix of its order as a
    /// leaf and the next node (or the suffix one byte earlier) as the other
    /// child.
    fn split_degenerate_root_edge(&mut self, context_order: usize, bit_index: usize) -> (r: Result<(), TreeInconsistency>)
        requires
            old(self).wf(),
            old(self).state_of() == TreeState::Degenerate,
            context_order + 2 <= old(self).window_of().size_of(),
            context_order * 8 + 7 < 0x1_0000,
            bit_index < 8,
        ensures
            final(self).wf(),
            final(self).window_of() == old(self).window_of(),
            final(self).luts_of() == old(self).luts_of(),
            r is Ok <==> final(self).state_of() == TreeState::Proper,
            r is Ok <==> context_order <= old(self).nodes_of().spare(),
            r is Err ==> r == Err::<(), TreeInconsistency>(TreeInconsistency::NodesExhausted),
            r is Ok ==> final(self).nodes_of().spare() == old(self).nodes_of().spare() - context_order,
            r is Ok ==> {
                let w = old(self).window_of();
                let root = final(self).nodes_of().node(0);
                let d = if bit_of(w.bytes()[w.cursor_of()], bit_index as int) {
                    Direction::Right
                } else {
                    Direction::Left
                };
                &&& root.depth_of() == 7 - bit_index
                &&& root.text_start == w.cursor_of()
                &&& root.children.at(d).is_leaf()
                &&& root.children.at(d).leaf_index() == w.cursor_of()
            },
    {
        proof {
            self.window.lemma_ends_live();
            self.window.lemma_live(self.window_of().cursor_of());
            self.nodes.lemma_wf();
            self.luts.lemma_wf();
        }
        let max = Ghost(self.window_of().max());
        let cursor = self.window.cursor();
        let bit = Bit::from_bool(self.window.get_bit(cursor, bit_index));
        let direction = Direction::from_bit(bit);
        let mut last_node_opt: Option<NodeChild> = None;
        let mut current = context_order + 1;
        while current > 0
            invariant
                self.wf(),
                self.state_of() == TreeState::Degenerate,
                self.window_of() == old(self).window_of(),
                self.luts_of() == old(self).luts_of(),
                max@ == self.window_of().max(),
                cursor.index() == self.window_of().cursor_of(),
                1 <= current <= context_order + 1,
                self.nodes_of().spare() == old(self).nodes_of().spare() - (context_order + 1 - current),
                self.window_of().is_live(cursor.index() as int),
                self.window_of().offset_of(cursor.index() as int) == self.window_of().size_of() - 1,
                context_order + 2 <= self.window_of().size_of(),
                context_order * 8 + 7 < 0x1_0000,
                bit_index < 8,
                direction == Direction::of_bit(bit),
                bit == Bit::of_bool(bit_of(self.window_of().bytes()[cursor.index() as int], bit_index as int)),
                last_node_opt matches Some(c) ==> !c.is_leaf() && 1 <= c.node_slot() < self.nodes_of().len()
                    && self.nodes_of().node(c.node_slot()).valid() && has_no_parent(&self.nodes_of(), c.node_slot()),
            decreases current,
        {
            current -= 1;
            proof {
                self.nodes.lemma_wf();
                self.luts.lemma_wf();
            }
            let suffix_start = match self.window.checked_back(cursor, current) {
                Some(i) => i,
                None => return Err(TreeInconsistency::OutsideWindow),
            };
            let branching_child = NodeChild::from_window_index(suffix_start);
            let chained_child = match last_node_opt {
                Some(c) => c,
                None => match self.window.checked_back(suffix_start, 1) {
                    Some(i) => NodeChild::from_window_index(i),
                    None => return Err(TreeInconsistency::OutsideWindow),
                },
            };
            let children = match direction {
                Direction::Left => NodeChildren::new([branching_child, chained_child]),
                Direction::Right => NodeChildren::new([chained_child, branching_child]),
            };
            let offset = self.window.offset_in_window(suffix_start).unwrap();
            let repeated_edge_count: u16 = if offset < MAX_OCCURRENCE_COUNT as usize {
                offset as u16
            } else {
                MAX_OCCURRENCE_COUNT
            };
            let probability_estimator = self.luts.d_estimator_cache().for_new_node(
                bit,
                repeated_edge_count,
                self.luts.d_estimator_rates(),
            );
            let bit_history = self.luts.history_state_factory().for_new_node(bit, repeated_edge_count);
            let cost_tracker = self.luts.cost_trackers_lut().for_new_node(repeated_edge_count);
            let cost_trackers = CostTrackers::new(cost_tracker, cost_tracker);
            proof {
                lemma_run_nonzero(bit.flipped(), repeated_edge_count);
                lemma_updated_nonzero(run_raw(bit.flipped(), repeated_edge_count), bit);
            }
            let (left_count, right_count) = match direction {
                Direction::Left => (1u16, repeated_edge_count),
                Direction::Right => (repeated_edge_count, 1u16),
            };
            let node = Node::new(
                suffix_start,
                probability_estimator,
                current * 8 + 7 - bit_index,
                cost_trackers,
                left_count,
                right_count,
                bit_history,
                children,
            );
            let ghost prev: Option<int> = match last_node_opt {
                Some(c) => Some(c.node_slot()),
                None => None,
            };
            proof {
                assert forall|e: Direction| {
                    let c = #[trigger] node.children.at(e);
                    (c.is_leaf() && c.leaf_index() < max@) || (!c.is_leaf() && prev == Some(c.node_slot()))
                } by {
                    if e == Direction::Left {
                    } else {
                    }
                }
                assert(node.valid());
            }
            let ghost old_nodes = self.nodes_of();
            if current == 0 {
                self.nodes.update_node(NodeIndex::new(0), node);
                proof {
                    lemma_add_node(&old_nodes, &self.nodes_of(), max@, 0, prev);
                    assert(self.nodes_of().node(0) == node);
                    assert(node.children.at(direction) == branching_child) by {
                        if direction == Direction::Left {
                        } else {
                        }
                    }
                }
                self.tree_state = TreeState::Proper;
                return Ok(());
            } else {
                if !self.nodes.has_room() {
                    return Err(TreeInconsistency::NodesExhausted);
                }
                let added = self.nodes.add_node(node);
                proof {
                    assert(self.nodes_of().spare() == old_nodes.spare() - 1) by {
                        if old_nodes.free_slots().len() > 0 {
                            assert(old_nodes.is_free(old_nodes.free_slots()[0]));
                            assert(self.nodes_of().len() == old_nodes.len());
                        } else {
                            assert(self.nodes_of().len() == old_nodes.len() + 1);
                        }
                    }
                    assert forall|t: int| 0 <= t < old_nodes.len() && t != added.node_slot() implies #[trigger] self.nodes_of().node(t)
                        == old_nodes.node(t) by {
                    }
                    lemma_add_node(&old_nodes, &self.nodes_of(), max@, added.node_slot(), prev);
                }
                last_node_opt = Some(added);
            }
        }
        Err(TreeInconsistency::NoLeaf)
    }
}


/// Where `add_node` put a node: in the slot that the store named as its
/// next, one fewer slot to spare, every other slot as it was.
pub proof fn lemma_added_slot(before: &Nodes, after: &Nodes, added: NodeChild)
    requires
        before.wf(),
        !added.is_leaf(),
        before.free_slots().len() > 0 ==> added.node_slot() == before.free_slots()[0]
            && after.free_slots() == before.free_slots().drop_first(),
        before.free_slots().len() == 0 ==> added.node_slot() == before.len() && after.free_slots()
            == before.free_slots(),
        after.limit() == before.limit(),
        after.slots() == (if added.node_slot() < before.len() {
            before.slots().update(added.node_slot(), after.node(added.node_slot()))
        } else {
            before.slots().push(after.node(added.node_slot()))
        }),
    ensures
        added.node_slot() == before.next_slot(),
        after.len() == (if before.free_slots().len() > 0 { before.len() } else { before.len() + 1 }),
        after.spare() == before.spare() - 1,
        forall|t: int| 0 <= t < before.len() && t != added.node_slot() ==> #[trigger] after.node(t) == before.node(t),
{
    before.lemma_wf();
    if before.free_slots().len() > 0 {
        assert(before.is_free(before.free_slots()[0]));
    }
}

/// A context stays in order when every present node stays present.
pub proof fn lemma_context_kept(old_nodes: &Nodes, new_nodes: &Nodes, max: int, c: Context)
    requires
        context_ok(old_nodes, max, c),
        new_nodes.len() >= old_nodes.len(),
        forall|t: int| 0 <= t < old_nodes.len() && #[trigger] old_nodes.node(t).valid() ==> new_nodes.node(t).valid(),
    ensures
        context_ok(new_nodes, max, c),
{
    assert(old_nodes.node(c.node_index.index as int).valid());
}

/// What following the current bit out of a context does: the bit under the
/// cursor picks the direction; the context takes the edge's count, leaves
/// for a leaf or the child node, and remembers the direction; the node
/// counts the visit; a leaf child is replaced by the suffix of this order
/// that ends at the cursor, and a node child's text starts there.
pub open spec fn descend_effect(
    before: &Nodes,
    after: &Nodes,
    luts: LookUpTables,
    w: InputWindow,
    c: Context,
    c2: Context,
    order: int,
    bit_index: int,
    trackers: CostTrackers,
) -> bool {
    let d = if bit_of(w.bytes()[w.cursor_of()], bit_index) {
        Direction::Right
    } else {
        Direction::Left
    };
    let slot = c.node_index.index as int;
    let node = before.node(slot);
    let child = node.children.at(d);
    let new_start = subtract_spec(w.cursor_of(), order, w.max());
    let counted = after.node(slot);
    &&& c2.direction_from_parent == Some(d)
    &&& c2.incoming_edge_visits_count == (if d == Direction::Left {
        node.left_count_of()
    } else {
        node.right_count_of()
    })
    &&& c2.in_leaf == child.is_leaf()
    &&& child.is_leaf() ==> c2.node_index == c.node_index
        && c2.suffix_index.index() == child.leaf_index()
    &&& !child.is_leaf() ==> c2.node_index.index == child.node_slot()
        && c2.suffix_index.index() == before.node(child.node_slot()).text_start
    &&& counted_edge(
        node,
        (Node { children: node.children, text_start: node.text_start, ..counted }),
        d,
        trackers,
        luts.rates_of(),
    )
    &&& child.is_leaf() || child.node_slot() != slot ==> counted.text_start == node.text_start
    &&& child.is_leaf() ==> counted.children.at(d).is_leaf() && counted.children.at(d).leaf_index()
        == new_start && counted.children.at(d.opposite()) == node.children.at(d.opposite())
    &&& !child.is_leaf() ==> counted.children == node.children
    &&& !child.is_leaf() ==> after.node(child.node_slot()).text_start == new_start
    &&& !child.is_leaf() && child.node_slot() != slot ==> after.node(child.node_slot())
        == (Node { text_start: new_start as u32, ..before.node(child.node_slot()) })
    &&& forall|t: int| 0 <= t < before.len() && t != slot && (child.is_leaf() || t
        != child.node_slot()) ==> #[trigger] after.node(t) == before.node(t)
    &&& after.len() == before.len()
}

impl Context {
    /// Follows the edge that the current bit selects out of the context's
    /// node: the edge is counted, and the context moves to the child node,
    /// or into the leaf. The node or leaf now starts at the current
    /// occurrence; the context keeps the last one.
    pub fn descend(&mut self, tree: &mut Tree, order: usize, bit_index: usize, new_cost_trackers: CostTrackers) -> (r: Result<(), TreeInconsistency>)
        requires
            old(tree).wf(),
            old(tree).window_of().size_of() > 0,
            context_ok(&old(tree).nodes_of(), old(tree).window_of().max(), *old(self)),
            !old(self).in_leaf,
            bit_index < 8,
        ensures
            final(tree).wf(),
            context_ok(&final(tree).nodes_of(), final(tree).window_of().max(), *final(self)),
            final(tree).window_of() == old(tree).window_of(),
            final(tree).state_of() == old(tree).state_of(),
            final(tree).luts_of() == old(tree).luts_of(),
            final(tree).nodes_of().len() == old(tree).nodes_of().len(),
            forall|t: int| 0 <= t < old(tree).nodes_of().len() ==> #[trigger] final(tree).nodes_of().node(t).valid()
                == old(tree).nodes_of().node(t).valid(),
            r is Ok <==> order < old(tree).window_of().size_of(),
            r is Err ==> r == Err::<(), TreeInconsistency>(TreeInconsistency::OutsideWindow),
            r is Err ==> *final(tree) == *old(tree) && *final(self) == *old(self),
            r is Ok ==> descend_effect(
                &old(tree).nodes_of(),
                &final(tree).nodes_of(),
                old(tree).luts_of(),
                old(tree).window_of(),
                *old(self),
                *final(self),
                order as int,
                bit_index as int,
                new_cost_trackers,
            ),
    {
        proof {
            tree.window.lemma_ends_live();
            tree.window.lemma_live(tree.window_of().cursor_of());
            tree.nodes.lemma_wf();
            tree.luts.lemma_wf();
            assert(node_ok(&tree.nodes_of(), tree.window_of().max(), self.node_index.index as int));
        }
        let cursor = tree.window.cursor();
        let new_start = match tree.window.checked_back(cursor, order) {
            Some(i) => i,
            None => return Err(TreeInconsistency::OutsideWindow),
        };
        let direction = Direction::from_bool(tree.window.get_bit(cursor, bit_index));
        let node_index = self.node_index;
        let mut node = tree.nodes.get(node_index);
        let incoming = match direction {
            Direction::Left => node.left_count(),
            Direction::Right => node.right_count(),
        };
        node.increment_edge_counters(direction, new_cost_trackers, tree.luts.d_estimator_rates());
        tree.replace_node_state(node_index.index, node);
        let child = node.child(direction);
        self.direction_from_parent = Some(direction);
        self.incoming_edge_visits_count = incoming as i32;
        proof {
            assert(child_ok(&old(tree).nodes_of(), tree.window_of().max(), child));
        }
        if child.is_window_index() {
            self.in_leaf = true;
            self.suffix_index = child.to_window_index();
            tree.set_leaf_child(node_index.index, direction, NodeChild::from_window_index(new_start));
        } else {
            let child_index = child.to_node_index();
            proof {
                if child_index.index != node_index.index {
                    assert(tree.nodes_of().node(child_index.index as int) == old(tree).nodes_of().node(child_index.index as int));
                }
                assert(node_ok(&old(tree).nodes_of(), tree.window_of().max(), child_index.index as int));
            }
            let child_node = tree.nodes.get(child_index);
            self.node_index = child_index;
            self.suffix_index = WindowIndex::new(child_node.text_start as usize);
            let ghost before_start = tree.nodes_of();
            tree.set_text_start(child_index.index, new_start);
            proof {
                assert forall|t: int| 0 <= t < before_start.len() && t != child_index.index as int implies
                    #[trigger] tree.nodes_of().node(t) == before_start.node(t) by {
                    assert(tree.nodes_of().slots()[t] == before_start.slots()[t]);
                }
            }
        }
        Ok(())
    }
}

/// A context as the next bit finds it: a context in a leaf whose place
/// has since become a node (a split of a lower order put it there) moves
/// into that node.
pub open spec fn entered(nodes: &Nodes, c: Context) -> Context {
    let child = nodes.node(c.node_index.index as int).children.at(c.direction_from_parent->0);
    if c.in_leaf && !child.is_leaf() {
        Context { in_leaf: false, node_index: NodeIndex { index: child.node_slot() as usize }, ..c }
    } else {
        c
    }
}

/// Whether the bit just written at the cursor differs from the bit that
/// follows the context of order `order` in its last occurrence.
pub open spec fn leaves_edge(w: InputWindow, c: Context, order: int, bit_index: int) -> bool {
    bit_of(
        w.bytes()[add_spec(c.suffix_index.index() as int, order, w.max())] ^ w.bytes()[w.cursor_of()],
        bit_index,
    )
}

/// Why the context of order `order` cannot take the bit, if it cannot: a
/// context at a node of its depth must not be in a leaf, must have cost
/// trackers given and must reach back into the window; a context inside an
/// edge must have none given and its occurrence must reach the bit in the
/// window; where it leaves the edge the node store must have room and no
/// higher order may still be active.
pub open spec fn extend_step_error(
    nodes: &Nodes,
    w: InputWindow,
    c0: Context,
    order: int,
    bit_index: int,
    trackers_len: int,
    count: int,
) -> Option<TreeInconsistency> {
    let c = entered(nodes, c0);
    let last = c.suffix_index.index() as int;
    if nodes.node(c.node_index.index as int).depth_of() == order * 8 + 7 - bit_index {
        if c.in_leaf {
            Some(TreeInconsistency::MisplacedContext)
        } else if order >= trackers_len {
            Some(TreeInconsistency::CostTrackersMismatch)
        } else if order >= w.size_of() {
            Some(TreeInconsistency::OutsideWindow)
        } else {
            None
        }
    } else if order < trackers_len {
        Some(TreeInconsistency::CostTrackersMismatch)
    } else if !(w.is_live(last) && w.offset_of(last) + order < w.size_of()) {
        Some(TreeInconsistency::OutsideWindow)
    } else if leaves_edge(w, c, order, bit_index) {
        if !nodes.room_left() {
            Some(TreeInconsistency::NodesExhausted)
        } else if count - 1 != order {
            Some(TreeInconsistency::MisplacedContext)
        } else {
            None
        }
    } else {
        None
    }
}

/// One step of taking the bit into a proper tree, for the context of order
/// `order`, from the nodes, contexts and count of active contexts before to
/// those after: a context at a node of its depth follows the bit down; one
/// inside an edge stays, and where the bit leaves the edge the edge is split
/// and the contexts from this order up end.
pub open spec fn extend_step(
    before: (Nodes, Seq<Context>, int),
    after: (Nodes, Seq<Context>, int),
    luts: LookUpTables,
    w: InputWindow,
    order: int,
    bit_index: int,
    trackers: Seq<CostTrackers>,
) -> bool {
    let c = entered(&before.0, before.1[order]);
    if before.0.node(c.node_index.index as int).depth_of() == order * 8 + 7 - bit_index {
        &&& descend_effect(&before.0, &after.0, luts, w, c, after.1[order], order, bit_index, trackers[order])
        &&& after.1 == before.1.update(order, after.1[order])
        &&& after.2 == before.2
    } else if leaves_edge(w, c, order, bit_index) {
        &&& split_effect(&before.0, &after.0, luts, w, c, order, bit_index)
        &&& after.1 == before.1.update(order, c)
        &&& after.2 == order
    } else {
        &&& after.0 == before.0
        &&& after.1 == before.1.update(order, c)
        &&& after.2 == before.2
    }
}

/// Whether `trace` starts at the nodes and contexts given, with all `n`
/// contexts active, and each of its states follows from the one before by
/// a step, the highest order first.
pub open spec fn extend_trace(
    trace: Seq<(Nodes, Seq<Context>, int)>,
    nodes: Nodes,
    items: Seq<Context>,
    luts: LookUpTables,
    w: InputWindow,
    bit_index: int,
    trackers: Seq<CostTrackers>,
) -> bool {
    let n = items.len() as int;
    &&& 1 <= trace.len() <= n + 1
    &&& trace[0] == (nodes, items, n)
    &&& forall|k: int|
        #![trigger trace[k]]
        0 <= k < trace.len() - 1 ==> {
            &&& extend_step_error(&trace[k].0, w, trace[k].1[n - 1 - k], n - 1 - k, bit_index, trackers.len() as int, trace[k].2)
                is None
            &&& extend_step(trace[k], trace[k + 1], luts, w, n - 1 - k, bit_index, trackers)
        }
}

/// A trace that a further step follows from, without error, grows by the
/// state after that step.
pub proof fn lemma_trace_push(
    trace: Seq<(Nodes, Seq<Context>, int)>,
    next: (Nodes, Seq<Context>, int),
    nodes: Nodes,
    items: Seq<Context>,
    luts: LookUpTables,
    w: InputWindow,
    bit_index: int,
    trackers: Seq<CostTrackers>,
)
    requires
        extend_trace(trace, nodes, items, luts, w, bit_index, trackers),
        trace.len() <= items.len(),
        extend_step_error(
            &trace.last().0,
            w,
            trace.last().1[items.len() - trace.len()],
            items.len() - trace.len(),
            bit_index,
            trackers.len() as int,
            trace.last().2,
        ) is None,
        extend_step(trace.last(), next, luts, w, items.len() - trace.len(), bit_index, trackers),
    ensures
        extend_trace(trace.push(next), nodes, items, luts, w, bit_index, trackers),
{
    let t = trace.push(next);
    let n = items.len() as int;
    assert forall|k: int|
        #![trigger t[k]]
        0 <= k < t.len() - 1 implies {
            &&& extend_step_error(&t[k].0, w, t[k].1[n - 1 - k], n - 1 - k, bit_index, trackers.len() as int, t[k].2)
                is None
            &&& extend_step(t[k], t[k + 1], luts, w, n - 1 - k, bit_index, trackers)
        } by {
        if k < trace.len() - 1 {
            assert(t[k] == trace[k]);
            assert(t[k + 1] == trace[k + 1]);
            assert(extend_step(trace[k], trace[k + 1], luts, w, n - 1 - k, bit_index, trackers));
        } else {
            assert(t[k] == trace.last());
            assert(t[k + 1] == next);
        }
    }
    assert(t[0] == trace[0]);
    assert(1 <= t.len() <= n + 1);
    assert(t[0] == (nodes, items, n));
}

impl<'a> Tree<'a> {
    /// Takes the next bit of the current byte, at `bit_index`, into the
    /// window and the tree: contexts at a node follow the bit down;
    /// contexts inside an edge whose next bit differs split the edge, and
    /// with them the contexts above them end. A degenerate tree becomes
    /// proper at the first bit that differs from the one before. The cost
    /// trackers given are those of the contexts at nodes, lowest order
    /// first.
    pub fn extend(
        &mut self,
        contexts: &mut ActiveContexts,
        new_cost_trackers: &[CostTrackers],
        incoming_bit: Bit,
        bit_index: usize,
        max_order: usize,
    ) -> (r: Result<(), TreeInconsistency>)
        requires
            old(self).wf(),
            old(self).contexts_ok(old(contexts)),
            old(self).window_of().size_of() > 0,
            bit_index < 8,
            max_order == old(contexts).max_order_of(),
        ensures
            final(self).wf(),
            final(self).contexts_ok(final(contexts)),
            final(self).luts_of() == old(self).luts_of(),
            final(contexts).max_order_of() == old(contexts).max_order_of(),
            final(contexts).view_items().len() <= old(contexts).view_items().len(),
            final(self).window_of().max() == old(self).window_of().max(),
            final(self).window_of().size_of() == old(self).window_of().size_of(),
            final(self).window_of().cursor_of() == old(self).window_of().cursor_of(),
            final(self).window_of().bytes() == old(self).window_of().bytes().update(
                old(self).window_of().cursor_of(),
                crate::history::window::with_bit(
                    old(self).window_of().bytes()[old(self).window_of().cursor_of()],
                    bit_index as int,
                    incoming_bit == Bit::One,
                ),
            ),
            final(self).state_of() == TreeState::Degenerate ==> old(self).state_of() == TreeState::Degenerate,
            old(self).state_of() == TreeState::Proper && r is Ok ==> exists|trace: Seq<(Nodes, Seq<Context>, int)>|
                {
                    &&& #[trigger] extend_trace(
                        trace,
                        old(self).nodes_of(),
                        old(contexts).view_items(),
                        old(self).luts_of(),
                        final(self).window_of(),
                        bit_index as int,
                        new_cost_trackers@,
                    )
                    &&& trace.len() == old(contexts).view_items().len() + 1
                    &&& final(self).nodes_of() == trace.last().0
                    &&& final(contexts).view_items() == trace.last().1.subrange(0, trace.last().2)
                },
            old(self).state_of() == TreeState::Proper && r is Err ==> exists|trace: Seq<(Nodes, Seq<Context>, int)>|
                {
                    let n = old(contexts).view_items().len() as int;
                    let k = trace.len() - 1;
                    &&& #[trigger] extend_trace(
                        trace,
                        old(self).nodes_of(),
                        old(contexts).view_items(),
                        old(self).luts_of(),
                        final(self).window_of(),
                        bit_index as int,
                        new_cost_trackers@,
                    )
                    &&& trace.len() <= n
                    &&& extend_step_error(
                        &trace[k].0,
                        final(self).window_of(),
                        trace[k].1[n - 1 - k],
                        n - 1 - k,
                        bit_index as int,
                        new_cost_trackers@.len() as int,
                        trace[k].2,
                    ) == Some(r->Err_0)
                },
            old(self).state_of() == TreeState::Degenerate ==> *final(contexts) == *old(contexts),
            old(self).state_of() == TreeState::Degenerate ==> {
                let w = final(self).window_of();
                let size = w.size_of();
                let order = if max_order < size - 2 { max_order as int } else { size - 2 };
                let d = if bit_of(w.bytes()[w.cursor_of()], bit_index as int) {
                    Direction::Right
                } else {
                    Direction::Left
                };
                if size >= 2 && bit_of(
                    w.bytes()[subtract_spec(w.cursor_of(), 1, w.max())] ^ w.bytes()[w.cursor_of()],
                    bit_index as int,
                ) {
                    &&& r is Ok <==> order <= old(self).nodes_of().spare()
                    &&& r is Err ==> r == Err::<(), TreeInconsistency>(TreeInconsistency::NodesExhausted)
                    &&& r is Ok ==> final(self).state_of() == TreeState::Proper
                    &&& r is Ok ==> final(self).nodes_of().spare() == old(self).nodes_of().spare() - order
                    &&& r is Ok ==> final(self).nodes_of().node(0).depth_of() == 7 - bit_index
                    &&& r is Ok ==> final(self).nodes_of().node(0).text_start == w.cursor_of()
                    &&& r is Ok ==> final(self).nodes_of().node(0).children.at(d).is_leaf()
                        && final(self).nodes_of().node(0).children.at(d).leaf_index() == w.cursor_of()
                } else {
                    &&& r is Ok
                    &&& final(self).state_of() == TreeState::Degenerate
                    &&& final(self).nodes_of() == old(self).nodes_of()
                }
            },
    {
        proof {
            self.window.lemma_ends_live();
            self.window.lemma_live(self.window_of().cursor_of());
        }
        self.window.set_bit_at_cursor(incoming_bit.is_1(), bit_index);
        let ghost window = self.window_of();
        proof {
            self.window.lemma_ends_live();
            self.window.lemma_live(self.window_of().cursor_of());
        }
        let max = Ghost(self.window_of().max());
        let cursor = self.window.cursor();
        match self.tree_state {
            TreeState::Proper => {
                let mut count = contexts.count();
                let mut order = count;
                let ghost n = count as int;
                let ghost start_nodes = self.nodes_of();
                let ghost start_items = contexts.view_items();
                let ghost luts = self.luts_of();
                let ghost trackers = new_cost_trackers@;
                let ghost mut trace: Seq<(Nodes, Seq<Context>, int)> = seq![(start_nodes, start_items, n)];
                while order > 0
                    invariant
                        self.wf(),
                        self.contexts_ok(contexts),
                        self.window_of() == window,
                        window.max() == old(self).window_of().max(),
                        window.size_of() == old(self).window_of().size_of(),
                        window.cursor_of() == old(self).window_of().cursor_of(),
                        window.bytes() == old(self).window_of().bytes().update(
                            old(self).window_of().cursor_of(),
                            crate::history::window::with_bit(
                                old(self).window_of().bytes()[old(self).window_of().cursor_of()],
                                bit_index as int,
                                incoming_bit == Bit::One,
                            ),
                        ),
                        self.luts_of() == old(self).luts_of(),
                        luts == old(self).luts_of(),
                        trackers == new_cost_trackers@,
                        old(self).state_of() == TreeState::Proper,
                        self.state_of() == TreeState::Proper,
                        max@ == window.max(),
                        window.size_of() > 0,
                        cursor.index() == window.cursor_of(),
                        cursor.index() < window.bytes().len(),
                        bit_index < 8,
                        contexts.max_order_of() == old(contexts).max_order_of(),
                        contexts.view_items().len() == old(contexts).view_items().len(),
                        n == old(contexts).view_items().len(),
                        start_nodes == old(self).nodes_of(),
                        start_items == old(contexts).view_items(),
                        order <= count,
                        count <= contexts.view_items().len(),
                        extend_trace(trace, start_nodes, start_items, luts, window, bit_index as int, trackers),
                        trace.len() == n - order + 1,
                        trace.last() == (self.nodes_of(), contexts.view_items(), count as int),
                    decreases order,
                {
                    order -= 1;
                    let ghost k = trace.len() - 1;
                    let ghost before = trace.last();
                    let ghost prev_trace = trace;
                    let mut context = contexts.get(order);
                    proof {
                        assert(k == n - 1 - order);
                        assert(context_ok(&self.nodes_of(), max@, contexts.view_items()[order as int]));
                        assert(node_ok(&self.nodes_of(), max@, context.node_index.index as int));
                    }
                    if context.in_leaf {
                        let direction = context.direction_from_parent.unwrap();
                        let child = self.nodes.get(context.node_index).child(direction);
                        if !child.is_window_index() {
                            context.in_leaf = false;
                            context.node_index = child.to_node_index();
                            proof {
                                assert(child_ok(&self.nodes_of(), max@, child));
                            }
                        }
                    }
                    proof {
                        assert(context == entered(&before.0, before.1[order as int]));
                    }
                    let ghost step_error = extend_step_error(&before.0, window, before.1[order as int], order as int,
                        bit_index as int, trackers.len() as int, count as int);
                    let ghost nodes_before = self.nodes_of();
                    let node = self.nodes.get(context.node_index);
                    if node.depth() == order * 8 + 7 - bit_index {
                        if context.in_leaf {
                            proof {
                                assert(step_error == Some(TreeInconsistency::MisplacedContext));
                                assert(extend_trace(trace, start_nodes, start_items, luts, window, bit_index as int, trackers));
                            }
                            return Err(TreeInconsistency::MisplacedContext);
                        }
                        if order >= new_cost_trackers.len() {
                            proof {
                                assert(step_error == Some(TreeInconsistency::CostTrackersMismatch));
                                assert(extend_trace(trace, start_nodes, start_items, luts, window, bit_index as int, trackers));
                            }
                            return Err(TreeInconsistency::CostTrackersMismatch);
                        }
                        let ghost entered_context = context;
                        let result = context.descend(self, order, bit_index, new_cost_trackers[order]);
                        proof {
                            assert forall|i: int| 0 <= i < contexts.view_items().len() implies #[trigger] context_ok(
                                &self.nodes_of(), max@, contexts.view_items()[i]) by {
                                assert(context_ok(&nodes_before, max@, contexts.view_items()[i]));
                                lemma_context_kept(&nodes_before, &self.nodes_of(), max@, contexts.view_items()[i]);
                            }
                        }
                        match result {
                            Ok(()) => {},
                            Err(e) => {
                                proof {
                                    assert(step_error == Some(TreeInconsistency::OutsideWindow));
                                    assert(extend_trace(trace, start_nodes, start_items, luts, window, bit_index as int, trackers));
                                }
                                return Err(e);
                            },
                        }
                        contexts.items.set(order, context);
                        proof {
                            let next = (self.nodes_of(), contexts.view_items(), count as int);
                            assert(descend_effect(&before.0, &next.0, luts, window, entered_context, next.1[order as int],
                                order as int, bit_index as int, trackers[order as int]));
                            assert(next.1 == before.1.update(order as int, next.1[order as int]));
                            assert(extend_step(before, next, luts, window, order as int, bit_index as int, trackers));
                            assert(step_error is None);
                            lemma_trace_push(trace, next, start_nodes, start_items, luts, window, bit_index as int, trackers);
                            trace = trace.push(next);
                        }
                    } else {
                        if order < new_cost_trackers.len() {
                            proof {
                                assert(step_error == Some(TreeInconsistency::CostTrackersMismatch));
                                assert(extend_trace(trace, start_nodes, start_items, luts, window, bit_index as int, trackers));
                            }
                            return Err(TreeInconsistency::CostTrackersMismatch);
                        }
                        let ahead = match self.window.checked_forward(context.suffix_index, order) {
                            Some(i) => i,
                            None => {
                                proof {
                                    assert(step_error == Some(TreeInconsistency::OutsideWindow));
                                    assert(extend_trace(trace, start_nodes, start_items, luts, window, bit_index as int, trackers));
                                }
                                return Err(TreeInconsistency::OutsideWindow);
                            },
                        };
                        if self.window.bytes_differ_on(ahead, cursor, bit_index) {
                            proof {
                                assert(leaves_edge(window, context, order as int, bit_index as int));
                                self.window.lemma_wf();
                                assert(order < window.size_of());
                                assert(context.in_leaf ==> self.nodes_of().node(context.node_index.index as int).children.at(
                                    context.direction_from_parent->0).is_leaf());
                            }
                            let result = self.split_edge(&context, order, bit_index);
                            proof {
                                assert forall|i: int| 0 <= i < contexts.view_items().len() implies #[trigger] context_ok(
                                    &self.nodes_of(), max@, contexts.view_items()[i]) by {
                                    assert(context_ok(&nodes_before, max@, contexts.view_items()[i]));
                                    lemma_context_kept(&nodes_before, &self.nodes_of(), max@, contexts.view_items()[i]);
                                }
                                lemma_context_kept(&nodes_before, &self.nodes_of(), max@, context);
                            }
                            match result {
                                Ok(()) => {},
                                Err(e) => {
                                    proof {
                                        assert(step_error == Some(TreeInconsistency::NodesExhausted));
                                        assert(extend_trace(trace, start_nodes, start_items, luts, window, bit_index as int, trackers));
                                    }
                                    return Err(e);
                                },
                            }
                            if count - 1 != order {
                                proof {
                                    assert(step_error == Some(TreeInconsistency::MisplacedContext));
                                    assert(extend_trace(trace, start_nodes, start_items, luts, window, bit_index as int, trackers));
                                }
                                return Err(TreeInconsistency::MisplacedContext);
                            }
                            count = order;
                        } else {
                            proof {
                                assert(!leaves_edge(window, context, order as int, bit_index as int));
                            }
                        }
                        contexts.items.set(order, context);
                        proof {
                            let next = (self.nodes_of(), contexts.view_items(), count as int);
                            assert(next.1 == before.1.update(order as int, context));
                            assert(extend_step(before, next, luts, window, order as int, bit_index as int, trackers));
                            assert(step_error is None);
                            lemma_trace_push(trace, next, start_nodes, start_items, luts, window, bit_index as int, trackers);
                            trace = trace.push(next);
                        }
                    }
                    proof {
                        assert forall|i: int| 0 <= i < contexts.view_items().len() implies #[trigger] context_ok(
                            &self.nodes_of(), max@, contexts.view_items()[i]) by {
                            if i != order as int {
                            }
                        }
                    }
                }
                contexts.keep_only(count);
                proof {
                    assert forall|i: int| 0 <= i < contexts.view_items().len() implies #[trigger] context_ok(
                        &self.nodes_of(), max@, contexts.view_items()[i]) by {
                    }
                    assert(extend_trace(trace, start_nodes, start_items, luts, window, bit_index as int, trackers));
                }
                Ok(())
            },
            TreeState::Degenerate => {
                if self.window.size() >= 2 {
                    let previous = self.window.checked_back(cursor, 1).unwrap();
                    if self.window.bytes_differ_on(previous, cursor, bit_index) {
                        let order = if max_order < self.window.size() - 2 {
                            max_order
                        } else {
                            self.window.size() - 2
                        };
                        return self.split_degenerate_root_edge(order, bit_index);
                    }
                }
                Ok(())
            },
        }
    }
}


/// The history of the input kept as a suffix tree, fed bit by bit: each
/// byte starts with `start_new_byte`, then for each of its bits, highest
/// first, the context states are gathered and the bit is processed.
pub struct TreeHistorySource<'a> {
    pub tree: Tree<'a>,
    pub active_contexts: ActiveContexts,
    pub bit_index: i32,
}

impl<'a> TreeHistorySource<'a> {
    /// The tree and its contexts agree, and the bit index is that of the
    /// next bit of the current byte (`-1` once the byte is complete).
    pub open spec fn wf(&self) -> bool {
        &&& self.tree.wf()
        &&& self.tree.contexts_ok(&self.active_contexts)
        &&& -1 <= self.bit_index <= 7
        &&& self.bit_index >= 0 ==> self.tree.window_of().size_of() > 0
    }

    /// A history over a window of `max_window_size` bytes whose first byte
    /// goes to position `initial_shift`, with contexts up to `max_order`.
    pub fn new_special(max_window_size: usize, max_order: usize, initial_shift: usize, luts: &'a LookUpTables) -> (r: TreeHistorySource<'a>)
        requires
            0 < max_window_size <= 0x7fff_ffff,
            initial_shift < max_window_size,
            max_order * 8 + 7 < 0x1_0000,
            luts.wf(),
        ensures
            r.wf(),
            r.bit_index == -1,
            r.tree.window_of().max() == max_window_size,
            r.tree.window_of().size_of() == 0,
            r.active_contexts.max_order_of() == max_order,
    {
        let nodes_limit = if max_window_size - 1 > Nodes::NUM_ROOTS {
            max_window_size - 1
        } else {
            Nodes::NUM_ROOTS
        };
        let nodes = Nodes::new(nodes_limit);
        let tree = Tree::new(nodes, max_window_size, initial_shift, luts);
        proof {
            let n = tree.nodes_of();
            assert forall|s: int| 0 <= s < n.len() implies #[trigger] node_ok(&n, max_window_size as int, s) by {
            }
        }
        TreeHistorySource { tree, active_contexts: ActiveContexts::new(max_order), bit_index: -1 }
    }

    pub fn new(max_window_size: usize, max_order: usize, luts: &'a LookUpTables) -> (r: TreeHistorySource<'a>)
        requires
            0 < max_window_size <= 0x7fff_ffff,
            max_order * 8 + 7 < 0x1_0000,
            luts.wf(),
        ensures
            r.wf(),
            r.bit_index == -1,
            r.tree.window_of().max() == max_window_size,
            r.tree.window_of().size_of() == 0,
            r.active_contexts.max_order_of() == max_order,
    {
        TreeHistorySource::new_special(max_window_size, max_order, 0, luts)
    }

    /// Starts the next byte.
    pub fn start_new_byte(&mut self) -> (r: Result<(), TreeInconsistency>)
        requires
            old(self).wf(),
            old(self).bit_index == -1,
        ensures
            history_byte_started(*old(self), *final(self), r),

    {
        proof {
            self.tree.window.lemma_wf();
        }
        self.bit_index = 7;
        let result = self.tree.start_new_byte(&mut self.active_contexts);
        match result {
            Ok(()) => {},
            Err(e) => {
                return Err(e);
            },
        }
        let ghost mid_nodes = self.tree.nodes_of();
        let ghost mid_items = self.active_contexts.view_items();
        let ghost mid_state = self.tree.state_of();
        let shifted = self.active_contexts.shift(&mut self.tree);
        proof {
            if shifted is Ok && old(self).tree.state_of() == TreeState::Proper && old(self).tree.window_of().size_of()
                == old(self).tree.window_of().max() {
                assert(mid_state == TreeState::Proper ==> shift_effect(
                    &mid_nodes,
                    &self.tree.nodes_of(),
                    self.tree.window_of(),
                    mid_items,
                    self.active_contexts.view_items(),
                    old(self).active_contexts.max_order_of(),
                ));
            }
        }
        shifted
    }

    /// The states of the contexts of the next bit.
    pub fn gather_history_states(&self, collected_states: &mut CollectedContextStates) -> (r: Result<(), TreeInconsistency>)
        requires
            self.wf(),
            self.bit_index >= 0,
            old(collected_states).items_view().len() == 0,
            old(collected_states).limit_of() == self.active_contexts.max_order_of() + 1,
        ensures
            history_gathered(*self, *old(collected_states), *final(collected_states), r),

    {
        proof {
            reveal(history_gathered);
        }
        self.tree.gather_states(&self.active_contexts, collected_states, self.bit_index as usize)
    }

    /// Takes the next bit of the current byte.
    pub fn process_input_bit(&mut self, input_bit: Bit, new_cost_trackers: &[CostTrackers]) -> (r: Result<(), TreeInconsistency>)
        requires
            old(self).wf(),
            old(self).bit_index >= 0,
        ensures
            history_bit_taken(*old(self), *final(self), input_bit, new_cost_trackers@, r),

    {
        let max_order = self.active_contexts.max_order();
        let result = self.tree.extend(
            &mut self.active_contexts,
            new_cost_trackers,
            input_bit,
            self.bit_index as usize,
            max_order,
        );
        self.bit_index = self.bit_index - 1;
        result
    }
}

/// What gathering the states of the contexts of the next bit does, as
/// `TreeHistorySource::gather_history_states` states it.
#[verifier::opaque]
pub open spec fn history_gathered<'a>(ts: TreeHistorySource<'a>, cs0: CollectedContextStates, cs1: CollectedContextStates, r: Result<(), TreeInconsistency>) -> bool {
    &&& cs1.limit_of() == cs0.limit_of()
    &&& forall|i: int| 0 <= i < cs1.items_view().len() ==> (#[trigger] cs1.items_view()[i]).wf()
    &&& ts.tree.state_of() == TreeState::Proper ==> cs1.items_view().len() <= ts.active_contexts.view_items().len()
    &&& ts.tree.state_of() == TreeState::Proper ==> (r is Ok <==> forall|k: int|
            0 <= k < ts.active_contexts.view_items().len() ==> #[trigger] context_readable(
                ts.tree.window_of(),
                &ts.tree.nodes_of(),
                ts.active_contexts.view_items()[k],
                k,
                ts.bit_index as int,
            ))
    &&& ts.tree.state_of() == TreeState::Proper && r is Ok ==> cs1.items_view() == gathered_states(
            ts.tree.window_of(),
            &ts.tree.nodes_of(),
            ts.active_contexts.view_items(),
            ts.bit_index as int,
            ts.active_contexts.view_items().len() as int,
        )
    &&& ts.tree.state_of() == TreeState::Degenerate ==> r is Ok && cs1.items_view().len() == (
        if ts.active_contexts.max_order_of() + 1 < ts.tree.window_of().size_of() - 1 {
            ts.active_contexts.max_order_of() + 1
        } else {
            ts.tree.window_of().size_of() - 1
        })
    &&& ts.tree.state_of() == TreeState::Degenerate ==> forall|i: int| 0 <= i < cs1.items_view().len() ==>
            #[trigger] cs1.items_view()[i] == (ContextState::ForEdge {
            last_occurrence_distance: 1,
            occurrence_count: (if ts.tree.window_of().size_of() - i - 1 < MAX_OCCURRENCE_COUNT {
                ts.tree.window_of().size_of() - i - 1
            } else {
                MAX_OCCURRENCE_COUNT as int
            }) as u16,
            repeated_bit: Bit::of_bool(bit_of(ts.tree.window_of().bytes()[ts.tree.window_of().start_of()], ts.bit_index as int)),
        })
    &&& cs1.items_view().len() <= ts.active_contexts.max_order_of() + 1
}

/// What starting the next byte does, as
/// `TreeHistorySource::start_new_byte` states it.
pub open spec fn history_byte_started<'a>(ts0: TreeHistorySource<'a>, ts1: TreeHistorySource<'a>, r: Result<(), TreeInconsistency>) -> bool {
    &&& ts1.wf()
    &&& ts1.bit_index == 7
    &&& ts1.tree.window_of().max() == ts0.tree.window_of().max()
    &&& ts1.active_contexts.max_order_of() == ts0.active_contexts.max_order_of()
    &&& ts0.tree.state_of() == TreeState::Degenerate || 1 <= ts0.tree.window_of().size_of()
            < ts0.tree.window_of().max() ==> r is Ok
    &&& r is Ok <==> {
            let w = ts0.tree.window_of();
            &&& w.size_of() < w.max() || ts0.tree.state_of() == TreeState::Degenerate || removal_outcome(
                &ts0.tree.nodes_of(),
                w,
                ts0.active_contexts.view_items(),
            ) is Ok
            &&& ts1.tree.state_of() == TreeState::Degenerate || ts1.tree.window_of().size_of() >= 2
        }
    &&& r is Ok ==> {
            let w = ts0.tree.window_of();
            let v = ts1.tree.window_of();
            &&& v.max() == w.max()
            &&& v.size_of() == (if w.size_of() == w.max() { w.size_of() } else { w.size_of() + 1 })
            &&& v.cursor_of() == next_position(w.cursor_of(), w.max())
            &&& v.start_of() == (if w.size_of() == w.max() {
                next_position(w.start_of(), w.max())
            } else {
                w.start_of()
            })
            &&& v.bytes() == (if w.is_full() {
                (if w.size_of() == w.max() {
                    w.bytes().update(w.start_of(), 0u8)
                } else {
                    w.bytes()
                }).update(v.cursor_of(), 0u8)
            } else {
                w.bytes().push(0u8)
            })
        }
    &&& ts0.tree.state_of() == TreeState::Degenerate ==> ts1.tree.state_of() == TreeState::Degenerate
            && ts1.tree.nodes_of() == ts0.tree.nodes_of() && ts1.active_contexts
            == ts0.active_contexts
    &&& r is Ok && ts0.tree.state_of() == TreeState::Proper && ts0.tree.window_of().size_of() < ts0.tree.window_of().max() ==> ts1.tree.state_of() == TreeState::Proper && shift_effect(
            &ts0.tree.nodes_of(),
            &ts1.tree.nodes_of(),
            ts1.tree.window_of(),
            ts0.active_contexts.view_items(),
            ts1.active_contexts.view_items(),
            ts0.active_contexts.max_order_of(),
        )
    &&& r is Ok && ts0.tree.state_of() == TreeState::Proper && ts0.tree.window_of().size_of() == ts0.tree.window_of().max() ==> exists|mid_nodes: Nodes, mid_items: Seq<Context>, mid_state: TreeState|
            {
                &&& removal_effect(
                    &ts0.tree.nodes_of(),
                    &mid_nodes,
                    ts0.tree.window_of(),
                    ts0.active_contexts.view_items(),
                    mid_items,
                    mid_state,
                )
                &&& ts1.tree.state_of() == mid_state
                &&& mid_state == TreeState::Proper ==> shift_effect(
                    &mid_nodes,
                    &ts1.tree.nodes_of(),
                    ts1.tree.window_of(),
                    mid_items,
                    ts1.active_contexts.view_items(),
                    ts0.active_contexts.max_order_of(),
                )
                &&& mid_state == TreeState::Degenerate ==> ts1.tree.nodes_of() == mid_nodes
                    && ts1.active_contexts.view_items() == mid_items
            }
}

/// What taking the next bit of the current byte does, as
/// `TreeHistorySource::process_input_bit` states it.
pub open spec fn history_bit_taken<'a>(ts0: TreeHistorySource<'a>, ts1: TreeHistorySource<'a>, input_bit: Bit, new_cost_trackers: Seq<CostTrackers>, r: Result<(), TreeInconsistency>) -> bool {
    &&& ts1.wf()
    &&& ts1.bit_index == ts0.bit_index - 1
    &&& ts1.tree.window_of().max() == ts0.tree.window_of().max()
    &&& ts1.active_contexts.max_order_of() == ts0.active_contexts.max_order_of()
    &&& ts1.tree.luts_of() == ts0.tree.luts_of()
    &&& ts1.active_contexts.view_items().len() <= ts0.active_contexts.view_items().len()
    &&& ts1.tree.window_of().size_of() == ts0.tree.window_of().size_of()
    &&& ts1.tree.window_of().cursor_of() == ts0.tree.window_of().cursor_of()
    &&& ts1.tree.window_of().bytes() == ts0.tree.window_of().bytes().update(
            ts0.tree.window_of().cursor_of(),
            crate::history::window::with_bit(
                ts0.tree.window_of().bytes()[ts0.tree.window_of().cursor_of()],
                ts0.bit_index as int,
                input_bit == Bit::One,
            ),
        )
    &&& ts1.tree.state_of() == TreeState::Degenerate ==> ts0.tree.state_of() == TreeState::Degenerate
    &&& ts0.tree.state_of() == TreeState::Proper && r is Ok ==> exists|trace: Seq<(Nodes, Seq<Context>, int)>|
            {
                &&& #[trigger] extend_trace(
                    trace,
                    ts0.tree.nodes_of(),
                    ts0.active_contexts.view_items(),
                    ts0.tree.luts_of(),
                    ts1.tree.window_of(),
                    ts0.bit_index as int,
                    new_cost_trackers,
                )
                &&& trace.len() == ts0.active_contexts.view_items().len() + 1
                &&& ts1.tree.nodes_of() == trace.last().0
                &&& ts1.active_contexts.view_items() == trace.last().1.subrange(0, trace.last().2)
            }
    &&& ts0.tree.state_of() == TreeState::Proper && r is Err ==> exists|trace: Seq<(Nodes, Seq<Context>, int)>|
            {
                let n = ts0.active_contexts.view_items().len() as int;
                let k = trace.len() - 1;
                &&& #[trigger] extend_trace(
                    trace,
                    ts0.tree.nodes_of(),
                    ts0.active_contexts.view_items(),
                    ts0.tree.luts_of(),
                    ts1.tree.window_of(),
                    ts0.bit_index as int,
                    new_cost_trackers,
                )
                &&& trace.len() <= n
                &&& extend_step_error(
                    &trace[k].0,
                    ts1.tree.window_of(),
                    trace[k].1[n - 1 - k],
                    n - 1 - k,
                    ts0.bit_index as int,
                    new_cost_trackers.len() as int,
                    trace[k].2,
                ) == Some(r->Err_0)
            }
    &&& ts0.tree.state_of() == TreeState::Degenerate ==> ts1.active_contexts == ts0.active_contexts
    &&& ts0.tree.state_of() == TreeState::Degenerate ==> {
            let w = ts1.tree.window_of();
            let size = w.size_of();
            let order = if ts0.active_contexts.max_order_of() < size - 2 { ts0.active_contexts.max_order_of() } else { size - 2 };
            let d = if bit_of(w.bytes()[w.cursor_of()], ts0.bit_index as int) {
                Direction::Right
            } else {
                Direction::Left
            };
            if size >= 2 && bit_of(
                w.bytes()[subtract_spec(w.cursor_of(), 1, w.max())] ^ w.bytes()[w.cursor_of()],
                ts0.bit_index as int,
            ) {
                &&& r is Ok <==> order <= ts0.tree.nodes_of().spare()
                &&& r is Err ==> r == Err::<(), TreeInconsistency>(TreeInconsistency::NodesExhausted)
                &&& r is Ok ==> ts1.tree.state_of() == TreeState::Proper
                &&& r is Ok ==> ts1.tree.nodes_of().spare() == ts0.tree.nodes_of().spare() - order
                &&& r is Ok ==> ts1.tree.nodes_of().node(0).depth_of() == 7 - ts0.bit_index
                &&& r is Ok ==> ts1.tree.nodes_of().node(0).text_start == w.cursor_of()
                &&& r is Ok ==> ts1.tree.nodes_of().node(0).children.at(d).is_leaf()
                    && ts1.tree.nodes_of().node(0).children.at(d).leaf_index() == w.cursor_of()
            } else {
                &&& r is Ok
                &&& ts1.tree.state_of() == TreeState::Degenerate
                &&& ts1.tree.nodes_of() == ts0.tree.nodes_of()
            }
        }
}

} // verus!
