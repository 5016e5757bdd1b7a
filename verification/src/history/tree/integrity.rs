use vstd::prelude::*;
use crate::history::window::{
    InputWindow, WindowIndex, prefix_equal_spec, bit_of, add_spec, subtract_spec, unrolled,
};
use super::{Tree, TreeState, TreeHistorySource, node_ok, child_ok};
use super::context::{ActiveContexts, Context};
use super::direction::Direction;
use super::node_child::NodeIndex;
use super::nodes::Nodes;

verus! {

/// Whether `length` whole bytes from `index`, and the next byte when some
/// of its bits count (`bit_index < 7`), lie in the window's data.
pub open spec fn span_in_data(w: InputWindow, index: int, length: int, bit_index: int) -> bool {
    &&& 0 <= index < w.max()
    &&& 0 <= length < w.max()
    &&& (w.is_full() || index + length + (if bit_index < 7 {
        1int
    } else {
        0
    }) <= w.bytes().len())
}

/// Whether the byte `k` positions after `index` lies in the window's data.
pub open spec fn readable(w: InputWindow, index: int, k: int) -> bool {
    &&& 0 <= index < w.max()
    &&& 0 <= k < w.max()
    &&& (index + k < w.max() || w.is_full())
    &&& add_spec(index, k, w.max()) < w.bytes().len()
}

/// Whether the text at `a` agrees with the text at `b` on `length` whole
/// bytes and then on the bits above `bit_index`, both spans lying in the
/// window's data.
pub open spec fn texts_agree(w: InputWindow, a: int, b: int, bit_index: int, length: int) -> bool {
    &&& span_in_data(w, a, length, bit_index)
    &&& span_in_data(w, b, length, bit_index)
    &&& prefix_equal_spec(w.bytes(), w.max(), a, b, bit_index, length)
}

/// The distance from a position forwards to the cursor.
pub open spec fn to_cursor(w: InputWindow, index: int) -> int {
    subtract_spec(w.cursor_of(), index, w.max())
}

/// The cursor follows the start by the window's size, or the window is full.
pub open spec fn size_consistent(w: InputWindow) -> bool {
    w.size_of() == w.max() || to_cursor(w, w.start_of()) + 1 == w.size_of()
}

/// Whether the search for the suffix starting at `s`, from the node in
/// `slot`, agrees with it: each node passed is within the order limit,
/// starts no earlier than the suffix, and its text agrees with the suffix
/// down to the node's depth (or, when its text reaches the cursor, up to
/// the cursor); the search ends where the next bits differ, or at a leaf
/// whose text agrees with the suffix over `max_order` bytes (or up to the
/// cursor). At most `fuel` nodes are passed.
pub open spec fn suffix_walk_ok(nodes: Nodes, w: InputWindow, max_order: int, s: int, slot: int, fuel: nat) -> bool
    decreases fuel,
{
    let node = nodes.node(slot);
    let ts = node.text_start as int;
    let depth = node.depth_of();
    let dist = to_cursor(w, ts);
    let full = depth / 8;
    let bit_index = 7 - depth % 8;
    if fuel == 0 {
        false
    } else if depth > max_order * 8 + 7 {
        false
    } else if unrolled(s, w.start_of(), w.max()) > unrolled(ts, w.start_of(), w.max()) {
        false
    } else if full >= dist {
        texts_agree(w, s, ts, 7, dist)
    } else if !texts_agree(w, s, ts, bit_index, full) {
        false
    } else if !(readable(w, s, full) && readable(w, ts, full)) {
        false
    } else {
        let next_s = w.bytes()[add_spec(s, full, w.max())];
        let next_t = w.bytes()[add_spec(ts, full, w.max())];
        if bit_of(next_s ^ next_t, bit_index) {
            true
        } else {
            let child = node.children.at(
                if bit_of(next_s, bit_index) {
                    Direction::Right
                } else {
                    Direction::Left
                },
            );
            if child.is_leaf() {
                let leaf = child.leaf_index();
                let reach = if max_order < to_cursor(w, leaf) {
                    max_order
                } else {
                    to_cursor(w, leaf)
                };
                &&& unrolled(s, w.start_of(), w.max()) <= unrolled(leaf, w.start_of(), w.max())
                &&& texts_agree(w, s, leaf, 7, reach)
            } else {
                suffix_walk_ok(nodes, w, max_order, s, child.node_slot(), (fuel - 1) as nat)
            }
        }
    }
}

/// Whether the search for every suffix of the window agrees with it.
pub open spec fn suffixes_agree(nodes: Nodes, w: InputWindow, state: TreeState, max_order: int) -> bool {
    state == TreeState::Proper ==> forall|k: int|
        0 <= k < w.size_of() ==> #[trigger] suffix_walk_ok(
            nodes,
            w,
            max_order,
            add_spec(w.start_of(), k, w.max()),
            0,
            nodes.len() as nat,
        )
}

/// Whether the child in direction `d` of the node in `slot` is a leaf of
/// a present node.
pub open spec fn is_leaf_entry(nodes: Nodes, slot: int, d: Direction) -> bool {
    &&& 0 <= slot < nodes.len()
    &&& nodes.node(slot).valid()
    &&& nodes.node(slot).children.at(d).is_leaf()
}

/// The offset in the window of the suffix of a leaf.
pub open spec fn leaf_offset(nodes: Nodes, w: InputWindow, slot: int, d: Direction) -> int {
    subtract_spec(nodes.node(slot).children.at(d).leaf_index(), w.start_of(), w.max())
}

/// Whether the leaves of the present nodes are suffixes of the window, each
/// one once.
pub open spec fn leaves_distinct(nodes: Nodes, w: InputWindow, state: TreeState) -> bool {
    state == TreeState::Proper ==> {
        &&& forall|p: int, d: Direction| #[trigger] is_leaf_entry(nodes, p, d) ==> leaf_offset(nodes, w, p, d) < w.size_of()
        &&& forall|p1: int, d1: Direction, p2: int, d2: Direction|
            #[trigger] is_leaf_entry(nodes, p1, d1) && #[trigger] is_leaf_entry(nodes, p2, d2) && (p1 != p2 || d1
                != d2) ==> leaf_offset(nodes, w, p1, d1) != leaf_offset(nodes, w, p2, d2)
    }
}

/// Whether the entry `(p2, d2)` comes before position `j` of slot `p` in
/// the scan of the slots.
pub open spec fn scanned_before(p: int, j: int, p2: int, d2: Direction) -> bool {
    p2 < p || (p2 == p && d2.slot() < j)
}

/// The start of the text of the node in `slot` as the contexts see it: the
/// suffix of the last of the first `n` contexts at that node, or `default`.
pub open spec fn effective_start(items: Seq<Context>, slot: int, default: int, n: int) -> int
    decreases n,
{
    if n <= 0 {
        default
    } else if items[n - 1].node_index.index == slot {
        items[n - 1].suffix_index.index() as int
    } else {
        effective_start(items, slot, default, n - 1)
    }
}

/// The start of the text of a child: a leaf's position, or the text start
/// of a node.
pub open spec fn child_start(nodes: Nodes, slot: int, d: Direction) -> int {
    let child = nodes.node(slot).children.at(d);
    if child.is_leaf() {
        child.leaf_index()
    } else {
        nodes.node(child.node_slot()).text_start as int
    }
}

/// Whether the text of every child of every present node agrees, down to
/// the node's depth, with the node's text as the contexts see it.
pub open spec fn children_agree(nodes: Nodes, w: InputWindow, state: TreeState, items: Seq<Context>) -> bool {
    state == TreeState::Proper ==> forall|p: int, d: Direction|
        0 <= p < nodes.len() && nodes.node(p).valid() ==> #[trigger] texts_agree(
            w,
            effective_start(items, p, nodes.node(p).text_start as int, items.len() as int),
            child_start(nodes, p, d),
            7 - nodes.node(p).depth_of() % 8,
            nodes.node(p).depth_of() / 8,
        )
}

impl<'a> Tree<'a> {
    /// The distance from a position forwards to the cursor.
    fn distance_to_cursor(&self, index: WindowIndex) -> (r: usize)
        requires
            self.wf(),
            index.index() < self.window_of().max(),
        ensures
            r == to_cursor(self.window_of(), index.index() as int),
    {
        proof {
            self.window.lemma_wf();
        }
        let cursor = self.window.cursor().raw();
        let i = index.raw();
        if cursor >= i {
            cursor - i
        } else {
            cursor + self.window.max_size() - i
        }
    }

    fn span_ok(&self, index: WindowIndex, length: usize, bit_index: usize) -> (r: bool)
        requires
            self.wf(),
        ensures
            r == span_in_data(self.window_of(), index.index() as int, length as int, bit_index as int),
    {
        proof {
            self.window.lemma_wf();
        }
        let max = self.window.max_size();
        let i = index.raw();
        if i >= max || length >= max {
            return false;
        }
        let len = self.window.buffer_len();
        let extra: usize = if bit_index < 7 {
            1
        } else {
            0
        };
        len == max || i + length + extra <= len
    }

    fn texts_agree(&self, a: WindowIndex, b: WindowIndex, bit_index: usize, length: usize) -> (r: bool)
        requires
            self.wf(),
        ensures
            r == texts_agree(self.window_of(), a.index() as int, b.index() as int, bit_index as int, length as int),
    {
        if !(self.span_ok(a, length, bit_index) && self.span_ok(b, length, bit_index)) {
            return false;
        }
        self.window.compare_for_equal_prefix(a, b, bit_index, length)
    }

    fn readable(&self, index: WindowIndex, k: usize) -> (r: bool)
        requires
            self.wf(),
        ensures
            r == readable(self.window_of(), index.index() as int, k as int),
    {
        proof {
            self.window.lemma_wf();
        }
        let max = self.window.max_size();
        let i = index.raw();
        if i >= max || k >= max {
            return false;
        }
        let len = self.window.buffer_len();
        if !(i + k < max || len == max) {
            return false;
        }
        let position = if i + k >= max {
            i + k - max
        } else {
            i + k
        };
        position < len
    }

    /// Whether the search for the suffix at `s` agrees with it.
    fn suffix_walk_agrees(&self, max_order: usize, s: WindowIndex) -> (r: bool)
        requires
            self.wf(),
            self.state_of() == TreeState::Proper,
            max_order < usize::MAX / 8,
            s.index() < self.window_of().max(),
        ensures
            r == suffix_walk_ok(
                self.nodes_of(),
                self.window_of(),
                max_order as int,
                s.index() as int,
                0,
                self.nodes_of().len() as nat,
            ),
    {
        proof {
            self.window.lemma_wf();
            self.nodes.lemma_wf();
        }
        let ghost nodes = self.nodes_of();
        let ghost w = self.window_of();
        let ghost mo = max_order as int;
        let ghost whole = suffix_walk_ok(nodes, w, mo, s.index() as int, 0, nodes.len() as nat);
        let mut slot: usize = 0;
        let mut fuel: usize = self.nodes.items_len();
        loop
            invariant
                self.wf(),
                nodes == self.nodes_of(),
                w == self.window_of(),
                mo == max_order,
                max_order < usize::MAX / 8,
                s.index() < w.max(),
                0 <= slot < nodes.len(),
                nodes.node(slot as int).valid(),
                fuel <= nodes.len(),
                whole == suffix_walk_ok(nodes, w, mo, s.index() as int, 0, nodes.len() as nat),
                suffix_walk_ok(nodes, w, mo, s.index() as int, slot as int, fuel as nat) == whole,
            decreases fuel,
        {
            if fuel == 0 {
                return false;
            }
            let node = self.nodes.get(NodeIndex::new(slot));
            proof {
                assert(node_ok(&nodes, w.max(), slot as int));
            }
            let depth = node.depth();
            if depth > max_order * 8 + 7 {
                return false;
            }
            let ts = node.text_start();
            if !self.window.index_is_smaller_or_equal(s, ts) {
                return false;
            }
            let dist = self.distance_to_cursor(ts);
            let full = depth / 8;
            let bit_index = 7 - depth % 8;
            if full >= dist {
                return self.texts_agree(s, ts, 7, dist);
            }
            if !self.texts_agree(s, ts, bit_index, full) {
                return false;
            }
            if !(self.readable(s, full) && self.readable(ts, full)) {
                return false;
            }
            let s_next = self.window.index_add(s, full);
            let t_next = self.window.index_add(ts, full);
            if self.window.bytes_differ_on(s_next, t_next, bit_index) {
                return true;
            }
            let bit = self.window.get_bit(s_next, bit_index);
            let child = node.child(Direction::from_bool(bit));
            if child.is_node_index() {
                proof {
                    assert(child_ok(&nodes, w.max(), child));
                }
                slot = child.to_node_index().raw();
                fuel = fuel - 1;
            } else {
                let leaf = child.to_window_index();
                proof {
                    assert(child_ok(&nodes, w.max(), child));
                }
                if !self.window.index_is_smaller_or_equal(s, leaf) {
                    return false;
                }
                let to_leaf = self.distance_to_cursor(leaf);
                let reach = if max_order < to_leaf {
                    max_order
                } else {
                    to_leaf
                };
                return self.texts_agree(s, leaf, 7, reach);
            }
        }
    }

    /// Whether the leaves of the present nodes are suffixes of the window,
    /// each one once.
    fn leaves_are_distinct(&self) -> (r: bool)
        requires
            self.wf(),
            self.state_of() == TreeState::Proper,
        ensures
            r == leaves_distinct(self.nodes_of(), self.window_of(), self.state_of()),
    {
        proof {
            self.window.lemma_wf();
        }
        let ghost nodes = self.nodes_of();
        let ghost w = self.window_of();
        let size = self.window.size();
        let start = self.window.start();
        let mut seen: Vec<bool> = Vec::new();
        while seen.len() < size
            invariant
                seen.len() <= size,
                forall|k: int| 0 <= k < seen.len() ==> !(#[trigger] seen@[k]),
            decreases size - seen.len(),
        {
            seen.push(false);
        }
        let ghost mut owner: Map<int, (int, Direction)> = Map::empty();
        let len = self.nodes.items_len();
        let mut p: usize = 0;
        while p < len
            invariant
                self.wf(),
                nodes == self.nodes_of(),
                w == self.window_of(),
                self.state_of() == TreeState::Proper,
                len == nodes.len(),
                size == w.size_of(),
                start.index() == w.start_of(),
                w.start_of() < w.max() <= 0x7fff_ffff,
                p <= len,
                seen.len() == size,
                forall|k: int|
                    0 <= k < size && #[trigger] seen@[k] ==> owner.contains_key(k) && is_leaf_entry(
                        nodes,
                        owner[k].0,
                        owner[k].1,
                    ) && scanned_before(p as int, 0, owner[k].0, owner[k].1) && leaf_offset(nodes, w, owner[k].0, owner[k].1)
                        == k,
                forall|p2: int, d2: Direction|
                    #[trigger] is_leaf_entry(nodes, p2, d2) && scanned_before(p as int, 0, p2, d2) ==> {
                        let k = leaf_offset(nodes, w, p2, d2);
                        &&& 0 <= k < size
                        &&& seen@[k]
                        &&& owner[k] == (p2, d2)
                    },
            decreases len - p,
        {
            let node = self.nodes.get(NodeIndex::new(p));
            if node.is_valid() {
                let mut j: usize = 0;
                while j < 2
                    invariant
                        self.wf(),
                        nodes == self.nodes_of(),
                        w == self.window_of(),
                        len == nodes.len(),
                        size == w.size_of(),
                        start.index() == w.start_of(),
                        w.start_of() < w.max() <= 0x7fff_ffff,
                        self.state_of() == TreeState::Proper,
                        p < len,
                        node == nodes.node(p as int),
                        node.valid(),
                        j <= 2,
                        seen.len() == size,
                        forall|k: int|
                            0 <= k < size && #[trigger] seen@[k] ==> owner.contains_key(k) && is_leaf_entry(
                                nodes,
                                owner[k].0,
                                owner[k].1,
                            ) && scanned_before(p as int, j as int, owner[k].0, owner[k].1) && leaf_offset(
                                nodes,
                                w,
                                owner[k].0,
                                owner[k].1,
                            ) == k,
                        forall|p2: int, d2: Direction|
                            #[trigger] is_leaf_entry(nodes, p2, d2) && scanned_before(p as int, j as int, p2, d2) ==> {
                                let k = leaf_offset(nodes, w, p2, d2);
                                &&& 0 <= k < size
                                &&& seen@[k]
                                &&& owner[k] == (p2, d2)
                            },
                    decreases 2 - j,
                {
                    let d = if j == 0 {
                        Direction::Left
                    } else {
                        Direction::Right
                    };
                    let child = node.child(d);
                    if child.is_window_index() {
                        let leaf = child.to_window_index();
                        proof {
                            assert(node_ok(&nodes, w.max(), p as int));
                            assert(child == node.children.at(d));
                            assert(d == Direction::Left || d == Direction::Right);
                            assert(child_ok(&nodes, w.max(), node.children.at(Direction::Left)));
                            assert(child_ok(&nodes, w.max(), node.children.at(Direction::Right)));
                            assert(child_ok(&nodes, w.max(), child));
                        }
                        let l = leaf.raw();
                        let s = start.raw();
                        let offset = if l >= s {
                            l - s
                        } else {
                            l + self.window.max_size() - s
                        };
                        proof {
                            assert(is_leaf_entry(nodes, p as int, d));
                            assert(offset == leaf_offset(nodes, w, p as int, d));
                        }
                        if offset >= size {
                            proof {
                                assert(!leaves_distinct(nodes, w, TreeState::Proper));
                            }
                            return false;
                        }
                        if seen[offset] {
                            proof {
                                let (q, e) = owner[offset as int];
                                assert(is_leaf_entry(nodes, q, e));
                                assert(d.slot() == j);
                                assert(q != p || e != d);
                                assert(leaf_offset(nodes, w, q, e) == leaf_offset(nodes, w, p as int, d));
                                assert(!leaves_distinct(nodes, w, TreeState::Proper));
                            }
                            return false;
                        }
                        seen.set(offset, true);
                        proof {
                            owner = owner.insert(offset as int, (p as int, d));
                        }
                    }
                    j += 1;
                }
            }
            p += 1;
        }
        proof {
            assert forall|p1: int, d1: Direction, p2: int, d2: Direction|
                #[trigger] is_leaf_entry(nodes, p1, d1) && #[trigger] is_leaf_entry(nodes, p2, d2) && (p1 != p2 || d1
                    != d2) implies leaf_offset(nodes, w, p1, d1) != leaf_offset(nodes, w, p2, d2) by {
                assert(scanned_before(len as int, 0, p1, d1));
                assert(scanned_before(len as int, 0, p2, d2));
            }
            assert forall|p1: int, d1: Direction| #[trigger] is_leaf_entry(nodes, p1, d1) implies leaf_offset(
                nodes,
                w,
                p1,
                d1,
            ) < w.size_of() by {
                assert(scanned_before(len as int, 0, p1, d1));
            }
        }
        true
    }

    /// Checks, before the next byte, that the tree agrees with its window:
    /// the cursor follows the start by the window's size; the search for
    /// every suffix of the window agrees with it; and the leaves of the
    /// present nodes are suffixes of the window, each one once.
    pub fn check_integrity_on_next_byte(&self, max_order: usize) -> (r: bool)
        requires
            self.wf(),
            max_order < usize::MAX / 8,
        ensures
            r == (size_consistent(self.window_of()) && suffixes_agree(
                self.nodes_of(),
                self.window_of(),
                self.state_of(),
                max_order as int,
            ) && leaves_distinct(self.nodes_of(), self.window_of(), self.state_of())),
    {
        proof {
            self.window.lemma_wf();
        }
        let ghost nodes = self.nodes_of();
        let ghost w = self.window_of();
        let size = self.window.size();
        let start = self.window.start();
        let to_end = self.distance_to_cursor(start);
        let size_ok = size == self.window.max_size() || to_end + 1 == size;
        if !size_ok {
            return false;
        }
        if self.tree_state != TreeState::Proper {
            return true;
        }
        let mut k: usize = 0;
        while k < size
            invariant
                self.wf(),
                nodes == self.nodes_of(),
                w == self.window_of(),
                self.state_of() == TreeState::Proper,
                max_order < usize::MAX / 8,
                size == w.size_of(),
                size <= w.max(),
                start.index() == w.start_of(),
                w.start_of() < w.max(),
                k <= size,
                forall|i: int|
                    0 <= i < k ==> #[trigger] suffix_walk_ok(
                        nodes,
                        w,
                        max_order as int,
                        add_spec(w.start_of(), i, w.max()),
                        0,
                        nodes.len() as nat,
                    ),
            decreases size - k,
        {
            let position = if start.raw() + k >= self.window.max_size() {
                start.raw() + k - self.window.max_size()
            } else {
                start.raw() + k
            };
            let suffix_start = WindowIndex::new(position);
            if !self.suffix_walk_agrees(max_order, suffix_start) {
                proof {
                    assert(!suffix_walk_ok(nodes, w, max_order as int, add_spec(w.start_of(), k as int, w.max()), 0, nodes.len() as nat));
                }
                return false;
            }
            k += 1;
        }
        self.leaves_are_distinct()
    }
}

impl ActiveContexts {
    /// The start of the text of the node in `slot` as the contexts see it:
    /// the suffix of the last context at that node, or the node's own.
    fn effective_start(&self, slot: usize, default: WindowIndex) -> (r: WindowIndex)
        ensures
            r.index() == effective_start(self.view_items(), slot as int, default.index() as int, self.view_items().len() as int),
    {
        let mut n = self.items.len();
        while n > 0
            invariant
                n <= self.items@.len(),
                effective_start(self.view_items(), slot as int, default.index() as int, self.view_items().len() as int)
                    == effective_start(self.view_items(), slot as int, default.index() as int, n as int),
            decreases n,
        {
            let item = self.items[n - 1];
            if item.node_index.index == slot {
                return item.suffix_index;
            }
            n -= 1;
        }
        default
    }

    /// Checks, before the next byte, that the text of every child of every
    /// present node agrees, down to the node's depth, with the node's text
    /// as the contexts see it (a context at a node stands for the node's
    /// latest occurrence).
    pub fn check_integrity_before_next_byte(&self, tree: &Tree) -> (r: bool)
        requires
            tree.wf(),
        ensures
            r == children_agree(tree.nodes_of(), tree.window_of(), tree.state_of(), self.view_items()),
    {
        if tree.tree_state != TreeState::Proper {
            return true;
        }
        let ghost nodes = tree.nodes_of();
        let ghost w = tree.window_of();
        let ghost items = self.view_items();
        let len = tree.nodes.items_len();
        let mut p: usize = 0;
        while p < len
            invariant
                tree.wf(),
                nodes == tree.nodes_of(),
                w == tree.window_of(),
                items == self.view_items(),
                tree.state_of() == TreeState::Proper,
                len == nodes.len(),
                p <= len,
                forall|p2: int, d: Direction|
                    0 <= p2 < p && nodes.node(p2).valid() ==> #[trigger] texts_agree(
                        w,
                        effective_start(items, p2, nodes.node(p2).text_start as int, items.len() as int),
                        child_start(nodes, p2, d),
                        7 - nodes.node(p2).depth_of() % 8,
                        nodes.node(p2).depth_of() / 8,
                    ),
            decreases len - p,
        {
            let node = tree.nodes.get(NodeIndex::new(p));
            if node.is_valid() {
                proof {
                    assert(node_ok(&nodes, w.max(), p as int));
                }
                let node_start = self.effective_start(p, node.text_start());
                let depth = node.depth();
                let full = depth / 8;
                let bit_index = 7 - depth % 8;
                let mut j: usize = 0;
                while j < 2
                    invariant
                        tree.wf(),
                        nodes == tree.nodes_of(),
                        w == tree.window_of(),
                        items == self.view_items(),
                        tree.state_of() == TreeState::Proper,
                        p < len,
                        len == nodes.len(),
                        node == nodes.node(p as int),
                        node.valid(),
                        node_ok(&nodes, w.max(), p as int),
                        node_start.index() == effective_start(items, p as int, node.text_start as int, items.len() as int),
                        full == node.depth_of() / 8,
                        bit_index == 7 - node.depth_of() % 8,
                        j <= 2,
                        forall|d: Direction| #[trigger] d.slot() < j ==> texts_agree(
                            w,
                            effective_start(items, p as int, node.text_start as int, items.len() as int),
                            child_start(nodes, p as int, d),
                            bit_index as int,
                            full as int,
                        ),
                    decreases 2 - j,
                {
                    let d = if j == 0 {
                        Direction::Left
                    } else {
                        Direction::Right
                    };
                    let child = node.child(d);
                    proof {
                        assert(d == Direction::Left || d == Direction::Right);
                        assert(child_ok(&nodes, w.max(), node.children.at(Direction::Left)));
                        assert(child_ok(&nodes, w.max(), node.children.at(Direction::Right)));
                        assert(child_ok(&nodes, w.max(), child));
                        assert(d.slot() == j);
                    }
                    let child_text = if child.is_window_index() {
                        child.to_window_index()
                    } else {
                        tree.nodes.get(child.to_node_index()).text_start()
                    };
                    if !tree.texts_agree(node_start, child_text, bit_index, full) {
                        proof {
                            assert(child_start(nodes, p as int, d) == child_text.index());
                            assert(!children_agree(nodes, w, TreeState::Proper, items)) by {
                                assert(!texts_agree(
                                    w,
                                    effective_start(items, p as int, nodes.node(p as int).text_start as int, items.len() as int),
                                    child_start(nodes, p as int, d),
                                    7 - nodes.node(p as int).depth_of() % 8,
                                    nodes.node(p as int).depth_of() / 8,
                                ));
                            }
                        }
                        return false;
                    }
                    j += 1;
                }
                proof {
                    assert forall|d: Direction| true implies #[trigger] texts_agree(
                        w,
                        effective_start(items, p as int, nodes.node(p as int).text_start as int, items.len() as int),
                        child_start(nodes, p as int, d),
                        7 - nodes.node(p as int).depth_of() % 8,
                        nodes.node(p as int).depth_of() / 8,
                    ) by {
                        assert(d.slot() < 2);
                    }
                }
            }
            p += 1;
        }
        true
    }
}

impl<'a> TreeHistorySource<'a> {
    /// Checks, between bytes, that the contexts and the tree agree with the
    /// window.
    pub fn check_integrity_on_next_byte(&self) -> (r: bool)
        requires
            self.wf(),
            self.bit_index == 7,
            self.active_contexts.max_order_of() < usize::MAX / 8,
        ensures
            r == (children_agree(
                self.tree.nodes_of(),
                self.tree.window_of(),
                self.tree.state_of(),
                self.active_contexts.view_items(),
            ) && size_consistent(self.tree.window_of()) && suffixes_agree(
                self.tree.nodes_of(),
                self.tree.window_of(),
                self.tree.state_of(),
                self.active_contexts.max_order_of(),
            ) && leaves_distinct(self.tree.nodes_of(), self.tree.window_of(), self.tree.state_of())),
    {
        self.active_contexts.check_integrity_before_next_byte(&self.tree) && self.tree.check_integrity_on_next_byte(
            self.active_contexts.max_order(),
        )
    }
}

} // verus!
