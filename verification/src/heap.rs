//! The shared memory of a map: list nodes, value cells, and who owns each.
//!
//! Every function here is one atomic access: a load, a swap, or a
//! compare-and-swap of a single word of a single node.

use crate::arena::Arena;
use crate::marked::{is_marked, unmark};
use vstd::prelude::*;

verus! {

/// One entry of a bucket's list. A sentinel carries no key and no value cell.
/// The key never changes while the node is allocated; `val` is the address of
/// the node's value cell and `next` is a link word.
#[derive(Clone, Copy, Debug)]
pub struct Node {
    pub key: Option<u64>,
    pub val: usize,
    pub next: usize,
}

impl Node {
    /// A sentinel: no key, no value cell, and the null word as its link.
    pub fn empty() -> (node: Node)
        ensures
            node == (Node { key: None, val: 0, next: 0 }),
    {
        Node { key: None, val: 0, next: 0 }
    }

    /// A node that carries `key` and points at the value cell at `val`, with
    /// the null word as its link.
    pub fn new(key: u64, val: usize) -> (node: Node)
        ensures
            node == (Node { key: Some(key), val: val, next: 0 }),
    {
        Node { key: Some(key), val, next: 0 }
    }
}

/// Where an allocated node stands in its life. A node is allocated and
/// linked by one insertion; a node that is freed has left the arena and has
/// no state.
pub enum NodeState {
    /// Reachable from the head sentinel at this address. The node is live
    /// while its own link word is unmarked and logically deleted once it is
    /// marked.
    Linked(usize),
    /// Cut out of its list and waiting in the retired buffer of this owner.
    Unlinked(usize),
}

/// Who answers for an allocated value cell.
pub enum CellState {
    /// The node at this address points at the cell.
    Held(usize),
    /// Displaced by an update and waiting in the retired buffer of this owner.
    Retired(usize),
}

/// Nodes and value cells, with the ghost record of their owners and, for
/// every unlinked node, of the clock of the operation that unlinked it: the
/// epoch counters of all handles as they stood when that operation began.
pub struct Heap<V> {
    pub nodes: Arena<Node>,
    pub cells: Arena<V>,
    pub node_state: Ghost<Map<usize, NodeState>>,
    pub cell_state: Ghost<Map<usize, CellState>>,
    pub unlinked_at: Ghost<Map<usize, Seq<Option<usize>>>>,
}

impl<V> Heap<V> {
    /// The node at `a`, if it carries a key, points at an allocated cell that
    /// is recorded as held by it; and if it is linked, the head sentinel of
    /// its list is allocated and linked.
    pub open spec fn node_sound(&self, a: usize) -> bool {
        &&& self.nodes@[a].key is Some ==> self.cells@.contains_key(self.nodes@[a].val)
            && self.cell_state@[self.nodes@[a].val] == CellState::Held(a)
        &&& self.node_state@[a] is Linked ==> self.node_in(
            self.node_state@[a],
            self.node_state@[a]->Linked_0,
        )
    }

    /// The cell at `c` is retired, or is held by an allocated node that
    /// carries a key and points at it.
    pub open spec fn cell_sound(&self, c: usize) -> bool {
        match self.cell_state@[c] {
            CellState::Held(a) => self.nodes@.contains_key(a) && self.nodes@[a].key is Some
                && self.nodes@[a].val == c,
            CellState::Retired(_) => true,
        }
    }

    /// Both arenas are well formed, every keyed node holds its own cell, and
    /// every cell is held by such a node or is retired.
    pub open spec fn wf(&self) -> bool {
        &&& self.nodes.wf()
        &&& self.cells.wf()
        &&& forall|a: usize| self.nodes@.contains_key(a) ==> #[trigger] self.node_sound(a)
        &&& forall|c: usize| self.cells@.contains_key(c) ==> #[trigger] self.cell_sound(c)
    }

    /// The node at `a` is allocated and in state `s`.
    pub open spec fn node_in(&self, s: NodeState, a: usize) -> bool {
        self.nodes@.contains_key(a) && self.node_state@[a] == s
    }

    /// The cell at `c` is allocated and answered for by a node in state `s`,
    /// or by the retired buffer that `s` names.
    pub open spec fn cell_in(&self, s: NodeState, c: usize) -> bool {
        self.cells@.contains_key(c) && match self.cell_state@[c] {
            CellState::Held(a) => self.node_in(s, a),
            CellState::Retired(owner) => s == NodeState::Unlinked(owner),
        }
    }

    /// From `self` to `after`, the node at `a` stayed allocated and kept its
    /// contents and its state.
    pub open spec fn node_kept(&self, after: &Heap<V>, a: usize) -> bool {
        after.nodes@.contains_key(a) && after.nodes@[a] == self.nodes@[a] && after.node_state@[a]
            == self.node_state@[a]
    }

    /// From `self` to `after`, the cell at `c` stayed allocated and kept its
    /// value and its owner.
    pub open spec fn cell_kept(&self, after: &Heap<V>, c: usize) -> bool {
        after.cells@.contains_key(c) && after.cells@[c] == self.cells@[c] && after.cell_state@[c]
            == self.cell_state@[c]
    }

    /// From `self` to `after`, the node at `a` was kept, or it is in state
    /// `s`, or it is unlinked and retired by `owner`.
    pub open spec fn node_kept_or_claimed(
        &self,
        after: &Heap<V>,
        s: NodeState,
        owner: usize,
        a: usize,
    ) -> bool {
        ||| self.nodes@.contains_key(a) && self.node_kept(after, a)
        ||| after.node_state@[a] == s
        ||| after.node_state@[a] == NodeState::Unlinked(owner)
    }

    /// From `self` to `after`, the cell at `c` was kept, or it is held by a
    /// node, or it is retired by `owner`.
    pub open spec fn cell_kept_or_claimed(&self, after: &Heap<V>, owner: usize, c: usize) -> bool {
        ||| self.cells@.contains_key(c) && self.cell_kept(after, c)
        ||| after.cell_state@[c] is Held
        ||| after.cell_state@[c] == CellState::Retired(owner)
    }

    /// From `self` to `after`, every node and cell outside state `s` was
    /// kept, and whatever is new or changed is in state `s` or retired by
    /// `owner`.
    pub open spec fn unchanged_outside(&self, after: &Heap<V>, s: NodeState, owner: usize) -> bool {
        &&& forall|a: usize|
            self.nodes@.contains_key(a) && !self.node_in(s, a) ==> #[trigger] self.node_kept(
                after,
                a,
            )
        &&& forall|c: usize|
            self.cells@.contains_key(c) && !self.cell_in(s, c) ==> #[trigger] self.cell_kept(
                after,
                c,
            )
        &&& forall|a: usize|
            after.nodes@.contains_key(a) ==> #[trigger] self.node_kept_or_claimed(
                after,
                s,
                owner,
                a,
            )
        &&& forall|c: usize|
            after.cells@.contains_key(c) ==> #[trigger] self.cell_kept_or_claimed(after, owner, c)
    }

    /// From `self` to `after`, the node at `a` has at most moved on in its
    /// life: it is still allocated, its key is the same, its link word is
    /// the same if that word was marked, and it is linked into the same list
    /// as before or unlinked; a node that was unlinked is untouched.
    pub open spec fn node_moved_on(&self, after: &Heap<V>, a: usize) -> bool {
        &&& after.nodes@.contains_key(a)
        &&& after.nodes@[a].key == self.nodes@[a].key
        &&& is_marked(self.nodes@[a].next) ==> after.nodes@[a].next == self.nodes@[a].next
        &&& match self.node_state@[a] {
            NodeState::Linked(head) => after.node_state@[a] == NodeState::Linked(head)
                || after.node_state@[a] is Unlinked,
            NodeState::Unlinked(owner) => after.node_state@[a] == NodeState::Unlinked(owner)
                && after.nodes@[a] == self.nodes@[a],
        }
    }

    /// From `self` to `after` no node was freed, no key changed, no mark was
    /// taken back, and no node went back from unlinked to linked.
    pub open spec fn moves_on(&self, after: &Heap<V>) -> bool {
        forall|a: usize| self.nodes@.contains_key(a) ==> #[trigger] self.node_moved_on(after, a)
    }

    /// From `self` to `after`, the unlinked node at `a` has kept its clock if
    /// it was unlinked before, and carries `clock` if it was not.
    pub open spec fn stamp_follows(
        &self,
        after: &Heap<V>,
        clock: Seq<Option<usize>>,
        a: usize,
    ) -> bool {
        if self.nodes@.contains_key(a) && self.node_state@[a] is Unlinked {
            after.unlinked_at@[a] == self.unlinked_at@[a]
        } else {
            after.unlinked_at@[a] == clock
        }
    }

    /// From `self` to `after`, every node that was unlinked before has kept
    /// its clock, and every node that was unlinked since carries `clock`.
    pub open spec fn stamps_follow(&self, after: &Heap<V>, clock: Seq<Option<usize>>) -> bool {
        forall|a: usize|
            after.nodes@.contains_key(a) && after.node_state@[a] is Unlinked
                ==> #[trigger] self.stamp_follows(after, clock, a)
    }

    /// Clocks that followed twice have followed.
    pub proof fn lemma_stamps_follow_twice(
        &self,
        mid: &Heap<V>,
        after: &Heap<V>,
        clock: Seq<Option<usize>>,
    )
        requires
            self.moves_on(mid),
            self.stamps_follow(mid, clock),
            mid.stamps_follow(after, clock),
        ensures
            self.stamps_follow(after, clock),
    {
        assert forall|a: usize|
            after.nodes@.contains_key(a) && after.node_state@[a]
                is Unlinked implies #[trigger] self.stamp_follows(after, clock, a) by {
            assert(mid.stamp_follows(after, clock, a));
            if mid.nodes@.contains_key(a) && mid.node_state@[a] is Unlinked {
                assert(self.stamp_follows(mid, clock, a));
            }
            if self.nodes@.contains_key(a) {
                assert(self.node_moved_on(mid, a));
            }
        }
    }

    /// Clocks follow where no state and no clock has changed.
    pub proof fn lemma_stamps_same(&self, after: &Heap<V>, clock: Seq<Option<usize>>)
        requires
            after.unlinked_at == self.unlinked_at,
            forall|a: usize|
                after.nodes@.contains_key(a) && after.node_state@[a] is Unlinked
                    ==> self.nodes@.contains_key(a) && #[trigger] self.node_state@[a] is Unlinked,
        ensures
            self.stamps_follow(after, clock),
    {
        assert forall|a: usize|
            after.nodes@.contains_key(a) && after.node_state@[a]
                is Unlinked implies #[trigger] self.stamp_follows(after, clock, a) by {
            assert(self.node_state@[a] is Unlinked);
        }
    }

    /// The address that the node at `a` links to.
    pub open spec fn successor(&self, a: usize) -> usize {
        unmark(self.nodes@[a].next)
    }

    /// By the epoch counters `counters`, the handle with number `id` is
    /// inside an operation in which it may have come to hold the node at
    /// `a`: the node is allocated, and it is linked, or it was unlinked by an
    /// operation that began while the handle was inside this one.
    pub open spec fn held_by(&self, counters: Seq<Option<usize>>, id: int, a: usize) -> bool {
        &&& 0 <= id < counters.len()
        &&& counters[id] is Some
        &&& counters[id]->0 % 2 == 1
        &&& self.nodes@.contains_key(a)
        &&& self.node_state@[a] is Unlinked ==> id < self.unlinked_at@[a].len()
            && self.unlinked_at@[a][id] == counters[id]
    }

    /// If handle `id` may hold the unlinked node at `x`, it may hold the node
    /// that `x` links to.
    pub open spec fn unlinked_closed_at(
        &self,
        counters: Seq<Option<usize>>,
        id: int,
        x: usize,
    ) -> bool {
        self.held_by(counters, id, x) && self.node_state@[x] is Unlinked ==> self.held_by(
            counters,
            id,
            self.successor(x),
        )
    }

    /// Whatever unlinked node a handle may hold, it may hold the node that
    /// the unlinked node links to.
    pub open spec fn unlinked_closed(&self, counters: Seq<Option<usize>>) -> bool {
        forall|id: int, x: usize| #[trigger] self.unlinked_closed_at(counters, id, x)
    }

    /// What may be held across a change that unlinks under the clock
    /// `counters`, and frees nothing, may be held after it.
    pub proof fn lemma_held_moves_on(
        &self,
        after: &Heap<V>,
        counters: Seq<Option<usize>>,
        id: int,
        a: usize,
    )
        requires
            self.held_by(counters, id, a),
            self.moves_on(after),
            self.stamps_follow(after, counters),
        ensures
            after.held_by(counters, id, a),
    {
        assert(self.node_moved_on(after, a));
        if after.node_state@[a] is Unlinked {
            assert(self.stamp_follows(after, counters, a));
        }
    }

    /// A change that touches no unlinked node and unlinks none keeps what
    /// handles may hold closed under links.
    pub proof fn lemma_closed_same(&self, after: &Heap<V>, counters: Seq<Option<usize>>)
        requires
            self.unlinked_closed(counters),
            self.moves_on(after),
            after.unlinked_at == self.unlinked_at,
            forall|a: usize|
                after.nodes@.contains_key(a) && after.node_state@[a] is Unlinked
                    ==> self.nodes@.contains_key(a) && #[trigger] self.node_state@[a] is Unlinked,
        ensures
            after.unlinked_closed(counters),
    {
        assert forall|id: int, x: usize| #[trigger] after.unlinked_closed_at(counters, id, x) by {
            if after.held_by(counters, id, x) && after.node_state@[x] is Unlinked {
                assert(self.node_state@[x] is Unlinked);
                assert(self.node_moved_on(after, x));
                assert(self.held_by(counters, id, x));
                assert(self.unlinked_closed_at(counters, id, x));
                let y = self.successor(x);
                assert(after.successor(x) == y);
                assert(self.node_moved_on(after, y));
                if after.node_state@[y] is Unlinked {
                    assert(self.node_state@[y] is Unlinked);
                }
            }
        }
    }

    /// A heap has kept all that is in it, and has moved on, from itself.
    pub proof fn lemma_same(&self, s: NodeState, owner: usize)
        ensures
            self.unchanged_outside(self, s, owner),
            self.moves_on(self),
    {
        assert forall|a: usize|
            self.nodes@.contains_key(a) && !self.node_in(s, a) implies #[trigger] self.node_kept(
            self,
            a,
        ) by {}
        assert forall|c: usize|
            self.cells@.contains_key(c) && !self.cell_in(s, c) implies #[trigger] self.cell_kept(
            self,
            c,
        ) by {}
        assert forall|a: usize| self.nodes@.contains_key(a) implies #[trigger] self.node_kept_or_claimed(
            self,
            s,
            owner,
            a,
        ) by {
            assert(self.node_kept(self, a));
        }
        assert forall|c: usize| self.cells@.contains_key(c) implies #[trigger] self.cell_kept_or_claimed(
            self,
            owner,
            c,
        ) by {
            assert(self.cell_kept(self, c));
        }
        assert forall|a: usize| self.nodes@.contains_key(a) implies #[trigger] self.node_moved_on(
            self,
            a,
        ) by {}
    }

    /// Moving on twice is moving on.
    pub proof fn lemma_moves_on_twice(&self, mid: &Heap<V>, after: &Heap<V>)
        requires
            self.moves_on(mid),
            mid.moves_on(after),
        ensures
            self.moves_on(after),
    {
        assert forall|a: usize| self.nodes@.contains_key(a) implies #[trigger] self.node_moved_on(
            after,
            a,
        ) by {
            assert(self.node_moved_on(mid, a));
            assert(mid.node_moved_on(after, a));
        }
    }

    /// A heap with the same nodes, cells and cell owners is well formed too.
    pub proof fn lemma_wf_same(&self, other: &Heap<V>)
        requires
            self.wf(),
            other.nodes.wf(),
            other.cells.wf(),
            other.nodes@ == self.nodes@,
            other.cells@ == self.cells@,
            other.cell_state == self.cell_state,
            other.node_state == self.node_state,
        ensures
            other.wf(),
    {
        assert forall|a: usize| other.nodes@.contains_key(a) implies #[trigger] other.node_sound(
            a,
        ) by {
            assert(self.node_sound(a));
        }
        assert forall|c: usize| other.cells@.contains_key(c) implies #[trigger] other.cell_sound(
            c,
        ) by {
            assert(self.cell_sound(c));
        }
    }

    /// What was kept over two changes in a row was kept over both.
    pub proof fn lemma_unchanged_twice(
        &self,
        mid: &Heap<V>,
        after: &Heap<V>,
        s: NodeState,
        owner: usize,
    )
        requires
            self.wf(),
            self.unchanged_outside(mid, s, owner),
            mid.unchanged_outside(after, s, owner),
        ensures
            self.unchanged_outside(after, s, owner),
    {
        assert forall|a: usize| after.nodes@.contains_key(a) implies #[trigger] self.node_kept_or_claimed(
            after,
            s,
            owner,
            a,
        ) by {
            assert(mid.node_kept_or_claimed(after, s, owner, a));
            if mid.nodes@.contains_key(a) && mid.node_kept(after, a) {
                assert(self.node_kept_or_claimed(mid, s, owner, a));
            }
        }
        assert forall|c: usize| after.cells@.contains_key(c) implies #[trigger] self.cell_kept_or_claimed(
            after,
            owner,
            c,
        ) by {
            assert(mid.cell_kept_or_claimed(after, owner, c));
            if mid.cells@.contains_key(c) && mid.cell_kept(after, c) {
                assert(self.cell_kept_or_claimed(mid, owner, c));
            }
        }
        assert forall|a: usize| self.nodes@.contains_key(a) && !self.node_in(s, a) implies #[trigger] self.node_kept(
            after,
            a,
        ) by {
            assert(self.node_kept(mid, a));
            assert(mid.node_kept(after, a));
        }
        assert forall|c: usize| self.cells@.contains_key(c) && !self.cell_in(s, c) implies #[trigger] self.cell_kept(
            after,
            c,
        ) by {
            assert(self.cell_kept(mid, c));
            assert(self.cell_sound(c));
            match self.cell_state@[c] {
                CellState::Held(a) => {
                    assert(self.node_kept(mid, a));
                },
                CellState::Retired(_) => {},
            }
            assert(mid.cell_kept(after, c));
        }
    }

    /// A heap with nothing allocated.
    pub fn new() -> (heap: Self)
        ensures
            heap.wf(),
            heap.nodes@ == Map::<usize, Node>::empty(),
            heap.cells@ == Map::<usize, V>::empty(),
            heap.nodes.spare() == crate::arena::max_slots(),
            heap.cells.spare() == crate::arena::max_slots(),
    {
        Heap {
            nodes: Arena::new(),
            cells: Arena::new(),
            node_state: Ghost(Map::empty()),
            cell_state: Ghost(Map::empty()),
            unlinked_at: Ghost(Map::empty()),
        }
    }

    /// Loads the key of the node at `a`.
    pub fn load_key(&self, a: usize) -> (key: Option<u64>)
        requires
            self.nodes.wf(),
            self.nodes@.contains_key(a),
        ensures
            key == self.nodes@[a].key,
    {
        self.nodes.get(a).key
    }

    /// Loads the link word of the node at `a`.
    pub fn load_next(&self, a: usize) -> (word: usize)
        requires
            self.nodes.wf(),
            self.nodes@.contains_key(a),
        ensures
            word == self.nodes@[a].next,
    {
        self.nodes.get(a).next
    }

    /// Loads the value-cell address of the node at `a`.
    pub fn load_val(&self, a: usize) -> (cell: usize)
        requires
            self.nodes.wf(),
            self.nodes@.contains_key(a),
        ensures
            cell == self.nodes@[a].val,
    {
        self.nodes.get(a).val
    }

    /// Stores `new` as the link word of the node at `a` if that word is
    /// `current`, and returns the word that was found there.
    pub fn compare_and_swap_next(&mut self, a: usize, current: usize, new: usize) -> (found: usize)
        requires
            old(self).nodes.wf(),
            old(self).nodes@.contains_key(a),
        ensures
            final(self).nodes.wf(),
            found == old(self).nodes@[a].next,
            final(self).nodes@ == (if found == current {
                old(self).nodes@.insert(
                    a,
                    (Node { key: old(self).nodes@[a].key, val: old(self).nodes@[a].val, next: new }),
                )
            } else {
                old(self).nodes@
            }),
            final(self).nodes.spare() == old(self).nodes.spare(),
            final(self).cells == old(self).cells,
            final(self).node_state == old(self).node_state,
            final(self).cell_state == old(self).cell_state,
            final(self).unlinked_at == old(self).unlinked_at,
    {
        let node = *self.nodes.get(a);
        if node.next == current {
            self.nodes.set(a, Node { key: node.key, val: node.val, next: new });
        }
        node.next
    }

    /// Stores `cell` as the value-cell address of the node at `a` and returns
    /// the address that was found there.
    pub fn swap_val(&mut self, a: usize, cell: usize) -> (found: usize)
        requires
            old(self).nodes.wf(),
            old(self).nodes@.contains_key(a),
        ensures
            final(self).nodes.wf(),
            found == old(self).nodes@[a].val,
            final(self).nodes@ == old(self).nodes@.insert(
                a,
                (Node { key: old(self).nodes@[a].key, val: cell, next: old(self).nodes@[a].next }),
            ),
            final(self).nodes.spare() == old(self).nodes.spare(),
            final(self).cells == old(self).cells,
            final(self).node_state == old(self).node_state,
            final(self).cell_state == old(self).cell_state,
            final(self).unlinked_at == old(self).unlinked_at,
    {
        let node = *self.nodes.get(a);
        self.nodes.set(a, Node { key: node.key, val: cell, next: node.next });
        node.val
    }
}

impl<V: Copy> Heap<V> {
    /// Copies the value out of the cell at `c`.
    pub fn read_cell(&self, c: usize) -> (value: V)
        requires
            self.cells.wf(),
            self.cells@.contains_key(c),
        ensures
            value == self.cells@[c],
    {
        *self.cells.get(c)
    }
}

} // verus!
