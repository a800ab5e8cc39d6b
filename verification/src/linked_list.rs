//! The ordered list of one bucket.
//!
//! Nodes are sorted by key between a head and a tail sentinel. A node is
//! deleted in two steps: its own link word is marked, which removes its key
//! from the list's contents, and a later compare-and-swap on its left
//! neighbour cuts it out. `search` does that cutting for every operation.
//!
//! Every operation runs with exclusive access to the heap, so a
//! compare-and-swap that follows a search finds the word that the search left
//! there. The retry loops of the algorithm are kept; their `decreases` clauses
//! record that no path through a loop body comes back to its head.

use crate::arena::AllocError;
use crate::chain::{
    chain_clean, chain_keys, chain_view, cut_at_gap, cut_chain, is_gap, is_place, is_pruned,
    lemma_agree, lemma_link, lemma_link_keys, lemma_mark, lemma_prune, lemma_prune_keys,
    lemma_same_keys, lemma_swap_val, lemma_view_at, lemma_view_gap, linked_at_gap, live_at,
    next_at, sorted_between_sentinels, with_next,
};
use crate::heap::{CellState, Heap, Node, NodeState};
use crate::marked::{
    get_marked_reference, get_unmarked_reference, is_marked, is_marked_reference, mark, unmark,
};
use crate::retired::Retired;
use vstd::prelude::*;

verus! {

/// Whether a node's key has reached `key`; a sentinel's never has.
fn key_reaches(node_key: Option<u64>, key: u64) -> (reached: bool)
    ensures
        reached == (node_key is Some && key <= node_key->0),
{
    match node_key {
        Some(k) => k >= key,
        None => false,
    }
}

/// Whether a node carries exactly `key`.
fn key_matches(node_key: Option<u64>, key: u64) -> (same: bool)
    ensures
        same == (node_key == Some(key)),
{
    match node_key {
        Some(k) => k == key,
        None => false,
    }
}

/// One bucket: the addresses of its two sentinels.
pub struct LinkedList {
    head: usize,
    tail: usize,
    chain: Ghost<Seq<usize>>,
}

impl LinkedList {
    /// The address of the head sentinel, which also names the list as the
    /// owner of its nodes.
    pub closed spec fn head(&self) -> usize {
        self.head
    }

    /// The address of the tail sentinel.
    pub closed spec fn tail(&self) -> usize {
        self.tail
    }

    /// The addresses reachable from the head sentinel, in list order.
    pub closed spec fn chain(&self) -> Seq<usize> {
        self.chain@
    }

    /// The list's nodes are sorted between its sentinels, and they are the
    /// allocated nodes that are recorded as linked into this list.
    pub closed spec fn wf<V>(&self, heap: &Heap<V>) -> bool {
        &&& sorted_between_sentinels(self.chain@, heap.nodes@, self.head, self.tail)
        &&& forall|i: int|
            0 <= i < self.chain@.len() ==> heap.node_state@[#[trigger] self.chain@[i]]
                == NodeState::Linked(self.head)
        &&& forall|a: usize|
            heap.node_in(NodeState::Linked(self.head), a) ==> #[trigger] self.chain@.contains(a)
    }

    /// The contents of the list.
    pub closed spec fn view<V>(&self, heap: &Heap<V>) -> Map<u64, V> {
        chain_view(self.chain@, heap.nodes@, heap.cells@)
    }

    /// The keys of all nodes of the list, logically deleted or not.
    pub closed spec fn keys<V>(&self, heap: &Heap<V>) -> Set<u64> {
        chain_keys(self.chain@, heap.nodes@)
    }

    /// No node of the list is logically deleted.
    pub closed spec fn clean<V>(&self, heap: &Heap<V>) -> bool {
        chain_clean(self.chain@, heap.nodes@)
    }

    /// The state of every node of the list.
    pub open spec fn state(&self) -> NodeState {
        NodeState::Linked(self.head())
    }

    /// A well-formed list is sorted between its sentinels.
    pub proof fn lemma_sorted<V>(&self, heap: &Heap<V>)
        requires
            self.wf(heap),
        ensures
            sorted_between_sentinels(self.chain(), heap.nodes@, self.head(), self.tail()),
            heap.node_in(self.state(), self.head()),
            self.view(heap) == chain_view(self.chain(), heap.nodes@, heap.cells@),
            self.keys(heap) == chain_keys(self.chain(), heap.nodes@),
            self.clean(heap) == chain_clean(self.chain(), heap.nodes@),
            self.view(heap).dom().subset_of(self.keys(heap)),
    {
        assert(self.chain@[0] == self.head);
        assert forall|k: u64| self.view(heap).contains_key(k) implies self.keys(heap).contains(
            k,
        ) by {
            let i = choose|i: int| live_at(self.chain@, heap.nodes@, i, k);
            assert(crate::chain::key_at(self.chain@, heap.nodes@, i, k));
        }
    }

    /// A node of the list that links on links to a node of the list.
    pub proof fn lemma_successor<V>(&self, heap: &Heap<V>, a: usize)
        requires
            self.wf(heap),
            heap.node_in(self.state(), a),
            heap.nodes@[a].next != 0,
        ensures
            heap.node_in(self.state(), heap.successor(a)),
    {
        let chain = self.chain@;
        assert(chain.contains(a));
        let i = choose|i: int| 0 <= i < chain.len() && chain[i] == a;
        assert(chain[chain.len() - 1] == self.tail);
        assert(next_at(chain, heap.nodes@, i) == chain[i + 1]);
        assert(heap.nodes@.contains_key(chain[i + 1]));
    }

    /// A list keeps its shape and its contents across a change of the heap
    /// that leaves its nodes and their cells alone.
    pub proof fn lemma_unchanged<V>(
        &self,
        before: &Heap<V>,
        after: &Heap<V>,
        s: NodeState,
        owner: usize,
    )
        requires
            self.wf(before),
            before.wf(),
            before.unchanged_outside(after, s, owner),
            s != self.state(),
        ensures
            self.wf(after),
            self.view(after) == self.view(before),
            self.keys(after) == self.keys(before),
            self.clean(after) == self.clean(before),
    {
        let chain = self.chain@;
        assert forall|i: int| 0 <= i < chain.len() implies after.nodes@.contains_key(
            #[trigger] chain[i],
        ) && after.nodes@[chain[i]] == before.nodes@[chain[i]] && after.node_state@[chain[i]]
            == before.node_state@[chain[i]] by {
            assert(before.node_kept(after, chain[i]));
        }
        lemma_same_keys(chain, before.nodes@, after.nodes@);
        assert forall|a: usize|
            after.node_in(NodeState::Linked(self.head), a) implies #[trigger] chain.contains(a) by {
            assert(before.node_kept_or_claimed(after, s, owner, a));
            assert(before.node_in(NodeState::Linked(self.head), a));
        }
        assert forall|i: int| 0 < i < chain.len() - 1 implies after.cells@[before.nodes@[
            #[trigger] chain[i]].val] == before.cells@[before.nodes@[chain[i]].val] by {
            let a = chain[i];
            assert(before.node_sound(a));
            assert(before.cell_kept(after, before.nodes@[a].val));
        }
        lemma_agree(
            chain,
            before.nodes@,
            before.cells@,
            after.nodes@,
            after.cells@,
            self.head,
            self.tail,
        );
    }

    /// A key is absent from the contents when the node at its place is the
    /// tail sentinel or carries another key.
    proof fn lemma_absent<V>(&self, heap: &Heap<V>, key: u64, j: int)
        requires
            self.wf(heap),
            is_place(self.chain@, heap.nodes@, key, self.chain@[j], self.chain@[j + 1], j),
            self.chain@[j + 1] == self.tail || heap.nodes@[self.chain@[j + 1]].key != Some(key),
        ensures
            !self.view(heap).contains_key(key),
    {
        let chain = self.chain@;
        if j + 1 == chain.len() - 1 {
        } else {
            assert(chain[j + 1] != chain[chain.len() - 1]);
        }
        lemma_view_gap(chain, heap.nodes@, heap.cells@, self.head, self.tail, j, key);
    }

    /// A key is in the contents, with the value of the cell of the node at
    /// its place, when that node is not the tail sentinel and carries the
    /// key.
    proof fn lemma_present<V>(&self, heap: &Heap<V>, key: u64, j: int)
        requires
            self.wf(heap),
            heap.wf(),
            is_place(self.chain@, heap.nodes@, key, self.chain@[j], self.chain@[j + 1], j),
            self.chain@[j + 1] != self.tail,
            heap.nodes@[self.chain@[j + 1]].key == Some(key),
        ensures
            j + 1 < self.chain@.len() - 1,
            live_at(self.chain@, heap.nodes@, j + 1, key),
            self.view(heap).contains_key(key),
            self.view(heap)[key] == heap.cells@[heap.nodes@[self.chain@[j + 1]].val],
            heap.nodes@.contains_key(self.chain@[j + 1]),
            heap.cells@.contains_key(heap.nodes@[self.chain@[j + 1]].val),
            heap.cell_state@[heap.nodes@[self.chain@[j + 1]].val] == CellState::Held(
                self.chain@[j + 1],
            ),
    {
        let chain = self.chain@;
        assert(chain[chain.len() - 1] == self.tail);
        assert(heap.nodes@.contains_key(chain[j + 1]));
        assert(heap.node_sound(chain[j + 1]));
        lemma_view_at(chain, heap.nodes@, heap.cells@, self.head, self.tail, j + 1, key);
    }

    /// The step that cuts a run of logically deleted nodes out of the list
    /// and retires it keeps the list, the heap and the buffer well formed and
    /// the contents as they were.
    proof fn lemma_cut_step<V>(
        &self,
        after: &LinkedList,
        heap: &Heap<V>,
        heap2: &Heap<V>,
        retired: &Retired,
        retired2: &Retired,
        l: int,
        r: int,
    )
        requires
            self.wf(heap),
            heap.wf(),
            retired.wf(heap),
            0 <= l,
            l + 1 < r < self.chain@.len(),
            !is_marked(heap.nodes@[self.chain@[l]].next),
            forall|m: int| l < m < r ==> is_marked(heap.nodes@[#[trigger] self.chain@[m]].next),
            after.head == self.head,
            after.tail == self.tail,
            after.chain@ == cut_chain(self.chain@, l, r),
            heap2.nodes.wf(),
            heap2.nodes@ == with_next(heap.nodes@, self.chain@[l], self.chain@[r]),
            heap2.cells == heap.cells,
            heap2.cell_state == heap.cell_state,
            forall|x: int|
                l < x < r ==> heap2.node_state@[#[trigger] self.chain@[x]] == NodeState::Unlinked(
                    retired.owner,
                ),
            forall|x: int|
                0 <= x < self.chain@.len() && !(l < x < r) ==> heap2.node_state@[
                    #[trigger] self.chain@[x]] == NodeState::Linked(self.head),
            forall|a: usize|
                heap.node_state@[a] != NodeState::Linked(self.head)
                    ==> #[trigger] heap2.node_state@[a] == heap.node_state@[a],
            retired2.owner == retired.owner,
            retired2.clock == retired.clock,
            retired2.cells@ == retired.cells@,
            retired2.nodes@ == retired.nodes@ + self.chain@.subrange(l + 1, r),
            forall|x: int|
                l < x < r ==> heap2.unlinked_at@[#[trigger] self.chain@[x]] == retired.clock@,
            forall|a: usize|
                heap.node_state@[a] != NodeState::Linked(self.head)
                    ==> #[trigger] heap2.unlinked_at@[a] == heap.unlinked_at@[a],
        ensures
            after.wf(heap2),
            heap2.wf(),
            retired2.wf(heap2),
            retired2.extends(retired),
            after.view(heap2) == self.view(heap),
            after.keys(heap2).subset_of(self.keys(heap)),
            (forall|x: int|
                0 <= x < self.chain@.len() && !(l < x < r) ==> !is_marked(
                    heap.nodes@[#[trigger] self.chain@[x]].next,
                )) ==> after.clean(heap2),
            heap2.nodes@.dom() == heap.nodes@.dom(),
            heap.unchanged_outside(heap2, self.state(), retired.owner),
            heap.moves_on(heap2),
    {
        let chain = self.chain@;
        let cut = after.chain@;
        let left = chain[l];
        let owner = retired.owner;
        let d = r - l - 1;
        let grown = retired2.nodes@;
        let kept = retired.nodes@;
        lemma_prune_keys(chain, heap.nodes@, self.head, self.tail, l, r);
        lemma_prune(chain, heap.nodes@, heap.cells@, self.head, self.tail, l, r);
        retired2.lemma_appended(retired, chain.subrange(l + 1, r), Seq::<usize>::empty());
        assert(heap.nodes@.contains_key(chain[l]));
        assert(heap2.nodes@.dom() =~= heap.nodes@.dom());
        assert forall|x: int| 0 <= x < cut.len() implies #[trigger] cut[x] == chain[if x <= l {
            x
        } else {
            x + d
        }] by {}
        assert forall|x: int| 0 <= x < chain.len() && !(l < x < r) implies cut[if x <= l {
            x
        } else {
            x - d
        }] == #[trigger] chain[x] by {}
        assert forall|x: int| l < x < r implies grown[kept.len() + (x - l - 1)]
            == #[trigger] chain[x] by {}
        assert forall|x: int| 0 <= x < chain.len() && x != l implies heap2.nodes@[
            #[trigger] chain[x]] == heap.nodes@[chain[x]] by {
            if x < l {
                assert(chain[x] != chain[l]);
            } else {
                assert(chain[l] != chain[x]);
            }
        }
        // every node is where it was, or on the chain and linked as before,
        // or in the run and retired now
        assert forall|a: usize| heap.nodes@.contains_key(a) implies (heap.node_state@[a]
            != NodeState::Linked(self.head) ==> heap.node_kept(heap2, a)) && (heap.node_state@[a]
            == NodeState::Linked(self.head) ==> (#[trigger] heap2.node_state@[a]
            == NodeState::Linked(self.head) && cut.contains(a)) || (heap2.node_state@[a]
            == NodeState::Unlinked(owner) && grown.contains(a) && heap2.nodes@[a]
            == heap.nodes@[a])) && heap.node_moved_on(heap2, a) by {
            if heap.node_state@[a] == NodeState::Linked(self.head) {
                assert(heap.node_in(NodeState::Linked(self.head), a));
                assert(chain.contains(a));
                let x = choose|x: int| 0 <= x < chain.len() && chain[x] == a;
                if l < x < r {
                    assert(heap2.node_state@[chain[x]] == NodeState::Unlinked(owner));
                    assert(grown[kept.len() + (x - l - 1)] == chain[x]);
                } else {
                    assert(heap2.node_state@[chain[x]] == NodeState::Linked(self.head));
                    assert(cut[if x <= l {
                        x
                    } else {
                        x - d
                    }] == chain[x]);
                }
            } else {
                assert(a != left);
            }
        }
        assert forall|x: int| 0 <= x < cut.len() implies heap2.node_state@[#[trigger] cut[x]]
            == NodeState::Linked(self.head) by {
            let x0 = if x <= l {
                x
            } else {
                x + d
            };
            assert(cut[x] == chain[x0]);
        }
        assert forall|a: usize|
            heap2.node_in(NodeState::Linked(self.head), a) implies #[trigger] cut.contains(a) by {
            assert(heap.nodes@.contains_key(a));
        }
        assert forall|a: usize| heap2.nodes@.contains_key(a) implies #[trigger] heap2.node_sound(
            a,
        ) by {
            assert(heap.node_sound(a));
            assert(heap.nodes@.contains_key(a));
        }
        assert forall|c: usize| heap2.cells@.contains_key(c) implies #[trigger] heap2.cell_sound(
            c,
        ) by {
            assert(heap.cell_sound(c));
        }
        assert forall|a: usize|
            heap2.node_in(NodeState::Unlinked(owner), a) implies #[trigger] grown.contains(a) by {
            assert(heap.nodes@.contains_key(a));
            if heap.node_state@[a] != NodeState::Linked(self.head) {
                assert(heap.node_in(NodeState::Unlinked(owner), a));
                assert(kept.contains(a));
                let i = choose|i: int| 0 <= i < kept.len() && kept[i] == a;
                assert(grown[i] == a);
            }
        }
        assert forall|x: int| 0 <= x < grown.len() implies heap2.node_in(
            NodeState::Unlinked(owner),
            #[trigger] grown[x],
        ) && heap2.nodes@[grown[x]].key is Some by {
            if x < kept.len() {
                assert(grown[x] == kept[x]);
                assert(heap.node_in(NodeState::Unlinked(owner), kept[x]));
            } else {
                let m = l + 1 + (x - kept.len());
                assert(grown[x] == chain[m]);
                assert(heap.nodes@.contains_key(chain[m]));
                assert(heap.nodes@[chain[m]].key is Some);
            }
        }
        assert forall|x: int, y: int| 0 <= x < y < grown.len() implies grown[x] != grown[y] by {
            if y < kept.len() {
                assert(grown[x] == kept[x] && grown[y] == kept[y]);
            } else if x < kept.len() {
                assert(grown[x] == kept[x]);
                assert(heap.node_in(NodeState::Unlinked(owner), kept[x]));
                assert(grown[y] == chain[l + 1 + (y - kept.len())]);
            } else {
                assert(grown[x] == chain[l + 1 + (x - kept.len())]);
                assert(grown[y] == chain[l + 1 + (y - kept.len())]);
            }
        }
        assert forall|a: usize|
            heap.nodes@.contains_key(a) && !heap.node_in(
                self.state(),
                a,
            ) implies #[trigger] heap.node_kept(heap2, a) by {}
        assert forall|c: usize|
            heap.cells@.contains_key(c) && !heap.cell_in(
                self.state(),
                c,
            ) implies #[trigger] heap.cell_kept(heap2, c) by {}
        assert forall|a: usize| heap2.nodes@.contains_key(a) implies #[trigger] heap.node_kept_or_claimed(
            heap2,
            self.state(),
            owner,
            a,
        ) by {
            assert(heap.nodes@.contains_key(a));
        }
        assert forall|c: usize| heap2.cells@.contains_key(c) implies #[trigger] heap.cell_kept_or_claimed(
            heap2,
            owner,
            c,
        ) by {}
    }

    /// The step that cuts a run of logically deleted nodes out of the list
    /// and retires it under the owner's clock leaves the clock of every node
    /// that was unlinked before as it was, and keeps what handles may hold
    /// closed under links.
    proof fn lemma_cut_clocks<V>(
        &self,
        after: &LinkedList,
        heap: &Heap<V>,
        heap2: &Heap<V>,
        retired: &Retired,
        retired2: &Retired,
        l: int,
        r: int,
    )
        requires
            self.wf(heap),
            heap.wf(),
            retired.wf(heap),
            0 <= l,
            l + 1 < r < self.chain@.len(),
            !is_marked(heap.nodes@[self.chain@[l]].next),
            forall|m: int| l < m < r ==> is_marked(heap.nodes@[#[trigger] self.chain@[m]].next),
            after.head == self.head,
            after.tail == self.tail,
            after.chain@ == cut_chain(self.chain@, l, r),
            heap2.nodes.wf(),
            heap2.nodes@ == with_next(heap.nodes@, self.chain@[l], self.chain@[r]),
            heap2.cells == heap.cells,
            heap2.cell_state == heap.cell_state,
            forall|x: int|
                l < x < r ==> heap2.node_state@[#[trigger] self.chain@[x]] == NodeState::Unlinked(
                    retired.owner,
                ),
            forall|x: int|
                0 <= x < self.chain@.len() && !(l < x < r) ==> heap2.node_state@[
                    #[trigger] self.chain@[x]] == NodeState::Linked(self.head),
            forall|a: usize|
                heap.node_state@[a] != NodeState::Linked(self.head)
                    ==> #[trigger] heap2.node_state@[a] == heap.node_state@[a],
            retired2.owner == retired.owner,
            retired2.clock == retired.clock,
            retired2.cells@ == retired.cells@,
            retired2.nodes@ == retired.nodes@ + self.chain@.subrange(l + 1, r),
            forall|x: int|
                l < x < r ==> heap2.unlinked_at@[#[trigger] self.chain@[x]] == retired.clock@,
            forall|a: usize|
                heap.node_state@[a] != NodeState::Linked(self.head)
                    ==> #[trigger] heap2.unlinked_at@[a] == heap.unlinked_at@[a],
        ensures
            heap.stamps_follow(heap2, retired.clock@),
            heap.unlinked_closed(retired.clock@) ==> heap2.unlinked_closed(retired.clock@),
    {
        let chain = self.chain@;
        let left = chain[l];
        assert(heap.nodes@.contains_key(chain[l]));
        assert(heap2.nodes@.dom() =~= heap.nodes@.dom());
        assert forall|x: int| 0 <= x < chain.len() && x != l implies heap2.nodes@[
            #[trigger] chain[x]] == heap.nodes@[chain[x]] by {
            if x < l {
                assert(chain[x] != chain[l]);
            } else {
                assert(chain[l] != chain[x]);
            }
        }
        assert forall|a: usize|
            heap2.nodes@.contains_key(a) && heap2.node_state@[a]
                is Unlinked implies #[trigger] heap.stamp_follows(heap2, retired.clock@, a) by {
            if heap.node_state@[a] == NodeState::Linked(self.head) {
                assert(heap.node_in(NodeState::Linked(self.head), a));
                assert(self.chain@.contains(a));
                let x = choose|x: int| 0 <= x < self.chain@.len() && self.chain@[x] == a;
                if !(l < x < r) {
                    assert(heap2.node_state@[self.chain@[x]] == NodeState::Linked(self.head));
                } else {
                    assert(heap2.unlinked_at@[self.chain@[x]] == retired.clock@);
                }
            } else {
                assert(heap2.node_state@[a] == heap.node_state@[a]);
                assert(heap2.unlinked_at@[a] == heap.unlinked_at@[a]);
                assert(heap2.nodes@.dom() =~= heap.nodes@.dom());
            }
        }
        if heap.unlinked_closed(retired.clock@) {
            let clock = retired.clock@;
            assert forall|id: int, x: usize| #[trigger] heap2.unlinked_closed_at(clock, id, x) by {
                if heap2.held_by(clock, id, x) && heap2.node_state@[x] is Unlinked {
                    assert(heap.nodes@.contains_key(x));
                    let y = heap2.successor(x);
                    if heap.node_state@[x] == NodeState::Linked(self.head) {
                        assert(chain.contains(x));
                        let m = choose|m: int| 0 <= m < chain.len() && chain[m] == x;
                        if l < m < r {
                            assert(next_at(chain, heap.nodes@, m) == chain[m + 1]);
                            assert(heap2.nodes@[chain[m]] == heap.nodes@[chain[m]]);
                            assert(y == chain[m + 1]);
                            assert(heap.nodes@.contains_key(chain[m + 1]));
                            if m + 1 < r {
                                assert(heap2.unlinked_at@[chain[m + 1]] == clock);
                                assert(heap2.unlinked_at@[chain[m]] == clock);
                            } else {
                                assert(heap2.node_state@[chain[m + 1]] == NodeState::Linked(
                                    self.head,
                                ));
                            }
                        } else {
                            assert(heap2.node_state@[chain[m]] == NodeState::Linked(self.head));
                        }
                    } else {
                        assert(x != left);
                        assert(heap.held_by(clock, id, x));
                        assert(heap.unlinked_closed_at(clock, id, x));
                        assert(heap.successor(x) == y);
                        assert(heap.held_by(clock, id, y));
                        if heap2.node_state@[y] is Unlinked {
                            if heap.node_state@[y] == NodeState::Linked(self.head) {
                                assert(chain.contains(y));
                                let m = choose|m: int| 0 <= m < chain.len() && chain[m] == y;
                                if l < m < r {
                                    assert(heap2.unlinked_at@[chain[m]] == clock);
                                } else {
                                    assert(heap2.node_state@[chain[m]] == NodeState::Linked(
                                        self.head,
                                    ));
                                }
                            }
                        }
                    }
                }
            }
        }
    }

    /// The step that swaps a fresh cell into the node that carries `key`, and
    /// retires the displaced cell, maps the key to the new value and changes
    /// nothing else.
    proof fn lemma_swap_step<V>(
        &self,
        heap: &Heap<V>,
        heap2: &Heap<V>,
        retired: &Retired,
        retired2: &Retired,
        j: int,
        key: u64,
        cell: usize,
        val: V,
    )
        requires
            self.wf(heap),
            heap.wf(),
            retired.wf(heap),
            is_place(self.chain@, heap.nodes@, key, self.chain@[j], self.chain@[j + 1], j),
            self.chain@[j + 1] != self.tail,
            heap.nodes@[self.chain@[j + 1]].key == Some(key),
            !heap.cells@.contains_key(cell),
            heap2.nodes.wf(),
            heap2.cells.wf(),
            heap2.nodes@ == heap.nodes@.insert(
                self.chain@[j + 1],
                (Node {
                    key: heap.nodes@[self.chain@[j + 1]].key,
                    val: cell,
                    next: heap.nodes@[self.chain@[j + 1]].next,
                }),
            ),
            heap2.cells@ == heap.cells@.insert(cell, val),
            heap2.node_state == heap.node_state,
            heap2.cell_state@ == heap.cell_state@.insert(
                cell,
                CellState::Held(self.chain@[j + 1]),
            ).insert(heap.nodes@[self.chain@[j + 1]].val, CellState::Retired(retired.owner)),
            retired2.owner == retired.owner,
            retired2.clock == retired.clock,
            retired2.nodes@ == retired.nodes@,
            retired2.cells@ == retired.cells@.push(heap.nodes@[self.chain@[j + 1]].val),
            heap2.unlinked_at == heap.unlinked_at,
        ensures
            heap.stamps_follow(heap2, retired.clock@),
            heap.unlinked_closed(retired.clock@) ==> heap2.unlinked_closed(retired.clock@),
            self.wf(heap2),
            heap2.wf(),
            retired2.wf(heap2),
            retired2.extends(retired),
            self.view(heap).contains_key(key),
            self.view(heap2) == self.view(heap).insert(key, val),
            self.keys(heap2) == self.keys(heap),
            self.clean(heap2) == self.clean(heap),
            heap.unchanged_outside(heap2, self.state(), retired.owner),
            heap.moves_on(heap2),
    {
        let chain = self.chain@;
        let right = chain[j + 1];
        let displaced = heap.nodes@[right].val;
        let owner = retired.owner;
        assert(heap.nodes@.contains_key(right));
        heap.lemma_stamps_same(heap2, retired.clock@);
        assert forall|i: int| 0 <= i < chain.len() implies heap2.nodes@[#[trigger] chain[i]].key
            == heap.nodes@[chain[i]].key && heap2.nodes@[chain[i]].next
            == heap.nodes@[chain[i]].next by {}
        lemma_same_keys(chain, heap.nodes@, heap2.nodes@);
        retired2.lemma_appended(
            retired,
            Seq::<usize>::empty(),
            Seq::<usize>::empty().push(displaced),
        );
        self.lemma_present(heap, key, j);
        assert(displaced != cell);
        assert forall|i: int| 0 < i < chain.len() - 1 implies heap2.cells@[heap.nodes@[
            #[trigger] chain[i]].val] == heap.cells@[heap.nodes@[chain[i]].val] by {
            assert(heap.nodes@.contains_key(chain[i]));
            assert(heap.node_sound(chain[i]));
        }
        assert forall|i: int| 0 <= i < chain.len() implies heap.nodes@.contains_key(
            #[trigger] chain[i],
        ) by {}
        lemma_agree(
            chain,
            heap.nodes@,
            heap.cells@,
            heap.nodes@,
            heap2.cells@,
            self.head,
            self.tail,
        );
        lemma_swap_val(chain, heap.nodes@, heap2.cells@, self.head, self.tail, j + 1, key, cell);
        assert(self.view(heap2) =~= self.view(heap).insert(key, val));
        assert forall|a: usize| heap2.nodes@.contains_key(a) implies #[trigger] heap2.node_sound(
            a,
        ) by {
            if a != right {
                assert(heap.node_sound(a));
            }
        }
        assert forall|c: usize| heap2.cells@.contains_key(c) implies #[trigger] heap2.cell_sound(
            c,
        ) by {
            if c != cell && c != displaced {
                assert(heap.cell_sound(c));
                match heap.cell_state@[c] {
                    CellState::Held(a) => {
                        assert(heap.node_sound(a));
                    },
                    CellState::Retired(_) => {},
                }
            }
        }
        let grown = retired2.cells@;
        let kept = retired.cells@;
        assert forall|i: int| 0 <= i < retired2.nodes@.len() implies heap2.node_in(
            NodeState::Unlinked(owner),
            #[trigger] retired2.nodes@[i],
        ) by {
            assert(heap.node_in(NodeState::Unlinked(owner), retired.nodes@[i]));
        }
        assert forall|i: int| 0 <= i < grown.len() implies heap2.cells@.contains_key(
            #[trigger] grown[i],
        ) && heap2.cell_state@[grown[i]] == CellState::Retired(owner) by {
            if i < kept.len() {
                assert(grown[i] == kept[i]);
                assert(heap.cell_state@[kept[i]] == CellState::Retired(owner));
            }
        }
        assert forall|x: int, y: int| 0 <= x < y < grown.len() implies grown[x] != grown[y] by {
            assert(grown[x] == kept[x]);
            assert(heap.cell_state@[kept[x]] == CellState::Retired(owner));
            if y < kept.len() {
                assert(grown[y] == kept[y]);
            }
        }
        assert(heap.node_state@[right] == NodeState::Linked(self.head));
        assert forall|a: usize|
            heap.nodes@.contains_key(a) && !heap.node_in(
                self.state(),
                a,
            ) implies #[trigger] heap.node_kept(heap2, a) by {
            assert(a != right);
        }
        assert forall|c: usize|
            heap.cells@.contains_key(c) && !heap.cell_in(
                self.state(),
                c,
            ) implies #[trigger] heap.cell_kept(heap2, c) by {
            assert(c != cell);
            assert(c != displaced);
        }
        assert forall|a: usize|
            heap2.node_in(NodeState::Linked(self.head), a) implies #[trigger] chain.contains(a) by {
            assert(heap.node_in(NodeState::Linked(self.head), a));
        }
        assert forall|a: usize|
            heap2.node_in(
                NodeState::Unlinked(owner),
                a,
            ) implies #[trigger] retired2.nodes@.contains(a) by {
            assert(heap.node_in(NodeState::Unlinked(owner), a));
            assert(retired.nodes@.contains(a));
        }
        assert forall|c: usize|
            heap2.cells@.contains_key(c) && heap2.cell_state@[c] == CellState::Retired(
                owner,
            ) implies #[trigger] grown.contains(c) by {
            if c == displaced {
                assert(grown[kept.len() as int] == c);
            } else {
                assert(c != cell);
                assert(kept.contains(c));
                let i = choose|i: int| 0 <= i < kept.len() && kept[i] == c;
                assert(grown[i] == c);
            }
        }
        assert forall|a: usize| heap2.nodes@.contains_key(a) implies #[trigger] heap.node_kept_or_claimed(
            heap2,
            self.state(),
            owner,
            a,
        ) by {
            assert(heap.nodes@.contains_key(a));
        }
        assert forall|c: usize| heap2.cells@.contains_key(c) implies #[trigger] heap.cell_kept_or_claimed(
            heap2,
            owner,
            c,
        ) by {}
        assert forall|a: usize| heap.nodes@.contains_key(a) implies #[trigger] heap.node_moved_on(
            heap2,
            a,
        ) by {}
        if heap.unlinked_closed(retired.clock@) {
            heap.lemma_closed_same(heap2, retired.clock@);
        }
    }

    /// The step that links a new node in at the key's place adds the key,
    /// with its value, to the contents and changes nothing else.
    proof fn lemma_link_step<V>(
        &self,
        after: &LinkedList,
        heap: &Heap<V>,
        heap2: &Heap<V>,
        retired: &Retired,
        j: int,
        key: u64,
        new: usize,
        cell: usize,
        val: V,
    )
        requires
            self.wf(heap),
            heap.wf(),
            retired.wf(heap),
            is_place(self.chain@, heap.nodes@, key, self.chain@[j], self.chain@[j + 1], j),
            self.chain@[j + 1] == self.tail || heap.nodes@[self.chain@[j + 1]].key != Some(key),
            !heap.nodes@.contains_key(new),
            !heap.cells@.contains_key(cell),
            new % 2 == 0,
            after.head == self.head,
            after.tail == self.tail,
            after.chain@ == self.chain@.insert(j + 1, new),
            heap2.nodes.wf(),
            heap2.cells.wf(),
            heap2.nodes@ == with_next(
                heap.nodes@.insert(
                    new,
                    (Node { key: Some(key), val: cell, next: self.chain@[j + 1] }),
                ),
                self.chain@[j],
                new,
            ),
            heap2.cells@ == heap.cells@.insert(cell, val),
            heap2.node_state@ == heap.node_state@.insert(new, NodeState::Linked(self.head)),
            heap2.cell_state@ == heap.cell_state@.insert(cell, CellState::Held(new)),
            heap2.unlinked_at == heap.unlinked_at,
        ensures
            heap.stamps_follow(heap2, retired.clock@),
            heap.unlinked_closed(retired.clock@) ==> heap2.unlinked_closed(retired.clock@),
            after.wf(heap2),
            heap2.wf(),
            retired.wf(heap2),
            !self.view(heap).contains_key(key),
            after.view(heap2) == self.view(heap).insert(key, val),
            after.keys(heap2) == self.keys(heap).insert(key),
            self.clean(heap) ==> after.clean(heap2),
            heap.unchanged_outside(heap2, self.state(), retired.owner),
            heap.moves_on(heap2),
    {
        let chain = self.chain@;
        let left = chain[j];
        let owner = retired.owner;
        let fresh = heap.nodes@.insert(
            new,
            (Node { key: Some(key), val: cell, next: chain[j + 1] }),
        );
        assert(heap.nodes@.contains_key(chain[j]));
        heap.lemma_stamps_same(heap2, retired.clock@);
        self.lemma_absent(heap, key, j);
        assert(chain[chain.len() - 1] == self.tail);
        if j + 1 < chain.len() - 1 {
            assert(chain[j + 1] != chain[chain.len() - 1]);
        }
        assert forall|i: int| 0 <= i < chain.len() implies #[trigger] chain[i] != new
            && fresh.contains_key(chain[i]) && fresh[chain[i]] == heap.nodes@[chain[i]] by {
            assert(heap.nodes@.contains_key(chain[i]));
        }
        assert forall|i: int| 0 < i < chain.len() - 1 implies heap2.cells@[heap.nodes@[
            #[trigger] chain[i]].val] == heap.cells@[heap.nodes@[chain[i]].val] by {
            assert(heap.nodes@.contains_key(chain[i]));
            assert(heap.node_sound(chain[i]));
        }
        lemma_agree(chain, heap.nodes@, heap.cells@, fresh, heap2.cells@, self.head, self.tail);
        lemma_link(chain, fresh, heap2.cells@, self.head, self.tail, j, new, key);
        lemma_same_keys(chain, heap.nodes@, fresh);
        lemma_link_keys(chain, fresh, self.head, self.tail, j, new, key);
        let linked = after.chain@;
        assert forall|i: int| 0 <= i < linked.len() implies heap2.node_state@[#[trigger] linked[i]]
            == NodeState::Linked(self.head) by {
            if i != j + 1 {
                let i0 = if i <= j {
                    i
                } else {
                    i - 1
                };
                assert(linked[i] == chain[i0]);
                assert(heap.node_state@[chain[i0]] == NodeState::Linked(self.head));
            }
        }
        assert(heap.nodes@.contains_key(left));
        assert(left != new);
        assert forall|a: usize| heap2.nodes@.contains_key(a) implies #[trigger] heap2.node_sound(
            a,
        ) by {
            if a != new {
                assert(heap.node_sound(a));
            }
        }
        assert forall|c: usize| heap2.cells@.contains_key(c) implies #[trigger] heap2.cell_sound(
            c,
        ) by {
            if c != cell {
                assert(heap.cell_sound(c));
            }
        }
        assert forall|i: int| 0 <= i < retired.nodes@.len() implies heap2.node_in(
            NodeState::Unlinked(owner),
            #[trigger] retired.nodes@[i],
        ) by {
            assert(heap.node_in(NodeState::Unlinked(owner), retired.nodes@[i]));
        }
        assert forall|i: int| 0 <= i < retired.cells@.len() implies heap2.cells@.contains_key(
            #[trigger] retired.cells@[i],
        ) && heap2.cell_state@[retired.cells@[i]] == CellState::Retired(owner) by {
            assert(heap.cells@.contains_key(retired.cells@[i]));
        }
        assert(heap.node_state@[left] == NodeState::Linked(self.head));
        assert forall|a: usize|
            heap.nodes@.contains_key(a) && !heap.node_in(
                self.state(),
                a,
            ) implies #[trigger] heap.node_kept(heap2, a) by {
            assert(a != left);
        }
        assert forall|c: usize|
            heap.cells@.contains_key(c) && !heap.cell_in(
                self.state(),
                c,
            ) implies #[trigger] heap.cell_kept(heap2, c) by {}
        assert forall|a: usize|
            heap2.node_in(NodeState::Linked(self.head), a) implies #[trigger] linked.contains(
            a,
        ) by {
            if a == new {
                assert(linked[j + 1] == a);
            } else {
                assert(heap.node_in(NodeState::Linked(self.head), a));
                assert(chain.contains(a));
                let i = choose|i: int| 0 <= i < chain.len() && chain[i] == a;
                assert(linked[if i <= j {
                    i
                } else {
                    i + 1
                }] == a);
            }
        }
        assert forall|a: usize|
            heap2.node_in(
                NodeState::Unlinked(owner),
                a,
            ) implies #[trigger] retired.nodes@.contains(a) by {
            assert(heap.node_in(NodeState::Unlinked(owner), a));
        }
        assert forall|c: usize|
            heap2.cells@.contains_key(c) && heap2.cell_state@[c] == CellState::Retired(
                owner,
            ) implies #[trigger] retired.cells@.contains(c) by {
            assert(c != cell);
        }
        assert forall|a: usize| heap2.nodes@.contains_key(a) implies #[trigger] heap.node_kept_or_claimed(
            heap2,
            self.state(),
            owner,
            a,
        ) by {
            if a != new {
                assert(heap.nodes@.contains_key(a));
            }
        }
        assert forall|c: usize| heap2.cells@.contains_key(c) implies #[trigger] heap.cell_kept_or_claimed(
            heap2,
            owner,
            c,
        ) by {}
        assert forall|a: usize| heap.nodes@.contains_key(a) implies #[trigger] heap.node_moved_on(
            heap2,
            a,
        ) by {
            if a == left {
                assert(next_at(chain, heap.nodes@, j) == chain[j + 1]);
            }
        }
        if heap.unlinked_closed(retired.clock@) {
            heap.lemma_closed_same(heap2, retired.clock@);
        }
    }

    /// The step that marks the link word of the node that carries `key`
    /// removes the key from the contents and changes nothing else.
    proof fn lemma_mark_step<V>(
        &self,
        heap: &Heap<V>,
        heap2: &Heap<V>,
        retired: &Retired,
        j: int,
        key: u64,
    )
        requires
            self.wf(heap),
            heap.wf(),
            retired.wf(heap),
            is_place(self.chain@, heap.nodes@, key, self.chain@[j], self.chain@[j + 1], j),
            self.chain@[j + 1] != self.tail,
            heap.nodes@[self.chain@[j + 1]].key == Some(key),
            heap2.nodes.wf(),
            heap2.nodes@ == with_next(
                heap.nodes@,
                self.chain@[j + 1],
                mark(heap.nodes@[self.chain@[j + 1]].next),
            ),
            heap2.cells == heap.cells,
            heap2.node_state == heap.node_state,
            heap2.cell_state == heap.cell_state,
            heap2.unlinked_at == heap.unlinked_at,
        ensures
            heap.stamps_follow(heap2, retired.clock@),
            heap.unlinked_closed(retired.clock@) ==> heap2.unlinked_closed(retired.clock@),
            self.wf(heap2),
            heap2.wf(),
            retired.wf(heap2),
            self.view(heap).contains_key(key),
            self.view(heap)[key] == heap.cells@[heap.nodes@[self.chain@[j + 1]].val],
            self.view(heap2) == self.view(heap).remove(key),
            self.keys(heap2) == self.keys(heap),
            self.clean(heap) ==> forall|x: int|
                0 <= x < self.chain@.len() && x != j + 1 ==> !is_marked(
                    heap2.nodes@[#[trigger] self.chain@[x]].next,
                ),
            heap2.nodes@.dom() == heap.nodes@.dom(),
            heap.unchanged_outside(heap2, self.state(), retired.owner),
            heap.moves_on(heap2),
            heap2.nodes@[self.chain@[j]].next == self.chain@[j + 1],
            j + 2 < self.chain@.len(),
            unmark(heap.nodes@[self.chain@[j + 1]].next) == self.chain@[j + 2],
            is_marked(heap2.nodes@[self.chain@[j + 1]].next),
    {
        let chain = self.chain@;
        let right = chain[j + 1];
        let owner = retired.owner;
        self.lemma_present(heap, key, j);
        lemma_mark(chain, heap.nodes@, heap.cells@, self.head, self.tail, j + 1, key);
        assert(heap2.nodes@.dom() =~= heap.nodes@.dom());
        heap.lemma_stamps_same(heap2, retired.clock@);
        assert forall|i: int| 0 <= i < chain.len() implies heap2.nodes@[#[trigger] chain[i]].key
            == heap.nodes@[chain[i]].key && (i != j + 1 ==> heap2.nodes@[chain[i]]
            == heap.nodes@[chain[i]]) by {
            if i < j + 1 {
                assert(chain[i] != chain[j + 1]);
            } else if j + 1 < i {
                assert(chain[j + 1] != chain[i]);
            }
        }
        lemma_same_keys(chain, heap.nodes@, heap2.nodes@);
        if self.clean(heap) {
            assert forall|x: int| 0 <= x < chain.len() && x != j + 1 implies !is_marked(
                heap2.nodes@[#[trigger] chain[x]].next,
            ) by {
                assert(!is_marked(heap.nodes@[chain[x]].next));
            }
        }
        assert(next_at(chain, heap.nodes@, j + 1) == chain[j + 2]);
        assert(chain[j] != chain[j + 1]);
        assert forall|a: usize| heap2.nodes@.contains_key(a) implies #[trigger] heap2.node_sound(
            a,
        ) by {
            assert(heap.node_sound(a));
        }
        assert forall|c: usize| heap2.cells@.contains_key(c) implies #[trigger] heap2.cell_sound(
            c,
        ) by {
            assert(heap.cell_sound(c));
        }
        assert forall|i: int| 0 <= i < retired.nodes@.len() implies heap2.node_in(
            NodeState::Unlinked(owner),
            #[trigger] retired.nodes@[i],
        ) by {
            assert(heap.node_in(NodeState::Unlinked(owner), retired.nodes@[i]));
        }
        assert(heap.node_state@[right] == NodeState::Linked(self.head));
        assert forall|a: usize|
            heap.nodes@.contains_key(a) && !heap.node_in(
                self.state(),
                a,
            ) implies #[trigger] heap.node_kept(heap2, a) by {
            assert(a != right);
        }
        assert forall|c: usize|
            heap.cells@.contains_key(c) && !heap.cell_in(
                self.state(),
                c,
            ) implies #[trigger] heap.cell_kept(heap2, c) by {}
        assert forall|a: usize|
            heap2.node_in(NodeState::Linked(self.head), a) implies #[trigger] chain.contains(a) by {
            assert(heap.node_in(NodeState::Linked(self.head), a));
        }
        assert forall|a: usize|
            heap2.node_in(
                NodeState::Unlinked(owner),
                a,
            ) implies #[trigger] retired.nodes@.contains(a) by {
            assert(heap.node_in(NodeState::Unlinked(owner), a));
        }
        assert forall|a: usize| heap2.nodes@.contains_key(a) implies #[trigger] heap.node_kept_or_claimed(
            heap2,
            self.state(),
            owner,
            a,
        ) by {
            assert(heap.nodes@.contains_key(a));
        }
        assert forall|c: usize| heap2.cells@.contains_key(c) implies #[trigger] heap.cell_kept_or_claimed(
            heap2,
            owner,
            c,
        ) by {}
        assert forall|a: usize| heap.nodes@.contains_key(a) implies #[trigger] heap.node_moved_on(
            heap2,
            a,
        ) by {}
        if heap.unlinked_closed(retired.clock@) {
            heap.lemma_closed_same(heap2, retired.clock@);
        }
    }

    /// The step that cuts the marked node at position `j + 1` out of the
    /// list and retires it, after a search that left the list as `origin`
    /// without the gap from `j` to `r`: in all, the gap and the node at `r`
    /// have left `origin` and stand at the end of the retired nodes.
    proof fn lemma_unlink_step<V>(
        &self,
        after: &LinkedList,
        heap: &Heap<V>,
        heap2: &Heap<V>,
        retired: &Retired,
        retired2: &Retired,
        j: int,
        origin: Seq<usize>,
        r: int,
        retired0: Seq<usize>,
    )
        requires
            self.wf(heap),
            heap.wf(),
            retired.wf(heap),
            0 <= j,
            j + 2 < self.chain@.len(),
            heap.nodes@[self.chain@[j]].next == self.chain@[j + 1],
            !is_marked(self.chain@[j + 1]),
            is_marked(heap.nodes@[self.chain@[j + 1]].next),
            after.head == self.head,
            after.tail == self.tail,
            after.chain@ == cut_chain(self.chain@, j, j + 2),
            heap2.nodes.wf(),
            heap2.nodes@ == with_next(heap.nodes@, self.chain@[j], self.chain@[j + 2]),
            heap2.cells == heap.cells,
            heap2.cell_state == heap.cell_state,
            heap2.node_state@ == heap.node_state@.insert(
                self.chain@[j + 1],
                NodeState::Unlinked(retired.owner),
            ),
            retired2.owner == retired.owner,
            retired2.clock == retired.clock,
            retired2.cells@ == retired.cells@,
            retired2.nodes@ == retired.nodes@.push(self.chain@[j + 1]),
            heap2.unlinked_at@ == heap.unlinked_at@.insert(self.chain@[j + 1], retired.clock@),
            j < r < origin.len() - 1,
            self.chain@ == cut_chain(origin, j, r),
            retired.nodes@ == retired0 + origin.subrange(j + 1, r),
        ensures
            after.wf(heap2),
            heap2.wf(),
            retired2.wf(heap2),
            retired2.extends(retired),
            after.view(heap2) == self.view(heap),
            after.keys(heap2).subset_of(self.keys(heap)),
            (forall|x: int|
                0 <= x < self.chain@.len() && x != j + 1 ==> !is_marked(
                    heap.nodes@[#[trigger] self.chain@[x]].next,
                )) ==> after.clean(heap2),
            heap2.nodes@.dom() == heap.nodes@.dom(),
            heap.unchanged_outside(heap2, self.state(), retired.owner),
            heap.moves_on(heap2),
            heap.stamps_follow(heap2, retired.clock@),
            heap.unlinked_closed(retired.clock@) ==> heap2.unlinked_closed(retired.clock@),
            after.chain@ == cut_chain(origin, j, r + 1),
            retired2.nodes@ == retired0 + origin.subrange(j + 1, r + 1),
            heap2.nodes@[retired2.nodes@.last()].key == heap.nodes@[self.chain@[j + 1]].key,
    {
        let chain = self.chain@;
        assert(retired2.nodes@ =~= retired.nodes@ + chain.subrange(j + 1, j + 2));
        assert forall|x: int| 0 <= x < chain.len() && !(j < x < j + 2) implies heap2.node_state@[
            #[trigger] chain[x]] == NodeState::Linked(self.head) by {
            if x < j + 1 {
                assert(chain[x] != chain[j + 1]);
            } else {
                assert(chain[j + 1] != chain[x]);
            }
        }
        self.lemma_cut_step(after, heap, heap2, retired, retired2, j, j + 2);
        self.lemma_cut_clocks(after, heap, heap2, retired, retired2, j, j + 2);
        assert(chain[j] != chain[j + 1]);
        assert(chain[j + 1] == origin[r]);
        assert(cut_chain(chain, j, j + 2) =~= cut_chain(origin, j, r + 1));
        assert(retired2.nodes@ =~= retired0 + origin.subrange(j + 1, r + 1));
    }

    /// Allocates the two sentinels of an empty list. Fails, leaving the heap
    /// as it was, exactly when fewer than two node slots are spare.
    pub fn new<V>(heap: &mut Heap<V>) -> (result: Result<LinkedList, AllocError>)
        requires
            old(heap).wf(),
        ensures
            final(heap).wf(),
            result is Err <==> old(heap).nodes.spare() < 2,
            result is Err ==> final(heap).nodes@ == old(heap).nodes@ && final(heap).nodes.spare()
                == old(heap).nodes.spare() && final(heap).node_state == old(heap).node_state,
            final(heap).cells == old(heap).cells,
            final(heap).cell_state == old(heap).cell_state,
            final(heap).unlinked_at == old(heap).unlinked_at,
            forall|a: usize|
                old(heap).nodes@.contains_key(a) ==> #[trigger] old(heap).node_kept(final(heap), a),
            result is Ok ==> {
                let list = result->Ok_0;
                &&& forall|owner: usize| #[trigger]
                    old(heap).unchanged_outside(final(heap), list.state(), owner)
                &&& list.wf(final(heap))
                &&& list.view(final(heap)) == Map::<u64, V>::empty()
                &&& list.keys(final(heap)) == Set::<u64>::empty()
                &&& list.clean(final(heap))
                &&& !old(heap).nodes@.contains_key(list.head())
                &&& final(heap).nodes.spare() == old(heap).nodes.spare() - 2
            },
    {
        let head = match heap.nodes.allocate(Node::empty()) {
            Ok(a) => a,
            Err(e) => {
                proof {
                    old(heap).lemma_wf_same(heap);
                }
                return Err(e);
            },
        };
        let tail = match heap.nodes.allocate(Node::empty()) {
            Ok(a) => a,
            Err(e) => {
                heap.nodes.release(head);
                proof {
                    assert(heap.nodes@ =~= old(heap).nodes@);
                    old(heap).lemma_wf_same(heap);
                }
                return Err(e);
            },
        };
        heap.nodes.set(head, Node { key: None, val: 0, next: tail });
        heap.node_state = Ghost(
            heap.node_state@.insert(head, NodeState::Linked(head)).insert(
                tail,
                NodeState::Linked(head),
            ),
        );
        let list = LinkedList {
            head,
            tail,
            chain: Ghost(Seq::<usize>::empty().push(head).push(tail)),
        };
        proof {
            assert(unmark(tail) == tail);
            assert(next_at(list.chain@, heap.nodes@, 0) == tail);
            assert(list.view(heap) =~= Map::<u64, V>::empty());
            assert(list.keys(heap) =~= Set::<u64>::empty());
            assert(list.chain@[0] == head && list.chain@[1] == tail);
            assert forall|a: usize|
                heap.node_in(
                    NodeState::Linked(head),
                    a,
                ) implies #[trigger] list.chain@.contains(a) by {
                if a != head && a != tail {
                    assert(old(heap).node_sound(a));
                }
            }
            assert forall|owner: usize| #[trigger]
                old(heap).unchanged_outside(heap, list.state(), owner) by {
                assert forall|a: usize|
                    old(heap).nodes@.contains_key(a) && !old(heap).node_in(
                        list.state(),
                        a,
                    ) implies #[trigger] old(heap).node_kept(heap, a) by {}
                assert forall|c: usize|
                    old(heap).cells@.contains_key(c) && !old(heap).cell_in(
                        list.state(),
                        c,
                    ) implies #[trigger] old(heap).cell_kept(heap, c) by {}
                assert forall|a: usize| heap.nodes@.contains_key(a) implies #[trigger] old(heap).node_kept_or_claimed(heap, list.state(), owner, a) by {
                    if a != head && a != tail {
                        assert(old(heap).nodes@.contains_key(a));
                        assert(old(heap).node_kept(heap, a));
                    }
                }
                assert forall|c: usize| heap.cells@.contains_key(c) implies #[trigger] old(heap).cell_kept_or_claimed(heap, owner, c) by {}
            }
            assert forall|a: usize| heap.nodes@.contains_key(a) implies #[trigger] heap.node_sound(
                a,
            ) by {
                if a != head && a != tail {
                    assert(old(heap).node_sound(a));
                }
            }
            assert forall|c: usize| heap.cells@.contains_key(c) implies #[trigger] heap.cell_sound(
                c,
            ) by {
                assert(old(heap).cell_sound(c));
            }
        }
        Ok(list)
    }

    /// Finds the place of `key`: the last node that is not logically deleted
    /// and lies before it, and the first such node at or after it. The run of
    /// logically deleted nodes between the two, if there is one, is cut out
    /// with a single compare-and-swap and appended to `retired` in list order.
    /// The contents of the list stay as they were. The third component of the
    /// result is the position of the left node in the chain.
    pub fn search<V>(&mut self, heap: &mut Heap<V>, key: u64, retired: &mut Retired) -> (found: (
        usize,
        usize,
        Ghost<int>,
    ))
        requires
            old(self).wf(old(heap)),
            old(heap).wf(),
            old(retired).wf(old(heap)),
        ensures
            final(self).wf(final(heap)),
            final(heap).wf(),
            final(retired).wf(final(heap)),
            final(self).head() == old(self).head(),
            final(self).tail() == old(self).tail(),
            final(self).view(final(heap)) == old(self).view(old(heap)),
            is_place(final(self).chain(), final(heap).nodes@, key, found.0, found.1, found.2@),
            is_pruned(old(self).chain(), final(self).chain(), old(heap).nodes@, found.2@),
            final(retired).extends(old(retired)),
            final(retired).clock == old(retired).clock,
            final(retired).owner == old(retired).owner,
            final(retired).cells@ == old(retired).cells@,
            final(retired).nodes@ == old(retired).nodes@ + old(self).chain().subrange(
                found.2@ + 1,
                found.2@ + 1 + (old(self).chain().len() - final(self).chain().len()),
            ),
            final(heap).cells == old(heap).cells,
            final(heap).cell_state == old(heap).cell_state,
            final(heap).nodes@.dom() == old(heap).nodes@.dom(),
            final(heap).nodes.spare() == old(heap).nodes.spare(),
            final(heap).nodes@ == with_next(old(heap).nodes@, found.0, found.1),
            old(heap).unchanged_outside(final(heap), old(self).state(), old(retired).owner),
            old(heap).moves_on(final(heap)),
            old(heap).stamps_follow(final(heap), old(retired).clock@),
            old(heap).unlinked_closed(old(retired).clock@) ==> final(heap).unlinked_closed(
                old(retired).clock@,
            ),
            is_gap(
                old(self).chain(),
                old(heap).nodes@,
                key,
                found.2@,
                found.2@ + 1 + (old(self).chain().len() - final(self).chain().len()),
            ),
            final(self).keys(final(heap)).subset_of(old(self).keys(old(heap))),
            old(self).clean(old(heap)) ==> *final(self) == *old(self) && *final(heap) == *old(heap)
                && *final(retired) == *old(retired),
    {
        loop
            invariant
                *self == *old(self),
                *heap == *old(heap),
                *retired == *old(retired),
                self.wf(heap),
                heap.wf(),
                retired.wf(heap),
            decreases 0nat,
        {
            let walked = self.walk(heap, key);
            let left: usize = walked.0;
            let left_next: usize = walked.1;
            let right: usize = walked.2;
            let ghost l = walked.3@;
            let ghost r = walked.4@;
            let ghost chain = self.chain@;
            // The two are neighbours already.
            if left_next == right {
                if right != self.tail && is_marked_reference(heap.load_next(right)) {
                    continue ;
                } else {
                    proof {
                        if l + 1 < r {
                            assert(chain[l + 1] != chain[r]);
                        }
                        old(retired).lemma_extends_self();
                        assert(cut_chain(chain, l, l + 1) =~= chain);
                        assert(chain.subrange(l + 1, l + 1) =~= Seq::<usize>::empty());
                        assert(retired.nodes@ + Seq::<usize>::empty() =~= retired.nodes@);
                        assert(heap.nodes@ =~= with_next(heap.nodes@, left, right));
                        heap.lemma_same(self.state(), retired.owner);
                        heap.lemma_stamps_same(heap, retired.clock@);
                    }
                    return (left, right, Ghost(l));
                }
            }
            // Cut out the logically deleted nodes between them.

            if self.cut(heap, left, left_next, right, retired, Ghost(l), Ghost(r)) {
                if right != self.tail && is_marked_reference(heap.load_next(right)) {
                    continue ;
                } else {
                    return (left, right, Ghost(l));
                }
            }
        }
    }

    /// The first phase of a search: walks from the head sentinel to the first
    /// node at or after `key` that is not logically deleted, and remembers
    /// the last such node before it with the link word that was found in it.
    /// Returns that node, its link word, the node walked to, and their
    /// positions in the chain.
    fn walk<V>(&self, heap: &Heap<V>, key: u64) -> (walked: (
        usize,
        usize,
        usize,
        Ghost<int>,
        Ghost<int>,
    ))
        requires
            self.wf(heap),
            heap.wf(),
        ensures
            is_gap(self.chain@, heap.nodes@, key, walked.3@, walked.4@),
            walked.0 == self.chain@[walked.3@],
            walked.1 == heap.nodes@[walked.0].next,
            walked.1 == self.chain@[walked.3@ + 1],
            walked.2 == self.chain@[walked.4@],
            heap.nodes@.contains_key(walked.0),
            heap.nodes@.contains_key(walked.2),
            (walked.4@ == self.chain@.len() - 1) == (walked.2 == self.tail),
    {
        let ghost chain = self.chain@;
        let ghost len = chain.len() as int;
        let ghost nodes0 = heap.nodes@;
        proof {
            assert(nodes0.contains_key(chain[0]));
        }
        let mut t: usize = self.head;
        let mut t_next: usize = heap.load_next(t);
        let mut left: usize = t;
        let mut left_next: usize = t_next;
        let ghost mut i: int = 0;
        let ghost mut l: int = 0;
        loop
            invariant_except_break
                i < len - 1,
                t_next == nodes0[t].next,
                i > 0 && !is_marked(t_next) ==> nodes0[t].key->0 < key,
            invariant
                sorted_between_sentinels(chain, nodes0, self.head, self.tail),
                heap.nodes.wf(),
                heap.nodes@ == nodes0,
                len == chain.len(),
                0 <= l <= i <= len - 1,
                t == chain[i],
                left == chain[l],
                left_next == nodes0[left].next,
                !is_marked(left_next),
                l > 0 ==> nodes0[left].key->0 < key,
                forall|m: int| l < m < i ==> is_marked(nodes0[#[trigger] chain[m]].next),
            ensures
                l < i,
                i < len - 1 ==> !is_marked(nodes0[t].next) && key <= nodes0[t].key->0,
                (i == len - 1) == (t == self.tail),
            decreases len - i,
        {
            if !is_marked_reference(t_next) {
                left = t;
                left_next = t_next;
                proof {
                    l = i;
                }
            }
            t = get_unmarked_reference(t_next);
            proof {
                assert(next_at(chain, nodes0, i) == chain[i + 1]);
                i = i + 1;
                if i < len - 1 {
                    assert(chain[i] != chain[len - 1]);
                }
                assert(nodes0.contains_key(chain[i]));
            }
            if t == self.tail {
                break ;
            }
            t_next = heap.load_next(t);
            if !is_marked_reference(t_next) && key_reaches(heap.load_key(t), key) {
                break ;
            }
        }
        proof {
            assert(next_at(chain, nodes0, l) == chain[l + 1]);
            assert(unmark(left_next) == left_next);
            assert(nodes0.contains_key(chain[l]));
            assert(nodes0.contains_key(chain[i]));
        }
        (left, left_next, t, Ghost(l), Ghost(i))
    }

    /// The third phase of a search: swaps the link word of `left` from
    /// `left_next` to `right`, which cuts the run of logically deleted nodes
    /// between the two out of the list, and appends the run to `retired`.
    /// Returns whether the swap found `left_next` in place.
    fn cut<V>(
        &mut self,
        heap: &mut Heap<V>,
        left: usize,
        left_next: usize,
        right: usize,
        retired: &mut Retired,
        Ghost(l): Ghost<int>,
        Ghost(r): Ghost<int>,
    ) -> (done: bool)
        requires
            old(self).wf(old(heap)),
            old(heap).wf(),
            old(retired).wf(old(heap)),
            0 <= l,
            l + 1 < r < old(self).chain@.len(),
            left == old(self).chain@[l],
            right == old(self).chain@[r],
            left_next == old(heap).nodes@[left].next,
            left_next == old(self).chain@[l + 1],
            !is_marked(left_next),
            forall|m: int|
                l < m < r ==> is_marked(old(heap).nodes@[#[trigger] old(self).chain@[m]].next),
        ensures
            done,
            final(self).wf(final(heap)),
            final(heap).wf(),
            final(retired).wf(final(heap)),
            final(self).head == old(self).head,
            final(self).tail == old(self).tail,
            final(self).chain@ == cut_chain(old(self).chain@, l, r),
            final(self).view(final(heap)) == old(self).view(old(heap)),
            final(self).keys(final(heap)).subset_of(old(self).keys(old(heap))),
            final(retired).extends(old(retired)),
            final(retired).clock == old(retired).clock,
            final(retired).owner == old(retired).owner,
            final(retired).cells@ == old(retired).cells@,
            final(retired).nodes@ == old(retired).nodes@ + old(self).chain@.subrange(l + 1, r),
            final(heap).cells == old(heap).cells,
            final(heap).cell_state == old(heap).cell_state,
            final(heap).nodes@.dom() == old(heap).nodes@.dom(),
            final(heap).nodes.spare() == old(heap).nodes.spare(),
            final(heap).nodes@ == with_next(old(heap).nodes@, left, right),
            old(heap).unchanged_outside(final(heap), old(self).state(), old(retired).owner),
            old(heap).moves_on(final(heap)),
            old(heap).stamps_follow(final(heap), old(retired).clock@),
            old(heap).unlinked_closed(old(retired).clock@) ==> final(heap).unlinked_closed(
                old(retired).clock@,
            ),
    {
        let ghost chain = self.chain@;
        let ghost len = chain.len() as int;
        let ghost nodes0 = heap.nodes@;
        let ghost states0 = heap.node_state@;
        let ghost retired0 = retired.nodes@;
        let ghost owner = retired.owner;
        proof {
            assert(nodes0.contains_key(chain[l]));
        }
        if heap.compare_and_swap_next(left, left_next, right) != left_next {
            return false;
        }
        let ghost nodes1 = heap.nodes@;
        self.chain = Ghost(cut_chain(chain, l, r));
        proof {
            assert(nodes1 == with_next(nodes0, left, right));
            assert(nodes1.dom() =~= nodes0.dom());
            assert forall|x: int| 0 <= x < len && x != l implies nodes1[#[trigger] chain[x]]
                == nodes0[chain[x]] by {
                if x < l {
                    assert(chain[x] != chain[l]);
                } else {
                    assert(chain[l] != chain[x]);
                }
            }
        }
        let ghost arena1 = heap.nodes;
        let mut curr: usize = left_next;
        let ghost mut m: int = l + 1;
        loop
            invariant_except_break
                m < r,
            invariant
                sorted_between_sentinels(chain, nodes0, old(self).head, old(self).tail),
                len == chain.len(),
                0 <= l,
                l + 1 < r < len,
                right == chain[r],
                forall|x: int| l < x < r ==> is_marked(nodes0[#[trigger] chain[x]].next),
                forall|x: int|
                    0 <= x < len && x != l ==> nodes1[#[trigger] chain[x]] == nodes0[chain[x]],
                forall|x: int|
                    0 <= x < len ==> states0[#[trigger] chain[x]] == NodeState::Linked(
                        old(self).head,
                    ),
                arena1.wf(),
                arena1@ == nodes1,
                nodes1.dom() == nodes0.dom(),
                l + 1 <= m <= r,
                curr == chain[m],
                heap.nodes == arena1,
                heap.cells == old(heap).cells,
                heap.cell_state == old(heap).cell_state,
                self.chain@ == cut_chain(chain, l, r),
                self.head == old(self).head,
                self.tail == old(self).tail,
                retired.owner == owner,
                retired.clock == old(retired).clock,
                retired.cells@ == old(retired).cells@,
                forall|x: int|
                    l < x < m ==> heap.unlinked_at@[#[trigger] chain[x]] == old(retired).clock@,
                forall|a: usize|
                    states0[a] != NodeState::Linked(old(self).head)
                        ==> #[trigger] heap.unlinked_at@[a] == old(heap).unlinked_at@[a],
                retired.nodes@ == retired0 + chain.subrange(l + 1, m),
                forall|x: int|
                    l < x < m ==> heap.node_state@[#[trigger] chain[x]] == NodeState::Unlinked(
                        owner,
                    ),
                forall|x: int|
                    0 <= x < len && !(l < x < m) ==> heap.node_state@[#[trigger] chain[x]]
                        == NodeState::Linked(old(self).head),
                forall|a: usize|
                    states0[a] != NodeState::Linked(old(self).head)
                        ==> #[trigger] heap.node_state@[a] == states0[a],
            ensures
                m == r,
            decreases r - m,
        {
            retired.nodes.push(curr);
            heap.node_state = Ghost(
                heap.node_state@.insert(curr, NodeState::Unlinked(retired.owner)),
            );
            heap.unlinked_at = Ghost(heap.unlinked_at@.insert(curr, retired.clock@));
            proof {
                assert(retired.nodes@ =~= retired0 + chain.subrange(l + 1, m + 1));
                assert forall|x: int| l < x < m + 1 implies heap.unlinked_at@[#[trigger] chain[x]]
                    == old(retired).clock@ by {
                    if x < m {
                        assert(chain[x] != chain[m]);
                    }
                }
                assert forall|x: int| 0 <= x < len && !(l < x < m + 1) implies heap.node_state@[
                    #[trigger] chain[x]] == NodeState::Linked(old(self).head) by {
                    if x < m {
                        assert(chain[x] != chain[m]);
                    } else {
                        assert(chain[m] != chain[x]);
                    }
                }
                assert forall|x: int| l < x < m + 1 implies heap.node_state@[#[trigger] chain[x]]
                    == NodeState::Unlinked(owner) by {
                    if x < m {
                        assert(chain[x] != chain[m]);
                    }
                }
                assert(nodes0.contains_key(chain[m]));
            }
            curr = heap.load_next(curr);
            assert(is_marked(curr));
            curr = get_unmarked_reference(curr);
            proof {
                assert(next_at(chain, nodes0, m) == chain[m + 1]);
                m = m + 1;
                if m < r {
                    assert(chain[m] != chain[r]);
                }
            }
            if curr == right {
                break ;
            }
        }
        proof {
            old(self).lemma_cut_step(self, old(heap), heap, old(retired), retired, l, r);
            old(self).lemma_cut_clocks(self, old(heap), heap, old(retired), retired, l, r);
        }
        true
    }

    /// Walks the list from its head sentinel to its tail sentinel and returns,
    /// for every node between them in list order, the node's key, the value
    /// of its cell, and whether the node is logically deleted.
    pub fn entries<V: Copy>(&self, heap: &Heap<V>) -> (out: Vec<(u64, V, bool)>)
        requires
            self.wf(heap),
            heap.wf(),
        ensures
            out@.len() == self.chain().len() - 2,
            forall|i: int|
                0 <= i < out@.len() ==> {
                    let node = heap.nodes@[self.chain()[i + 1]];
                    &&& (#[trigger] out@[i]).0 == node.key->0
                    &&& out@[i].1 == heap.cells@[node.val]
                    &&& out@[i].2 == is_marked(node.next)
                },
            forall|i: int, j: int| 0 <= i < j < out@.len() ==> out@[i].0 < out@[j].0,
            forall|i: int|
                0 <= i < out@.len() && !(#[trigger] out@[i]).2 ==> self.view(heap).contains_key(
                    out@[i].0,
                ) && self.view(heap)[out@[i].0] == out@[i].1,
            forall|k: u64|
                self.view(heap).contains_key(k) ==> exists|i: int|
                    0 <= i < out@.len() && (#[trigger] out@[i]).0 == k && !out@[i].2,
            forall|i: int| 0 <= i < out@.len() ==> self.keys(heap).contains((#[trigger] out@[i]).0),
            self.clean(heap) ==> forall|i: int| 0 <= i < out@.len() ==> !(#[trigger] out@[i]).2,
    {
        let ghost chain = self.chain@;
        let mut out: Vec<(u64, V, bool)> = Vec::new();
        let mut t: usize = get_unmarked_reference(heap.load_next(self.head));
        let ghost mut i: int = 1;
        proof {
            assert(next_at(chain, heap.nodes@, 0) == chain[1]);
        }
        while t != self.tail
            invariant
                self.wf(heap),
                heap.wf(),
                chain == self.chain@,
                1 <= i <= chain.len() - 1,
                t == chain[i],
                out@.len() == i - 1,
                forall|x: int|
                    0 <= x < out@.len() ==> {
                        let node = heap.nodes@[chain[x + 1]];
                        &&& (#[trigger] out@[x]).0 == node.key->0
                        &&& out@[x].1 == heap.cells@[node.val]
                        &&& out@[x].2 == is_marked(node.next)
                    },
            decreases chain.len() - i,
        {
            proof {
                if i == chain.len() - 1 {
                    assert(chain[i] == self.tail);
                }
                assert(heap.nodes@.contains_key(chain[i]));
                assert(heap.node_sound(chain[i]));
                assert(heap.nodes@[chain[i]].key is Some);
            }
            let key = match heap.load_key(t) {
                Some(k) => k,
                None => 0,
            };
            let value = heap.read_cell(heap.load_val(t));
            let next: usize = heap.load_next(t);
            out.push((key, value, is_marked_reference(next)));
            t = get_unmarked_reference(next);
            proof {
                assert(next_at(chain, heap.nodes@, i) == chain[i + 1]);
                i = i + 1;
            }
        }
        proof {
            if i < chain.len() - 1 {
                assert(chain[i] != chain[chain.len() - 1]);
            }
            assert forall|a: int, b: int| 0 <= a < b < out@.len() implies out@[a].0
                < out@[b].0 by {
                assert(heap.nodes@[chain[a + 1]].key->0 < heap.nodes@[chain[b + 1]].key->0);
            }
            assert forall|x: int| 0 <= x < out@.len() && !(#[trigger] out@[x]).2 implies self.view(
                heap,
            ).contains_key(out@[x].0) && self.view(heap)[out@[x].0] == out@[x].1 by {
                assert(heap.nodes@[chain[x + 1]].key is Some);
                assert(live_at(chain, heap.nodes@, x + 1, out@[x].0));
                lemma_view_at(
                    chain,
                    heap.nodes@,
                    heap.cells@,
                    self.head,
                    self.tail,
                    x + 1,
                    out@[x].0,
                );
            }
            assert forall|k: u64| self.view(heap).contains_key(k) implies exists|x: int|
                0 <= x < out@.len() && (#[trigger] out@[x]).0 == k && !out@[x].2 by {
                let p = choose|p: int| live_at(chain, heap.nodes@, p, k);
                assert(out@[p - 1].0 == k && !out@[p - 1].2);
            }
            assert forall|x: int| 0 <= x < out@.len() implies self.keys(heap).contains(
                (#[trigger] out@[x]).0,
            ) by {
                assert(heap.nodes@[chain[x + 1]].key is Some);
                assert(crate::chain::key_at(chain, heap.nodes@, x + 1, out@[x].0));
            }
            if self.clean(heap) {
                assert forall|x: int| 0 <= x < out@.len() implies !(#[trigger] out@[x]).2 by {
                    assert(!is_marked(heap.nodes@[chain[x + 1]].next));
                }
            }
        }
        out
    }

    /// Looks `key` up: the value of the node at the key's place if that node
    /// carries the key, and nothing otherwise. The contents stay as they were;
    /// the search on the way cuts out what it crosses.
    pub fn get<V: Copy>(&mut self, heap: &mut Heap<V>, key: u64, retired: &mut Retired) -> (value:
        Option<V>)
        requires
            old(self).wf(old(heap)),
            old(heap).wf(),
            old(retired).wf(old(heap)),
        ensures
            final(self).wf(final(heap)),
            final(heap).wf(),
            final(retired).wf(final(heap)),
            final(self).head() == old(self).head(),
            final(self).tail() == old(self).tail(),
            final(self).view(final(heap)) == old(self).view(old(heap)),
            value == (if old(self).view(old(heap)).contains_key(key) {
                Some(old(self).view(old(heap))[key])
            } else {
                None
            }),
            cut_at_gap(
                old(self).chain(),
                final(self).chain(),
                old(heap).nodes@,
                key,
                old(retired).nodes@,
                final(retired).nodes@,
                0,
            ),
            final(self).keys(final(heap)).subset_of(old(self).keys(old(heap))),
            old(self).clean(old(heap)) ==> *final(self) == *old(self) && *final(heap) == *old(heap)
                && *final(retired) == *old(retired),
            final(retired).extends(old(retired)),
            final(retired).clock == old(retired).clock,
            final(retired).cells@ == old(retired).cells@,
            final(heap).cells == old(heap).cells,
            final(heap).cell_state == old(heap).cell_state,
            final(heap).nodes@.dom() == old(heap).nodes@.dom(),
            final(heap).nodes.spare() == old(heap).nodes.spare(),
            old(heap).unchanged_outside(final(heap), old(self).state(), old(retired).owner),
            old(heap).moves_on(final(heap)),
            old(heap).stamps_follow(final(heap), old(retired).clock@),
            old(heap).unlinked_closed(old(retired).clock@) ==> final(heap).unlinked_closed(
                old(retired).clock@,
            ),
    {
        let found = self.search(heap, key, retired);
        let right: usize = found.1;
        let ghost j = found.2@;
        proof {
            assert(is_pruned(old(self).chain(), self.chain@, old(heap).nodes@, j));
            assert(is_gap(
                old(self).chain(),
                old(heap).nodes@,
                key,
                j,
                j + 1 + (old(self).chain().len() - self.chain@.len()),
            ));
            assert(heap.nodes@.contains_key(self.chain@[j + 1]));
        }
        if right == self.tail || !key_matches(heap.load_key(right), key) {
            proof {
                self.lemma_absent(heap, key, j);
            }
            None
        } else {
            proof {
                self.lemma_present(heap, key, j);
            }
            Some(heap.read_cell(heap.load_val(right)))
        }
    }

    /// Maps `key` to `val` and returns the value that the key had before.
    ///
    /// Where the node at the key's place carries the key, a fresh cell with
    /// the new value is swapped into it and the displaced cell is retired.
    /// Otherwise a new node is linked in at that place with one
    /// compare-and-swap. The call fails exactly when no cell is spare, or the
    /// key is absent and no node is spare; the contents are then as they
    /// were.
    pub fn insert<V: Copy>(
        &mut self,
        heap: &mut Heap<V>,
        key: u64,
        val: V,
        retired: &mut Retired,
    ) -> (result: Result<Option<V>, AllocError>)
        requires
            old(self).wf(old(heap)),
            old(heap).wf(),
            old(retired).wf(old(heap)),
        ensures
            final(self).wf(final(heap)),
            final(heap).wf(),
            final(retired).wf(final(heap)),
            final(self).head() == old(self).head(),
            final(self).tail() == old(self).tail(),
            final(retired).extends(old(retired)),
            final(retired).clock == old(retired).clock,
            old(heap).unchanged_outside(final(heap), old(self).state(), old(retired).owner),
            old(heap).moves_on(final(heap)),
            old(heap).stamps_follow(final(heap), old(retired).clock@),
            old(heap).unlinked_closed(old(retired).clock@) ==> final(heap).unlinked_closed(
                old(retired).clock@,
            ),
            final(self).keys(final(heap)).subset_of(old(self).keys(old(heap)).insert(key)),
            old(self).clean(old(heap)) ==> final(self).clean(final(heap)) && final(retired).nodes@
                == old(retired).nodes@,
            ({
                let before = old(self).view(old(heap));
                let present = before.contains_key(key);
                &&& result is Ok && !present ==> exists|new: usize|
                    !old(heap).nodes@.contains_key(new) && #[trigger] linked_at_gap(
                        old(self).chain(),
                        final(self).chain(),
                        old(heap).nodes@,
                        key,
                        old(retired).nodes@,
                        final(retired).nodes@,
                        new,
                    )
                &&& !(result is Ok && !present) ==> cut_at_gap(
                    old(self).chain(),
                    final(self).chain(),
                    old(heap).nodes@,
                    key,
                    old(retired).nodes@,
                    final(retired).nodes@,
                    0,
                )
                &&& result is Err <==> old(heap).cells.spare() == 0 || (!present && old(heap).nodes.spare() == 0)
                &&& result is Err ==> {
                    &&& final(self).view(final(heap)) == before
                    &&& final(heap).cells == old(heap).cells
                    &&& final(heap).nodes.spare() == old(heap).nodes.spare()
                    &&& final(retired).cells@ == old(retired).cells@
                }
                &&& result is Ok ==> {
                    &&& final(self).view(final(heap)) == before.insert(key, val)
                    &&& result->Ok_0 == (if present {
                        Some(before[key])
                    } else {
                        None
                    })
                    &&& final(heap).cells.spare() == old(heap).cells.spare() - 1
                    &&& final(heap).nodes.spare() == old(heap).nodes.spare() - (if present {
                        0int
                    } else {
                        1int
                    })
                    &&& final(retired).cells@.len() == old(retired).cells@.len() + (if present {
                        1int
                    } else {
                        0int
                    })
                }
            }),
    {
        loop
            invariant
                *self == *old(self),
                *heap == *old(heap),
                *retired == *old(retired),
                self.wf(heap),
                heap.wf(),
                retired.wf(heap),
            decreases 0nat,
        {
            let found = self.search(heap, key, retired);
            let left: usize = found.0;
            let right: usize = found.1;
            let ghost j = found.2@;
            let ghost list1 = *self;
            let ghost heap1 = *heap;
            let ghost retired1 = *retired;
            proof {
                assert(heap.nodes@.contains_key(self.chain@[j + 1]));
                assert(heap.nodes@.contains_key(self.chain@[j]));
            }
            if right != self.tail && key_matches(heap.load_key(right), key) {
                proof {
                    list1.lemma_present(&heap1, key, j);
                }
                let cell = match heap.cells.allocate(val) {
                    Ok(c) => c,
                    Err(e) => {
                        return Err(e);
                    },
                };
                let displaced = heap.swap_val(right, cell);
                heap.cell_state = Ghost(
                    heap.cell_state@.insert(cell, CellState::Held(right)).insert(
                        displaced,
                        CellState::Retired(retired.owner),
                    ),
                );
                let prior = heap.read_cell(displaced);
                retired.cells.push(displaced);
                proof {
                    list1.lemma_swap_step(&heap1, heap, &retired1, retired, j, key, cell, val);
                    old(heap).lemma_unchanged_twice(&heap1, heap, list1.state(), retired.owner);
                    old(heap).lemma_moves_on_twice(&heap1, heap);
                    old(heap).lemma_stamps_follow_twice(&heap1, heap, retired.clock@);
                    retired.lemma_extends_twice(&retired1, old(retired));
                }
                return Ok(Some(prior));
            }
            proof {
                list1.lemma_absent(&heap1, key, j);
            }
            if heap.nodes.is_full() {
                return Err(AllocError);
            }
            let cell = match heap.cells.allocate(val) {
                Ok(c) => c,
                Err(e) => {
                    return Err(e);
                },
            };
            let mut new_node = Node::new(key, cell);
            new_node.next = right;
            let new = match heap.nodes.allocate(new_node) {
                Ok(a) => a,
                Err(e) => {
                    return Err(e);
                },
            };
            if heap.compare_and_swap_next(left, right, new) == right {
                self.chain = Ghost(self.chain@.insert(j + 1, new));
                heap.node_state = Ghost(heap.node_state@.insert(new, NodeState::Linked(self.head)));
                heap.cell_state = Ghost(heap.cell_state@.insert(cell, CellState::Held(new)));
                proof {
                    list1.lemma_link_step(self, &heap1, heap, retired, j, key, new, cell, val);
                    old(heap).lemma_unchanged_twice(&heap1, heap, list1.state(), retired.owner);
                    old(heap).lemma_moves_on_twice(&heap1, heap);
                    old(heap).lemma_stamps_follow_twice(&heap1, heap, retired.clock@);
                    assert(is_gap(
                        old(self).chain(),
                        old(heap).nodes@,
                        key,
                        j,
                        j + 1 + (old(self).chain().len() - list1.chain@.len()),
                    ));
                    assert(heap1.nodes@.dom().contains(new) == old(heap).nodes@.dom().contains(
                        new,
                    ));
                    assert(self.chain() == self.chain@);
                    assert(linked_at_gap(
                        old(self).chain(),
                        self.chain(),
                        old(heap).nodes@,
                        key,
                        old(retired).nodes@,
                        retired.nodes@,
                        new,
                    ));
                }
                return Ok(None);
            }
            heap.nodes.release(new);
            heap.cells.release(cell);
        }
    }

    /// Marks the link word of the node that carries `key`, which removes the
    /// key from the contents while the node stays linked. Returns the node's
    /// left neighbour, the node, the address that the node links to, and the
    /// position of the left neighbour in the chain.
    fn mark_node<V>(&mut self, heap: &mut Heap<V>, key: u64, retired: &mut Retired) -> (marked:
        Option<(usize, usize, usize, Ghost<int>)>)
        requires
            old(self).wf(old(heap)),
            old(heap).wf(),
            old(retired).wf(old(heap)),
        ensures
            final(self).wf(final(heap)),
            final(heap).wf(),
            final(retired).wf(final(heap)),
            final(self).head() == old(self).head(),
            final(self).tail() == old(self).tail(),
            final(retired).extends(old(retired)),
            final(retired).clock == old(retired).clock,
            final(retired).cells@ == old(retired).cells@,
            final(heap).cells == old(heap).cells,
            final(heap).cell_state == old(heap).cell_state,
            final(heap).nodes@.dom() == old(heap).nodes@.dom(),
            final(heap).nodes.spare() == old(heap).nodes.spare(),
            old(heap).unchanged_outside(final(heap), old(self).state(), old(retired).owner),
            old(heap).moves_on(final(heap)),
            old(heap).stamps_follow(final(heap), old(retired).clock@),
            old(heap).unlinked_closed(old(retired).clock@) ==> final(heap).unlinked_closed(
                old(retired).clock@,
            ),
            cut_at_gap(
                old(self).chain(),
                final(self).chain(),
                old(heap).nodes@,
                key,
                old(retired).nodes@,
                final(retired).nodes@,
                0,
            ),
            final(self).keys(final(heap)).subset_of(old(self).keys(old(heap))),
            marked is None <==> !old(self).view(old(heap)).contains_key(key),
            marked is None ==> final(self).view(final(heap)) == old(self).view(old(heap)),
            marked is None && old(self).clean(old(heap)) ==> final(self).clean(final(heap)),
            old(self).clean(old(heap)) ==> final(retired).nodes@ == old(retired).nodes@
                && final(self).chain() == old(self).chain(),
            marked is Some ==> {
                let parts = marked->0;
                let left = parts.0;
                let right = parts.1;
                let after = parts.2;
                let j = parts.3@;
                let chain = final(self).chain();
                let nodes = final(heap).nodes@;
                let r = j + 1 + (old(self).chain().len() - chain.len());
                &&& final(self).view(final(heap)) == old(self).view(old(heap)).remove(key)
                &&& is_gap(old(self).chain(), old(heap).nodes@, key, j, r)
                &&& r < old(self).chain().len() - 1
                &&& chain == cut_chain(old(self).chain(), j, r)
                &&& final(retired).nodes@ == old(retired).nodes@ + old(self).chain().subrange(
                    j + 1,
                    r,
                )
                &&& old(self).clean(old(heap)) ==> forall|x: int|
                    0 <= x < chain.len() && x != j + 1 ==> !is_marked(nodes[#[trigger] chain[x]].next)
                &&& 0 <= j
                &&& j + 2 < chain.len()
                &&& left == chain[j]
                &&& right == chain[j + 1]
                &&& after == chain[j + 2]
                &&& nodes[left].next == right
                &&& !is_marked(right)
                &&& is_marked(nodes[right].next)
                &&& nodes[right].key == Some(key)
                &&& nodes.contains_key(left)
                &&& nodes.contains_key(right)
                &&& final(heap).cells@.contains_key(nodes[right].val)
                &&& final(heap).cells@[nodes[right].val] == old(self).view(old(heap))[key]
            },
    {
        loop
            invariant
                *self == *old(self),
                *heap == *old(heap),
                *retired == *old(retired),
                self.wf(heap),
                heap.wf(),
                retired.wf(heap),
            decreases 0nat,
        {
            let found = self.search(heap, key, retired);
            let left: usize = found.0;
            let right: usize = found.1;
            let ghost j = found.2@;
            let ghost list1 = *self;
            let ghost heap1 = *heap;
            proof {
                assert(heap.nodes@.contains_key(self.chain@[j + 1]));
                assert(heap.nodes@.contains_key(self.chain@[j]));
                assert(self.chain() == self.chain@);
                assert(is_gap(
                    old(self).chain(),
                    old(heap).nodes@,
                    key,
                    j,
                    j + 1 + (old(self).chain().len() - self.chain@.len()),
                ));
                assert(is_pruned(old(self).chain(), self.chain@, old(heap).nodes@, j));
            }
            if right == self.tail || !key_matches(heap.load_key(right), key) {
                proof {
                    self.lemma_absent(heap, key, j);
                }
                return None;
            }
            proof {
                list1.lemma_present(&heap1, key, j);
            }
            let right_next: usize = heap.load_next(right);
            if !is_marked_reference(right_next) {
                if heap.compare_and_swap_next(right, right_next, get_marked_reference(right_next))
                    == right_next {
                    proof {
                        list1.lemma_mark_step(&heap1, heap, retired, j, key);
                        old(heap).lemma_unchanged_twice(&heap1, heap, list1.state(), retired.owner);
                    old(heap).lemma_moves_on_twice(&heap1, heap);
                    old(heap).lemma_stamps_follow_twice(&heap1, heap, retired.clock@);
                        assert(next_at(list1.chain@, heap1.nodes@, j) == right);
                        assert(heap.nodes@[right].key == Some(key));
                        assert(heap.nodes@[right].val == heap1.nodes@[right].val);
                    }
                    return Some((left, right, right_next, Ghost(j)));
                }
            }
        }
    }

    /// Deletes `key` logically: the node that carries it is marked and stays
    /// linked until a later search crosses it. Returns the value that the key
    /// had.
    pub fn logically_delete<V: Copy>(
        &mut self,
        heap: &mut Heap<V>,
        key: u64,
        retired: &mut Retired,
    ) -> (value: Option<V>)
        requires
            old(self).wf(old(heap)),
            old(heap).wf(),
            old(retired).wf(old(heap)),
        ensures
            final(self).wf(final(heap)),
            final(heap).wf(),
            final(retired).wf(final(heap)),
            final(self).head() == old(self).head(),
            final(self).tail() == old(self).tail(),
            final(self).view(final(heap)) == old(self).view(old(heap)).remove(key),
            value == (if old(self).view(old(heap)).contains_key(key) {
                Some(old(self).view(old(heap))[key])
            } else {
                None
            }),
            final(retired).extends(old(retired)),
            final(retired).clock == old(retired).clock,
            final(retired).cells@ == old(retired).cells@,
            cut_at_gap(
                old(self).chain(),
                final(self).chain(),
                old(heap).nodes@,
                key,
                old(retired).nodes@,
                final(retired).nodes@,
                0,
            ),
            final(self).keys(final(heap)).subset_of(old(self).keys(old(heap))),
            final(heap).cells == old(heap).cells,
            final(heap).cell_state == old(heap).cell_state,
            final(heap).nodes@.dom() == old(heap).nodes@.dom(),
            final(heap).nodes.spare() == old(heap).nodes.spare(),
            old(heap).unchanged_outside(final(heap), old(self).state(), old(retired).owner),
            old(heap).moves_on(final(heap)),
            old(heap).stamps_follow(final(heap), old(retired).clock@),
            old(heap).unlinked_closed(old(retired).clock@) ==> final(heap).unlinked_closed(
                old(retired).clock@,
            ),
    {
        match self.mark_node(heap, key, retired) {
            None => {
                proof {
                    assert(old(self).view(old(heap)).remove(key) =~= old(self).view(old(heap)));
                }
                None
            },
            Some(marked) => Some(heap.read_cell(heap.load_val(marked.1))),
        }
    }

    /// Deletes `key` and returns the value that it had: the node that carries
    /// the key is marked, then cut out with a compare-and-swap on its left
    /// neighbour and retired.
    pub fn delete<V: Copy>(&mut self, heap: &mut Heap<V>, key: u64, retired: &mut Retired) -> (value:
        Option<V>)
        requires
            old(self).wf(old(heap)),
            old(heap).wf(),
            old(retired).wf(old(heap)),
        ensures
            final(self).wf(final(heap)),
            final(heap).wf(),
            final(retired).wf(final(heap)),
            final(self).head() == old(self).head(),
            final(self).tail() == old(self).tail(),
            final(self).view(final(heap)) == old(self).view(old(heap)).remove(key),
            value == (if old(self).view(old(heap)).contains_key(key) {
                Some(old(self).view(old(heap))[key])
            } else {
                None
            }),
            final(retired).extends(old(retired)),
            final(retired).clock == old(retired).clock,
            final(retired).cells@ == old(retired).cells@,
            value is Some ==> final(retired).nodes@.len() > old(retired).nodes@.len() && final(heap).nodes@[final(retired).nodes@.last()].key == Some(key),
            cut_at_gap(
                old(self).chain(),
                final(self).chain(),
                old(heap).nodes@,
                key,
                old(retired).nodes@,
                final(retired).nodes@,
                if value is Some {
                    1
                } else {
                    0
                },
            ),
            final(self).keys(final(heap)).subset_of(old(self).keys(old(heap))),
            old(self).clean(old(heap)) ==> final(self).clean(final(heap)) && final(retired).nodes@.len() == old(retired).nodes@.len() + (if value is Some {
                1int
            } else {
                0int
            }),
            final(heap).cells == old(heap).cells,
            final(heap).cell_state == old(heap).cell_state,
            final(heap).nodes@.dom() == old(heap).nodes@.dom(),
            final(heap).nodes.spare() == old(heap).nodes.spare(),
            old(heap).unchanged_outside(final(heap), old(self).state(), old(retired).owner),
            old(heap).moves_on(final(heap)),
            old(heap).stamps_follow(final(heap), old(retired).clock@),
            old(heap).unlinked_closed(old(retired).clock@) ==> final(heap).unlinked_closed(
                old(retired).clock@,
            ),
    {
        let marked = match self.mark_node(heap, key, retired) {
            None => {
                proof {
                    assert(old(self).view(old(heap)).remove(key) =~= old(self).view(old(heap)));
                }
                return None;
            },
            Some(marked) => marked,
        };
        let left: usize = marked.0;
        let right: usize = marked.1;
        let right_next: usize = marked.2;
        let ghost j = marked.3@;
        let ghost list1 = *self;
        let ghost heap1 = *heap;
        let ghost retired1 = *retired;
        let ghost chain = self.chain@;
        let ghost chain0 = old(self).chain();
        let ghost r = j + 1 + (chain0.len() - chain.len());
        let old_value = heap.read_cell(heap.load_val(right));
        if heap.compare_and_swap_next(left, right, right_next) != right {
            let _ = self.search(heap, key, retired);
        } else {
            self.chain = Ghost(cut_chain(chain, j, j + 2));
            heap.node_state = Ghost(
                heap.node_state@.insert(right, NodeState::Unlinked(retired.owner)),
            );
            heap.unlinked_at = Ghost(heap.unlinked_at@.insert(right, retired.clock@));
            retired.nodes.push(right);
            proof {
                list1.lemma_unlink_step(
                    self,
                    &heap1,
                    heap,
                    &retired1,
                    retired,
                    j,
                    chain0,
                    r,
                    old(retired).nodes@,
                );
                old(heap).lemma_unchanged_twice(&heap1, heap, list1.state(), retired.owner);
                    old(heap).lemma_moves_on_twice(&heap1, heap);
                    old(heap).lemma_stamps_follow_twice(&heap1, heap, retired.clock@);
                retired.lemma_extends_twice(&retired1, old(retired));
                assert(self.chain() == self.chain@);
                assert(is_gap(chain0, old(heap).nodes@, key, j, r));
            }
        }
        Some(old_value)
    }
}

} // verus!
