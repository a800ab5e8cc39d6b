//! The private buffer in which one owner collects what it cut out of the
//! lists, until a reclamation pass frees it.

use crate::heap::{CellState, Heap, NodeState};
use vstd::prelude::*;

verus! {

/// Addresses of unlinked nodes and of displaced value cells, in the order in
/// which they were retired.
pub struct Retired {
    pub owner: usize,
    pub nodes: Vec<usize>,
    pub cells: Vec<usize>,
    /// The epoch counters of all handles as they stood when the owner began
    /// the operation that it is in.
    pub clock: Ghost<Seq<Option<usize>>>,
}

impl Retired {
    /// The buffer holds, once each, exactly the nodes and cells that are
    /// allocated and recorded as retired by this owner; the retired nodes
    /// carry keys.
    pub open spec fn wf<V>(&self, heap: &Heap<V>) -> bool {
        &&& forall|a: usize|
            heap.node_in(NodeState::Unlinked(self.owner), a) ==> #[trigger] self.nodes@.contains(a)
        &&& forall|c: usize|
            heap.cells@.contains_key(c) && heap.cell_state@[c] == CellState::Retired(self.owner)
                ==> #[trigger] self.cells@.contains(c)
        &&& forall|i: int|
            0 <= i < self.nodes@.len() ==> heap.node_in(
                NodeState::Unlinked(self.owner),
                #[trigger] self.nodes@[i],
            ) && heap.nodes@[self.nodes@[i]].key is Some
        &&& forall|i: int, j: int|
            0 <= i < j < self.nodes@.len() ==> self.nodes@[i] != self.nodes@[j]
        &&& forall|i: int|
            0 <= i < self.cells@.len() ==> heap.cells@.contains_key(#[trigger] self.cells@[i])
                && heap.cell_state@[self.cells@[i]] == CellState::Retired(self.owner)
        &&& forall|i: int, j: int|
            0 <= i < j < self.cells@.len() ==> self.cells@[i] != self.cells@[j]
    }

    /// This buffer is `before` with entries appended.
    pub open spec fn extends(&self, before: &Retired) -> bool {
        &&& self.owner == before.owner
        &&& before.nodes@.len() <= self.nodes@.len()
        &&& self.nodes@.subrange(0, before.nodes@.len() as int) == before.nodes@
        &&& before.cells@.len() <= self.cells@.len()
        &&& self.cells@.subrange(0, before.cells@.len() as int) == before.cells@
    }

    /// A buffer extends itself.
    pub proof fn lemma_extends_self(&self)
        ensures
            self.extends(self),
    {
        assert(self.nodes@.subrange(0, self.nodes@.len() as int) =~= self.nodes@);
        assert(self.cells@.subrange(0, self.cells@.len() as int) =~= self.cells@);
    }

    /// A buffer that grew twice extends what it was at first.
    pub proof fn lemma_extends_twice(&self, mid: &Retired, before: &Retired)
        requires
            mid.extends(before),
            self.extends(mid),
        ensures
            self.extends(before),
    {
        assert(self.nodes@.subrange(0, before.nodes@.len() as int) =~= mid.nodes@.subrange(
            0,
            before.nodes@.len() as int,
        ));
        assert(self.cells@.subrange(0, before.cells@.len() as int) =~= mid.cells@.subrange(
            0,
            before.cells@.len() as int,
        ));
    }

    /// A buffer with entries appended to both lists extends what it was.
    pub proof fn lemma_appended(&self, before: &Retired, nodes: Seq<usize>, cells: Seq<usize>)
        requires
            self.owner == before.owner,
            self.nodes@ =~= before.nodes@ + nodes,
            self.cells@ =~= before.cells@ + cells,
        ensures
            self.extends(before),
    {
        assert(self.nodes@.subrange(0, before.nodes@.len() as int) =~= before.nodes@);
        assert(self.cells@.subrange(0, before.cells@.len() as int) =~= before.cells@);
    }

    /// An empty buffer for `owner`.
    pub fn new(owner: usize) -> (buffer: Self)
        ensures
            buffer.owner == owner,
            buffer.nodes@ == Seq::<usize>::empty(),
            buffer.cells@ == Seq::<usize>::empty(),
            buffer.clock@ == Seq::<Option<usize>>::empty(),
    {
        Retired { owner, nodes: Vec::new(), cells: Vec::new(), clock: Ghost(Seq::empty()) }
    }

    /// A buffer stays well formed across a change of the heap that leaves
    /// alone what this owner retired.
    pub proof fn lemma_unchanged<V>(
        &self,
        before: &Heap<V>,
        after: &Heap<V>,
        s: NodeState,
        owner: usize,
    )
        requires
            self.wf(before),
            before.unchanged_outside(after, s, owner),
            s != NodeState::Unlinked(self.owner),
            owner != self.owner,
        ensures
            self.wf(after),
    {
        assert forall|a: usize|
            after.node_in(
                NodeState::Unlinked(self.owner),
                a,
            ) implies #[trigger] self.nodes@.contains(a) by {
            assert(before.node_kept_or_claimed(after, s, owner, a));
            assert(before.node_in(NodeState::Unlinked(self.owner), a));
        }
        assert forall|c: usize|
            after.cells@.contains_key(c) && after.cell_state@[c] == CellState::Retired(
                self.owner,
            ) implies #[trigger] self.cells@.contains(c) by {
            assert(before.cell_kept_or_claimed(after, owner, c));
        }
        assert forall|i: int| 0 <= i < self.nodes@.len() implies after.node_in(
            NodeState::Unlinked(self.owner),
            #[trigger] self.nodes@[i],
        ) && after.nodes@[self.nodes@[i]].key is Some by {
            let a = self.nodes@[i];
            assert(before.node_in(NodeState::Unlinked(self.owner), a));
            assert(before.node_kept(after, a));
        }
        assert forall|i: int| 0 <= i < self.cells@.len() implies after.cells@.contains_key(
            #[trigger] self.cells@[i],
        ) && after.cell_state@[self.cells@[i]] == CellState::Retired(self.owner) by {
            let c = self.cells@[i];
            assert(before.cell_kept(after, c));
        }
    }

    /// Frees the first `nodes` retired nodes, each together with its value
    /// cell, and the first `cells` retired cells. The rest of the buffer
    /// stays, and nothing else in the heap is touched.
    pub fn release<V>(&mut self, heap: &mut Heap<V>, nodes: usize, cells: usize)
        requires
            old(self).wf(old(heap)),
            old(heap).wf(),
            nodes <= old(self).nodes@.len(),
            cells <= old(self).cells@.len(),
        ensures
            final(heap).wf(),
            final(self).wf(final(heap)),
            final(self).owner == old(self).owner,
            final(self).clock == old(self).clock,
            final(heap).unlinked_at == old(heap).unlinked_at,
            final(self).nodes@ == old(self).nodes@.subrange(
                nodes as int,
                old(self).nodes@.len() as int,
            ),
            final(self).cells@ == old(self).cells@.subrange(
                cells as int,
                old(self).cells@.len() as int,
            ),
            final(heap).nodes.spare() == old(heap).nodes.spare() + nodes,
            final(heap).cells.spare() == old(heap).cells.spare() + nodes + cells,
            forall|i: int|
                0 <= i < nodes ==> !final(heap).nodes@.contains_key(#[trigger] old(self).nodes@[i])
                    && !final(heap).cells@.contains_key(old(heap).nodes@[old(self).nodes@[i]].val),
            forall|i: int|
                0 <= i < cells ==> !final(heap).cells@.contains_key(#[trigger] old(self).cells@[i]),
            forall|a: usize|
                final(heap).nodes@.contains_key(a) ==> #[trigger] old(heap).node_kept(final(heap), a)
                    && old(heap).nodes@.contains_key(a),
            forall|c: usize|
                final(heap).cells@.contains_key(c) ==> #[trigger] old(heap).cell_kept(final(heap), c)
                    && old(heap).cells@.contains_key(c),
            old(heap).unchanged_outside(
                final(heap),
                NodeState::Unlinked(old(self).owner),
                old(self).owner,
            ),
    {
        let ghost owner = self.owner;
        let ghost entries = self.nodes@;
        let ghost displaced = self.cells@;
        let mut i: usize = 0;
        while i < nodes
            invariant
                0 <= i <= nodes <= entries.len(),
                *self == *old(self),
                entries == self.nodes@,
                displaced == self.cells@,
                owner == self.owner,
                old(self).wf(old(heap)),
                old(heap).wf(),
                heap.wf(),
                heap.node_state == old(heap).node_state,
                heap.cell_state == old(heap).cell_state,
                heap.unlinked_at == old(heap).unlinked_at,
                heap.nodes.spare() == old(heap).nodes.spare() + i,
                heap.cells.spare() == old(heap).cells.spare() + i,
                forall|a: usize|
                    heap.nodes@.contains_key(a) ==> #[trigger] old(heap).node_kept(heap, a)
                        && old(heap).nodes@.contains_key(a),
                forall|c: usize|
                    heap.cells@.contains_key(c) ==> #[trigger] old(heap).cell_kept(heap, c)
                        && old(heap).cells@.contains_key(c),
                forall|x: int|
                    0 <= x < i ==> !heap.nodes@.contains_key(#[trigger] entries[x])
                        && !heap.cells@.contains_key(old(heap).nodes@[entries[x]].val),
                forall|x: int| i <= x < entries.len() ==> heap.nodes@.contains_key(#[trigger] entries[x]),
                forall|x: int|
                    0 <= x < displaced.len() ==> heap.cells@.contains_key(#[trigger] displaced[x]),
                forall|a: usize|
                    old(heap).nodes@.contains_key(a) && !old(heap).node_in(
                        NodeState::Unlinked(owner),
                        a,
                    ) ==> #[trigger] heap.nodes@.contains_key(a),
                forall|c: usize|
                    old(heap).cells@.contains_key(c) && !old(heap).cell_in(
                        NodeState::Unlinked(owner),
                        c,
                    ) ==> #[trigger] heap.cells@.contains_key(c),
            decreases nodes - i,
        {
            let a: usize = self.nodes[i];
            let ghost before = *heap;
            proof {
                assert(old(heap).node_in(NodeState::Unlinked(owner), entries[i as int]));
                assert(old(heap).node_kept(heap, a));
                assert(heap.node_sound(a));
            }
            let cell: usize = heap.load_val(a);
            heap.cells.release(cell);
            heap.nodes.release(a);
            proof {
                assert(before.node_state@[a] == NodeState::Unlinked(owner));
                assert forall|b: usize| heap.nodes@.contains_key(b) implies #[trigger] heap.node_sound(
                    b,
                ) by {
                    assert(before.node_sound(b));
                    assert(before.node_sound(a));
                }
                assert forall|c: usize| heap.cells@.contains_key(c) implies #[trigger] heap.cell_sound(
                    c,
                ) by {
                    assert(before.cell_sound(c));
                }
                assert forall|b: usize| heap.nodes@.contains_key(b) implies #[trigger] old(
                    heap,
                ).node_kept(heap, b) && old(heap).nodes@.contains_key(b) by {
                    assert(old(heap).node_kept(&before, b));
                }
                assert forall|c: usize| heap.cells@.contains_key(c) implies #[trigger] old(
                    heap,
                ).cell_kept(heap, c) && old(heap).cells@.contains_key(c) by {
                    assert(old(heap).cell_kept(&before, c));
                }
                assert forall|x: int| i + 1 <= x < entries.len() implies heap.nodes@.contains_key(
                    #[trigger] entries[x],
                ) by {
                    assert(entries[i as int] != entries[x]);
                }
                assert forall|c: usize|
                    old(heap).cells@.contains_key(c) && !old(heap).cell_in(
                        NodeState::Unlinked(owner),
                        c,
                    ) implies #[trigger] heap.cells@.contains_key(c) by {
                    assert(before.cells@.contains_key(c));
                    assert(old(heap).node_sound(a));
                }
                assert forall|x: int| 0 <= x < displaced.len() implies heap.cells@.contains_key(
                    #[trigger] displaced[x],
                ) by {
                    assert(old(heap).cell_state@[displaced[x]] == CellState::Retired(owner));
                    assert(old(heap).node_sound(a));
                }
            }
            i = i + 1;
        }
        let ghost mid = *heap;
        let mut k: usize = 0;
        while k < cells
            invariant
                0 <= k <= cells <= displaced.len(),
                *self == *old(self),
                entries == self.nodes@,
                displaced == self.cells@,
                owner == self.owner,
                old(self).wf(old(heap)),
                old(heap).wf(),
                heap.wf(),
                heap.nodes == mid.nodes,
                heap.node_state == old(heap).node_state,
                heap.cell_state == old(heap).cell_state,
                heap.unlinked_at == old(heap).unlinked_at,
                heap.cells.spare() == mid.cells.spare() + k,
                mid.cells.spare() == old(heap).cells.spare() + nodes,
                mid.nodes.spare() == old(heap).nodes.spare() + nodes,
                nodes <= entries.len(),
                forall|a: usize|
                    mid.nodes@.contains_key(a) ==> #[trigger] old(heap).node_kept(&mid, a)
                        && old(heap).nodes@.contains_key(a),
                forall|c: usize|
                    mid.cells@.contains_key(c) ==> #[trigger] old(heap).cell_kept(&mid, c)
                        && old(heap).cells@.contains_key(c),
                forall|x: int|
                    0 <= x < nodes ==> !mid.nodes@.contains_key(#[trigger] entries[x])
                        && !mid.cells@.contains_key(old(heap).nodes@[entries[x]].val),
                forall|x: int|
                    nodes <= x < entries.len() ==> mid.nodes@.contains_key(#[trigger] entries[x]),
                forall|a: usize|
                    old(heap).nodes@.contains_key(a) && !old(heap).node_in(
                        NodeState::Unlinked(owner),
                        a,
                    ) ==> #[trigger] mid.nodes@.contains_key(a),
                forall|c: usize|
                    heap.cells@.contains_key(c) ==> #[trigger] old(heap).cell_kept(heap, c)
                        && mid.cells@.contains_key(c),
                forall|x: int| 0 <= x < k ==> !heap.cells@.contains_key(#[trigger] displaced[x]),
                forall|x: int|
                    k <= x < displaced.len() ==> heap.cells@.contains_key(#[trigger] displaced[x]),
                forall|c: usize|
                    old(heap).cells@.contains_key(c) && !old(heap).cell_in(
                        NodeState::Unlinked(owner),
                        c,
                    ) ==> #[trigger] heap.cells@.contains_key(c),
            decreases cells - k,
        {
            let c: usize = self.cells[k];
            let ghost before = *heap;
            heap.cells.release(c);
            proof {
                assert(old(heap).cell_state@[displaced[k as int]] == CellState::Retired(owner));
                assert forall|b: usize| heap.nodes@.contains_key(b) implies #[trigger] heap.node_sound(
                    b,
                ) by {
                    assert(before.node_sound(b));
                }
                assert forall|d: usize| heap.cells@.contains_key(d) implies #[trigger] heap.cell_sound(
                    d,
                ) by {
                    assert(before.cell_sound(d));
                }
                assert forall|d: usize| heap.cells@.contains_key(d) implies #[trigger] old(
                    heap,
                ).cell_kept(heap, d) && mid.cells@.contains_key(d) by {
                    assert(old(heap).cell_kept(&before, d));
                }
                assert forall|x: int| k + 1 <= x < displaced.len() implies heap.cells@.contains_key(
                    #[trigger] displaced[x],
                ) by {
                    assert(displaced[k as int] != displaced[x]);
                }
            }
            k = k + 1;
        }
        let mut rest_nodes: Vec<usize> = Vec::new();
        let mut x: usize = nodes;
        while x < self.nodes.len()
            invariant
                nodes <= x <= self.nodes@.len(),
                self.nodes@ == entries,
                rest_nodes@ == entries.subrange(nodes as int, x as int),
            decreases self.nodes@.len() - x,
        {
            rest_nodes.push(self.nodes[x]);
            proof {
                assert(rest_nodes@ =~= entries.subrange(nodes as int, x + 1));
            }
            x = x + 1;
        }
        let mut rest_cells: Vec<usize> = Vec::new();
        let mut y: usize = cells;
        while y < self.cells.len()
            invariant
                cells <= y <= self.cells@.len(),
                self.cells@ == displaced,
                rest_cells@ == displaced.subrange(cells as int, y as int),
            decreases self.cells@.len() - y,
        {
            rest_cells.push(self.cells[y]);
            proof {
                assert(rest_cells@ =~= displaced.subrange(cells as int, y + 1));
            }
            y = y + 1;
        }
        self.nodes = rest_nodes;
        self.cells = rest_cells;
        proof {
            assert forall|j: int| 0 <= j < self.nodes@.len() implies heap.node_in(
                NodeState::Unlinked(self.owner),
                #[trigger] self.nodes@[j],
            ) && heap.nodes@[self.nodes@[j]].key is Some by {
                let a = entries[nodes + j];
                assert(self.nodes@[j] == a);
                assert(old(heap).node_in(NodeState::Unlinked(owner), a));
                assert(mid.nodes@.contains_key(a));
                assert(old(heap).node_kept(&mid, a));
            }
            assert forall|j: int| 0 <= j < self.cells@.len() implies heap.cells@.contains_key(
                #[trigger] self.cells@[j],
            ) && heap.cell_state@[self.cells@[j]] == CellState::Retired(self.owner) by {
                let c = displaced[cells + j];
                assert(self.cells@[j] == c);
            }
            assert forall|a: usize|
                old(heap).nodes@.contains_key(a) && !old(heap).node_in(
                    NodeState::Unlinked(owner),
                    a,
                ) implies #[trigger] old(heap).node_kept(heap, a) by {
                assert(mid.nodes@.contains_key(a));
                assert(old(heap).node_kept(&mid, a));
            }
            assert forall|a: usize| heap.nodes@.contains_key(a) implies #[trigger] old(
                heap,
            ).node_kept(heap, a) by {
                assert(old(heap).node_kept(&mid, a));
            }
            assert forall|c: usize|
                old(heap).cells@.contains_key(c) && !old(heap).cell_in(
                    NodeState::Unlinked(owner),
                    c,
                ) implies #[trigger] old(heap).cell_kept(heap, c) by {
                assert(heap.cells@.contains_key(c));
            }
            assert forall|a: usize|
                heap.node_in(
                    NodeState::Unlinked(owner),
                    a,
                ) implies #[trigger] self.nodes@.contains(a) by {
                assert(mid.nodes@.contains_key(a));
                assert(old(heap).node_kept(&mid, a));
                assert(old(heap).node_in(NodeState::Unlinked(owner), a));
                assert(entries.contains(a));
                let i = choose|i: int| 0 <= i < entries.len() && entries[i] == a;
                if i < nodes {
                    assert(!mid.nodes@.contains_key(entries[i]));
                } else {
                    assert(self.nodes@[i - nodes] == a);
                }
            }
            assert forall|c: usize|
                heap.cells@.contains_key(c) && heap.cell_state@[c] == CellState::Retired(
                    owner,
                ) implies #[trigger] self.cells@.contains(c) by {
                assert(old(heap).cell_kept(heap, c));
                assert(mid.cells@.contains_key(c));
                assert(old(heap).cell_kept(&mid, c));
                assert(displaced.contains(c));
                let i = choose|i: int| 0 <= i < displaced.len() && displaced[i] == c;
                if i < cells {
                    assert(!heap.cells@.contains_key(displaced[i]));
                } else {
                    assert(self.cells@[i - cells] == c);
                }
            }
            assert forall|a: usize| heap.nodes@.contains_key(a) implies #[trigger] old(heap).node_kept_or_claimed(
                heap,
                NodeState::Unlinked(owner),
                owner,
                a,
            ) by {
                assert(old(heap).node_kept(&mid, a));
            }
            assert forall|c: usize| heap.cells@.contains_key(c) implies #[trigger] old(heap).cell_kept_or_claimed(
                heap,
                owner,
                c,
            ) by {
                assert(old(heap).cell_kept(heap, c));
                assert(mid.cells@.contains_key(c));
                assert(old(heap).cell_kept(&mid, c));
            }
            assert forall|a: usize| heap.nodes@.contains_key(a) implies #[trigger] old(heap).node_kept(
                heap,
                a,
            ) && old(heap).nodes@.contains_key(a) by {
                assert(old(heap).node_kept(&mid, a));
            }
            assert forall|c: usize| heap.cells@.contains_key(c) implies #[trigger] old(heap).cell_kept(
                heap,
                c,
            ) && old(heap).cells@.contains_key(c) by {
                assert(old(heap).cell_kept(heap, c));
                assert(mid.cells@.contains_key(c));
                assert(old(heap).cell_kept(&mid, c));
            }
            assert forall|i: int| 0 <= i < nodes implies !heap.nodes@.contains_key(
                #[trigger] entries[i],
            ) && !heap.cells@.contains_key(old(heap).nodes@[entries[i]].val) by {
                assert(!mid.nodes@.contains_key(entries[i]));
                if heap.cells@.contains_key(old(heap).nodes@[entries[i]].val) {
                    assert(old(heap).cell_kept(heap, old(heap).nodes@[entries[i]].val));
                }
            }
        }
    }
}

} // verus!
