//! The map and its handles, with memory reclaimed by epoch counters.
//!
//! A [`SharedMap`] owns what all users of a map share: the bucket table and
//! the registry of epoch counters. A [`MapHandle`] owns what one user keeps
//! to itself: the number of its counter, its buffer of retired memory, and
//! its count of operations since the last reclamation pass. Every operation
//! of a handle raises the handle's counter to an odd value, works on the
//! table, and raises the counter to the next even value.
//!
//! Memory is freed by reclamation passes only. A pass frees what its handle
//! had retired before the snapshot of the pass, once every handle that was
//! inside an operation at the snapshot has been seen to have left it. What
//! a handle inside an operation may hold, that is every linked node and
//! every node unlinked since the handle went in, is closed under links and
//! is never freed by what other handles do
//! ([`MapHandle::lemma_may_hold_linked`],
//! [`MapHandle::lemma_holds_successor`], [`holds_kept`]).

use crate::arena::{max_slots, AllocError};
use crate::chain::sorted_between_sentinels;
use crate::epoch::{cleared, released, Registry, Scan};
use crate::heap::NodeState;
use crate::model::{answer, apply, Operation};
use crate::retired::Retired;
use crate::table::{counted, Table};
use vstd::prelude::*;

verus! {

/// The number of operations of a handle between two reclamation passes.
pub const REFRESH_RATE: usize = 100;

/// No registered handle is inside an operation.
pub open spec fn all_quiescent(counters: Seq<Option<usize>>) -> bool {
    forall|id: int|
        0 <= id < counters.len() && counters[id] is Some ==> (#[trigger] counters[id])->0 % 2 == 0
}

/// From `before` to `after` no counter went down; handles may have been
/// added or closed.
pub open spec fn advanced(before: Seq<Option<usize>>, after: Seq<Option<usize>>) -> bool {
    &&& before.len() <= after.len()
    &&& forall|id: int|
        0 <= id < before.len() && (#[trigger] after[id]) is Some ==> before[id] is Some
            && before[id]->0 <= after[id]->0
}

/// Counters that did not go down twice in a row did not go down.
pub proof fn lemma_advanced_twice(
    first: Seq<Option<usize>>,
    second: Seq<Option<usize>>,
    third: Seq<Option<usize>>,
)
    requires
        advanced(first, second),
        advanced(second, third),
    ensures
        advanced(first, third),
{
    assert forall|id: int| 0 <= id < first.len() && (#[trigger] third[id]) is Some implies first[id]
        is Some && first[id]->0 <= third[id]->0 by {
        assert(second[id] is Some);
    }
}

/// What the handles of one map share.
pub struct SharedMap<V> {
    table: Table<V>,
    handles: Registry,
}

impl<V> View for SharedMap<V> {
    type V = Map<u64, V>;

    /// The contents of the map.
    closed spec fn view(&self) -> Map<u64, V> {
        self.table@
    }
}

impl<V> SharedMap<V> {
    /// The table is well formed; whatever is retired in it is retired by a
    /// handle of the registry, under a clock that lies in the past of the
    /// registry; and what a handle inside an operation may hold is closed
    /// under links.
    pub closed spec fn wf(&self) -> bool {
        &&& self.table.wf()
        &&& self.table.owners_below(self.handles@.len())
        &&& forall|a: usize| #[trigger] self.stamped(a)
        &&& self.table.heap().unlinked_closed(self.handles@)
    }

    /// The node at `a`, if it is unlinked, was unlinked at a clock that lies
    /// in the past of the registry.
    pub closed spec fn stamped(&self, a: usize) -> bool {
        self.table.heap().nodes@.contains_key(a) && self.table.heap().node_state@[a] is Unlinked
            ==> advanced(self.table.heap().unlinked_at@[a], self.handles@)
    }

    /// A map stays well formed when its counters go up and its table stays
    /// as it is.
    proof fn lemma_counters_moved(&self, before: &SharedMap<V>)
        requires
            before.wf(),
            self.table == before.table,
            advanced(before.handles@, self.handles@),
        ensures
            self.wf(),
    {
        self.table.lemma_owners_below_more(before.handles@.len(), self.handles@.len());
        assert forall|a: usize| #[trigger] self.stamped(a) by {
            assert(before.stamped(a));
            if self.table.heap().nodes@.contains_key(a) && self.table.heap().node_state@[a]
                is Unlinked {
                lemma_advanced_twice(
                    self.table.heap().unlinked_at@[a],
                    before.handles@,
                    self.handles@,
                );
            }
        }
        let heap = self.table.heap();
        assert forall|id: int, x: usize| #[trigger]
            heap.unlinked_closed_at(self.handles@, id, x) by {
            if heap.held_by(self.handles@, id, x) && heap.node_state@[x] is Unlinked {
                assert(before.stamped(x));
                assert(before.handles@[id] is Some);
                assert(heap.unlinked_at@[x][id] == before.handles@[id]);
                assert(heap.held_by(before.handles@, id, x));
                assert(heap.unlinked_closed_at(before.handles@, id, x));
            }
        }
    }

    /// A map stays well formed when its table moves on under the clock of
    /// its counters.
    proof fn lemma_table_moved(&self, before: &SharedMap<V>, clock: Seq<Option<usize>>)
        requires
            before.wf(),
            self.handles == before.handles,
            self.table.wf(),
            self.table.owners_below(self.handles@.len()),
            before.table.heap().stamps_follow(&self.table.heap(), clock),
            before.table.heap().unlinked_closed(clock) ==> self.table.heap().unlinked_closed(clock),
            clock == self.handles@,
        ensures
            self.wf(),
    {
        assert forall|a: usize| #[trigger] self.stamped(a) by {
            if self.table.heap().nodes@.contains_key(a) && self.table.heap().node_state@[a]
                is Unlinked {
                assert(before.table.heap().stamp_follows(&self.table.heap(), clock, a));
                assert(before.stamped(a));
            }
        }
    }

    /// The bucket table.
    pub closed spec fn table(&self) -> Table<V> {
        self.table
    }

    /// The epoch counters, by handle number.
    pub closed spec fn counters(&self) -> Seq<Option<usize>> {
        self.handles@
    }

    /// The number of entries, as the wrapping counter shows it.
    pub open spec fn len_spec(&self) -> usize {
        counted(self@.dom().len())
    }

    /// Every bucket of a well-formed map is sorted: from its head sentinel to
    /// its tail sentinel the keys strictly increase.
    pub proof fn lemma_buckets_sorted(&self, b: int)
        requires
            self.wf(),
            0 <= b < self.table().nbuckets(),
        ensures
            sorted_between_sentinels(
                self.table().buckets()[b].chain(),
                self.table().heap().nodes@,
                self.table().buckets()[b].head(),
                self.table().buckets()[b].tail(),
            ),
            crate::chain::chain_clean(
                self.table().buckets()[b].chain(),
                self.table().heap().nodes@,
            ),
    {
        self.table.lemma_buckets_sorted(b);
    }

    /// The number of buckets.
    pub fn capacity(&self) -> (n: usize)
        ensures
            n == self.table().nbuckets(),
    {
        self.table.capacity()
    }

    /// Walks one bucket from its head sentinel to its tail sentinel and
    /// returns, for every node between them in list order, the node's key,
    /// its value, and whether the node is logically deleted. The keys come
    /// out strictly increasing, and every key of the map that belongs in the
    /// bucket comes out with its value.
    pub fn entries(&self, bucket: usize) -> (out: Vec<(u64, V, bool)>) where V: Copy
        requires
            self.wf(),
            bucket < self.table().nbuckets(),
        ensures
            out@.len() == self.table().buckets()[bucket as int].chain().len() - 2,
            forall|i: int|
                0 <= i < out@.len() ==> {
                    let node = self.table().heap().nodes@[self.table().buckets()[bucket as int].chain()[
                        i + 1]];
                    &&& (#[trigger] out@[i]).0 == node.key->0
                    &&& out@[i].1 == self.table().heap().cells@[node.val]
                    &&& out@[i].2 == crate::marked::is_marked(node.next)
                },
            forall|i: int, j: int| 0 <= i < j < out@.len() ==> out@[i].0 < out@[j].0,
            forall|k: u64|
                crate::table::bucket_of(k, self.table().nbuckets()) == bucket && self@.contains_key(
                    k,
                ) ==> exists|i: int|
                    0 <= i < out@.len() && (#[trigger] out@[i]).0 == k && !out@[i].2 && out@[i].1
                        == self@[k],
            forall|i: int|
                0 <= i < out@.len() ==> !(#[trigger] out@[i]).2 && crate::table::bucket_of(
                    out@[i].0,
                    self.table().nbuckets(),
                ) == bucket && self@.contains_key(out@[i].0) && self@[out@[i].0] == out@[i].1,
    {
        self.table.entries(bucket)
    }

    /// A map with `nbuckets` buckets, and its first handle. Fails exactly
    /// when the heap cannot hold the sentinels of that many buckets.
    pub fn with_capacity(nbuckets: usize) -> (result: Result<(SharedMap<V>, MapHandle), AllocError>)
        requires
            nbuckets > 0,
        ensures
            result is Err <==> 2 * nbuckets > max_slots(),
            result is Ok ==> {
                let map = result->Ok_0.0;
                let handle = result->Ok_0.1;
                &&& map.wf()
                &&& handle.wf(&map)
                &&& map@ == Map::<u64, V>::empty()
                &&& map.table().nbuckets() == nbuckets
                &&& map.table().spare_nodes() == max_slots() - 2 * nbuckets
                &&& map.table().spare_cells() == max_slots()
                &&& map.counters() == Seq::<Option<usize>>::empty().push(Some(0usize))
                &&& handle.id() == 0
                &&& handle.completed() == 0
                &&& handle.passes() == 0
                &&& handle.refresh() == 0
                &&& !handle.is_active()
                &&& handle.retired().nodes@.len() == 0
                &&& handle.retired().cells@.len() == 0
            },
    {
        let table = match Table::new(nbuckets) {
            Ok(t) => t,
            Err(e) => {
                return Err(e);
            },
        };
        let mut handles = Registry::new();
        let id = handles.register();
        let handle = MapHandle {
            retired: Retired::new(id),
            refresh: 0,
            active: false,
            completed: Ghost(0),
            passes: Ghost(0),
        };
        let map = SharedMap { table, handles };
        proof {
            map.table.lemma_new_owner(0, &handle.retired);
            assert forall|a: usize| #[trigger] map.stamped(a) by {
                map.table.lemma_owners_below_zero(a);
            }
            assert forall|id: int, x: usize| #[trigger]
                map.table.heap().unlinked_closed_at(map.handles@, id, x) by {
                map.table.lemma_owners_below_zero(x);
            }
            map.table.lemma_owners_below_more(0, 1);
        }
        Ok((map, handle))
    }
}

/// Whatever a handle other than `id` may hold in `before`, being inside an
/// operation, it may still hold in `after`: nothing that it can reach was
/// freed.
pub open spec fn holds_kept<V>(id: usize, before: &SharedMap<V>, after: &SharedMap<V>) -> bool {
    forall|other: MapHandle, a: usize|
        other.id() != id && other.wf(before) && other.may_hold(before, a)
            ==> #[trigger] other.may_hold(after, a)
}

/// What every completed operation of a handle does besides its work on the
/// table: the handle's counter has gone up by two and the operation is
/// counted; no other counter has moved and no other handle is disturbed;
/// and, when this was the last operation before a pass was due, the pass was
/// attempted, which frees all that the handle had retired if no handle is
/// inside an operation. Nothing that a handle inside an operation may hold
/// is ever freed.
pub open spec fn operated<V>(
    before: &MapHandle,
    map_before: &SharedMap<V>,
    after: &MapHandle,
    map_after: &SharedMap<V>,
) -> bool {
    let id = before.id();
    let frees = reclaims(before, map_after);
    &&& map_after.wf()
    &&& after.wf(map_after)
    &&& after.id() == id
    &&& !after.is_active()
    &&& after.completed() == before.completed() + 1
    &&& map_after.counters() == map_before.counters().update(
        id as int,
        Some((2 * before.completed() + 2) as usize),
    )
    &&& advanced(map_before.counters(), map_after.counters())
    &&& map_after.table().nbuckets() == map_before.table().nbuckets()
    &&& after.refresh() == (if before.refresh() + 1 == REFRESH_RATE {
        0
    } else {
        before.refresh() + 1
    })
    &&& after.passes() == before.passes() + (if frees {
        1nat
    } else {
        0nat
    })
    &&& frees ==> after.retired().nodes@.len() == 0 && after.retired().cells@.len() == 0
        && map_after.table().nothing_retired_by(id)
    &&& !frees ==> after.retired().extends(&before.retired()) && map_before.table().heap().moves_on(
        &map_after.table().heap(),
    )
    &&& forall|other: MapHandle|
        other.id() != id && other.wf(map_before) ==> #[trigger] other.wf(map_after)
    &&& holds_kept(id, map_before, map_after)
}

/// The operation that takes a handle from `before` ends with a reclamation
/// pass that succeeds: the pass is due and no handle of `map_after` is inside
/// an operation.
pub open spec fn reclaims<V>(before: &MapHandle, map_after: &SharedMap<V>) -> bool {
    before.refresh() + 1 == REFRESH_RATE && all_quiescent(map_after.counters())
}

/// What one user of a map keeps to itself.
pub struct MapHandle {
    retired: Retired,
    refresh: usize,
    active: bool,
    completed: Ghost<nat>,
    passes: Ghost<nat>,
}

/// A reclamation pass of one handle, from its snapshot to its end.
pub struct Pass {
    scan: Scan,
    owner: usize,
    nodes: usize,
    cells: usize,
    covered_nodes: Ghost<Seq<usize>>,
    covered_cells: Ghost<Seq<usize>>,
    generation: Ghost<nat>,
}

impl Pass {
    /// The counters at the snapshot.
    pub closed spec fn started(&self) -> Seq<Option<usize>> {
        self.scan.started@
    }

    /// Handles below this number have been cleared.
    pub closed spec fn next(&self) -> int {
        self.scan.next as int
    }

    /// The entry of each cleared handle when it was cleared.
    pub closed spec fn seen(&self) -> Seq<Option<usize>> {
        self.scan.seen@
    }

    /// The retired nodes that the snapshot covers: those retired before it.
    pub closed spec fn covered_nodes(&self) -> Seq<usize> {
        self.covered_nodes@
    }

    /// The retired cells that the snapshot covers: those retired before it.
    pub closed spec fn covered_cells(&self) -> Seq<usize> {
        self.covered_cells@
    }

    /// Every handle of the snapshot has been cleared.
    pub closed spec fn complete(&self) -> bool {
        self.scan.complete()
    }

    /// The pass belongs to `handle`, no other pass of the handle has ended
    /// since its snapshot, what it covers still stands at the front of the
    /// handle's buffer and was unlinked before the snapshot, and its snapshot
    /// and its observations lie in the past of `map`.
    pub closed spec fn current<V>(&self, handle: &MapHandle, map: &SharedMap<V>) -> bool {
        &&& self.scan.wf()
        &&& self.owner == handle.retired.owner
        &&& self.generation@ == handle.passes@
        &&& self.nodes == self.covered_nodes@.len()
        &&& self.cells == self.covered_cells@.len()
        &&& self.nodes <= handle.retired.nodes@.len()
        &&& self.cells <= handle.retired.cells@.len()
        &&& handle.retired.nodes@.subrange(0, self.nodes as int) == self.covered_nodes@
        &&& handle.retired.cells@.subrange(0, self.cells as int) == self.covered_cells@
        &&& advanced(self.scan.started@, map.handles@)
        &&& forall|id: int|
            0 <= id < self.scan.next && (#[trigger] self.scan.seen@[id]) is Some
                ==> self.scan.started@[id] is Some && self.scan.started@[id]->0
                <= self.scan.seen@[id]->0
        &&& forall|id: int|
            0 <= id < self.scan.next && (#[trigger] map.handles@[id]) is Some
                ==> self.scan.seen@[id] is Some && self.scan.seen@[id]->0 <= map.handles@[id]->0
        &&& forall|i: int|
            0 <= i < self.nodes ==> advanced(
                map.table.heap().unlinked_at@[#[trigger] self.covered_nodes@[i]],
                self.scan.started@,
            )
    }

    /// A current pass stays current while its handle only retires more, no
    /// counter goes down, and what the pass covers keeps its clock.
    pub proof fn lemma_stays_current<V>(
        &self,
        handle: &MapHandle,
        map: &SharedMap<V>,
        handle2: &MapHandle,
        map2: &SharedMap<V>,
    )
        requires
            self.current(handle, map),
            handle2.id() == handle.id(),
            handle2.passes() == handle.passes(),
            handle2.retired().extends(&handle.retired()),
            advanced(map.counters(), map2.counters()),
            forall|i: int|
                0 <= i < self.covered_nodes().len() ==> map2.table().heap().unlinked_at@[
                    #[trigger] self.covered_nodes()[i]]
                    == map.table().heap().unlinked_at@[self.covered_nodes()[i]],
        ensures
            self.current(handle2, map2),
    {
        assert forall|id: int|
            0 <= id < self.scan.next && (#[trigger] map2.handles@[id])
                is Some implies self.scan.seen@[id] is Some && self.scan.seen@[id]->0
            <= map2.handles@[id]->0 by {
            assert(map.handles@[id] is Some);
        }
        assert forall|i: int| 0 <= i < self.nodes implies advanced(
            map2.table.heap().unlinked_at@[#[trigger] self.covered_nodes@[i]],
            self.scan.started@,
        ) by {
            assert(self.covered_nodes()[i] == self.covered_nodes@[i]);
        }
        assert(handle2.retired.nodes@.subrange(0, self.nodes as int)
            =~= handle.retired.nodes@.subrange(0, self.nodes as int)) by {
            assert(handle2.retired.nodes@.subrange(0, handle.retired.nodes@.len() as int)
                == handle.retired.nodes@);
        }
        assert(handle2.retired.cells@.subrange(0, self.cells as int)
            =~= handle.retired.cells@.subrange(0, self.cells as int)) by {
            assert(handle2.retired.cells@.subrange(0, handle.retired.cells@.len() as int)
                == handle.retired.cells@);
        }
        assert forall|id: int|
            0 <= id < self.scan.started@.len() && (#[trigger] map2.handles@[id])
                is Some implies self.scan.started@[id] is Some && self.scan.started@[id]->0
            <= map2.handles@[id]->0 by {
            assert(map.handles@[id] is Some);
        }
    }

    /// No handle that is inside an operation may hold what a complete pass
    /// covers.
    proof fn lemma_covered_not_held<V>(
        &self,
        handle: &MapHandle,
        map: &SharedMap<V>,
        i: int,
        id: int,
    )
        requires
            self.current(handle, map),
            self.complete(),
            handle.wf(map),
            0 <= i < self.nodes,
        ensures
            !map.table.heap().held_by(map.handles@, id, self.covered_nodes@[i]),
    {
        let heap = map.table.heap();
        let a = self.covered_nodes@[i];
        if heap.held_by(map.handles@, id, a) {
            assert(handle.retired.nodes@.subrange(0, self.nodes as int)[i] == a);
            assert(handle.retired.nodes@[i] == a);
            assert(heap.node_in(NodeState::Unlinked(handle.retired.owner), a));
            let stamp = heap.unlinked_at@[a];
            let started = self.scan.started@;
            let seen = self.scan.seen@;
            let now = map.handles@;
            assert(advanced(stamp, started));
            assert(now[id] is Some);
            assert(started[id] is Some && started[id]->0 <= now[id]->0);
            assert(stamp[id] is Some && stamp[id]->0 <= started[id]->0);
            assert(seen[id] is Some && seen[id]->0 <= now[id]->0);
            assert(started[id]->0 <= seen[id]->0);
            assert(cleared(started[id], seen[id]));
            assert(released(started[id]->0, seen[id]->0));
        }
    }

    /// Every handle that was registered at the snapshot of a complete pass
    /// was closed when the pass came to it, or took an even counter value,
    /// and so was quiescent, at or after the snapshot and no later than the
    /// pass saw it.
    pub proof fn lemma_cleared_after_quiescence<V>(
        &self,
        handle: &MapHandle,
        map: &SharedMap<V>,
        id: int,
    )
        requires
            self.current(handle, map),
            self.complete(),
            0 <= id < self.started().len(),
            self.started()[id] is Some,
        ensures
            self.seen()[id] is None || exists|c: usize|
                self.started()[id]->0 <= c <= self.seen()[id]->0 && #[trigger] (c % 2) == 0,
    {
        let s = self.scan.started@[id]->0;
        if self.scan.seen@[id] is Some {
            let o = self.scan.seen@[id]->0;
            assert(cleared(self.scan.started@[id], self.scan.seen@[id]));
            assert(released(s, o));
            if s % 2 == 0 {
                assert(s % 2 == 0);
            } else {
                let c = (s + 1) as usize;
                assert(c % 2 == 0);
            }
        }
    }
}

impl MapHandle {
    /// The number of the handle's counter, which is also the owner of its
    /// retired memory.
    pub closed spec fn id(&self) -> usize {
        self.retired.owner
    }

    /// How many operations the handle has completed.
    pub closed spec fn completed(&self) -> nat {
        self.completed@
    }

    /// How many reclamation passes of the handle have ended.
    pub closed spec fn passes(&self) -> nat {
        self.passes@
    }

    /// The handle is inside an operation.
    pub closed spec fn is_active(&self) -> bool {
        self.active
    }

    /// How many operations the handle has completed since its last pass was
    /// due.
    pub closed spec fn refresh(&self) -> usize {
        self.refresh
    }

    /// The handle's buffer of retired memory.
    pub closed spec fn retired(&self) -> Retired {
        self.retired
    }

    /// The handle is inside an operation in which it may have come to hold
    /// the node at `a`: the node is allocated, and it is linked, or it was
    /// unlinked by an operation that began while the handle was inside this
    /// one.
    pub closed spec fn may_hold<V>(&self, map: &SharedMap<V>, a: usize) -> bool {
        self.active && map.table.heap().held_by(map.handles@, self.retired.owner as int, a)
    }

    /// A handle inside an operation may hold every linked node.
    pub proof fn lemma_may_hold_linked<V>(&self, map: &SharedMap<V>, a: usize)
        requires
            self.wf(map),
            self.is_active(),
            map.table().heap().nodes@.contains_key(a),
            map.table().heap().node_state@[a] is Linked,
        ensures
            self.may_hold(map, a),
    {
    }

    /// What a handle may hold is allocated, and the handle is inside an
    /// operation.
    pub proof fn lemma_held_allocated<V>(&self, map: &SharedMap<V>, a: usize)
        requires
            self.may_hold(map, a),
        ensures
            self.is_active(),
            map.table().heap().nodes@.contains_key(a),
    {
    }

    /// What a handle may hold is closed under links: if it may hold a node
    /// that links on, it may hold the node linked to. So a walk that starts
    /// at a head sentinel and follows links stays on nodes that the handle may
    /// hold, none of which is freed while the handle is inside its
    /// operation.
    pub proof fn lemma_holds_successor<V>(&self, map: &SharedMap<V>, a: usize)
        requires
            map.wf(),
            self.wf(map),
            self.may_hold(map, a),
            map.table().heap().nodes@[a].next != 0,
        ensures
            self.may_hold(map, map.table().heap().successor(a)),
    {
        let heap = map.table.heap();
        let id = self.retired.owner as int;
        if heap.node_state@[a] is Unlinked {
            assert(heap.unlinked_closed_at(map.handles@, id, a));
        } else {
            map.table.lemma_linked_successor(a);
        }
    }

    /// What a handle may hold it may still hold when only counters of other
    /// handles have moved.
    proof fn lemma_held_counters_moved<V>(
        &self,
        before: &SharedMap<V>,
        after: &SharedMap<V>,
        a: usize,
    )
        requires
            self.wf(before),
            self.may_hold(before, a),
            after.table == before.table,
            before.handles@.len() <= after.handles@.len(),
            after.handles@[self.retired.owner as int] == before.handles@[self.retired.owner as int],
        ensures
            self.may_hold(after, a),
    {
    }

    /// What a handle may hold it may still hold when the table has moved on
    /// under the clock of an operation that began while the handle was
    /// inside its own.
    proof fn lemma_held_table_moved<V>(
        &self,
        before: &SharedMap<V>,
        after: &SharedMap<V>,
        a: usize,
    )
        requires
            self.wf(before),
            self.may_hold(before, a),
            after.handles == before.handles,
            before.table.heap().moves_on(&after.table.heap()),
            before.table.heap().stamps_follow(&after.table.heap(), before.handles@),
        ensures
            self.may_hold(after, a),
    {
        before.table.heap().lemma_held_moves_on(
            &after.table.heap(),
            before.handles@,
            self.retired.owner as int,
            a,
        );
    }

    /// The handle is registered with `map`, its counter is twice the number
    /// of its completed operations, and one more while it is inside an
    /// operation, and its buffer is well formed.
    pub closed spec fn wf<V>(&self, map: &SharedMap<V>) -> bool {
        &&& self.retired.owner < map.handles@.len()
        &&& 2 * self.completed@ + 1 <= usize::MAX
        &&& map.handles@[self.retired.owner as int] == Some(
            (2 * self.completed@ + (if self.active {
                1nat
            } else {
                0nat
            })) as usize,
        )
        &&& self.retired.wf(&map.table.heap())
        &&& self.refresh < REFRESH_RATE
    }

    /// The counter of a well-formed handle is twice the number of its
    /// completed operations whenever the handle is quiescent.
    pub proof fn lemma_counter_envelope<V>(&self, map: &SharedMap<V>)
        requires
            self.wf(map),
            !self.is_active(),
        ensures
            self.id() < map.counters().len(),
            map.counters()[self.id() as int] == Some((2 * self.completed()) as usize),
            2 * self.completed() <= usize::MAX,
    {
    }

    /// The number of the handle's counter.
    pub fn number(&self) -> (id: usize)
        ensures
            id == self.id(),
    {
        self.retired.owner
    }

    /// The handle's counter.
    pub fn epoch<V>(&self, map: &SharedMap<V>) -> (counter: usize)
        requires
            self.wf(map),
        ensures
            counter == 2 * self.completed() + (if self.is_active() {
                1nat
            } else {
                0nat
            }),
            Some(counter) == map.counters()[self.id() as int],
    {
        map.handles.load(self.retired.owner).unwrap()
    }

    /// The numbers of retired nodes and retired cells that wait in the
    /// handle's buffer.
    pub fn retired_len(&self) -> (lens: (usize, usize))
        ensures
            lens.0 == self.retired().nodes@.len(),
            lens.1 == self.retired().cells@.len(),
    {
        (self.retired.nodes.len(), self.retired.cells.len())
    }

    /// The number of entries of the map.
    pub fn len<V>(&self, map: &SharedMap<V>) -> (n: usize)
        requires
            map.wf(),
        ensures
            n == map.len_spec(),
    {
        map.table.len()
    }

    /// Whether the map has no entry.
    pub fn is_empty<V>(&self, map: &SharedMap<V>) -> (empty: bool)
        requires
            map.wf(),
        ensures
            empty == (map.len_spec() == 0),
    {
        map.table.len() == 0
    }

    /// Announces that the handle goes into an operation: its counter becomes
    /// odd.
    pub fn enter<V>(&mut self, map: &mut SharedMap<V>)
        requires
            old(map).wf(),
            old(self).wf(old(map)),
            !old(self).is_active(),
        ensures
            final(map).wf(),
            final(self).wf(final(map)),
            final(self).is_active(),
            final(self).id() == old(self).id(),
            final(self).completed() == old(self).completed(),
            final(self).passes() == old(self).passes(),
            final(self).refresh() == old(self).refresh(),
            final(self).retired().nodes@ == old(self).retired().nodes@,
            final(self).retired().cells@ == old(self).retired().cells@,
            final(self).retired().clock@ == final(map).counters(),
            final(map)@ == old(map)@,
            final(map).table() == old(map).table(),
            final(map).counters() == old(map).counters().update(
                old(self).id() as int,
                Some((2 * old(self).completed() + 1) as usize),
            ),
            advanced(old(map).counters(), final(map).counters()),
            forall|other: MapHandle|
                other.id() != old(self).id() && other.wf(old(map)) ==> #[trigger] other.wf(
                    final(map),
                ),
            holds_kept(old(self).id(), old(map), final(map)),
    {
        map.handles.fetch_add(self.retired.owner);
        self.active = true;
        self.retired.clock = Ghost(map.handles@);
        proof {
            map.lemma_counters_moved(old(map));
            assert forall|other: MapHandle, a: usize|
                other.id() != old(self).id() && other.wf(old(map)) && other.may_hold(
                    old(map),
                    a,
                ) implies #[trigger] other.may_hold(map, a) by {
                other.lemma_held_counters_moved(old(map), map, a);
            }
        }
    }

    /// Announces that the handle has left its operation: its counter becomes
    /// even again, and the operation counts as completed.
    pub fn exit<V>(&mut self, map: &mut SharedMap<V>)
        requires
            old(map).wf(),
            old(self).wf(old(map)),
            old(self).is_active(),
            2 * old(self).completed() + 2 <= usize::MAX,
        ensures
            final(map).wf(),
            final(self).wf(final(map)),
            !final(self).is_active(),
            final(self).id() == old(self).id(),
            final(self).completed() == old(self).completed() + 1,
            final(self).passes() == old(self).passes(),
            final(self).refresh() == old(self).refresh(),
            final(self).retired().nodes@ == old(self).retired().nodes@ && final(self).retired().cells@ == old(self).retired().cells@,
            final(map)@ == old(map)@,
            final(map).table() == old(map).table(),
            final(map).counters() == old(map).counters().update(
                old(self).id() as int,
                Some((2 * old(self).completed() + 2) as usize),
            ),
            advanced(old(map).counters(), final(map).counters()),
            forall|other: MapHandle|
                other.id() != old(self).id() && other.wf(old(map)) ==> #[trigger] other.wf(
                    final(map),
                ),
            holds_kept(old(self).id(), old(map), final(map)),
    {
        map.handles.fetch_add(self.retired.owner);
        self.active = false;
        self.completed = Ghost(self.completed@ + 1);
        proof {
            map.lemma_counters_moved(old(map));
            assert forall|other: MapHandle, a: usize|
                other.id() != old(self).id() && other.wf(old(map)) && other.may_hold(
                    old(map),
                    a,
                ) implies #[trigger] other.may_hold(map, a) by {
                other.lemma_held_counters_moved(old(map), map, a);
            }
        }
    }

    /// Starts a reclamation pass: takes the snapshot of all counters. The
    /// pass covers what is in the handle's buffer now.
    pub fn begin_pass<V>(&self, map: &SharedMap<V>) -> (pass: Pass)
        requires
            map.wf(),
            self.wf(map),
        ensures
            pass.current(self, map),
            pass.started() == map.counters(),
            pass.next() == 0,
            pass.covered_nodes() == self.retired().nodes@,
            pass.covered_cells() == self.retired().cells@,
    {
        let scan = Scan::begin(&map.handles);
        let pass = Pass {
            scan,
            owner: self.retired.owner,
            nodes: self.retired.nodes.len(),
            cells: self.retired.cells.len(),
            covered_nodes: Ghost(self.retired.nodes@),
            covered_cells: Ghost(self.retired.cells@),
            generation: Ghost(self.passes@),
        };
        proof {
            assert(self.retired.nodes@.subrange(0, self.retired.nodes@.len() as int)
                =~= self.retired.nodes@);
            assert(self.retired.cells@.subrange(0, self.retired.cells@.len() as int)
                =~= self.retired.cells@);
            assert forall|i: int| 0 <= i < pass.nodes implies advanced(
                map.table.heap().unlinked_at@[#[trigger] pass.covered_nodes@[i]],
                pass.scan.started@,
            ) by {
                let a = self.retired.nodes@[i];
                assert(map.table.heap().node_in(NodeState::Unlinked(self.retired.owner), a));
                assert(map.stamped(a));
            }
        }
        pass
    }

    /// Takes a pass on through the handles for as long as each one clears
    /// against the counters as they are now. Returns the number of the
    /// handle that the pass has to wait for, or nothing when the pass is
    /// complete.
    pub fn poll_pass<V>(&self, map: &SharedMap<V>, pass: &mut Pass) -> (waiting: Option<usize>)
        requires
            old(pass).current(self, map),
        ensures
            final(pass).current(self, map),
            final(pass).started() == old(pass).started(),
            final(pass).covered_nodes() == old(pass).covered_nodes(),
            final(pass).covered_cells() == old(pass).covered_cells(),
            old(pass).next() <= final(pass).next(),
            forall|id: int|
                0 <= id < old(pass).next() ==> final(pass).seen()[id] == old(pass).seen()[id],
            forall|id: int|
                old(pass).next() <= id < final(pass).next() ==> #[trigger] final(pass).seen()[id]
                    == map.counters()[id],
            waiting is None <==> final(pass).complete(),
            waiting is Some ==> waiting->0 == final(pass).next() && !cleared(
                final(pass).started()[waiting->0 as int],
                map.counters()[waiting->0 as int],
            ),
    {
        let waiting = pass.scan.poll(&map.handles);
        proof {
            assert forall|id: int|
                0 <= id < pass.scan.next && (#[trigger] map.handles@[id])
                    is Some implies pass.scan.seen@[id] is Some && pass.scan.seen@[id]->0
                <= map.handles@[id]->0 by {
                if id >= old(pass).scan.next {
                    assert(pass.scan.seen@[id] == map.handles@[id]);
                } else {
                    assert(pass.scan.seen@[id] == old(pass).scan.seen@[id]);
                }
            }
            assert forall|id: int|
                0 <= id < pass.scan.next && (#[trigger] pass.scan.seen@[id])
                    is Some implies pass.scan.started@[id] is Some && pass.scan.started@[id]->0
                <= pass.scan.seen@[id]->0 by {
                if id >= old(pass).scan.next {
                    assert(pass.scan.seen@[id] == map.handles@[id]);
                } else {
                    assert(pass.scan.seen@[id] == old(pass).scan.seen@[id]);
                }
            }
        }
        waiting
    }

    /// Ends a complete pass: frees what the pass covers, which is what the
    /// handle had retired before the snapshot, and nothing else.
    pub fn finish_pass<V>(&mut self, map: &mut SharedMap<V>, pass: Pass)
        requires
            old(map).wf(),
            old(self).wf(old(map)),
            pass.current(old(self), old(map)),
            pass.complete(),
        ensures
            final(map).wf(),
            final(self).wf(final(map)),
            final(self).id() == old(self).id(),
            final(self).completed() == old(self).completed(),
            final(self).is_active() == old(self).is_active(),
            final(self).refresh() == old(self).refresh(),
            final(self).passes() == old(self).passes() + 1,
            final(self).retired().owner == old(self).retired().owner,
            final(self).retired().nodes@ == old(self).retired().nodes@.subrange(
                pass.covered_nodes().len() as int,
                old(self).retired().nodes@.len() as int,
            ),
            final(self).retired().cells@ == old(self).retired().cells@.subrange(
                pass.covered_cells().len() as int,
                old(self).retired().cells@.len() as int,
            ),
            forall|i: int|
                0 <= i < pass.covered_nodes().len() ==> !final(map).table().heap().nodes@.contains_key(#[trigger] pass.covered_nodes()[i]),
            forall|i: int|
                0 <= i < pass.covered_cells().len() ==> !final(map).table().heap().cells@.contains_key(#[trigger] pass.covered_cells()[i]),
            final(map)@ == old(map)@,
            final(map).counters() == old(map).counters(),
            final(map).table().nbuckets() == old(map).table().nbuckets(),
            final(map).table().spare_nodes() == old(map).table().spare_nodes()
                + pass.covered_nodes().len(),
            final(map).table().spare_cells() == old(map).table().spare_cells()
                + pass.covered_nodes().len() + pass.covered_cells().len(),
            pass.covered_nodes() == old(self).retired().nodes@ && pass.covered_cells() == old(self).retired().cells@ ==> final(map).table().nothing_retired_by(old(self).id()),
            holds_kept(old(self).id(), old(map), final(map)),
            forall|other: MapHandle|
                other.id() != old(self).id() && other.wf(old(map)) ==> #[trigger] other.wf(
                    final(map),
                ),
    {
        proof {
            assert forall|i: int| 0 <= i < pass.nodes implies old(self).retired.nodes@[i]
                == #[trigger] pass.covered_nodes@[i] by {
                assert(old(self).retired.nodes@.subrange(0, pass.nodes as int)[i] == old(self).retired.nodes@[i]);
            }
            assert forall|i: int| 0 <= i < pass.cells implies old(self).retired.cells@[i]
                == #[trigger] pass.covered_cells@[i] by {
                assert(old(self).retired.cells@.subrange(0, pass.cells as int)[i] == old(self).retired.cells@[i]);
            }
        }
        map.table.reclaim(&mut self.retired, pass.nodes, pass.cells);
        self.passes = Ghost(self.passes@ + 1);
        proof {
            assert forall|a: usize| #[trigger] map.stamped(a) by {
                if map.table.heap().nodes@.contains_key(a) {
                    assert(old(map).table.heap().node_kept(&map.table.heap(), a));
                    assert(old(map).stamped(a));
                }
            }
            assert forall|other: MapHandle, a: usize|
                other.id() != old(self).id() && other.wf(old(map)) && other.may_hold(
                    old(map),
                    a,
                ) implies #[trigger] other.may_hold(map, a) by {
                let heap0 = old(map).table.heap();
                let heap1 = map.table.heap();
                let oid = other.retired.owner as int;
                if heap1.nodes@.contains_key(a) {
                    assert(heap0.node_kept(&heap1, a));
                } else {
                    let covered = old(self).retired.nodes@.subrange(0, pass.nodes as int);
                    assert(covered.contains(a));
                    let i = choose|i: int| 0 <= i < covered.len() && covered[i] == a;
                    assert(pass.covered_nodes@[i] == a);
                    pass.lemma_covered_not_held(old(self), old(map), i, oid);
                }
            }
            let heap0 = old(map).table.heap();
            let heap1 = map.table.heap();
            let now = map.handles@;
            assert forall|id: int, x: usize| #[trigger] heap1.unlinked_closed_at(now, id, x) by {
                if heap1.held_by(now, id, x) && heap1.node_state@[x] is Unlinked {
                    assert(heap0.node_kept(&heap1, x));
                    assert(heap0.held_by(now, id, x));
                    assert(heap0.unlinked_closed_at(now, id, x));
                    let y = heap0.successor(x);
                    assert(heap1.successor(x) == y);
                    if heap1.nodes@.contains_key(y) {
                        assert(heap0.node_kept(&heap1, y));
                    } else {
                        let covered = old(self).retired.nodes@.subrange(0, pass.nodes as int);
                        assert(covered.contains(y));
                        let i = choose|i: int| 0 <= i < covered.len() && covered[i] == y;
                        assert(pass.covered_nodes@[i] == y);
                        pass.lemma_covered_not_held(old(self), old(map), i, id);
                    }
                }
            }
            assert forall|other: MapHandle|
                other.id() != old(self).id() && other.wf(old(map)) implies #[trigger] other.wf(
                map,
            ) by {
                assert(other.retired.wf(&map.table.heap()));
            }
        }
    }

    /// Makes one attempt at a whole reclamation pass, without waiting. The
    /// attempt succeeds, and frees all that the handle has retired, exactly
    /// when no registered handle is inside an operation; otherwise nothing
    /// changes.
    pub fn cleanup<V>(&mut self, map: &mut SharedMap<V>) -> (done: bool)
        requires
            old(map).wf(),
            old(self).wf(old(map)),
        ensures
            final(map).wf(),
            final(self).wf(final(map)),
            done == all_quiescent(old(map).counters()),
            !done ==> *final(self) == *old(self) && *final(map) == *old(map),
            holds_kept(old(self).id(), old(map), final(map)),
            final(self).id() == old(self).id(),
            final(self).completed() == old(self).completed(),
            final(self).is_active() == old(self).is_active(),
            final(self).refresh() == old(self).refresh(),
            final(map)@ == old(map)@,
            final(map).counters() == old(map).counters(),
            final(map).table().nbuckets() == old(map).table().nbuckets(),
            forall|other: MapHandle|
                other.id() != old(self).id() && other.wf(old(map)) ==> #[trigger] other.wf(
                    final(map),
                ),
            done ==> {
                &&& final(self).passes() == old(self).passes() + 1
                &&& final(self).retired().nodes@.len() == 0
                &&& final(self).retired().cells@.len() == 0
                &&& final(map).table().nothing_retired_by(old(self).id())
                &&& final(map).table().spare_nodes() == old(map).table().spare_nodes() + old(self).retired().nodes@.len()
                &&& final(map).table().spare_cells() == old(map).table().spare_cells() + old(self).retired().nodes@.len() + old(self).retired().cells@.len()
                &&& forall|i: int|
                    0 <= i < old(self).retired().nodes@.len() ==> !final(map).table().heap().nodes@.contains_key(#[trigger] old(self).retired().nodes@[i])
                &&& forall|i: int|
                    0 <= i < old(self).retired().cells@.len() ==> !final(map).table().heap().cells@.contains_key(#[trigger] old(self).retired().cells@[i])
            },
    {
        let mut pass = self.begin_pass(map);
        let waiting = self.poll_pass(map, &mut pass);
        proof {
            let counters = map.handles@;
            if waiting is None {
                assert forall|id: int|
                    0 <= id < counters.len() && counters[id] is Some implies (
                #[trigger] counters[id])->0 % 2 == 0 by {
                    assert(pass.seen()[id] == map.counters()[id]);
                    assert(cleared(pass.scan.started@[id], pass.scan.seen@[id]));
                }
            } else {
                let w = waiting->0 as int;
                assert(counters[w] is Some && counters[w]->0 % 2 != 0);
            }
        }
        match waiting {
            Some(_) => false,
            None => {
                self.finish_pass(map, pass);
                true
            },
        }
    }

    /// Counts one operation and, when a pass is due, attempts it.
    fn tick<V>(&mut self, map: &mut SharedMap<V>)
        requires
            old(map).wf(),
            old(self).wf(old(map)),
        ensures
            final(map).wf(),
            final(self).wf(final(map)),
            final(self).id() == old(self).id(),
            final(self).completed() == old(self).completed(),
            final(self).is_active() == old(self).is_active(),
            final(self).refresh() == (if old(self).refresh() + 1 == REFRESH_RATE {
                0
            } else {
                old(self).refresh() + 1
            }),
            final(map)@ == old(map)@,
            final(map).counters() == old(map).counters(),
            final(map).table().nbuckets() == old(map).table().nbuckets(),
            forall|other: MapHandle|
                other.id() != old(self).id() && other.wf(old(map)) ==> #[trigger] other.wf(
                    final(map),
                ),
            holds_kept(old(self).id(), old(map), final(map)),
            !reclaims(old(self), old(map)) ==> {
                &&& *final(map) == *old(map)
                &&& final(self).retired().nodes@ == old(self).retired().nodes@ && final(self).retired().cells@ == old(self).retired().cells@
                &&& final(self).passes() == old(self).passes()
            },
            reclaims(old(self), old(map)) ==> {
                &&& final(self).passes() == old(self).passes() + 1
                &&& final(self).retired().nodes@.len() == 0
                &&& final(self).retired().cells@.len() == 0
                &&& final(map).table().nothing_retired_by(old(self).id())
                &&& final(map).table().spare_nodes() == old(map).table().spare_nodes() + old(self).retired().nodes@.len()
                &&& final(map).table().spare_cells() == old(map).table().spare_cells() + old(self).retired().nodes@.len() + old(self).retired().cells@.len()
            },
    {
        self.refresh = self.refresh + 1;
        if self.refresh == REFRESH_RATE {
            self.refresh = 0;
            let _ = self.cleanup(map);
        }
    }

    /// Maps `key` to `value` and returns the value that the key had before.
    /// Fails exactly when no value cell is spare, or the key is absent and no
    /// node is spare; the contents are then as they were.
    pub fn insert<V: Copy>(&mut self, map: &mut SharedMap<V>, key: u64, value: V) -> (result:
        Result<Option<V>, AllocError>)
        requires
            old(map).wf(),
            old(self).wf(old(map)),
            !old(self).is_active(),
            2 * old(self).completed() + 2 <= usize::MAX,
        ensures
            operated(old(self), old(map), final(self), final(map)),
            ({
                let before = old(map)@;
                let present = before.contains_key(key);
                &&& result is Err <==> old(map).table().spare_cells() == 0 || (!present && old(map).table().spare_nodes() == 0)
                &&& result is Err ==> final(map)@ == before
                &&& result is Ok ==> {
                    &&& final(map)@ == apply(before, Operation::Insert(key, value))
                    &&& result->Ok_0 == answer(before, Operation::Insert(key, value))
                }
                &&& !reclaims(old(self), final(map)) ==> {
                    &&& final(map).table().spare_cells() == old(map).table().spare_cells() - (
                    if result is Ok {
                        1int
                    } else {
                        0int
                    })
                    &&& final(map).table().spare_nodes() == old(map).table().spare_nodes() - (
                    if result is Ok && !present {
                        1int
                    } else {
                        0int
                    })
                    &&& final(self).retired().cells@.len() == old(self).retired().cells@.len() + (
                    if result is Ok && present {
                        1int
                    } else {
                        0int
                    })
                    &&& final(self).retired().nodes@ == old(self).retired().nodes@
                }
            }),
    {
        self.enter(map);
        let ghost map1 = *map;
        let result = map.table.insert(key, value, &mut self.retired);
        let ghost map2 = *map;
        let ghost handle2 = *self;
        proof {
            map.lemma_table_moved(&map1, map1.handles@);
            assert forall|other: MapHandle|
                other.id() != old(self).id() && other.wf(old(map)) implies #[trigger] other.wf(
                &map2,
            ) by {
                assert(other.wf(&map1));
                assert(other.retired.wf(&map2.table.heap()));
            }
        }
        self.exit(map);
        let ghost map3 = *map;
        let ghost handle3 = *self;
        self.tick(map);
        proof {
            assert forall|other: MapHandle|
                other.id() != old(self).id() && other.wf(old(map)) implies #[trigger] other.wf(
                map,
            ) by {
                assert(other.wf(&map2));
                assert(other.wf(&map3));
            }
            assert forall|other: MapHandle, a: usize|
                other.id() != old(self).id() && other.wf(old(map)) && other.may_hold(
                    old(map),
                    a,
                ) implies #[trigger] other.may_hold(map, a) by {
                assert(other.wf(&map1));
                assert(other.may_hold(&map1, a));
                other.lemma_held_table_moved(&map1, &map2, a);
                assert(other.wf(&map2));
                assert(other.may_hold(&map3, a));
                assert(other.wf(&map3));
            }
            assert(reclaims(&handle3, &map3) == reclaims(old(self), map));
            assert(map.counters() =~= old(map).counters().update(
                old(self).id() as int,
                Some((2 * old(self).completed() + 2) as usize),
            ));
            if !reclaims(old(self), map) {
                assert(self.retired.nodes@ == handle2.retired.nodes@);
                assert(self.retired.cells@ == handle2.retired.cells@);
            }
        }
        result
    }

    /// Looks `key` up.
    pub fn get<V: Copy>(&mut self, map: &mut SharedMap<V>, key: &u64) -> (value: Option<V>)
        requires
            old(map).wf(),
            old(self).wf(old(map)),
            !old(self).is_active(),
            2 * old(self).completed() + 2 <= usize::MAX,
        ensures
            operated(old(self), old(map), final(self), final(map)),
            final(map)@ == apply(old(map)@, Operation::<V>::Get(*key)),
            value == answer(old(map)@, Operation::<V>::Get(*key)),
            !reclaims(old(self), final(map)) ==> {
                &&& final(map).table().heap() == old(map).table().heap()
                &&& final(map).table().buckets() == old(map).table().buckets()
                &&& final(self).retired().nodes@ == old(self).retired().nodes@ && final(self).retired().cells@ == old(self).retired().cells@
            },
    {
        self.enter(map);
        let ghost map1 = *map;
        let value = map.table.get(*key, &mut self.retired);
        let ghost map2 = *map;
        let ghost handle2 = *self;
        proof {
            map.lemma_table_moved(&map1, map1.handles@);
            assert forall|other: MapHandle|
                other.id() != old(self).id() && other.wf(old(map)) implies #[trigger] other.wf(
                &map2,
            ) by {
                assert(other.wf(&map1));
                assert(other.retired.wf(&map2.table.heap()));
            }
        }
        self.exit(map);
        let ghost map3 = *map;
        let ghost handle3 = *self;
        self.tick(map);
        proof {
            assert forall|other: MapHandle|
                other.id() != old(self).id() && other.wf(old(map)) implies #[trigger] other.wf(
                map,
            ) by {
                assert(other.wf(&map2));
                assert(other.wf(&map3));
            }
            assert forall|other: MapHandle, a: usize|
                other.id() != old(self).id() && other.wf(old(map)) && other.may_hold(
                    old(map),
                    a,
                ) implies #[trigger] other.may_hold(map, a) by {
                assert(other.wf(&map1));
                assert(other.may_hold(&map1, a));
                other.lemma_held_table_moved(&map1, &map2, a);
                assert(other.wf(&map2));
                assert(other.may_hold(&map3, a));
                assert(other.wf(&map3));
            }
            assert(reclaims(&handle3, &map3) == reclaims(old(self), map));
            assert(map.counters() =~= old(map).counters().update(
                old(self).id() as int,
                Some((2 * old(self).completed() + 2) as usize),
            ));
            if !reclaims(old(self), map) {
                assert(self.retired.nodes@ == handle2.retired.nodes@);
                assert(self.retired.cells@ == handle2.retired.cells@);
            }
        }
        value
    }

    /// Removes `key` and returns the value that it had.
    pub fn remove<V: Copy>(&mut self, map: &mut SharedMap<V>, key: &u64) -> (value: Option<V>)
        requires
            old(map).wf(),
            old(self).wf(old(map)),
            !old(self).is_active(),
            2 * old(self).completed() + 2 <= usize::MAX,
        ensures
            operated(old(self), old(map), final(self), final(map)),
            final(map)@ == apply(old(map)@, Operation::<V>::Remove(*key)),
            value == answer(old(map)@, Operation::<V>::Remove(*key)),
            !reclaims(old(self), final(map)) ==> {
                &&& final(map).table().spare_cells() == old(map).table().spare_cells()
                &&& final(map).table().spare_nodes() == old(map).table().spare_nodes()
                &&& final(self).retired().cells@ == old(self).retired().cells@
                &&& final(self).retired().nodes@.len() == old(self).retired().nodes@.len() + (
                if value is Some {
                    1int
                } else {
                    0int
                })
            },
    {
        self.enter(map);
        let ghost map1 = *map;
        let value = map.table.delete(*key, &mut self.retired);
        let ghost map2 = *map;
        let ghost handle2 = *self;
        proof {
            map.lemma_table_moved(&map1, map1.handles@);
            assert forall|other: MapHandle|
                other.id() != old(self).id() && other.wf(old(map)) implies #[trigger] other.wf(
                &map2,
            ) by {
                assert(other.wf(&map1));
                assert(other.retired.wf(&map2.table.heap()));
            }
        }
        self.exit(map);
        let ghost map3 = *map;
        let ghost handle3 = *self;
        self.tick(map);
        proof {
            assert forall|other: MapHandle|
                other.id() != old(self).id() && other.wf(old(map)) implies #[trigger] other.wf(
                map,
            ) by {
                assert(other.wf(&map2));
                assert(other.wf(&map3));
            }
            assert forall|other: MapHandle, a: usize|
                other.id() != old(self).id() && other.wf(old(map)) && other.may_hold(
                    old(map),
                    a,
                ) implies #[trigger] other.may_hold(map, a) by {
                assert(other.wf(&map1));
                assert(other.may_hold(&map1, a));
                other.lemma_held_table_moved(&map1, &map2, a);
                assert(other.wf(&map2));
                assert(other.may_hold(&map3, a));
                assert(other.wf(&map3));
            }
            assert(reclaims(&handle3, &map3) == reclaims(old(self), map));
            assert(map.counters() =~= old(map).counters().update(
                old(self).id() as int,
                Some((2 * old(self).completed() + 2) as usize),
            ));
            if !reclaims(old(self), map) {
                assert(self.retired.nodes@ == handle2.retired.nodes@);
                assert(self.retired.cells@ == handle2.retired.cells@);
            }
        }
        value
    }

    /// Another handle to the same map: a new counter, at zero, is registered
    /// for it, and its buffer is empty.
    pub fn clone<V>(&self, map: &mut SharedMap<V>) -> (handle: MapHandle)
        requires
            old(map).wf(),
            self.wf(old(map)),
        ensures
            final(map).wf(),
            handle.wf(final(map)),
            handle.id() == old(map).counters().len(),
            handle.id() != self.id(),
            handle.completed() == 0,
            handle.passes() == 0,
            handle.refresh() == 0,
            !handle.is_active(),
            handle.retired().nodes@.len() == 0,
            handle.retired().cells@.len() == 0,
            final(map)@ == old(map)@,
            final(map).table() == old(map).table(),
            final(map).counters() == old(map).counters().push(Some(0usize)),
            advanced(old(map).counters(), final(map).counters()),
            forall|other: MapHandle| other.wf(old(map)) ==> #[trigger] other.wf(final(map)),
            holds_kept(handle.id(), old(map), final(map)),
    {
        let id = map.handles.register();
        let handle = MapHandle {
            retired: Retired::new(id),
            refresh: 0,
            active: false,
            completed: Ghost(0),
            passes: Ghost(0),
        };
        proof {
            map.table.lemma_new_owner(id as nat, &handle.retired);
            map.lemma_counters_moved(old(map));
            assert forall|other: MapHandle, a: usize|
                other.id() != handle.id() && other.wf(old(map)) && other.may_hold(
                    old(map),
                    a,
                ) implies #[trigger] other.may_hold(map, a) by {
                other.lemma_held_counters_moved(old(map), map, a);
            }
        }
        handle
    }

    /// Gives the handle up: makes a last attempt at a reclamation pass and,
    /// if that frees the handle's buffer, takes the handle's counter out of
    /// the registry. While another handle is inside an operation the handle
    /// comes back unchanged.
    pub fn close<V>(self, map: &mut SharedMap<V>) -> (back: Option<MapHandle>)
        requires
            old(map).wf(),
            self.wf(old(map)),
            !self.is_active(),
        ensures
            final(map).wf(),
            back is None <==> all_quiescent(old(map).counters()),
            back is Some ==> back->0 == self && *final(map) == *old(map),
            back is None ==> {
                &&& final(map)@ == old(map)@
                &&& final(map).table().nothing_retired_by(self.id())
                &&& final(map).counters() == old(map).counters().update(self.id() as int, None)
                &&& final(map).table().spare_nodes() == old(map).table().spare_nodes()
                    + self.retired().nodes@.len()
                &&& final(map).table().spare_cells() == old(map).table().spare_cells()
                    + self.retired().nodes@.len() + self.retired().cells@.len()
            },
            advanced(old(map).counters(), final(map).counters()),
            forall|other: MapHandle|
                other.id() != self.id() && other.wf(old(map)) ==> #[trigger] other.wf(final(map)),
            holds_kept(self.id(), old(map), final(map)),
    {
        let mut handle = self;
        if handle.cleanup(map) {
            let ghost map1 = *map;
            map.handles.unregister(handle.retired.owner);
            proof {
                map.lemma_counters_moved(&map1);
                assert forall|other: MapHandle, a: usize|
                    other.id() != self.id() && other.wf(old(map)) && other.may_hold(
                        old(map),
                        a,
                    ) implies #[trigger] other.may_hold(map, a) by {
                    assert(other.wf(&map1));
                    assert(other.may_hold(&map1, a));
                    other.lemma_held_counters_moved(&map1, map, a);
                }
                assert forall|other: MapHandle|
                    other.id() != self.id() && other.wf(old(map)) implies #[trigger] other.wf(
                    map,
                ) by {
                    assert(other.wf(&map1));
                }
            }
            None
        } else {
            Some(handle)
        }
    }
}

} // verus!
