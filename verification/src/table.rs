//! The bucket table: a fixed number of lists over one heap, a stable hash that
//! sends each key to one of them, and the count of entries.

use crate::arena::{max_slots, AllocError};
use crate::chain::sorted_between_sentinels;
use crate::heap::{Heap, NodeState};
use crate::linked_list::LinkedList;
use crate::retired::Retired;
use std::collections::hash_map::DefaultHasher;
use std::hash::Hasher;
use vstd::bytes::{spec_u64_to_le_bytes, u64_to_le_bytes};
use vstd::prelude::*;
use vstd::std_specs::hash::DefaultHasherAdditionalSpecFns;

verus! {

/// The hash of a key: what the default hasher makes of the key's eight bytes,
/// least significant first.
pub open spec fn spec_hash(key: u64) -> u64 {
    DefaultHasher::spec_finish(seq![spec_u64_to_le_bytes(key)])
}

/// The bucket that a key belongs to among `nbuckets`.
pub open spec fn bucket_of(key: u64, nbuckets: usize) -> int {
    ((spec_hash(key) as usize) % nbuckets) as int
}

/// What a counter that wraps round shows after `n` steps up from zero.
pub open spec fn counted(n: nat) -> usize {
    (n % (usize::MAX as nat + 1)) as usize
}

/// Counting one more moves the counter one up, round to zero from the top.
pub proof fn lemma_counted_up(n: nat)
    ensures
        counted(n + 1) == (if counted(n) == usize::MAX {
            0usize
        } else {
            (counted(n) + 1) as usize
        }),
{
    let m = usize::MAX as nat + 1;
    assert((n + 1) % m == (if n % m == m - 1 {
        0
    } else {
        n % m + 1
    })) by (nonlinear_arith)
        requires
            m > 0,
    ;
}

/// Counting one less moves the counter one down, round to the top from zero.
pub proof fn lemma_counted_down(n: nat)
    requires
        n > 0,
    ensures
        counted((n - 1) as nat) == (if counted(n) == 0 {
            usize::MAX
        } else {
            (counted(n) - 1) as usize
        }),
{
    let m = usize::MAX as nat + 1;
    assert((n - 1) % (m as int) == (if n % m == 0 {
        m - 1
    } else {
        n % m - 1
    })) by (nonlinear_arith)
        requires
            m > 0,
            n > 0,
    ;
}

/// Hashes a key.
pub fn hash_key(key: u64) -> (hash: u64)
    ensures
        hash == spec_hash(key),
{
    let bytes = u64_to_le_bytes(key);
    let mut hasher = DefaultHasher::new();
    hasher.write(bytes.as_slice());
    proof {
        assert(hasher@ =~= seq![spec_u64_to_le_bytes(key)]);
    }
    hasher.finish()
}

/// The lists of a map, the heap that they live in, and the entry count.
pub struct Table<V> {
    nbuckets: usize,
    map: Vec<LinkedList>,
    nitems: usize,
    heap: Heap<V>,
}

impl<V> Table<V> {
    /// The heap that the lists live in.
    pub closed spec fn heap(&self) -> Heap<V> {
        self.heap
    }

    /// The lists, by bucket.
    pub closed spec fn buckets(&self) -> Seq<LinkedList> {
        self.map@
    }

    /// The number of buckets.
    pub closed spec fn nbuckets(&self) -> usize {
        self.nbuckets
    }

    /// How many more nodes can be allocated before one is freed.
    pub closed spec fn spare_nodes(&self) -> nat {
        self.heap.nodes.spare()
    }

    /// How many more value cells can be allocated before one is freed.
    pub closed spec fn spare_cells(&self) -> nat {
        self.heap.cells.spare()
    }

    /// The contents of the table: what each key's own bucket holds for it.
    pub closed spec fn view(&self) -> Map<u64, V> {
        Map::new(
            |k: u64| self.map@[bucket_of(k, self.nbuckets)].view(&self.heap).contains_key(k),
            |k: u64| self.map@[bucket_of(k, self.nbuckets)].view(&self.heap)[k],
        )
    }

    /// Bucket `b` is a well-formed list without logically deleted nodes, and
    /// every key in it belongs to the bucket.
    pub closed spec fn bucket_ok(&self, b: int) -> bool {
        &&& self.map@[b].wf(&self.heap)
        &&& self.map@[b].clean(&self.heap)
        &&& forall|k: u64| #[trigger]
            self.map@[b].keys(&self.heap).contains(k) ==> bucket_of(k, self.nbuckets) == b
    }

    /// The node at `a` and the cell at `a`, where they are retired, are
    /// retired by an owner below `n`.
    pub closed spec fn owner_below(&self, n: nat, a: usize) -> bool {
        &&& self.heap.nodes@.contains_key(a) && self.heap.node_state@[a] is Unlinked
            ==> self.heap.node_state@[a]->Unlinked_0 < n
        &&& self.heap.cells@.contains_key(a) && self.heap.cell_state@[a] is Retired
            ==> self.heap.cell_state@[a]->Retired_0 < n
    }

    /// Neither the node nor the cell at `a` is retired by `owner`.
    pub closed spec fn not_retired_by(&self, owner: usize, a: usize) -> bool {
        &&& !self.heap.node_in(NodeState::Unlinked(owner), a)
        &&& !(self.heap.cells@.contains_key(a) && self.heap.cell_state@[a]
            == crate::heap::CellState::Retired(owner))
    }

    /// No allocated node and no allocated cell is retired by `owner`: the
    /// owner has nothing left to free.
    pub closed spec fn nothing_retired_by(&self, owner: usize) -> bool {
        forall|a: usize| #[trigger] self.not_retired_by(owner, a)
    }

    /// Whatever is retired in the heap is retired by an owner below `n`.
    pub closed spec fn owners_below(&self, n: nat) -> bool {
        forall|a: usize| #[trigger] self.owner_below(n, a)
    }

    /// A buffer without entries is well formed for an owner that has retired
    /// nothing.
    pub proof fn lemma_new_owner(&self, n: nat, buffer: &Retired)
        requires
            self.owners_below(n),
            buffer.owner >= n,
            buffer.nodes@.len() == 0,
            buffer.cells@.len() == 0,
        ensures
            buffer.wf(&self.heap()),
    {
        assert forall|a: usize|
            self.heap.node_in(
                NodeState::Unlinked(buffer.owner),
                a,
            ) implies #[trigger] buffer.nodes@.contains(a) by {
            assert(self.owner_below(n, a));
        }
        assert forall|c: usize|
            self.heap.cells@.contains_key(c) && self.heap.cell_state@[c]
                == crate::heap::CellState::Retired(
                buffer.owner,
            ) implies #[trigger] buffer.cells@.contains(c) by {
            assert(self.owner_below(n, c));
        }
    }

    /// Where no owner has retired anything, no node is unlinked and no cell
    /// is retired.
    pub proof fn lemma_owners_below_zero(&self, a: usize)
        requires
            self.owners_below(0),
        ensures
            !(self.heap().nodes@.contains_key(a) && self.heap().node_state@[a] is Unlinked),
            !(self.heap().cells@.contains_key(a) && self.heap().cell_state@[a] is Retired),
    {
        assert(self.owner_below(0, a));
    }

    /// More owners may have retired what fewer have.
    pub proof fn lemma_owners_below_more(&self, n: nat, m: nat)
        requires
            self.owners_below(n),
            n <= m,
        ensures
            self.owners_below(m),
    {
        assert forall|a: usize| #[trigger] self.owner_below(m, a) by {
            assert(self.owner_below(n, a));
        }
    }

    /// The node at `a`, if it is linked, is linked into one of the buckets.
    pub closed spec fn in_bucket(&self, a: usize) -> bool {
        self.heap.nodes@.contains_key(a) && self.heap.node_state@[a] is Linked ==> exists|b: int|
            0 <= b < self.map@.len() && (#[trigger] self.map@[b]).state()
                == self.heap.node_state@[a]
    }

    /// The buckets are well-formed lists with distinct sentinels over a
    /// well-formed heap; every linked node is linked into one of them, no
    /// node is logically deleted, and every key lies in its own bucket.
    pub closed spec fn shaped(&self) -> bool {
        &&& self.nbuckets > 0
        &&& self.map@.len() == self.nbuckets
        &&& self.heap.wf()
        &&& forall|b: int| 0 <= b < self.map@.len() ==> (#[trigger] self.map@[b]).wf(&self.heap)
        &&& forall|b: int| 0 <= b < self.map@.len() ==> #[trigger] self.bucket_ok(b)
        &&& forall|a: usize| #[trigger] self.in_bucket(a)
        &&& forall|a: int, b: int|
            0 <= a < b < self.map@.len() ==> (#[trigger] self.map@[a]).head() != (
            #[trigger] self.map@[b]).head()
    }

    /// The table is shaped, holds finitely many keys, and its counter shows
    /// how many.
    pub closed spec fn wf(&self) -> bool {
        &&& self.shaped()
        &&& self@.dom().finite()
        &&& self.nitems == counted(self@.dom().len())
    }

    /// Every bucket of a well-formed table is sorted between its sentinels,
    /// over a well-formed heap.
    pub proof fn lemma_buckets_sorted(&self, b: int)
        requires
            self.wf(),
            0 <= b < self.nbuckets(),
        ensures
            self.heap().wf(),
            self.buckets().len() == self.nbuckets(),
            sorted_between_sentinels(
                self.buckets()[b].chain(),
                self.heap().nodes@,
                self.buckets()[b].head(),
                self.buckets()[b].tail(),
            ),
            crate::chain::chain_clean(self.buckets()[b].chain(), self.heap().nodes@),
            forall|k: u64| #[trigger]
                crate::chain::chain_keys(self.buckets()[b].chain(), self.heap().nodes@).contains(k)
                    ==> bucket_of(k, self.nbuckets()) == b,
    {
        self.map@[b].lemma_sorted(&self.heap);
        assert(self.bucket_ok(b));
    }

    /// A linked node that links on links to a linked node.
    pub proof fn lemma_linked_successor(&self, a: usize)
        requires
            self.wf(),
            self.heap().nodes@.contains_key(a),
            self.heap().node_state@[a] is Linked,
            self.heap().nodes@[a].next != 0,
        ensures
            self.heap().nodes@.contains_key(self.heap().successor(a)),
            self.heap().node_state@[self.heap().successor(a)] is Linked,
    {
        assert(self.in_bucket(a));
        let b = choose|b: int|
            0 <= b < self.map@.len() && (#[trigger] self.map@[b]).state()
                == self.heap.node_state@[a];
        self.map@[b].lemma_successor(&self.heap, a);
    }

    /// After a change to bucket `b` alone that kept what lies outside that
    /// list, the table is shaped, the other buckets hold what they held, and
    /// every retired buffer is as well formed as it was.
    proof fn lemma_bucket_step(&self, before: &Table<V>, b: int, owner: usize)
        requires
            before.shaped(),
            0 <= b < before.map@.len(),
            self.nbuckets == before.nbuckets,
            self.map@ == before.map@.update(b, self.map@[b]),
            self.map@[b].head() == before.map@[b].head(),
            self.map@[b].wf(&self.heap),
            self.map@[b].clean(&self.heap),
            forall|k: u64| #[trigger]
                self.map@[b].keys(&self.heap).contains(k) ==> bucket_of(k, self.nbuckets) == b,
            self.heap.wf(),
            before.heap.unchanged_outside(&self.heap, before.map@[b].state(), owner),
        ensures
            self.shaped(),
            forall|i: int|
                0 <= i < self.map@.len() && i != b ==> (#[trigger] self.map@[i]).view(&self.heap)
                    == before.map@[i].view(&before.heap),
            forall|other: Retired|
                other.owner != owner && other.wf(&before.heap) ==> #[trigger] other.wf(&self.heap),
            forall|n: nat| owner < n && before.owners_below(n) ==> #[trigger] self.owners_below(n),
    {
        assert forall|a: usize| #[trigger] self.in_bucket(a) by {
            if self.heap.nodes@.contains_key(a) && self.heap.node_state@[a] is Linked {
                assert(before.heap.node_kept_or_claimed(
                    &self.heap,
                    before.map@[b].state(),
                    owner,
                    a,
                ));
                if before.heap.nodes@.contains_key(a) && before.heap.node_kept(&self.heap, a) {
                    assert(before.in_bucket(a));
                    let c = choose|c: int|
                        0 <= c < before.map@.len() && (#[trigger] before.map@[c]).state()
                            == before.heap.node_state@[a];
                    assert(self.map@[c].state() == self.heap.node_state@[a]);
                } else {
                    assert(self.map@[b].state() == self.heap.node_state@[a]);
                }
            }
        }
        assert forall|n: nat| owner < n && before.owners_below(n) implies #[trigger] self.owners_below(
            n,
        ) by {
            assert forall|a: usize| #[trigger] self.owner_below(n, a) by {
                assert(before.owner_below(n, a));
                if self.heap.nodes@.contains_key(a) {
                    assert(before.heap.node_kept_or_claimed(
                        &self.heap,
                        before.map@[b].state(),
                        owner,
                        a,
                    ));
                }
                if self.heap.cells@.contains_key(a) {
                    assert(before.heap.cell_kept_or_claimed(&self.heap, owner, a));
                }
            }
        }
        let s = before.map@[b].state();
        assert forall|i: int| 0 <= i < self.map@.len() implies (#[trigger] self.map@[i]).wf(
            &self.heap,
        ) && (i != b ==> self.map@[i].view(&self.heap) == before.map@[i].view(&before.heap)) by {
            if i != b {
                assert(self.map@[i] == before.map@[i]);
                if i < b {
                    assert(before.map@[i].head() != before.map@[b].head());
                } else {
                    assert(before.map@[b].head() != before.map@[i].head());
                }
                before.map@[i].lemma_unchanged(&before.heap, &self.heap, s, owner);
            }
        }
        assert forall|i: int| 0 <= i < self.map@.len() implies #[trigger] self.bucket_ok(i) by {
            if i != b {
                assert(before.bucket_ok(i));
                assert(self.map@[i] == before.map@[i]);
                if i < b {
                    assert(before.map@[i].head() != before.map@[b].head());
                } else {
                    assert(before.map@[b].head() != before.map@[i].head());
                }
                before.map@[i].lemma_unchanged(&before.heap, &self.heap, s, owner);
            }
        }
        assert forall|x: int, y: int| 0 <= x < y < self.map@.len() implies (
        #[trigger] self.map@[x]).head() != (#[trigger] self.map@[y]).head() by {
            assert(before.map@[x].head() != before.map@[y].head());
        }
        assert forall|other: Retired|
            other.owner != owner && other.wf(&before.heap) implies #[trigger] other.wf(
            &self.heap,
        ) by {
            other.lemma_unchanged(&before.heap, &self.heap, s, owner);
        }
    }

    /// A table of `nbuckets` empty buckets. Fails exactly when the heap
    /// cannot hold two sentinels for each.
    pub fn new(nbuckets: usize) -> (result: Result<Table<V>, AllocError>)
        requires
            nbuckets > 0,
        ensures
            result is Err <==> 2 * nbuckets > max_slots(),
            result is Ok ==> {
                let table = result->Ok_0;
                &&& table.wf()
                &&& table@ == Map::<u64, V>::empty()
                &&& table.nbuckets() == nbuckets
                &&& table.spare_nodes() == max_slots() - 2 * nbuckets
                &&& table.spare_cells() == max_slots()
                &&& table.owners_below(0)
            },
    {
        if nbuckets > usize::MAX / 4 {
            return Err(AllocError);
        }
        let mut heap: Heap<V> = Heap::new();
        let mut map: Vec<LinkedList> = Vec::new();
        let mut i: usize = 0;
        while i < nbuckets
            invariant
                i <= nbuckets,
                map@.len() == i,
                heap.wf(),
                2 * i <= max_slots(),
                heap.nodes.spare() == max_slots() - 2 * i,
                heap.cells.spare() == max_slots(),
                forall|b: int|
                    0 <= b < i ==> (#[trigger] map@[b]).wf(&heap) && map@[b].view(&heap)
                        == Map::<u64, V>::empty() && heap.nodes@.contains_key(map@[b].head())
                        && map@[b].clean(&heap) && map@[b].keys(&heap) == Set::<u64>::empty(),
                forall|a: int, b: int|
                    0 <= a < b < i ==> (#[trigger] map@[a]).head() != (#[trigger] map@[b]).head(),
                heap.cells@ == Map::<usize, V>::empty(),
                forall|a: usize|
                    heap.nodes@.contains_key(a) ==> #[trigger] heap.node_state@[a] is Linked
                        && exists|b: int|
                        0 <= b < i && (#[trigger] map@[b]).state() == heap.node_state@[a],
            decreases nbuckets - i,
        {
            let ghost before = heap;
            let ghost lists = map@;
            match LinkedList::new(&mut heap) {
                Err(e) => {
                    return Err(e);
                },
                Ok(list) => {
                    proof {
                        let s = list.state();
                        assert(before.unchanged_outside(&heap, s, 0));
                        assert(before.unchanged_outside(&heap, s, 1));
                        let grown = lists.push(list);
                        assert forall|a: usize| heap.nodes@.contains_key(a) implies #[trigger] heap.node_state@[a]
                            is Linked && exists|b: int|
                            0 <= b < i + 1 && (#[trigger] grown[b]).state()
                                == heap.node_state@[a] by {
                            assert(before.node_kept_or_claimed(&heap, s, 0, a));
                            assert(before.node_kept_or_claimed(&heap, s, 1, a));
                            if before.nodes@.contains_key(a) && before.node_kept(&heap, a) {
                                let c = choose|c: int|
                                    0 <= c < i && (#[trigger] lists[c]).state()
                                        == before.node_state@[a];
                                assert(grown[c].state() == heap.node_state@[a]);
                            } else {
                                assert(grown[i as int].state() == heap.node_state@[a]);
                            }
                        }
                        assert forall|b: int| 0 <= b < i implies (#[trigger] lists[b]).wf(&heap)
                            && lists[b].view(&heap) == Map::<u64, V>::empty()
                            && heap.nodes@.contains_key(lists[b].head()) && lists[b].head()
                            != list.head() && lists[b].clean(&heap) && lists[b].keys(&heap)
                            == Set::<u64>::empty() by {
                            assert(before.nodes@.contains_key(lists[b].head()));
                            lists[b].lemma_unchanged(&before, &heap, s, 0);
                            assert(before.node_kept(&heap, lists[b].head()));
                        }
                        list.lemma_sorted(&heap);
                    }
                    map.push(list);
                },
            }
            i = i + 1;
        }
        let table = Table { nbuckets, map, nitems: 0, heap };
        proof {
            assert forall|b: int| 0 <= b < table.map@.len() implies #[trigger] table.bucket_ok(
                b,
            ) by {
                assert(table.map@[b].wf(&table.heap));
            }
            assert forall|a: usize| #[trigger] table.in_bucket(a) by {
                if table.heap.nodes@.contains_key(a) {
                    assert(table.heap.node_state@[a] is Linked);
                }
            }
            assert forall|a: usize| #[trigger] table.owner_below(0, a) by {
                if table.heap.nodes@.contains_key(a) {
                    assert(table.heap.node_state@[a] is Linked);
                }
            }
            assert(table@ =~= Map::<u64, V>::empty());
            assert(table@.dom() =~= Set::<u64>::empty());
            assert(counted(0) == 0);
        }
        Ok(table)
    }

    /// The bucket of a key.
    fn bucket(&self, key: u64) -> (index: usize)
        requires
            self.shaped(),
        ensures
            index == bucket_of(key, self.nbuckets),
            index < self.map@.len(),
    {
        let hash: usize = hash_key(key) as usize;
        hash % self.nbuckets
    }

    /// Maps `key` to `value` in the key's bucket and returns the value that
    /// the key had before. A key that was absent is counted. Fails exactly
    /// when no value cell is spare, or the key is absent and no node is
    /// spare; the contents are then as they were.
    pub fn insert(&mut self, key: u64, value: V, retired: &mut Retired) -> (result: Result<
        Option<V>,
        AllocError,
    >) where V: Copy
        requires
            old(self).wf(),
            old(retired).wf(&old(self).heap()),
        ensures
            final(self).wf(),
            final(retired).wf(&final(self).heap()),
            final(retired).extends(old(retired)),
            final(retired).clock == old(retired).clock,
            final(retired).nodes@ == old(retired).nodes@,
            final(self).nbuckets() == old(self).nbuckets(),
            forall|other: Retired|
                other.owner != old(retired).owner && other.wf(&old(self).heap())
                    ==> #[trigger] other.wf(&final(self).heap()),
            forall|n: nat|
                old(retired).owner < n && old(self).owners_below(n)
                    ==> #[trigger] final(self).owners_below(n),
            old(self).heap().moves_on(&final(self).heap()),
            old(self).heap().stamps_follow(&final(self).heap(), old(retired).clock@),
            old(self).heap().unlinked_closed(old(retired).clock@) ==> final(self).heap().unlinked_closed(old(retired).clock@),
            ({
                let before = old(self)@;
                let present = before.contains_key(key);
                &&& result is Err <==> old(self).spare_cells() == 0 || (!present && old(
                    self,
                ).spare_nodes() == 0)
                &&& result is Err ==> {
                    &&& final(self)@ == before
                    &&& final(self).spare_cells() == old(self).spare_cells()
                    &&& final(self).spare_nodes() == old(self).spare_nodes()
                    &&& final(retired).cells@ == old(retired).cells@
                }
                &&& result is Ok ==> {
                    &&& final(self)@ == before.insert(key, value)
                    &&& result->Ok_0 == (if present {
                        Some(before[key])
                    } else {
                        None
                    })
                    &&& final(self).spare_cells() == old(self).spare_cells() - 1
                    &&& final(self).spare_nodes() == old(self).spare_nodes() - (if present {
                        0int
                    } else {
                        1int
                    })
                    &&& final(retired).cells@.len() == old(retired).cells@.len() + (if present {
                        1int
                    } else {
                        0int
                    })
                }
            }),
    {
        let index = self.bucket(key);
        let ghost before = *self;
        let ret = self.map[index].insert(&mut self.heap, key, value, retired);
        match ret {
            Ok(None) => {
                self.nitems = if self.nitems == usize::MAX {
                    0
                } else {
                    self.nitems + 1
                };
            },
            _ => {},
        }
        proof {
            assert(before.bucket_ok(index as int));
            self.lemma_bucket_step(&before, index as int, retired.owner);
            let n = self.nbuckets;
            if ret is Ok {
                assert(self@ =~= before@.insert(key, value)) by {
                    assert forall|k: u64| #[trigger] self@.contains_key(k) == before@.insert(
                        key,
                        value,
                    ).contains_key(k) && (self@.contains_key(k) ==> self@[k] == before@.insert(
                        key,
                        value,
                    )[k]) by {
                        if bucket_of(k, n) != index {
                            assert(self.map@[bucket_of(k, n)].view(&self.heap)
                                == before.map@[bucket_of(k, n)].view(&before.heap));
                        }
                    }
                }
                assert(self@.dom() =~= before@.dom().insert(key));
                if !before@.contains_key(key) {
                    lemma_counted_up(before@.dom().len());
                }
            } else {
                assert(self@ =~= before@) by {
                    assert forall|k: u64| #[trigger] self@.contains_key(k) == before@.contains_key(
                        k,
                    ) && (self@.contains_key(k) ==> self@[k] == before@[k]) by {
                        if bucket_of(k, n) != index {
                            assert(self.map@[bucket_of(k, n)].view(&self.heap)
                                == before.map@[bucket_of(k, n)].view(&before.heap));
                        }
                    }
                }
            }
        }
        ret
    }

    /// Looks `key` up in its bucket.
    pub fn get(&mut self, key: u64, retired: &mut Retired) -> (value: Option<V>) where V: Copy
        requires
            old(self).wf(),
            old(retired).wf(&old(self).heap()),
        ensures
            final(self).wf(),
            final(retired).wf(&final(self).heap()),
            final(retired).extends(old(retired)),
            final(retired).clock == old(retired).clock,
            final(retired).cells@ == old(retired).cells@,
            final(self).nbuckets() == old(self).nbuckets(),
            final(self).spare_cells() == old(self).spare_cells(),
            final(self).spare_nodes() == old(self).spare_nodes(),
            forall|other: Retired|
                other.owner != old(retired).owner && other.wf(&old(self).heap())
                    ==> #[trigger] other.wf(&final(self).heap()),
            forall|n: nat|
                old(retired).owner < n && old(self).owners_below(n)
                    ==> #[trigger] final(self).owners_below(n),
            old(self).heap().moves_on(&final(self).heap()),
            old(self).heap().stamps_follow(&final(self).heap(), old(retired).clock@),
            old(self).heap().unlinked_closed(old(retired).clock@) ==> final(self).heap().unlinked_closed(old(retired).clock@),
            final(self)@ == old(self)@,
            final(self).heap() == old(self).heap(),
            final(self).buckets() == old(self).buckets(),
            *final(retired) == *old(retired),
            value == (if old(self)@.contains_key(key) {
                Some(old(self)@[key])
            } else {
                None
            }),
    {
        let index = self.bucket(key);
        let ghost before = *self;
        let ret = self.map[index].get(&mut self.heap, key, retired);
        proof {
            assert(before.bucket_ok(index as int));
            assert(self.map@ =~= before.map@);
        }
        proof {
            assert(before.bucket_ok(index as int));
            self.lemma_bucket_step(&before, index as int, retired.owner);
            let n = self.nbuckets;
            assert(self@ =~= before@) by {
                assert forall|k: u64| #[trigger] self@.contains_key(k) == before@.contains_key(k)
                    && (self@.contains_key(k) ==> self@[k] == before@[k]) by {
                    if bucket_of(k, n) != index {
                        assert(self.map@[bucket_of(k, n)].view(&self.heap)
                            == before.map@[bucket_of(k, n)].view(&before.heap));
                    }
                }
            }
        }
        ret
    }

    /// Deletes `key` from its bucket and returns the value that it had. A
    /// key that was present is counted off.
    pub fn delete(&mut self, key: u64, retired: &mut Retired) -> (value: Option<V>) where V: Copy
        requires
            old(self).wf(),
            old(retired).wf(&old(self).heap()),
        ensures
            final(self).wf(),
            final(retired).wf(&final(self).heap()),
            final(retired).extends(old(retired)),
            final(retired).clock == old(retired).clock,
            final(retired).cells@ == old(retired).cells@,
            final(retired).nodes@.len() == old(retired).nodes@.len() + (if value is Some {
                1int
            } else {
                0int
            }),
            final(self).nbuckets() == old(self).nbuckets(),
            final(self).spare_cells() == old(self).spare_cells(),
            final(self).spare_nodes() == old(self).spare_nodes(),
            forall|other: Retired|
                other.owner != old(retired).owner && other.wf(&old(self).heap())
                    ==> #[trigger] other.wf(&final(self).heap()),
            forall|n: nat|
                old(retired).owner < n && old(self).owners_below(n)
                    ==> #[trigger] final(self).owners_below(n),
            old(self).heap().moves_on(&final(self).heap()),
            old(self).heap().stamps_follow(&final(self).heap(), old(retired).clock@),
            old(self).heap().unlinked_closed(old(retired).clock@) ==> final(self).heap().unlinked_closed(old(retired).clock@),
            final(self)@ == old(self)@.remove(key),
            value == (if old(self)@.contains_key(key) {
                Some(old(self)@[key])
            } else {
                None
            }),
    {
        let index = self.bucket(key);
        let ghost before = *self;
        let ret = self.map[index].delete(&mut self.heap, key, retired);
        if ret.is_some() {
            self.nitems = if self.nitems == 0 {
                usize::MAX
            } else {
                self.nitems - 1
            };
        }
        proof {
            assert(before.bucket_ok(index as int));
            self.lemma_bucket_step(&before, index as int, retired.owner);
            let n = self.nbuckets;
            assert(self@ =~= before@.remove(key)) by {
                assert forall|k: u64| #[trigger] self@.contains_key(k) == before@.remove(
                    key,
                ).contains_key(k) && (self@.contains_key(k) ==> self@[k] == before@.remove(key)[k]) by {
                    if bucket_of(k, n) != index {
                        assert(self.map@[bucket_of(k, n)].view(&self.heap)
                            == before.map@[bucket_of(k, n)].view(&before.heap));
                    }
                }
            }
            assert(self@.dom() =~= before@.dom().remove(key));
            if before@.contains_key(key) {
                lemma_counted_down(before@.dom().len());
            }
        }
        ret
    }

    /// Frees the first `nodes` retired nodes and the first `cells` retired
    /// cells of a buffer. The contents of the table stay as they were, and
    /// so does every buffer of another owner.
    pub fn reclaim(&mut self, retired: &mut Retired, nodes: usize, cells: usize)
        requires
            old(self).wf(),
            old(retired).wf(&old(self).heap()),
            nodes <= old(retired).nodes@.len(),
            cells <= old(retired).cells@.len(),
        ensures
            final(self).wf(),
            final(retired).wf(&final(self).heap()),
            final(retired).owner == old(retired).owner,
            final(retired).nodes@ == old(retired).nodes@.subrange(
                nodes as int,
                old(retired).nodes@.len() as int,
            ),
            final(retired).cells@ == old(retired).cells@.subrange(
                cells as int,
                old(retired).cells@.len() as int,
            ),
            final(self).nbuckets() == old(self).nbuckets(),
            final(self).spare_nodes() == old(self).spare_nodes() + nodes,
            final(self).spare_cells() == old(self).spare_cells() + nodes + cells,
            final(self)@ == old(self)@,
            forall|i: int|
                0 <= i < nodes ==> !final(self).heap().nodes@.contains_key(
                    #[trigger] old(retired).nodes@[i],
                ),
            forall|i: int|
                0 <= i < cells ==> !final(self).heap().cells@.contains_key(
                    #[trigger] old(retired).cells@[i],
                ),
            forall|other: Retired|
                other.owner != old(retired).owner && other.wf(&old(self).heap())
                    ==> #[trigger] other.wf(&final(self).heap()),
            forall|n: nat| old(self).owners_below(n) ==> #[trigger] final(self).owners_below(n),
            nodes == old(retired).nodes@.len() && cells == old(retired).cells@.len()
                ==> final(self).nothing_retired_by(old(retired).owner),
            final(self).heap().unlinked_at == old(self).heap().unlinked_at,
            forall|a: usize|
                final(self).heap().nodes@.contains_key(a) ==> #[trigger] old(self).heap().node_kept(
                    &final(self).heap(),
                    a,
                ) && old(self).heap().nodes@.contains_key(a),
            forall|a: usize|
                old(self).heap().nodes@.contains_key(a) && !final(self).heap().nodes@.contains_key(a)
                    ==> #[trigger] old(retired).nodes@.subrange(0, nodes as int).contains(a),
    {
        let ghost before = *self;
        retired.release(&mut self.heap, nodes, cells);
        proof {
            let s = NodeState::Unlinked(old(retired).owner);
            let owner = old(retired).owner;
            assert forall|i: int| 0 <= i < self.map@.len() implies (#[trigger] self.map@[i]).wf(
                &self.heap,
            ) && self.map@[i].view(&self.heap) == before.map@[i].view(&before.heap) by {
                before.map@[i].lemma_unchanged(&before.heap, &self.heap, s, owner);
            }
            assert forall|a: usize| #[trigger] self.in_bucket(a) by {
                if self.heap.nodes@.contains_key(a) && self.heap.node_state@[a] is Linked {
                    assert(before.heap.node_kept(&self.heap, a));
                    assert(before.in_bucket(a));
                    let c = choose|c: int|
                        0 <= c < before.map@.len() && (#[trigger] before.map@[c]).state()
                            == before.heap.node_state@[a];
                    assert(self.map@[c].state() == self.heap.node_state@[a]);
                }
            }
            assert forall|n: nat| before.owners_below(n) implies #[trigger] self.owners_below(
                n,
            ) by {
                assert forall|a: usize| #[trigger] self.owner_below(n, a) by {
                    assert(before.owner_below(n, a));
                    if self.heap.nodes@.contains_key(a) {
                        assert(before.heap.node_kept(&self.heap, a));
                    }
                    if self.heap.cells@.contains_key(a) {
                        assert(before.heap.cell_kept(&self.heap, a));
                    }
                }
            }
            assert forall|a: usize|
                before.heap.nodes@.contains_key(a) && !self.heap.nodes@.contains_key(
                    a,
                ) implies #[trigger] old(retired).nodes@.subrange(0, nodes as int).contains(a) by {
                if !before.heap.node_in(s, a) {
                    assert(before.heap.node_kept(&self.heap, a));
                }
                assert(old(retired).nodes@.contains(a));
                let i = choose|i: int| 0 <= i < old(retired).nodes@.len() && old(retired).nodes@[i] == a;
                if i >= nodes {
                    assert(retired.nodes@[i - nodes] == a);
                } else {
                    assert(old(retired).nodes@.subrange(0, nodes as int)[i] == a);
                }
            }
            if nodes == old(retired).nodes@.len() && cells == old(retired).cells@.len() {
                assert forall|a: usize| #[trigger] self.not_retired_by(owner, a) by {
                    if self.heap.node_in(NodeState::Unlinked(owner), a) {
                        assert(retired.nodes@.contains(a));
                    }
                    if self.heap.cells@.contains_key(a) && self.heap.cell_state@[a]
                        == crate::heap::CellState::Retired(owner) {
                        assert(retired.cells@.contains(a));
                    }
                }
            }
            assert forall|i: int| 0 <= i < self.map@.len() implies #[trigger] self.bucket_ok(
                i,
            ) by {
                assert(before.bucket_ok(i));
                before.map@[i].lemma_unchanged(&before.heap, &self.heap, s, owner);
            }
            assert forall|other: Retired|
                other.owner != old(retired).owner && other.wf(
                    &before.heap,
                ) implies #[trigger] other.wf(&self.heap) by {
                other.lemma_unchanged(&before.heap, &self.heap, s, owner);
            }
            assert(self@ =~= before@);
        }
    }

    /// The number of buckets.
    pub fn capacity(&self) -> (n: usize)
        ensures
            n == self.nbuckets(),
    {
        self.nbuckets
    }

    /// Walks one bucket from its head sentinel to its tail sentinel and
    /// returns, for every node between them in list order, the node's key,
    /// its value, and whether the node is logically deleted.
    pub fn entries(&self, bucket: usize) -> (out: Vec<(u64, V, bool)>) where V: Copy
        requires
            self.wf(),
            bucket < self.nbuckets(),
        ensures
            out@.len() == self.buckets()[bucket as int].chain().len() - 2,
            forall|i: int|
                0 <= i < out@.len() ==> {
                    let node = self.heap().nodes@[self.buckets()[bucket as int].chain()[i + 1]];
                    &&& (#[trigger] out@[i]).0 == node.key->0
                    &&& out@[i].1 == self.heap().cells@[node.val]
                    &&& out@[i].2 == crate::marked::is_marked(node.next)
                },
            forall|i: int, j: int| 0 <= i < j < out@.len() ==> out@[i].0 < out@[j].0,
            forall|k: u64|
                bucket_of(k, self.nbuckets()) == bucket && self@.contains_key(k) ==> exists|i: int|
                    0 <= i < out@.len() && (#[trigger] out@[i]).0 == k && !out@[i].2 && out@[i].1
                        == self@[k],
            forall|i: int|
                0 <= i < out@.len() ==> !(#[trigger] out@[i]).2 && bucket_of(
                    out@[i].0,
                    self.nbuckets(),
                ) == bucket && self@.contains_key(out@[i].0) && self@[out@[i].0] == out@[i].1,
    {
        let out = self.map[bucket].entries(&self.heap);
        proof {
            let list = self.map@[bucket as int];
            assert(self.bucket_ok(bucket as int));
            assert forall|i: int| 0 <= i < out@.len() implies !(#[trigger] out@[i]).2 && bucket_of(
                out@[i].0,
                self.nbuckets,
            ) == bucket && self@.contains_key(out@[i].0) && self@[out@[i].0] == out@[i].1 by {
                assert(list.keys(&self.heap).contains(out@[i].0));
            }
            assert forall|k: u64|
                bucket_of(k, self.nbuckets) == bucket && self@.contains_key(k) implies exists|
                i: int,
            |
                0 <= i < out@.len() && (#[trigger] out@[i]).0 == k && !out@[i].2 && out@[i].1
                    == self@[k] by {
                assert(list.view(&self.heap).contains_key(k));
                let i = choose|i: int| 0 <= i < out@.len() && (#[trigger] out@[i]).0 == k && !out@[i].2;
                assert(list.view(&self.heap)[out@[i].0] == out@[i].1);
            }
        }
        out
    }

    /// The number of entries, as the wrapping counter shows it.
    pub fn len(&self) -> (n: usize)
        requires
            self.wf(),
        ensures
            n == counted(self@.dom().len()),
    {
        self.nitems
    }
}

} // verus!
