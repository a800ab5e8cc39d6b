//! What the operations of a map amount to on its contents alone, whichever
//! handle performs them, and the laws that follow for any sequence of them.

use vstd::prelude::*;

verus! {

/// One operation on a map.
pub enum Operation<V> {
    /// Map the key to the value.
    Insert(u64, V),
    /// Look the key up.
    Get(u64),
    /// Remove the key.
    Remove(u64),
}

impl<V> Operation<V> {
    /// The operation changes what `k` is mapped to.
    pub open spec fn writes(self, k: u64) -> bool {
        match self {
            Operation::Insert(key, _) => key == k,
            Operation::Get(_) => false,
            Operation::Remove(key) => key == k,
        }
    }
}

/// What the map holds for `k`.
pub open spec fn lookup<V>(m: Map<u64, V>, k: u64) -> Option<V> {
    if m.contains_key(k) {
        Some(m[k])
    } else {
        None
    }
}

/// The contents after an operation.
pub open spec fn apply<V>(m: Map<u64, V>, op: Operation<V>) -> Map<u64, V> {
    match op {
        Operation::Insert(key, value) => m.insert(key, value),
        Operation::Get(_) => m,
        Operation::Remove(key) => m.remove(key),
    }
}

/// What an operation returns: the value that its key had before it.
pub open spec fn answer<V>(m: Map<u64, V>, op: Operation<V>) -> Option<V> {
    match op {
        Operation::Insert(key, _) => lookup(m, key),
        Operation::Get(key) => lookup(m, key),
        Operation::Remove(key) => lookup(m, key),
    }
}

/// The contents after a sequence of operations, in order.
pub open spec fn run<V>(m: Map<u64, V>, ops: Seq<Operation<V>>) -> Map<u64, V>
    decreases ops.len(),
{
    if ops.len() == 0 {
        m
    } else {
        apply(run(m, ops.drop_last()), ops.last())
    }
}

/// Round trip: a key that was inserted is found with its value, and a key
/// that was inserted and removed is not found.
pub proof fn lemma_round_trip<V>(m: Map<u64, V>, k: u64, v: V)
    ensures
        answer(apply(m, Operation::Insert(k, v)), Operation::Get(k)) == Some(v),
        answer(
            apply(apply(m, Operation::Insert(k, v)), Operation::Remove(k)),
            Operation::Get(k),
        ) == None::<V>,
{
}

/// Double remove: the first of two removals of a key in a row returns what
/// the key had, and the second returns nothing.
pub proof fn lemma_double_remove<V>(m: Map<u64, V>, k: u64)
    ensures
        answer(m, Operation::Remove(k)) == lookup(m, k),
        answer(apply(m, Operation::Remove(k)), Operation::Remove(k)) == None::<V>,
{
}

/// A sequence of operations none of which writes `k` leaves what the map
/// holds for `k` as it was.
pub proof fn lemma_untouched<V>(m: Map<u64, V>, k: u64, ops: Seq<Operation<V>>)
    requires
        forall|i: int| 0 <= i < ops.len() ==> !(#[trigger] ops[i]).writes(k),
    ensures
        lookup(run(m, ops), k) == lookup(m, k),
    decreases ops.len(),
{
    if ops.len() > 0 {
        let front = ops.drop_last();
        assert forall|i: int| 0 <= i < front.len() implies !(#[trigger] front[i]).writes(k) by {
            assert(front[i] == ops[i]);
        }
        lemma_untouched(m, k, front);
        assert(!ops[ops.len() - 1].writes(k));
    }
}

/// No lost updates: after a key was inserted, a lookup of the key returns
/// the inserted value, whatever operations came between, as long as none
/// of them inserted or removed that key.
pub proof fn lemma_no_lost_update<V>(m: Map<u64, V>, k: u64, v: V, between: Seq<Operation<V>>)
    requires
        forall|i: int| 0 <= i < between.len() ==> !(#[trigger] between[i]).writes(k),
    ensures
        answer(run(apply(m, Operation::Insert(k, v)), between), Operation::Get(k)) == Some(v),
{
    lemma_untouched(apply(m, Operation::Insert(k, v)), k, between);
}

/// Single-key order: when a lookup of a key returns one value and a later
/// lookup of the key returns another, an insertion of the key with that
/// other value came between the two, and no write of the key came after
/// it.
pub proof fn lemma_single_key_order<V>(
    m: Map<u64, V>,
    k: u64,
    between: Seq<Operation<V>>,
    v1: V,
    v2: V,
)
    requires
        answer(m, Operation::Get(k)) == Some(v1),
        answer(run(m, between), Operation::Get(k)) == Some(v2),
        v1 != v2,
    ensures
        exists|i: int|
            0 <= i < between.len() && #[trigger] between[i] == Operation::Insert(k, v2) && forall|
                j: int,
            |
                i < j < between.len() ==> !(#[trigger] between[j]).writes(k),
    decreases between.len(),
{
    if between.len() == 0 {
    } else {
        let front = between.drop_last();
        let last = between.last();
        if last.writes(k) {
            let i = between.len() - 1;
            assert(between[i] == Operation::Insert(k, v2));
        } else {
            assert(lookup(apply(run(m, front), last), k) == lookup(run(m, front), k));
            lemma_single_key_order(m, k, front, v1, v2);
            let i = choose|i: int|
                0 <= i < front.len() && #[trigger] front[i] == Operation::Insert(k, v2) && forall|
                    j: int,
                |
                    i < j < front.len() ==> !(#[trigger] front[j]).writes(k);
            assert(between[i] == front[i]);
            assert forall|j: int| i < j < between.len() implies !(#[trigger] between[j]).writes(
                k,
            ) by {
                if j < front.len() {
                    assert(between[j] == front[j]);
                }
            }
        }
    }
}

} // verus!
