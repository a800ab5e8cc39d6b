//! Epoch counters and the scan that a reclamation pass makes over them.
//!
//! Every handle owns one counter. The counter is odd while the handle is
//! inside an operation and even while it is quiescent; it only grows. A pass
//! takes a snapshot of all counters and may free what was retired before the
//! snapshot once every handle that was inside an operation then has been seen
//! to have left it.

use vstd::prelude::*;

verus! {

/// A handle whose counter was `started` at the snapshot, and is `observed`
/// now, is known to have left the operation that it was in at the snapshot,
/// if it was in one.
pub open spec fn released(started: usize, observed: usize) -> bool {
    started % 2 == 0 || observed > started || observed % 2 == 0
}

/// Decides whether a handle has left the operation of the snapshot.
pub fn has_released(started: usize, observed: usize) -> (free: bool)
    ensures
        free == released(started, observed),
{
    started % 2 == 0 || observed > started || observed % 2 == 0
}

/// The entry of one handle at a snapshot and at an observation clears the
/// handle: it was not registered at one of the two, or it has released.
pub open spec fn cleared(started: Option<usize>, observed: Option<usize>) -> bool {
    started is Some && observed is Some ==> released(started->0, observed->0)
}

/// The counters of all handles, by handle number. The entry of a handle that
/// has been closed is empty; numbers are not used again.
pub struct Registry {
    counters: Vec<Option<usize>>,
}

impl View for Registry {
    type V = Seq<Option<usize>>;

    closed spec fn view(&self) -> Seq<Option<usize>> {
        self.counters@
    }
}

impl Registry {
    /// A registry without handles.
    pub fn new() -> (registry: Self)
        ensures
            registry@ == Seq::<Option<usize>>::empty(),
    {
        Registry { counters: Vec::new() }
    }

    /// Adds a counter at zero and returns its number, which no handle had
    /// before.
    pub fn register(&mut self) -> (id: usize)
        ensures
            id == old(self)@.len(),
            final(self)@ == old(self)@.push(Some(0usize)),
    {
        let id: usize = self.counters.len();
        self.counters.push(Some(0));
        id
    }

    /// Empties the entry of handle `id`.
    pub fn unregister(&mut self, id: usize)
        requires
            id < old(self)@.len(),
        ensures
            final(self)@ == old(self)@.update(id as int, None),
    {
        self.counters[id] = None;
    }

    /// The number of entries.
    pub fn len(&self) -> (n: usize)
        ensures
            n == self@.len(),
    {
        self.counters.len()
    }

    /// Loads the entry of handle `id`.
    pub fn load(&self, id: usize) -> (counter: Option<usize>)
        requires
            id < self@.len(),
        ensures
            counter == self@[id as int],
    {
        self.counters[id]
    }

    /// Adds one to the counter of handle `id` and returns what it was.
    pub fn fetch_add(&mut self, id: usize) -> (before: usize)
        requires
            id < old(self)@.len(),
            old(self)@[id as int] is Some,
            old(self)@[id as int]->0 < usize::MAX,
        ensures
            before == old(self)@[id as int]->0,
            final(self)@ == old(self)@.update(id as int, Some((before + 1) as usize)),
    {
        let before: usize = self.counters[id].unwrap();
        self.counters[id] = Some(before + 1);
        before
    }

    /// Copies all entries.
    pub fn snapshot(&self) -> (started: Vec<Option<usize>>)
        ensures
            started@ == self@,
    {
        let mut started: Vec<Option<usize>> = Vec::new();
        let mut i: usize = 0;
        while i < self.counters.len()
            invariant
                i <= self.counters@.len(),
                started@ == self.counters@.subrange(0, i as int),
            decreases self.counters@.len() - i,
        {
            started.push(self.counters[i]);
            proof {
                assert(started@ =~= self.counters@.subrange(0, i + 1));
            }
            i = i + 1;
        }
        proof {
            assert(self.counters@.subrange(0, self.counters@.len() as int) =~= self.counters@);
        }
        started
    }
}

/// The state of a reclamation pass between its snapshot and its end.
pub struct Scan {
    /// The counters at the snapshot.
    pub started: Vec<Option<usize>>,
    /// Handles below this number have been cleared.
    pub next: usize,
    /// What each cleared handle's entry was when it was cleared.
    pub seen: Ghost<Seq<Option<usize>>>,
}

impl Scan {
    /// Every handle below `next` was seen to clear, after the snapshot.
    pub open spec fn wf(&self) -> bool {
        &&& self.next <= self.started@.len()
        &&& self.seen@.len() == self.next
        &&& forall|id: int|
            0 <= id < self.next ==> cleared(self.started@[id], #[trigger] self.seen@[id])
    }

    /// Every handle of the snapshot has been cleared.
    pub open spec fn complete(&self) -> bool {
        self.next == self.started@.len()
    }

    /// Takes the snapshot that starts a pass.
    pub fn begin(registry: &Registry) -> (scan: Self)
        ensures
            scan.wf(),
            scan.started@ == registry@,
            scan.next == 0,
    {
        Scan { started: registry.snapshot(), next: 0, seen: Ghost(Seq::empty()) }
    }

    /// Goes on through the handles for as long as each one clears against
    /// the registry as it is now. Returns the handle that the pass has to
    /// wait for, or nothing when the pass is complete.
    pub fn poll(&mut self, registry: &Registry) -> (waiting: Option<usize>)
        requires
            old(self).wf(),
            old(self).started@.len() <= registry@.len(),
        ensures
            final(self).wf(),
            final(self).started@ == old(self).started@,
            old(self).next <= final(self).next,
            forall|id: int|
                0 <= id < old(self).next ==> final(self).seen@[id] == old(self).seen@[id],
            forall|id: int|
                old(self).next <= id < final(self).next ==> #[trigger] final(self).seen@[id]
                    == registry@[id],
            waiting is None <==> final(self).complete(),
            waiting is Some ==> waiting->0 == final(self).next && !cleared(
                final(self).started@[waiting->0 as int],
                registry@[waiting->0 as int],
            ),
    {
        while self.next < self.started.len()
            invariant
                self.wf(),
                self.started@ == old(self).started@,
                self.started@.len() <= registry@.len(),
                old(self).next <= self.next,
                forall|id: int| 0 <= id < old(self).next ==> self.seen@[id] == old(self).seen@[id],
                forall|id: int|
                    old(self).next <= id < self.next ==> #[trigger] self.seen@[id] == registry@[id],
            decreases self.started@.len() - self.next,
        {
            let id: usize = self.next;
            let now = registry.load(id);
            match self.started[id] {
                Some(s) => {
                    match now {
                        Some(o) => {
                            if !has_released(s, o) {
                                return Some(id);
                            }
                        },
                        None => {},
                    }
                },
                None => {},
            }
            self.seen = Ghost(self.seen@.push(now));
            self.next = id + 1;
        }
        None
    }
}

} // verus!
