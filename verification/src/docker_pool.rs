//! The warm-container pool: a ready queue of sandbox identities and a map
//! from identity to container record, with take/release/shutdown
//! transitions. Starting a container for every request would dominate
//! request latency, so containers are kept alive and recycled.

use std::collections::VecDeque;
use vstd::prelude::*;

verus! {

/// One live sandbox container: the name its process runs under and the
/// private working directory bound to it.
pub struct Container {
    pub name: String,
    pub directory: String,
}

/// The mathematical image of a [`Container`]: both fields as character
/// sequences.
pub struct ContainerView {
    pub name: Seq<char>,
    pub directory: Seq<char>,
}

impl View for Container {
    type V = ContainerView;

    open spec fn view(&self) -> ContainerView {
        ContainerView { name: self.name@, directory: self.directory@ }
    }
}

impl Clone for Container {
    fn clone(&self) -> (res: Self)
        ensures
            res@ == self@,
    {
        Container { name: self.name.clone(), directory: self.directory.clone() }
    }
}

/// The mathematical image of a whole pool: the identity counter, the ready
/// queue as a sequence (front at index 0), the live containers as a map
/// from identity to record, and the two water marks.
#[verifier::ext_equal]
pub struct PoolView {
    pub next_id: usize,
    pub ready: Seq<usize>,
    pub containers: Map<usize, ContainerView>,
    pub min_ready: usize,
    pub max_ready: usize,
}

/// The map described by an association list of identities and records;
/// later entries win, though a well-formed pool never repeats an identity.
pub open spec fn map_of(entries: Seq<(usize, Container)>) -> Map<usize, ContainerView>
    decreases entries.len(),
{
    if entries.len() == 0 {
        Map::empty()
    } else {
        map_of(entries.drop_last()).insert(entries.last().0, entries.last().1@)
    }
}

/// The identities of an association list, in entry order.
pub open spec fn entry_ids(entries: Seq<(usize, Container)>) -> Seq<usize> {
    entries.map_values(|p: (usize, Container)| p.0)
}

impl PoolView {
    /// The pool invariant: every ready identity is backed by a live
    /// record, no identity is ready twice, the ready queue never exceeds
    /// the high-water mark, every held identity was generated by the
    /// counter, and the water marks are ordered.
    pub open spec fn wf(self) -> bool {
        &&& self.ready.no_duplicates()
        &&& forall|i: int|
            0 <= i < self.ready.len() ==> self.containers.dom().contains(#[trigger] self.ready[i])
        &&& self.ready.len() <= self.max_ready
        &&& forall|id: usize| #[trigger] self.containers.dom().contains(id) ==> id < self.next_id
        &&& self.min_ready <= self.max_ready
        &&& self.containers.dom().finite()
    }

    /// An identity currently assigned to a caller: held, but not ready.
    pub open spec fn is_checked_out(self, id: usize) -> bool {
        self.containers.dom().contains(id) && !self.ready.contains(id)
    }

    /// The set of identities currently assigned to callers.
    pub open spec fn checked_out_ids(self) -> Set<usize> {
        self.containers.dom().difference(self.ready.to_set())
    }
}

/// A fresh identity is handed out and the counter moves past it.
pub open spec fn allocate_step(pre: PoolView, post: PoolView, id: usize) -> bool {
    &&& pre.next_id < usize::MAX
    &&& id == pre.next_id
    &&& post == (PoolView { next_id: (pre.next_id + 1) as usize, ..pre })
}

/// A freshly provisioned container enters the pool: its record is
/// registered and its identity joins the back of the ready queue.
pub open spec fn admit_step(pre: PoolView, post: PoolView, id: usize, c: ContainerView) -> bool {
    &&& id < pre.next_id
    &&& !pre.containers.dom().contains(id)
    &&& pre.ready.len() < pre.max_ready
    &&& post == (PoolView {
        ready: pre.ready.push(id),
        containers: pre.containers.insert(id, c),
        ..pre
    })
}

/// The longest-waiting ready identity is handed out; its record stays
/// registered while it is checked out.
pub open spec fn take_step(pre: PoolView, post: PoolView, id: usize) -> bool {
    &&& pre.ready.len() > 0
    &&& id == pre.ready[0]
    &&& post == (PoolView { ready: pre.ready.drop_first(), ..pre })
}

/// A checked-out identity below the high-water mark rejoins the back of
/// the ready queue for reuse.
pub open spec fn recycle_step(pre: PoolView, post: PoolView, id: usize) -> bool {
    &&& pre.is_checked_out(id)
    &&& pre.ready.len() < pre.max_ready
    &&& post == (PoolView { ready: pre.ready.push(id), ..pre })
}

/// A checked-out identity released while the ready queue is at the
/// high-water mark leaves the pool for good.
pub open spec fn destroy_step(pre: PoolView, post: PoolView, id: usize) -> bool {
    &&& pre.is_checked_out(id)
    &&& pre.ready.len() >= pre.max_ready
    &&& post == (PoolView { containers: pre.containers.remove(id), ..pre })
}

/// A release is either a recycling or a destruction.
pub open spec fn release_step(pre: PoolView, post: PoolView, id: usize) -> bool {
    recycle_step(pre, post, id) || destroy_step(pre, post, id)
}

/// The pool empties; every registered record leaves it at once.
pub open spec fn shutdown_step(pre: PoolView, post: PoolView) -> bool {
    post == (PoolView {
        ready: Seq::<usize>::empty(),
        containers: Map::<usize, ContainerView>::empty(),
        ..pre
    })
}

/// No identity owns two entries of an association list.
pub open spec fn ids_unique(entries: Seq<(usize, Container)>) -> bool {
    forall|j: int, k: int|
        0 <= j < k < entries.len() ==> (#[trigger] entries[j]).0 != (#[trigger] entries[k]).0
}

proof fn lemma_map_of_dom(entries: Seq<(usize, Container)>, id: usize)
    ensures
        map_of(entries).dom().contains(id) <==> (exists|j: int|
            0 <= j < entries.len() && (#[trigger] entries[j]).0 == id),
    decreases entries.len(),
{
    if entries.len() == 0 {
    } else {
        let prefix = entries.drop_last();
        lemma_map_of_dom(prefix, id);
        if entries.last().0 == id {
            assert((entries[entries.len() - 1]).0 == id);
        } else if exists|j: int| 0 <= j < prefix.len() && (#[trigger] prefix[j]).0 == id {
            let j = choose|j: int| 0 <= j < prefix.len() && (#[trigger] prefix[j]).0 == id;
            assert((entries[j]).0 == id);
        } else if exists|j: int| 0 <= j < entries.len() && (#[trigger] entries[j]).0 == id {
            let j = choose|j: int| 0 <= j < entries.len() && (#[trigger] entries[j]).0 == id;
            assert(j < entries.len() - 1 ==> (prefix[j]).0 == id);
        }
    }
}

proof fn lemma_ids_unique_prefix(entries: Seq<(usize, Container)>)
    requires
        ids_unique(entries),
        entries.len() > 0,
    ensures
        ids_unique(entries.drop_last()),
{
    let prefix = entries.drop_last();
    assert forall|j: int, k: int| 0 <= j < k < prefix.len() implies (#[trigger] prefix[j]).0
        != (#[trigger] prefix[k]).0 by {
        assert((entries[j]).0 != (entries[k]).0);
    }
}

proof fn lemma_map_of_get(entries: Seq<(usize, Container)>, j: int)
    requires
        ids_unique(entries),
        0 <= j < entries.len(),
    ensures
        map_of(entries).dom().contains((entries[j]).0),
        map_of(entries)[(entries[j]).0] == (entries[j]).1@,
    decreases entries.len(),
{
    if j == entries.len() - 1 {
    } else {
        lemma_ids_unique_prefix(entries);
        lemma_map_of_get(entries.drop_last(), j);
        assert((entries[j]).0 != entries.last().0);
    }
}

proof fn lemma_map_of_remove(entries: Seq<(usize, Container)>, j: int)
    requires
        ids_unique(entries),
        0 <= j < entries.len(),
    ensures
        map_of(entries.remove(j)) == map_of(entries).remove((entries[j]).0),
    decreases entries.len(),
{
    let id = (entries[j]).0;
    let prefix = entries.drop_last();
    lemma_ids_unique_prefix(entries);
    if j == entries.len() - 1 {
        assert(entries.remove(j) =~= prefix);
        lemma_map_of_dom(prefix, id);
        assert(!map_of(prefix).dom().contains(id));
        assert(map_of(prefix) =~= map_of(prefix).insert(id, entries.last().1@).remove(id));
    } else {
        lemma_map_of_remove(prefix, j);
        let shorter = entries.remove(j);
        assert(shorter.len() == entries.len() - 1);
        assert(shorter.drop_last() =~= prefix.remove(j));
        assert(shorter.last() == entries.last());
        assert(map_of(shorter) == map_of(prefix.remove(j)).insert(
            entries.last().0,
            entries.last().1@,
        ));
        assert(entries.last().0 != id);
        assert(map_of(prefix).remove(id).insert(entries.last().0, entries.last().1@)
            =~= map_of(prefix).insert(entries.last().0, entries.last().1@).remove(id));
    }
}

proof fn lemma_map_of_len(entries: Seq<(usize, Container)>)
    requires
        ids_unique(entries),
    ensures
        map_of(entries).dom().finite(),
        map_of(entries).dom().len() == entries.len(),
    decreases entries.len(),
{
    if entries.len() == 0 {
        assert(map_of(entries).dom() =~= Set::<usize>::empty());
    } else {
        let prefix = entries.drop_last();
        lemma_ids_unique_prefix(entries);
        lemma_map_of_len(prefix);
        lemma_map_of_dom(prefix, entries.last().0);
        assert(!map_of(prefix).dom().contains(entries.last().0));
        assert(map_of(entries).dom() =~= map_of(prefix).dom().insert(entries.last().0));
    }
}

/// The pool itself: a monotone identity counter, the FIFO ready queue, and
/// the association list backing the identity-to-record map. The fields are
/// private: every mutation goes through the verified transitions.
pub struct DockerPool {
    next_id: usize,
    ready: VecDeque<usize>,
    containers: Vec<(usize, Container)>,
    min_ready: usize,
    max_ready: usize,
}

impl View for DockerPool {
    type V = PoolView;

    closed spec fn view(&self) -> PoolView {
        PoolView {
            next_id: self.next_id,
            ready: self.ready@,
            containers: map_of(self.containers@),
            min_ready: self.min_ready,
            max_ready: self.max_ready,
        }
    }
}

impl DockerPool {
    /// The representation invariant: the association list never repeats an
    /// identity, and the abstract pool is well-formed.
    pub closed spec fn wf(&self) -> bool {
        &&& ids_unique(self.containers@)
        &&& self@.wf()
    }

    /// A well-formed pool has a well-formed view; callers reason about the
    /// abstract state through this fact.
    pub proof fn lemma_wf_view(&self)
        requires
            self.wf(),
        ensures
            self@.wf(),
    {
    }

    /// A pool with no containers, no ready identities, and the given water
    /// marks. Nothing is provisioned here: records enter the pool one by
    /// one through [`DockerPool::insert_ready`] once their containers run.
    pub fn new(min_ready: usize, max_ready: usize) -> (pool: DockerPool)
        requires
            min_ready <= max_ready,
        ensures
            pool.wf(),
            pool@ == (PoolView {
                next_id: 0usize,
                ready: Seq::<usize>::empty(),
                containers: Map::<usize, ContainerView>::empty(),
                min_ready,
                max_ready,
            }),
    {
        let pool = DockerPool {
            next_id: 0,
            ready: VecDeque::new(),
            containers: Vec::new(),
            min_ready,
            max_ready,
        };
        proof {
            assert(pool@.containers =~= Map::<usize, ContainerView>::empty());
            assert(pool@ =~= (PoolView {
                next_id: 0usize,
                ready: Seq::<usize>::empty(),
                containers: Map::<usize, ContainerView>::empty(),
                min_ready,
                max_ready,
            }));
        }
        pool
    }

    /// Hand out a fresh identity, never to be produced again by this pool.
    /// The caller names a container after it, starts the container, and
    /// only then inserts the record.
    pub fn allocate_id(&mut self) -> (id: usize)
        requires
            old(self).wf(),
            old(self)@.next_id < usize::MAX,
        ensures
            final(self).wf(),
            allocate_step(old(self)@, final(self)@, id),
    {
        let id = self.next_id;
        self.next_id = self.next_id + 1;
        proof {
            assert(self@ =~= (PoolView { next_id: (id + 1) as usize, ..old(self)@ }));
        }
        id
    }

    /// The index of the entry owning `id`, if the pool holds one.
    fn find_index(&self, id: usize) -> (r: Option<usize>)
        ensures
            match r {
                Some(j) => j < self.containers@.len() && (self.containers@[j as int]).0 == id,
                None => forall|k: int|
                    0 <= k < self.containers@.len() ==> (#[trigger] self.containers@[k]).0 != id,
            },
    {
        let mut i: usize = 0;
        while i < self.containers.len()
            invariant
                i <= self.containers@.len(),
                forall|k: int| 0 <= k < i ==> (#[trigger] self.containers@[k]).0 != id,
            decreases self.containers@.len() - i,
        {
            if self.containers[i].0 == id {
                return Some(i);
            }
            i = i + 1;
        }
        None
    }

    /// Whether a record for `id` is currently held, ready or checked out.
    pub fn contains_id(&self, id: usize) -> (b: bool)
        ensures
            b == self@.containers.dom().contains(id),
    {
        proof {
            lemma_map_of_dom(self.containers@, id);
        }
        match self.find_index(id) {
            Some(_) => true,
            None => false,
        }
    }

    /// Whether `id` sits in the ready queue.
    fn ready_has(&self, id: usize) -> (b: bool)
        ensures
            b == self@.ready.contains(id),
    {
        let mut i: usize = 0;
        while i < self.ready.len()
            invariant
                i <= self.ready@.len(),
                forall|k: int| 0 <= k < i ==> self.ready@[k] != id,
            decreases self.ready@.len() - i,
        {
            if self.ready[i] == id {
                return true;
            }
            i = i + 1;
        }
        false
    }

    /// Whether `id` is checked out: held by the pool but not ready.
    pub fn is_checked_out(&self, id: usize) -> (b: bool)
        ensures
            b == self@.is_checked_out(id),
    {
        self.contains_id(id) && !self.ready_has(id)
    }

    /// A copy of the record held for `id`.
    fn get_container(&self, id: usize) -> (c: Container)
        requires
            self.wf(),
            self@.containers.dom().contains(id),
        ensures
            c@ == self@.containers[id],
    {
        proof {
            lemma_map_of_dom(self.containers@, id);
        }
        match self.find_index(id) {
            Some(j) => {
                proof {
                    lemma_map_of_get(self.containers@, j as int);
                }
                self.containers[j].1.clone()
            },
            None => {
                proof {
                    assert(false);
                }
                vstd::pervasive::unreached()
            },
        }
    }

    /// Remove and return the record held for `id`.
    fn remove_entry(&mut self, id: usize) -> (c: Container)
        requires
            old(self).wf(),
            old(self)@.containers.dom().contains(id),
        ensures
            ids_unique(final(self).containers@),
            c@ == old(self)@.containers[id],
            final(self)@ == (PoolView {
                containers: old(self)@.containers.remove(id),
                ..old(self)@
            }),
    {
        proof {
            lemma_map_of_dom(self.containers@, id);
        }
        match self.find_index(id) {
            Some(j) => {
                proof {
                    lemma_map_of_get(self.containers@, j as int);
                    lemma_map_of_remove(self.containers@, j as int);
                }
                let entry = self.containers.remove(j);
                proof {
                    let orig = old(self).containers@;
                    assert forall|p: int, q: int|
                        0 <= p < q < self.containers@.len() implies (
                    #[trigger] self.containers@[p]).0 != (#[trigger] self.containers@[q]).0 by {
                        let pp = if p < j { p } else { p + 1 };
                        let qq = if q < j { q } else { q + 1 };
                        assert((orig[pp]).0 != (orig[qq]).0);
                    }
                    assert(self@ =~= (PoolView {
                        containers: old(self)@.containers.remove(id),
                        ..old(self)@
                    }));
                }
                entry.1
            },
            None => {
                proof {
                    assert(false);
                }
                vstd::pervasive::unreached()
            },
        }
    }
}

/// Whether the pool can admit a freshly provisioned record under `id`: the
/// identity must come from the counter, must not already be held, and the
/// ready queue must sit below the high-water mark.
pub open spec fn admit_allowed(v: PoolView, id: usize) -> bool {
    &&& id < v.next_id
    &&& !v.containers.dom().contains(id)
    &&& v.ready.len() < v.max_ready
}

/// What [`DockerPool::insert_ready`] answered.
pub enum InsertOutcome {
    /// The record is held and its identity is ready.
    Admitted,
    /// The pool did not admit the record; it comes back to the caller,
    /// which must destroy the container it describes.
    Rejected(Container),
}

/// What [`DockerPool::release`] answered.
pub enum ReleaseOutcome {
    /// The identity is ready again; the caller must wipe and recreate the
    /// returned record's working directory before anyone takes it.
    Recycled(Container),
    /// The ready queue was full, so the record left the pool; the caller
    /// must stop its container and remove its directory.
    Destroyed(Container),
    /// The identity was not checked out; the pool is unchanged.
    NotCheckedOut,
}

impl DockerPool {
    /// Register a provisioned container and queue its identity, or hand
    /// the record back when the identity is stale, already held, or the
    /// ready queue already sits at the high-water mark.
    pub fn insert_ready(&mut self, id: usize, c: Container) -> (r: InsertOutcome)
        requires
            old(self).wf(),
        ensures
            final(self).wf(),
            admit_allowed(old(self)@, id) ==> (r matches InsertOutcome::Admitted
                && admit_step(old(self)@, final(self)@, id, c@)),
            !admit_allowed(old(self)@, id) ==> (r matches InsertOutcome::Rejected(back)
                && back == c && final(self)@ == old(self)@),
    {
        if id >= self.next_id || self.contains_id(id) || self.ready.len() >= self.max_ready {
            return InsertOutcome::Rejected(c);
        }
        proof {
            lemma_map_of_dom(self.containers@, id);
            assert(!self@.ready.contains(id));
        }
        self.containers.push((id, c));
        self.ready.push_back(id);
        proof {
            let orig = old(self).containers@;
            let pre = old(self)@;
            assert(self.containers@.drop_last() =~= orig);
            assert(self@.containers == pre.containers.insert(id, (self.containers@.last().1)@));
            assert forall|p: int, q: int|
                0 <= p < q < self.containers@.len() implies (#[trigger] self.containers@[p]).0 != (
            #[trigger] self.containers@[q]).0 by {
                if q < self.containers@.len() - 1 {
                    assert((orig[p]).0 != (orig[q]).0);
                } else {
                    assert((orig[p]).0 != id);
                }
            }
            assert(self@ =~= (PoolView {
                ready: pre.ready.push(id),
                containers: pre.containers.insert(id, (self.containers@.last().1)@),
                ..pre
            }));
            assert forall|i: int|
                0 <= i < self@.ready.len() implies self@.containers.dom().contains(
                #[trigger] self@.ready[i]) by {
                if i < pre.ready.len() {
                    assert(pre.containers.dom().contains(pre.ready[i]));
                }
            }
            assert(self@.ready.no_duplicates());
        }
        InsertOutcome::Admitted
    }

    /// Pop the longest-waiting ready identity and a copy of its record;
    /// nothing comes out of an empty ready queue. The record stays held
    /// while the caller uses the container, and the caller alone may touch
    /// its working directory until it releases the identity.
    pub fn take(&mut self) -> (r: Option<(usize, Container)>)
        requires
            old(self).wf(),
        ensures
            final(self).wf(),
            old(self)@.ready.len() == 0 ==> r is None && final(self)@ == old(self)@,
            old(self)@.ready.len() > 0 ==> (r matches Some(p)
                && take_step(old(self)@, final(self)@, p.0)
                && old(self)@.containers.dom().contains(p.0)
                && p.1@ == old(self)@.containers[p.0]),
    {
        match self.ready.pop_front() {
            None => None,
            Some(id) => {
                proof {
                    let pre = old(self)@;
                    assert(pre.containers.dom().contains(id));
                    assert(self@.ready =~= pre.ready.drop_first());
                    assert(self@ =~= (PoolView { ready: pre.ready.drop_first(), ..pre }));
                    assert forall|i: int|
                        0 <= i < self@.ready.len() implies self@.containers.dom().contains(
                        #[trigger] self@.ready[i]) by {
                        assert(self@.ready[i] == pre.ready[i + 1]);
                    }
                    assert forall|p: int, q: int|
                        0 <= p < q < self@.ready.len() implies self@.ready[p] != self@.ready[q] by {
                        assert(pre.ready[p + 1] != pre.ready[q + 1]);
                    }
                    assert(self.wf());
                }
                let c = self.get_container(id);
                Some((id, c))
            },
        }
    }

    /// How many containers the caller should provision in the background
    /// to bring the ready queue back to the low-water mark.
    pub fn replenish_need(&self) -> (n: usize)
        ensures
            n == if self@.ready.len() < self@.min_ready {
                self@.min_ready - self@.ready.len()
            } else {
                0
            },
    {
        if self.ready.len() < self.min_ready {
            self.min_ready - self.ready.len()
        } else {
            0
        }
    }

    /// Give a checked-out identity back. Below the high-water mark the
    /// identity rejoins the ready queue and the caller wipes its directory
    /// for reuse; at the mark the record leaves the pool and the caller
    /// destroys the container. Releasing an identity that is not checked
    /// out changes nothing.
    pub fn release(&mut self, id: usize) -> (r: ReleaseOutcome)
        requires
            old(self).wf(),
        ensures
            final(self).wf(),
            !old(self)@.is_checked_out(id) ==> (r matches ReleaseOutcome::NotCheckedOut
                && final(self)@ == old(self)@),
            old(self)@.is_checked_out(id) && old(self)@.ready.len() < old(self)@.max_ready ==> (
            r matches ReleaseOutcome::Recycled(c) && c@ == old(self)@.containers[id]
                && recycle_step(old(self)@, final(self)@, id)),
            old(self)@.is_checked_out(id) && old(self)@.ready.len() >= old(self)@.max_ready ==> (
            r matches ReleaseOutcome::Destroyed(c) && c@ == old(self)@.containers[id]
                && destroy_step(old(self)@, final(self)@, id)),
    {
        if !self.contains_id(id) || self.ready_has(id) {
            return ReleaseOutcome::NotCheckedOut;
        }
        if self.ready.len() >= self.max_ready {
            let c = self.remove_entry(id);
            proof {
                let pre = old(self)@;
                assert forall|i: int|
                    0 <= i < self@.ready.len() implies self@.containers.dom().contains(
                    #[trigger] self@.ready[i]) by {
                    assert(pre.containers.dom().contains(pre.ready[i]));
                    assert(pre.ready[i] != id);
                }
            }
            ReleaseOutcome::Destroyed(c)
        } else {
            let c = self.get_container(id);
            self.ready.push_back(id);
            proof {
                let pre = old(self)@;
                assert(self@ =~= (PoolView { ready: pre.ready.push(id), ..pre }));
                assert forall|i: int|
                    0 <= i < self@.ready.len() implies self@.containers.dom().contains(
                    #[trigger] self@.ready[i]) by {
                    if i < pre.ready.len() {
                        assert(pre.containers.dom().contains(pre.ready[i]));
                    }
                }
                assert(self@.ready.no_duplicates());
            }
            ReleaseOutcome::Recycled(c)
        }
    }

    /// Empty the pool at process termination: every held record, ready or
    /// checked out, comes back to the caller exactly once, paired with its
    /// identity; the caller stops each container and removes each working
    /// directory, best effort.
    pub fn shutdown(&mut self) -> (records: Vec<(usize, Container)>)
        requires
            old(self).wf(),
        ensures
            final(self).wf(),
            shutdown_step(old(self)@, final(self)@),
            records@.len() == old(self)@.containers.dom().len(),
            forall|i: int|
                #![trigger records@[i]]
                0 <= i < records@.len() ==> old(self)@.containers.dom().contains(
                    (records@[i]).0,
                ) && ((records@[i]).1)@ == old(self)@.containers[(records@[i]).0],
            forall|p: int, q: int|
                0 <= p < q < records@.len() ==> (#[trigger] records@[p]).0 != (
                #[trigger] records@[q]).0,
            forall|id: usize| #[trigger]
                old(self)@.containers.dom().contains(id) ==> exists|i: int|
                    0 <= i < records@.len() && (#[trigger] records@[i]).0 == id,
    {
        self.ready.clear();
        let ghost orig = old(self).containers@;
        proof {
            lemma_map_of_len(orig);
        }
        let mut records: Vec<(usize, Container)> = Vec::new();
        while self.containers.len() > 0
            invariant
                ids_unique(orig),
                map_of(orig) == old(self)@.containers,
                self.containers@ == orig.subrange(0, self.containers@.len() as int),
                self.containers@.len() + records@.len() == orig.len(),
                self.ready@ == Seq::<usize>::empty(),
                self.next_id == old(self).next_id,
                self.min_ready == old(self).min_ready,
                self.max_ready == old(self).max_ready,
                self.min_ready <= self.max_ready,
                forall|i: int|
                    #![trigger records@[i]]
                    0 <= i < records@.len() ==> records@[i] == orig[orig.len() - 1 - i],
            decreases self.containers@.len(),
        {
            let ghost pre_len = self.containers@.len() as int;
            match self.containers.pop() {
                Some(entry) => {
                    proof {
                        assert(entry == orig[pre_len - 1]);
                        assert(self.containers@ =~= orig.subrange(
                            0,
                            self.containers@.len() as int,
                        ));
                    }
                    records.push(entry);
                },
                None => {
                    proof {
                        assert(false);
                    }
                },
            }
        }
        proof {
            assert(map_of(self.containers@) =~= Map::<usize, ContainerView>::empty());
            assert(self@ =~= (PoolView {
                ready: Seq::<usize>::empty(),
                containers: Map::<usize, ContainerView>::empty(),
                ..old(self)@
            }));
            assert forall|i: int|
                #![trigger records@[i]]
                0 <= i < records@.len() implies old(self)@.containers.dom().contains(
                (records@[i]).0) && ((records@[i]).1)@ == old(self)@.containers[(
            records@[i]).0] by {
                lemma_map_of_get(orig, orig.len() - 1 - i);
            }
            assert forall|p: int, q: int|
                0 <= p < q < records@.len() implies (#[trigger] records@[p]).0 != (
            #[trigger] records@[q]).0 by {
                assert((orig[orig.len() - 1 - q]).0 != (orig[orig.len() - 1 - p]).0);
            }
            assert forall|id: usize| #[trigger]
                old(self)@.containers.dom().contains(id) implies exists|i: int|
                0 <= i < records@.len() && (#[trigger] records@[i]).0 == id by {
                lemma_map_of_dom(orig, id);
                let j = choose|j: int| 0 <= j < orig.len() && (#[trigger] orig[j]).0 == id;
                assert((records@[orig.len() - 1 - j]).0 == id);
            }
        }
        records
    }

    /// The identity the counter will hand out next. A caller provisioning
    /// in the background checks this for headroom before allocating.
    pub fn next_id(&self) -> (n: usize)
        ensures
            n == self@.next_id,
    {
        self.next_id
    }

    /// How many identities are ready right now.
    pub fn ready_len(&self) -> (n: usize)
        ensures
            n == self@.ready.len(),
    {
        self.ready.len()
    }

    /// How many containers the pool holds, ready and checked out together.
    pub fn container_count(&self) -> (n: usize)
        requires
            self.wf(),
        ensures
            n == self@.containers.dom().len(),
    {
        proof {
            lemma_map_of_len(self.containers@);
        }
        self.containers.len()
    }
}

/// Handing out a fresh identity preserves the pool invariant.
pub proof fn lemma_allocate_preserves_wf(pre: PoolView, post: PoolView, id: usize)
    requires
        pre.wf(),
        allocate_step(pre, post, id),
    ensures
        post.wf(),
{
}

/// A fresh identity never names a container the pool still holds: the
/// counter moves strictly past every identity it has produced, so an
/// identity is never reused while its record is held.
pub proof fn lemma_fresh_identity(pre: PoolView, post: PoolView, id: usize)
    requires
        pre.wf(),
        allocate_step(pre, post, id),
    ensures
        !pre.containers.dom().contains(id),
        !post.containers.dom().contains(id),
{
}

/// Admitting a provisioned record preserves the pool invariant.
pub proof fn lemma_admit_preserves_wf(pre: PoolView, post: PoolView, id: usize, c: ContainerView)
    requires
        pre.wf(),
        admit_step(pre, post, id, c),
    ensures
        post.wf(),
{
    assert forall|k: int| 0 <= k < pre.ready.len() implies pre.ready[k] != id by {
        assert(pre.containers.dom().contains(pre.ready[k]));
    }
    assert forall|p: int, q: int| 0 <= p < q < post.ready.len() implies post.ready[p]
        != post.ready[q] by {
        if q < pre.ready.len() {
            assert(pre.ready[p] != pre.ready[q]);
        } else {
            assert(pre.ready[p] != id);
        }
    }
    assert forall|i: int|
        0 <= i < post.ready.len() implies post.containers.dom().contains(
        #[trigger] post.ready[i]) by {
        if i < pre.ready.len() {
            assert(pre.containers.dom().contains(pre.ready[i]));
        }
    }
}

/// Taking the queue's head preserves the pool invariant.
pub proof fn lemma_take_preserves_wf(pre: PoolView, post: PoolView, id: usize)
    requires
        pre.wf(),
        take_step(pre, post, id),
    ensures
        post.wf(),
{
    assert forall|i: int|
        0 <= i < post.ready.len() implies post.containers.dom().contains(
        #[trigger] post.ready[i]) by {
        assert(post.ready[i] == pre.ready[i + 1]);
        assert(pre.containers.dom().contains(pre.ready[i + 1]));
    }
    assert forall|p: int, q: int| 0 <= p < q < post.ready.len() implies post.ready[p]
        != post.ready[q] by {
        assert(pre.ready[p + 1] != pre.ready[q + 1]);
    }
}

/// Releasing a checked-out identity preserves the pool invariant, whether
/// the release recycles or destroys.
pub proof fn lemma_release_preserves_wf(pre: PoolView, post: PoolView, id: usize)
    requires
        pre.wf(),
        release_step(pre, post, id),
    ensures
        post.wf(),
{
    if recycle_step(pre, post, id) {
        assert forall|p: int, q: int| 0 <= p < q < post.ready.len() implies post.ready[p]
            != post.ready[q] by {
            if q < pre.ready.len() {
                assert(pre.ready[p] != pre.ready[q]);
            } else {
                assert(!pre.ready.contains(id));
                assert(pre.ready[p] != id);
            }
        }
        assert forall|i: int|
            0 <= i < post.ready.len() implies post.containers.dom().contains(
            #[trigger] post.ready[i]) by {
            if i < pre.ready.len() {
                assert(pre.containers.dom().contains(pre.ready[i]));
            }
        }
    } else {
        assert forall|i: int|
            0 <= i < post.ready.len() implies post.containers.dom().contains(
            #[trigger] post.ready[i]) by {
            assert(pre.containers.dom().contains(pre.ready[i]));
            assert(!pre.ready.contains(id));
            assert(pre.ready[i] != id);
        }
    }
}

/// Shutting down preserves the pool invariant: the empty pool is
/// well-formed under the old water marks and counter.
pub proof fn lemma_shutdown_preserves_wf(pre: PoolView, post: PoolView)
    requires
        pre.wf(),
        shutdown_step(pre, post),
    ensures
        post.wf(),
{
}

/// Exclusivity, first half: an identity just handed out by a take is
/// checked out, so it sits in no ready queue until its own release.
pub proof fn lemma_take_makes_checked_out(pre: PoolView, post: PoolView, id: usize)
    requires
        pre.wf(),
        take_step(pre, post, id),
    ensures
        post.is_checked_out(id),
{
    assert forall|k: int| 0 <= k < post.ready.len() implies post.ready[k] != id by {
        assert(post.ready[k] == pre.ready[k + 1]);
        assert(pre.ready[k + 1] != pre.ready[0]);
    }
    assert(!post.ready.contains(id));
}

/// Exclusivity, second half: two takes in a row hand out two different
/// identities; no two callers ever hold the same sandbox.
pub proof fn lemma_take_twice_distinct(
    s0: PoolView,
    s1: PoolView,
    s2: PoolView,
    id1: usize,
    id2: usize,
)
    requires
        s0.wf(),
        take_step(s0, s1, id1),
        take_step(s1, s2, id2),
    ensures
        id1 != id2,
{
    assert(id2 == s0.ready[1]);
    assert(s0.ready[0] != s0.ready[1]);
}

/// Exclusivity, third half: while an identity is checked out, every
/// transition other than its own release leaves it checked out; only
/// `release` can make it ready again.
pub proof fn lemma_checked_out_stable(
    pre: PoolView,
    post: PoolView,
    id: usize,
    other: usize,
    c: ContainerView,
)
    requires
        pre.wf(),
        pre.is_checked_out(id),
        allocate_step(pre, post, other) || take_step(pre, post, other) || admit_step(
            pre,
            post,
            other,
            c,
        ) || (release_step(pre, post, other) && other != id),
    ensures
        post.is_checked_out(id),
{
    if take_step(pre, post, other) {
        assert forall|k: int| 0 <= k < post.ready.len() implies post.ready[k] != id by {
            assert(post.ready[k] == pre.ready[k + 1]);
            assert(!pre.ready.contains(id));
        }
        assert(!post.ready.contains(id));
    } else if admit_step(pre, post, other, c) {
        assert(other != id);
        assert forall|k: int| 0 <= k < post.ready.len() implies post.ready[k] != id by {
            if k < pre.ready.len() {
                assert(!pre.ready.contains(id));
                assert(pre.ready[k] != id);
            }
        }
        assert(!post.ready.contains(id));
    } else if release_step(pre, post, other) && other != id {
        if recycle_step(pre, post, other) {
            assert forall|k: int| 0 <= k < post.ready.len() implies post.ready[k] != id by {
                if k < pre.ready.len() {
                    assert(!pre.ready.contains(id));
                    assert(pre.ready[k] != id);
                }
            }
            assert(!post.ready.contains(id));
        }
    }
}

/// Bounded growth: the pool never holds more containers than the
/// high-water mark plus however many are checked out; the cap binds the
/// ready portion, not the in-flight one.
pub proof fn lemma_bounded_growth(v: PoolView)
    requires
        v.wf(),
    ensures
        v.containers.dom().len() <= v.max_ready + v.checked_out_ids().len(),
{
    broadcast use vstd::seq_lib::seq_to_set_is_finite;

    let rs = v.ready.to_set();
    v.ready.unique_seq_to_set();
    assert forall|id: usize| #[trigger]
        v.containers.dom().contains(id) implies rs.union(v.checked_out_ids()).contains(id) by {
        if !v.ready.contains(id) {
            assert(v.checked_out_ids().contains(id));
        }
    }
    assert(v.containers.dom() =~= rs.union(v.checked_out_ids()));
    vstd::set_lib::lemma_len_subset(v.checked_out_ids(), v.containers.dom());
    vstd::set_lib::lemma_len_union(rs, v.checked_out_ids());
}

/// Recycling idempotence, pool half: a recycled identity is immediately
/// eligible again — ready, still backed by the same record, with the pool
/// map untouched. (The caller wipes the working directory itself before
/// the identity is next taken.)
pub proof fn lemma_recycle_eligible(pre: PoolView, post: PoolView, id: usize)
    requires
        pre.wf(),
        recycle_step(pre, post, id),
    ensures
        post.ready.contains(id),
        post.containers == pre.containers,
        post.containers.dom().contains(id),
        post.containers[id] == pre.containers[id],
{
    assert(post.ready[post.ready.len() - 1] == id);
}

/// Recycling idempotence, take half: recycling into an otherwise empty
/// ready queue makes the very next take hand the same identity out again.
pub proof fn lemma_recycle_then_take(
    s0: PoolView,
    s1: PoolView,
    s2: PoolView,
    id: usize,
    id2: usize,
)
    requires
        s0.wf(),
        s0.ready.len() == 0,
        recycle_step(s0, s1, id),
        take_step(s1, s2, id2),
    ensures
        id2 == id,
{
}

} // verus!
