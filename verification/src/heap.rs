//! The object pool, free list, root set, allocator and collector.

use vstd::prelude::*;
use vstd::seq_lib::*;
use vstd::set_lib::*;

use crate::reach::{points_to, reaches, lemma_reaches_refl, lemma_reaches_step,
    lemma_reaches_prepend, lemma_reaches_valid, lemma_reaches_in_closed_set, lemma_reaches_agree,
    lemma_reaches_monotone};
use crate::sets::{ids_below, lemma_ids_below_len, lemma_disjoint_union_len};

verus! {

/// The ways a heap operation can fail.
///
/// `OutOfMemory` is recoverable (drop roots and retry); the other two report
/// caller errors: an identity outside the pool, or a payload read from a
/// record that is currently free.
#[derive(Clone, Copy, Debug, PartialEq, Eq, Structural)]
pub enum GcError {
    OutOfMemory,
    InvalidReference,
    UninitializedData,
}

/// One record of the pool: two optional outgoing links, a mark bit used only
/// inside a collection pass, a stable identity, and an optional payload.
/// A record is live exactly when it holds a payload.
pub struct Object<T> {
    head: Option<usize>,
    tail: Option<usize>,
    marked: bool,
    id: usize,
    data: Option<T>,
}

impl<T> Object<T> {
    /// The `head` link.
    pub closed spec fn spec_head(&self) -> Option<usize> {
        self.head
    }

    /// The `tail` link.
    pub closed spec fn spec_tail(&self) -> Option<usize> {
        self.tail
    }

    /// The mark bit.
    pub closed spec fn spec_marked(&self) -> bool {
        self.marked
    }

    /// The identity of the slot this record occupies.
    pub closed spec fn spec_id(&self) -> usize {
        self.id
    }

    /// The payload, if the record is live.
    pub closed spec fn spec_data(&self) -> Option<T> {
        self.data
    }

    /// Point the `head` link at another record, or clear it.
    pub fn set_head(&mut self, head: Option<usize>)
        ensures
            final(self).spec_head() == head,
            final(self).spec_tail() == old(self).spec_tail(),
            final(self).spec_marked() == old(self).spec_marked(),
            final(self).spec_id() == old(self).spec_id(),
            final(self).spec_data() == old(self).spec_data(),
    {
        self.head = head;
    }

    /// Point the `tail` link at another record, or clear it.
    pub fn set_tail(&mut self, tail: Option<usize>)
        ensures
            final(self).spec_tail() == tail,
            final(self).spec_head() == old(self).spec_head(),
            final(self).spec_marked() == old(self).spec_marked(),
            final(self).spec_id() == old(self).spec_id(),
            final(self).spec_data() == old(self).spec_data(),
    {
        self.tail = tail;
    }

    /// The identity of the slot this record occupies.
    pub fn get_id(&self) -> (r: usize)
        ensures
            r == self.spec_id(),
    {
        self.id
    }

    /// Install a payload, making the record live.
    pub fn set_data(&mut self, data: T)
        ensures
            final(self).spec_data() == Some(data),
            final(self).spec_head() == old(self).spec_head(),
            final(self).spec_tail() == old(self).spec_tail(),
            final(self).spec_marked() == old(self).spec_marked(),
            final(self).spec_id() == old(self).spec_id(),
    {
        self.data = Some(data);
    }

    /// The `head` link.
    pub fn head(&self) -> (r: Option<usize>)
        ensures
            r == self.spec_head(),
    {
        self.head
    }

    /// The `tail` link.
    pub fn tail(&self) -> (r: Option<usize>)
        ensures
            r == self.spec_tail(),
    {
        self.tail
    }
}

/// The heap: a fixed-length pool of records, the free list of identities
/// available for allocation, and the root set of identities pinned as
/// reachable.
pub struct Heap<T> {
    heap: Vec<Object<T>>,
    root_set: Vec<usize>,
    size: usize,
    free_list: Vec<usize>,
}

impl<T> Heap<T> {
    /// The records of the pool, by identity.
    pub closed spec fn objs(&self) -> Seq<Object<T>> {
        self.heap@
    }

    /// The configured capacity.
    pub closed spec fn cap(&self) -> usize {
        self.size
    }

    /// The free list: identities available for allocation, in stack order.
    pub closed spec fn free_ids(&self) -> Seq<usize> {
        self.free_list@
    }

    /// The root set, in insertion order.
    pub closed spec fn root_seq(&self) -> Seq<usize> {
        self.root_set@
    }

    /// The root set.
    pub open spec fn root_ids(&self) -> Set<usize> {
        self.root_seq().to_set()
    }

    /// The link structure of the pool.
    pub open spec fn links(&self) -> Seq<(Option<usize>, Option<usize>)> {
        Seq::new(self.objs().len(), |i: int| (self.objs()[i].spec_head(), self.objs()[i].spec_tail()))
    }

    /// A record is live when it holds a payload.
    pub open spec fn is_live(&self, id: usize) -> bool {
        id < self.cap() && self.objs()[id as int].spec_data() is Some
    }

    /// The set of live identities.
    pub open spec fn live_ids(&self) -> Set<usize> {
        Set::new(|i: usize| self.is_live(i))
    }

    /// The set of identities reachable from the root set by following links.
    pub open spec fn reach_set(&self) -> Set<usize> {
        Set::new(
            |d: usize| exists|r: usize| self.root_ids().contains(r) && reaches(self.links(), r, d),
        )
    }

    /// The pool has exactly `cap` records and each knows its own identity.
    pub open spec fn pool_ok(&self) -> bool {
        &&& self.objs().len() == self.cap()
        &&& forall|i: int| 0 <= i < self.cap() ==> (#[trigger] self.objs()[i]).spec_id() == i as usize
    }

    /// The free list holds exactly the identities of free records, without
    /// duplicates.
    pub open spec fn free_list_exact(&self) -> bool {
        &&& forall|k: int|
            0 <= k < self.free_ids().len() ==> (#[trigger] self.free_ids()[k]) < self.cap()
                && self.objs()[self.free_ids()[k] as int].spec_data() is None
        &&& forall|i: usize|
            i < self.cap() && (#[trigger] self.objs()[i as int]).spec_data() is None
                ==> self.free_ids().contains(i)
        &&& self.free_ids().no_duplicates()
    }

    /// Free records carry no links.
    pub open spec fn free_blank(&self) -> bool {
        forall|i: int|
            0 <= i < self.cap() && (#[trigger] self.objs()[i]).spec_data() is None
                ==> self.objs()[i].spec_head() is None && self.objs()[i].spec_tail() is None
    }

    /// Every root denotes a live record, and the root list has no duplicates.
    pub open spec fn roots_ok(&self) -> bool {
        &&& forall|k: int| 0 <= k < self.root_seq().len() ==> self.is_live(#[trigger] self.root_seq()[k])
        &&& self.root_seq().no_duplicates()
    }

    /// Every link out of any record denotes a live record.
    pub open spec fn edges_ok(&self) -> bool {
        forall|i: int, j: usize|
            0 <= i < self.cap() && #[trigger] points_to(self.links()[i], j) ==> self.is_live(j)
    }

    /// No record is marked (true whenever a collection pass is not running).
    pub open spec fn marks_clear(&self) -> bool {
        forall|i: int| 0 <= i < self.cap() ==> !(#[trigger] self.objs()[i]).spec_marked()
    }

    /// The structural invariant, marks aside: it holds at every point of a
    /// collection pass.
    pub open spec fn inv(&self) -> bool {
        &&& self.pool_ok()
        &&& self.free_list_exact()
        &&& self.free_blank()
        &&& self.roots_ok()
        &&& self.edges_ok()
    }

    /// Well-formedness outside a collection pass: the structural invariant,
    /// and all mark bits clear.
    pub open spec fn wf(&self) -> bool {
        &&& self.inv()
        &&& self.marks_clear()
    }

    /// Build a heap of `heap_size` records, all free, all links absent, all
    /// unmarked, with identities `0..heap_size` on the free list.
    pub fn new(heap_size: usize) -> (h: Heap<T>)
        ensures
            h.wf(),
            h.cap() == heap_size,
            h.root_ids() == Set::<usize>::empty(),
            h.free_ids() == Seq::new(heap_size as nat, |i: int| i as usize),
            forall|i: int|
                0 <= i < heap_size ==> (#[trigger] h.objs()[i]).spec_data() is None
                    && h.objs()[i].spec_head() is None && h.objs()[i].spec_tail() is None,
    {
        let mut pool: Vec<Object<T>> = Vec::new();
        let mut free_list: Vec<usize> = Vec::new();
        let mut i: usize = 0;
        while i < heap_size
            invariant
                i <= heap_size,
                pool@.len() == i,
                free_list@.len() == i,
                forall|k: int|
                    0 <= k < i ==> {
                        let o = #[trigger] pool@[k];
                        o.spec_id() == k as usize && o.spec_head() is None && o.spec_tail() is None
                            && o.spec_data() is None && !o.spec_marked()
                    },
                forall|k: int| 0 <= k < i ==> (#[trigger] free_list@[k]) == k as usize,
            decreases heap_size - i,
        {
            pool.push(
                Object { head: None, tail: None, marked: false, id: i, data: None },
            );
            free_list.push(i);
            i = i + 1;
        }
        let h = Heap { heap: pool, root_set: Vec::new(), size: heap_size, free_list };
        proof {
            assert(h.root_ids() =~= Set::<usize>::empty());
            assert(h.free_ids() =~= Seq::new(heap_size as nat, |i: int| i as usize));
            assert forall|i: usize|
                i < h.cap() && (#[trigger] h.objs()[i as int]).spec_data() is None implies h
                .free_ids().contains(i) by {
                assert(h.free_ids()[i as int] == i);
            }
            assert forall|i: int, j: usize|
                0 <= i < h.cap() && #[trigger] points_to(h.links()[i], j) implies h.is_live(j) by {
                assert(h.objs()[i].spec_head() is None && h.objs()[i].spec_tail() is None);
            }
        }
        h
    }

    /// Borrow the record at `id`; `InvalidReference` when `id` is outside the
    /// pool.
    pub fn get(&self, id: usize) -> (r: Result<&Object<T>, GcError>)
        requires
            self.wf(),
        ensures
            match r {
                Ok(o) => id < self.cap() && *o == self.objs()[id as int],
                Err(e) => id >= self.cap() && e == GcError::InvalidReference,
            },
    {
        if id >= self.size {
            Err(GcError::InvalidReference)
        } else {
            Ok(&self.heap[id])
        }
    }

    /// Borrow the payload of the record at `id`; `InvalidReference` when `id`
    /// is outside the pool, `UninitializedData` when the record is free.
    pub fn get_data(&self, id: usize) -> (r: Result<&T, GcError>)
        requires
            self.wf(),
        ensures
            match r {
                Ok(d) => self.is_live(id) && self.objs()[id as int].spec_data() == Some(*d),
                Err(e) => if id >= self.cap() {
                    e == GcError::InvalidReference
                } else {
                    !self.is_live(id) && e == GcError::UninitializedData
                },
            },
    {
        if id >= self.size {
            Err(GcError::InvalidReference)
        } else {
            match self.heap[id].data.as_ref() {
                Some(d) => Ok(d),
                None => Err(GcError::UninitializedData),
            }
        }
    }

    /// Point the `head` link of the live record `id` at `target` (which must
    /// be live too, when present); `InvalidReference` otherwise.
    pub fn set_head(&mut self, id: usize, target: Option<usize>) -> (r: Result<(), GcError>)
        requires
            old(self).wf(),
        ensures
            final(self).wf(),
            final(self).cap() == old(self).cap(),
            final(self).root_seq() == old(self).root_seq(),
            final(self).free_ids() == old(self).free_ids(),
            r is Ok <==> old(self).is_live(id) && (target matches Some(t) ==> old(self).is_live(
                t,
            )),
            r matches Err(e) ==> e == GcError::InvalidReference && final(self).objs() == old(
                self,
            ).objs(),
            r is Ok ==> {
                &&& forall|i: int|
                    0 <= i < old(self).cap() && i != id ==> final(self).objs()[i] == old(
                        self,
                    ).objs()[i]
                &&& final(self).objs()[id as int].spec_head() == target
                &&& final(self).objs()[id as int].spec_tail() == old(self).objs()[
                    id as int
                ].spec_tail()
                &&& final(self).objs()[id as int].spec_data() == old(self).objs()[
                    id as int
                ].spec_data()
            },
    {
        if id >= self.size || self.heap[id].data.is_none() {
            return Err(GcError::InvalidReference);
        }
        match target {
            Some(t) => {
                if t >= self.size || self.heap[t].data.is_none() {
                    return Err(GcError::InvalidReference);
                }
            },
            None => {},
        }
        self.heap[id].head = target;
        proof {
            self.lemma_wf_after_link_change(*old(self), id);
        }
        Ok(())
    }

    /// Point the `tail` link of the live record `id` at `target` (which must
    /// be live too, when present); `InvalidReference` otherwise.
    pub fn set_tail(&mut self, id: usize, target: Option<usize>) -> (r: Result<(), GcError>)
        requires
            old(self).wf(),
        ensures
            final(self).wf(),
            final(self).cap() == old(self).cap(),
            final(self).root_seq() == old(self).root_seq(),
            final(self).free_ids() == old(self).free_ids(),
            r is Ok <==> old(self).is_live(id) && (target matches Some(t) ==> old(self).is_live(
                t,
            )),
            r matches Err(e) ==> e == GcError::InvalidReference && final(self).objs() == old(
                self,
            ).objs(),
            r is Ok ==> {
                &&& forall|i: int|
                    0 <= i < old(self).cap() && i != id ==> final(self).objs()[i] == old(
                        self,
                    ).objs()[i]
                &&& final(self).objs()[id as int].spec_tail() == target
                &&& final(self).objs()[id as int].spec_head() == old(self).objs()[
                    id as int
                ].spec_head()
                &&& final(self).objs()[id as int].spec_data() == old(self).objs()[
                    id as int
                ].spec_data()
            },
    {
        if id >= self.size || self.heap[id].data.is_none() {
            return Err(GcError::InvalidReference);
        }
        match target {
            Some(t) => {
                if t >= self.size || self.heap[t].data.is_none() {
                    return Err(GcError::InvalidReference);
                }
            },
            None => {},
        }
        self.heap[id].tail = target;
        proof {
            self.lemma_wf_after_link_change(*old(self), id);
        }
        Ok(())
    }

    /// Replace the payload of the live record `id`; `InvalidReference` when
    /// `id` is outside the pool or free.
    pub fn set_data(&mut self, id: usize, data: T) -> (r: Result<(), GcError>)
        requires
            old(self).wf(),
        ensures
            final(self).wf(),
            final(self).cap() == old(self).cap(),
            final(self).root_seq() == old(self).root_seq(),
            final(self).free_ids() == old(self).free_ids(),
            r is Ok <==> old(self).is_live(id),
            r matches Err(e) ==> e == GcError::InvalidReference && final(self).objs() == old(
                self,
            ).objs(),
            r is Ok ==> {
                &&& forall|i: int|
                    0 <= i < old(self).cap() && i != id ==> final(self).objs()[i] == old(
                        self,
                    ).objs()[i]
                &&& final(self).objs()[id as int].spec_data() == Some(data)
                &&& final(self).objs()[id as int].spec_head() == old(self).objs()[
                    id as int
                ].spec_head()
                &&& final(self).objs()[id as int].spec_tail() == old(self).objs()[
                    id as int
                ].spec_tail()
            },
    {
        if id >= self.size || self.heap[id].data.is_none() {
            return Err(GcError::InvalidReference);
        }
        self.heap[id].data = Some(data);
        proof {
            self.lemma_wf_after_link_change(*old(self), id);
        }
        Ok(())
    }

    /// Is `id` currently in the root set?
    pub fn root_contains(&self, id: usize) -> (r: bool)
        ensures
            r == self.root_ids().contains(id),
    {
        let mut k: usize = 0;
        while k < self.root_set.len()
            invariant
                k <= self.root_seq().len(),
                forall|m: int| 0 <= m < k ==> self.root_seq()[m] != id,
            decreases self.root_seq().len() - k,
        {
            if self.root_set[k] == id {
                return true;
            }
            k = k + 1;
        }
        false
    }

    /// Pin the live record `id` as a root; `InvalidReference` when `id` is
    /// outside the pool or free.  Adding a root twice has no further effect.
    pub fn root_add(&mut self, id: usize) -> (r: Result<(), GcError>)
        requires
            old(self).wf(),
        ensures
            final(self).wf(),
            final(self).cap() == old(self).cap(),
            final(self).objs() == old(self).objs(),
            final(self).free_ids() == old(self).free_ids(),
            r is Ok <==> old(self).is_live(id),
            r is Ok ==> final(self).root_ids() == old(self).root_ids().insert(id),
            r matches Err(e) ==> e == GcError::InvalidReference && final(self).root_seq() == old(
                self,
            ).root_seq(),
    {
        if id >= self.size || self.heap[id].data.is_none() {
            return Err(GcError::InvalidReference);
        }
        if !self.root_contains(id) {
            self.root_set.push(id);
            proof {
                let s0 = old(self).root_seq();
                let s1 = self.root_seq();
                assert forall|y: usize| #[trigger] s1.contains(y) implies s0.contains(y) || y
                    == id by {
                    let k = choose|k: int| 0 <= k < s1.len() && s1[k] == y;
                    if k < s0.len() {
                        assert(s0[k] == y);
                    }
                }
                assert forall|y: usize| #[trigger] s0.contains(y) implies s1.contains(y) by {
                    let k = choose|k: int| 0 <= k < s0.len() && s0[k] == y;
                    assert(s1[k] == y);
                }
                assert(s1[s0.len() as int] == id);
                assert(self.root_ids() =~= old(self).root_ids().insert(id));
                assert forall|i: int, j: int| 0 <= i < j < s1.len() implies s1[i] != s1[j] by {
                    if j < s0.len() {
                        assert(s0[i] != s0[j]);
                    } else {
                        assert(!s0.contains(id));
                        assert(s0[i] != id);
                    }
                }
                assert(s1.no_duplicates());
                assert forall|m: int| 0 <= m < s1.len() implies self.is_live(
                    #[trigger] s1[m],
                ) by {
                    if m < s0.len() {
                        assert(s1[m] == s0[m]);
                        assert(old(self).is_live(s0[m]));
                    } else {
                        assert(s1[m] == id);
                    }
                }
                self.lemma_wf_after_roots_change(old(self));
            }
        } else {
            proof {
                assert(old(self).root_seq().contains(id));
                assert(self.root_ids() =~= old(self).root_ids().insert(id));
            }
        }
        Ok(())
    }

    /// Unpin `id` from the root set; returns whether it was present.
    pub fn root_remove(&mut self, id: usize) -> (r: bool)
        requires
            old(self).wf(),
        ensures
            final(self).wf(),
            final(self).cap() == old(self).cap(),
            final(self).objs() == old(self).objs(),
            final(self).free_ids() == old(self).free_ids(),
            r == old(self).root_ids().contains(id),
            final(self).root_ids() == old(self).root_ids().remove(id),
    {
        let mut k: usize = 0;
        while k < self.root_set.len()
            invariant
                old(self).wf(),
                *self == *old(self),
                k <= self.root_seq().len(),
                forall|m: int| 0 <= m < k ==> self.root_seq()[m] != id,
            decreases self.root_seq().len() - k,
        {
            if self.root_set[k] == id {
                self.root_set.remove(k);
                proof {
                    let s0 = old(self).root_seq();
                    let s1 = self.root_seq();
                    assert(s0.no_duplicates());
                    assert(s1 == s0.remove(k as int));
                    assert(s0[k as int] == id);
                    assert(s0.contains(id));
                    assert forall|y: usize| #[trigger] s1.contains(y) implies s0.contains(y) && y
                        != id by {
                        let m = choose|m: int| 0 <= m < s1.len() && s1[m] == y;
                        if m < k {
                            assert(s0[m] == y);
                            assert(s0[m] != s0[k as int]);
                        } else {
                            assert(s0[m + 1] == y);
                            assert(s0[m + 1] != s0[k as int]);
                        }
                    }
                    assert forall|y: usize|
                        #[trigger] s0.contains(y) && y != id implies s1.contains(y) by {
                        let m = choose|m: int| 0 <= m < s0.len() && s0[m] == y;
                        if m < k {
                            assert(s1[m] == y);
                        } else {
                            assert(m != k);
                            assert(s1[m - 1] == y);
                        }
                    }
                    assert(self.root_ids() =~= old(self).root_ids().remove(id));
                    assert forall|i: int, j: int| 0 <= i < j < s1.len() implies s1[i] != s1[j] by {
                        let i0: int = if i < k { i } else { i + 1 };
                        let j0: int = if j < k { j } else { j + 1 };
                        assert(s1[i] == s0[i0]);
                        assert(s1[j] == s0[j0]);
                        assert(s0[i0] != s0[j0]);
                    }
                    assert(s1.no_duplicates());
                    assert forall|m: int| 0 <= m < s1.len() implies self.is_live(
                        #[trigger] s1[m],
                    ) by {
                        let m0: int = if m < k { m } else { m + 1 };
                        assert(s1[m] == s0[m0]);
                        assert(old(self).is_live(s0[m0]));
                    }
                    self.lemma_wf_after_roots_change(old(self));
                }
                return true;
            }
            k = k + 1;
        }
        proof {
            assert(!old(self).root_seq().contains(id));
            assert(!old(self).root_ids().contains(id));
            assert(self.root_ids() =~= old(self).root_ids().remove(id));
        }
        false
    }

    /// The current roots, in insertion order.
    pub fn roots(&self) -> (r: Vec<usize>)
        ensures
            r@ == self.root_seq(),
    {
        let mut r: Vec<usize> = Vec::new();
        let mut k: usize = 0;
        while k < self.root_set.len()
            invariant
                k <= self.root_seq().len(),
                r@ == self.root_seq().subrange(0, k as int),
            decreases self.root_seq().len() - k,
        {
            r.push(self.root_set[k]);
            proof {
                assert(r@ =~= self.root_seq().subrange(0, k + 1));
            }
            k = k + 1;
        }
        proof {
            assert(r@ =~= self.root_seq());
        }
        r
    }

    /// How many identities are on the free list.
    pub fn free_count(&self) -> (r: usize)
        ensures
            r == self.free_ids().len(),
    {
        self.free_list.len()
    }

    /// How many records are currently live.
    pub fn live_count(&self) -> (r: usize)
        requires
            self.wf(),
        ensures
            r == self.live_ids().len(),
    {
        let mut count: usize = 0;
        let mut i: usize = 0;
        proof {
            assert(live_below(self, 0) =~= Set::<usize>::empty());
        }
        while i < self.size
            invariant
                self.wf(),
                i <= self.cap(),
                live_below(self, i).finite(),
                count == live_below(self, i).len(),
                count <= i,
            decreases self.cap() - i,
        {
            proof {
                lemma_live_below_len(self, i);
                if self.is_live(i) {
                    assert(live_below(self, (i + 1) as usize) =~= live_below(self, i).insert(i));
                } else {
                    assert(live_below(self, (i + 1) as usize) =~= live_below(self, i));
                }
            }
            if self.heap[i].data.is_some() {
                count = count + 1;
            }
            i = i + 1;
            proof {
                lemma_live_below_len(self, i);
            }
        }
        proof {
            assert(self.live_ids() =~= live_below(self, self.cap()));
        }
        count
    }

    /// A marked record's links lead only to marked records (the state the
    /// mark phase leaves behind).
    spec fn marked_closed(&self) -> bool {
        forall|i: int, j: usize|
            0 <= i < self.cap() && self.objs()[i].spec_marked() && #[trigger] points_to(
                self.links()[i],
                j,
            ) ==> j < self.cap() && self.objs()[j as int].spec_marked()
    }

    /// The identities of the currently marked records.
    spec fn marked_ids(&self) -> Set<usize> {
        Set::new(|i: usize| i < self.cap() && self.objs()[i as int].spec_marked())
    }

    /// The structural invariant survives a change that only flips mark bits.
    proof fn lemma_inv_after_marks_change(&self, prev: &Heap<T>)
        requires
            prev.inv(),
            self.cap() == prev.cap(),
            self.root_seq() == prev.root_seq(),
            self.free_ids() == prev.free_ids(),
            self.objs().len() == prev.objs().len(),
            forall|i: int|
                0 <= i < prev.cap() ==> same_content(#[trigger] self.objs()[i], prev.objs()[i]),
        ensures
            self.inv(),
            self.links() == prev.links(),
    {
        assert(self.links() =~= prev.links());
        assert forall|i: usize| self.is_live(i) == prev.is_live(i) by {
            if i < self.cap() {
                assert(same_content(self.objs()[i as int], prev.objs()[i as int]));
            }
        }
        assert forall|i: usize|
            i < self.cap() && (#[trigger] self.objs()[i as int]).spec_data() is None implies self
            .free_ids().contains(i) by {
            assert(same_content(self.objs()[i as int], prev.objs()[i as int]));
        }
        assert forall|k: int|
            0 <= k < self.free_ids().len() implies (#[trigger] self.free_ids()[k]) < self.cap()
            && self.objs()[self.free_ids()[k] as int].spec_data() is None by {
            assert(same_content(
                self.objs()[self.free_ids()[k] as int],
                prev.objs()[self.free_ids()[k] as int],
            ));
        }
        assert forall|i: int|
            0 <= i < self.cap() && (#[trigger] self.objs()[i]).spec_data() is None implies self
            .objs()[i].spec_head() is None && self.objs()[i].spec_tail() is None by {
            assert(same_content(self.objs()[i], prev.objs()[i]));
        }
        assert forall|i: int| 0 <= i < self.cap() implies (#[trigger] self.objs()[i]).spec_id()
            == i as usize by {
            assert(same_content(self.objs()[i], prev.objs()[i]));
        }
        assert forall|i: int, j: usize|
            0 <= i < self.cap() && #[trigger] points_to(self.links()[i], j) implies self.is_live(
            j,
        ) by {
            assert(points_to(prev.links()[i], j));
        }
    }

    /// Reset every mark bit: step one of a collection pass.
    fn clear_marks(&mut self)
        requires
            old(self).inv(),
        ensures
            final(self).inv(),
            final(self).marks_clear(),
            final(self).cap() == old(self).cap(),
            final(self).root_seq() == old(self).root_seq(),
            final(self).free_ids() == old(self).free_ids(),
            final(self).objs().len() == old(self).objs().len(),
            forall|i: int|
                0 <= i < old(self).cap() ==> same_content(
                    #[trigger] final(self).objs()[i],
                    old(self).objs()[i],
                ),
            final(self).links() == old(self).links(),
    {
        let mut i: usize = 0;
        while i < self.size
            invariant
                old(self).inv(),
                self.inv(),
                self.cap() == old(self).cap(),
                self.root_seq() == old(self).root_seq(),
                self.free_ids() == old(self).free_ids(),
                self.objs().len() == old(self).objs().len(),
                forall|k: int|
                    0 <= k < self.cap() ==> same_content(
                        #[trigger] self.objs()[k],
                        old(self).objs()[k],
                    ),
                self.links() == old(self).links(),
                i <= self.cap(),
                forall|k: int| 0 <= k < i ==> !(#[trigger] self.objs()[k]).spec_marked(),
            decreases self.cap() - i,
        {
            self.heap[i].marked = false;
            proof {
                self.lemma_inv_after_marks_change(old(self));
            }
            i = i + 1;
        }
    }

    /// Mark everything reachable from `root`, with an explicit work list (no
    /// recursion, so arbitrarily long chains cannot exhaust the call stack).
    fn mark(&mut self, root: usize)
        requires
            old(self).inv(),
            root < old(self).cap(),
            old(self).marked_closed(),
        ensures
            final(self).inv(),
            final(self).marked_closed(),
            final(self).cap() == old(self).cap(),
            final(self).root_seq() == old(self).root_seq(),
            final(self).free_ids() == old(self).free_ids(),
            final(self).objs().len() == old(self).objs().len(),
            forall|i: int|
                0 <= i < old(self).cap() ==> same_content(
                    #[trigger] final(self).objs()[i],
                    old(self).objs()[i],
                ),
            final(self).links() == old(self).links(),
            forall|i: usize|
                i < old(self).cap() ==> ((#[trigger] final(self).objs()[i as int]).spec_marked()
                    <==> old(self).objs()[i as int].spec_marked() || reaches(
                    old(self).links(),
                    root,
                    i,
                )),
    {
        let mut stack: Vec<usize> = Vec::new();
        stack.push(root);
        proof {
            lemma_reaches_refl(old(self).links(), root);
            assert(stack@[0] == root);
        }
        while stack.len() > 0
            invariant
                old(self).inv(),
                old(self).marked_closed(),
                root < old(self).cap(),
                self.inv(),
                self.cap() == old(self).cap(),
                self.root_seq() == old(self).root_seq(),
                self.free_ids() == old(self).free_ids(),
                self.objs().len() == old(self).objs().len(),
                forall|i: int|
                    0 <= i < self.cap() ==> same_content(
                        #[trigger] self.objs()[i],
                        old(self).objs()[i],
                    ),
                self.links() == old(self).links(),
                forall|k: int|
                    0 <= k < stack@.len() ==> (#[trigger] stack@[k]) < self.cap() && reaches(
                        old(self).links(),
                        root,
                        stack@[k],
                    ),
                forall|i: int|
                    0 <= i < self.cap() && (#[trigger] self.objs()[i]).spec_marked() ==> old(
                        self,
                    ).objs()[i].spec_marked() || reaches(old(self).links(), root, i as usize),
                forall|i: int|
                    0 <= i < self.cap() && (#[trigger] old(self).objs()[i]).spec_marked()
                        ==> self.objs()[i].spec_marked(),
                forall|i: int, j: usize|
                    0 <= i < self.cap() && self.objs()[i].spec_marked() && #[trigger] points_to(
                        self.links()[i],
                        j,
                    ) ==> self.objs()[j as int].spec_marked() || stack@.contains(j),
                self.objs()[root as int].spec_marked() || stack@.contains(root),
            decreases unmarked_count(self.objs(), self.cap() as nat), stack@.len(),
        {
            let ghost prev = *self;
            let ghost prev_stack = stack@;
            let id = stack.pop().unwrap();
            proof {
                assert(prev_stack[prev_stack.len() - 1] == id);
                assert(id < self.cap() && reaches(old(self).links(), root, id));
            }
            if !self.heap[id].marked {
                self.heap[id].marked = true;
                let hd = self.heap[id].head;
                let tl = self.heap[id].tail;
                if let Some(j) = hd {
                    stack.push(j);
                }
                if let Some(j) = tl {
                    stack.push(j);
                }
                proof {
                    lemma_unmarked_count_mark(
                        prev.objs(),
                        self.objs(),
                        self.cap() as nat,
                        id as int,
                    );
                    self.lemma_inv_after_marks_change(&prev);
                    assert forall|j: usize| #[trigger] points_to(self.links()[id as int], j)
                        implies stack@.contains(j) by {
                        assert(self.links()[id as int] == (hd, tl));
                        if hd == Some(j) {
                            if tl is Some {
                                assert(stack@[stack@.len() - 2] == j);
                            } else {
                                assert(stack@[stack@.len() - 1] == j);
                            }
                        } else {
                            assert(tl == Some(j));
                            assert(stack@[stack@.len() - 1] == j);
                        }
                    }
                    assert forall|k: int|
                        0 <= k < stack@.len() implies (#[trigger] stack@[k]) < self.cap()
                        && reaches(old(self).links(), root, stack@[k]) by {
                        if k < prev_stack.len() - 1 {
                            assert(stack@[k] == prev_stack[k]);
                        } else {
                            let j = stack@[k];
                            assert(points_to(self.links()[id as int], j));
                            assert(points_to(old(self).links()[id as int], j));
                            assert(self.is_live(j));
                            lemma_reaches_step(old(self).links(), root, id, j);
                        }
                    }
                    assert forall|i: int, j: usize|
                        0 <= i < self.cap() && self.objs()[i].spec_marked()
                            && #[trigger] points_to(self.links()[i], j) implies self.objs()[
                        j as int].spec_marked() || stack@.contains(j) by {
                        if i == id {
                            assert(stack@.contains(j));
                        } else {
                            assert(prev.objs()[i].spec_marked());
                            assert(points_to(prev.links()[i], j));
                            if prev.objs()[j as int].spec_marked() {
                                assert(self.objs()[j as int].spec_marked());
                            } else {
                                assert(prev_stack.contains(j));
                                let m = choose|m: int|
                                    0 <= m < prev_stack.len() && prev_stack[m] == j;
                                if m < prev_stack.len() - 1 {
                                    assert(stack@[m] == j);
                                } else {
                                    assert(j == id);
                                }
                            }
                        }
                    }
                    assert(self.objs()[root as int].spec_marked() || stack@.contains(root)) by {
                        if !self.objs()[root as int].spec_marked() {
                            assert(prev_stack.contains(root));
                            let m = choose|m: int|
                                0 <= m < prev_stack.len() && prev_stack[m] == root;
                            assert(m < prev_stack.len() - 1);
                            assert(stack@[m] == root);
                        }
                    }
                }
            } else {
                proof {
                    assert forall|i: int, j: usize|
                        0 <= i < self.cap() && self.objs()[i].spec_marked()
                            && #[trigger] points_to(self.links()[i], j) implies self.objs()[
                        j as int].spec_marked() || stack@.contains(j) by {
                        if !self.objs()[j as int].spec_marked() {
                            assert(prev_stack.contains(j));
                            let m = choose|m: int| 0 <= m < prev_stack.len() && prev_stack[m] == j;
                            if m < prev_stack.len() - 1 {
                                assert(stack@[m] == j);
                            } else {
                                assert(j == id);
                            }
                        }
                    }
                    assert(self.objs()[root as int].spec_marked() || stack@.contains(root)) by {
                        if !self.objs()[root as int].spec_marked() {
                            assert(prev_stack.contains(root));
                            let m = choose|m: int|
                                0 <= m < prev_stack.len() && prev_stack[m] == root;
                            assert(m < prev_stack.len() - 1);
                            assert(stack@[m] == root);
                        }
                    }
                }
            }
        }
        proof {
            let m = self.marked_ids();
            assert(m.contains(root));
            assert forall|i: usize, j: usize|
                m.contains(i) && i < self.links().len() && #[trigger] points_to(
                    self.links()[i as int],
                    j,
                ) implies m.contains(j) by {
                assert(self.objs()[i as int].spec_marked());
                assert(self.is_live(j));
            }
            assert forall|i: usize|
                i < old(self).cap() && reaches(old(self).links(), root, i) implies (
            #[trigger] self.objs()[i as int]).spec_marked() by {
                lemma_reaches_in_closed_set(self.links(), m, root, i);
            }
        }
    }

    /// Mark everything reachable from the root set: step two of a collection
    /// pass.
    fn mark_all(&mut self)
        requires
            old(self).inv(),
            old(self).marks_clear(),
        ensures
            final(self).inv(),
            final(self).marked_closed(),
            final(self).cap() == old(self).cap(),
            final(self).root_seq() == old(self).root_seq(),
            final(self).free_ids() == old(self).free_ids(),
            final(self).objs().len() == old(self).objs().len(),
            forall|i: int|
                0 <= i < old(self).cap() ==> same_content(
                    #[trigger] final(self).objs()[i],
                    old(self).objs()[i],
                ),
            final(self).links() == old(self).links(),
            forall|i: usize|
                i < old(self).cap() ==> ((#[trigger] final(self).objs()[i as int]).spec_marked()
                    <==> old(self).reach_set().contains(i)),
    {
        let mut k: usize = 0;
        while k < self.root_set.len()
            invariant
                old(self).inv(),
                old(self).marks_clear(),
                self.inv(),
                self.marked_closed(),
                self.cap() == old(self).cap(),
                self.root_seq() == old(self).root_seq(),
                self.free_ids() == old(self).free_ids(),
                self.objs().len() == old(self).objs().len(),
                forall|i: int|
                    0 <= i < self.cap() ==> same_content(
                        #[trigger] self.objs()[i],
                        old(self).objs()[i],
                    ),
                self.links() == old(self).links(),
                k <= self.root_seq().len(),
                forall|i: usize|
                    i < self.cap() ==> ((#[trigger] self.objs()[i as int]).spec_marked()
                        <==> exists|m: int|
                        0 <= m < k && reaches(
                            old(self).links(),
                            old(self).root_seq()[m],
                            i,
                        )),
            decreases self.root_seq().len() - k,
        {
            let ghost prev = *self;
            let r = self.root_set[k];
            proof {
                assert(self.is_live(self.root_seq()[k as int]));
            }
            self.mark(r);
            proof {
                assert forall|i: usize| i < self.cap() implies ((
                #[trigger] self.objs()[i as int]).spec_marked() <==> exists|m: int|
                    0 <= m < k + 1 && reaches(old(self).links(), old(self).root_seq()[m], i)) by {
                    if self.objs()[i as int].spec_marked() {
                        if prev.objs()[i as int].spec_marked() {
                            let m = choose|m: int|
                                0 <= m < k && reaches(
                                    old(self).links(),
                                    old(self).root_seq()[m],
                                    i,
                                );
                            assert(reaches(old(self).links(), old(self).root_seq()[m], i));
                        } else {
                            assert(reaches(old(self).links(), r, i));
                            assert(old(self).root_seq()[k as int] == r);
                        }
                    } else {
                        assert(!prev.objs()[i as int].spec_marked());
                        assert(!reaches(old(self).links(), r, i));
                    }
                }
            }
            k = k + 1;
        }
        proof {
            assert forall|i: usize| i < old(self).cap() implies ((
            #[trigger] self.objs()[i as int]).spec_marked() <==> old(self).reach_set().contains(
                i,
            )) by {
                if self.objs()[i as int].spec_marked() {
                    let m = choose|m: int|
                        0 <= m < self.root_seq().len() && reaches(
                            old(self).links(),
                            old(self).root_seq()[m],
                            i,
                        );
                    assert(old(self).root_ids().contains(old(self).root_seq()[m]));
                } else {
                    if old(self).reach_set().contains(i) {
                        let r = choose|r: usize|
                            old(self).root_ids().contains(r) && reaches(old(self).links(), r, i);
                        let m = choose|m: int|
                            0 <= m < old(self).root_seq().len() && old(self).root_seq()[m] == r;
                        assert(reaches(old(self).links(), old(self).root_seq()[m], i));
                        assert(false);
                    }
                }
            }
        }
    }

    /// Hand a reclaimed identity back to the free list.
    fn add_to_free_list(&mut self, id: usize)
        ensures
            final(self).free_ids() == old(self).free_ids().push(id),
            final(self).objs() == old(self).objs(),
            final(self).root_seq() == old(self).root_seq(),
            final(self).cap() == old(self).cap(),
    {
        self.free_list.push(id);
    }

    /// Reclaim every unmarked record, rebuild the free list from scratch in
    /// ascending identity order, and clear the surviving marks: step three of
    /// a collection pass.
    fn sweep(&mut self)
        requires
            old(self).inv(),
            old(self).marked_closed(),
            forall|k: int|
                0 <= k < old(self).root_seq().len() ==> old(self).objs()[
                    #[trigger] old(self).root_seq()[k] as int
                ].spec_marked(),
            forall|i: int|
                0 <= i < old(self).cap() && (#[trigger] old(self).objs()[i]).spec_marked() ==> old(
                    self,
                ).objs()[i].spec_data() is Some,
        ensures
            final(self).wf(),
            final(self).cap() == old(self).cap(),
            final(self).root_seq() == old(self).root_seq(),
            final(self).objs().len() == old(self).objs().len(),
            forall|i: int|
                0 <= i < old(self).cap() && (#[trigger] old(self).objs()[i]).spec_marked()
                    ==> same_content(final(self).objs()[i], old(self).objs()[i]),
            forall|i: int|
                0 <= i < old(self).cap() && !(#[trigger] old(self).objs()[i]).spec_marked() ==> {
                    let o = final(self).objs()[i];
                    o.spec_data() is None && o.spec_head() is None && o.spec_tail() is None
                        && o.spec_id() == old(self).objs()[i].spec_id()
                },
            final(self).free_ids() == swept_ids(old(self).marked_ids(), old(self).cap() as nat),
            forall|i: usize|
                i < old(self).cap() ==> (final(self).is_live(i) <==> old(self).objs()[
                    i as int
                ].spec_marked()),
    {
        self.free_list = Vec::new();
        let mut i: usize = 0;
        while i < self.size
            invariant
                old(self).inv(),
                old(self).marked_closed(),
                forall|i2: int|
                    0 <= i2 < old(self).cap() && (#[trigger] old(self).objs()[i2]).spec_marked()
                        ==> old(self).objs()[i2].spec_data() is Some,
                i <= old(self).cap(),
                self.cap() == old(self).cap(),
                self.root_seq() == old(self).root_seq(),
                self.objs().len() == old(self).objs().len(),
                forall|k: int| i <= k < self.cap() ==> self.objs()[k] == old(self).objs()[k],
                forall|k: int|
                    0 <= k < i && (#[trigger] old(self).objs()[k]).spec_marked() ==> same_content(
                        self.objs()[k],
                        old(self).objs()[k],
                    ) && !self.objs()[k].spec_marked(),
                forall|k: int|
                    0 <= k < i && !(#[trigger] old(self).objs()[k]).spec_marked() ==> {
                        let o = self.objs()[k];
                        o.spec_data() is None && o.spec_head() is None && o.spec_tail() is None
                            && o.spec_id() == old(self).objs()[k].spec_id() && !o.spec_marked()
                    },
                self.free_ids() == swept_ids(old(self).marked_ids(), i as nat),
            decreases self.cap() - i,
        {
            proof {
                assert(swept_ids(old(self).marked_ids(), (i + 1) as nat) == swept_ids(
                    old(self).marked_ids(),
                    i as nat,
                ) + if old(self).marked_ids().contains(i) {
                    Seq::<usize>::empty()
                } else {
                    seq![i]
                });
            }
            if self.heap[i].marked {
                self.heap[i].marked = false;
                proof {
                    assert(old(self).marked_ids().contains(i));
                    assert(self.free_ids() =~= swept_ids(old(self).marked_ids(), (i + 1) as nat));
                }
            } else {
                self.heap[i].head = None;
                self.heap[i].tail = None;
                self.heap[i].data = None;
                self.add_to_free_list(i);
                proof {
                    assert(!old(self).marked_ids().contains(i));
                    assert(self.free_ids() =~= swept_ids(old(self).marked_ids(), (i + 1) as nat));
                }
            }
            i = i + 1;
        }
        proof {
            lemma_swept_ids_props(old(self).marked_ids(), old(self).cap() as nat);
            assert forall|i2: usize| i2 < old(self).cap() implies (self.is_live(i2) <==> old(
                self,
            ).objs()[i2 as int].spec_marked()) by {
                if old(self).objs()[i2 as int].spec_marked() {
                    assert(same_content(self.objs()[i2 as int], old(self).objs()[i2 as int]));
                }
            }
            // the free list holds exactly the now-free identities
            assert forall|j: usize|
                j < self.cap() && (#[trigger] self.objs()[j as int]).spec_data() is None implies
                self.free_ids().contains(j) by {
                assert(!old(self).objs()[j as int].spec_marked());
                assert(!old(self).marked_ids().contains(j));
            }
            assert forall|k: int|
                0 <= k < self.free_ids().len() implies (#[trigger] self.free_ids()[k])
                < self.cap() && self.objs()[self.free_ids()[k] as int].spec_data() is None by {
                let j = self.free_ids()[k];
                assert(!old(self).marked_ids().contains(j));
                assert(!old(self).objs()[j as int].spec_marked());
            }
            assert forall|k1: int, k2: int|
                0 <= k1 < self.free_ids().len() && 0 <= k2 < self.free_ids().len() && k1
                != k2 implies self.free_ids()[k1] != self.free_ids()[k2] by {
                if k1 < k2 {
                    assert(self.free_ids()[k1] < self.free_ids()[k2]);
                } else {
                    assert(self.free_ids()[k2] < self.free_ids()[k1]);
                }
            }
            assert(self.free_ids().no_duplicates());
            // roots survive: they were marked
            assert forall|k: int| 0 <= k < self.root_seq().len() implies self.is_live(
                #[trigger] self.root_seq()[k],
            ) by {
                let r = self.root_seq()[k];
                assert(old(self).objs()[r as int].spec_marked());
            }
            // links of survivors lead to survivors
            assert forall|i2: int, j: usize|
                0 <= i2 < self.cap() && #[trigger] points_to(self.links()[i2], j) implies self
                .is_live(j) by {
                assert(old(self).objs()[i2].spec_marked()) by {
                    if !old(self).objs()[i2].spec_marked() {
                        assert(self.objs()[i2].spec_head() is None);
                        assert(self.objs()[i2].spec_tail() is None);
                    }
                }
                assert(same_content(self.objs()[i2], old(self).objs()[i2]));
                assert(self.links()[i2] == old(self).links()[i2]);
                assert(points_to(old(self).links()[i2], j));
                assert(old(self).objs()[j as int].spec_marked());
            }
            assert forall|i2: int| 0 <= i2 < self.cap() implies (#[trigger] self.objs()[
                i2
            ]).spec_id() == i2 as usize by {
                if old(self).objs()[i2].spec_marked() {
                    assert(same_content(self.objs()[i2], old(self).objs()[i2]));
                }
            }
            assert forall|i2: int| 0 <= i2 < self.cap() implies !(#[trigger] self.objs()[
                i2
            ]).spec_marked() by {
                if (#[trigger] old(self).objs()[i2]).spec_marked() {
                    assert(!self.objs()[i2].spec_marked());
                } else {
                    assert(!self.objs()[i2].spec_marked());
                }
            }
            assert forall|i2: int|
                0 <= i2 < self.cap() && (#[trigger] self.objs()[i2]).spec_data() is None implies
                self.objs()[i2].spec_head() is None && self.objs()[i2].spec_tail() is None by {
                if old(self).objs()[i2].spec_marked() {
                    assert(same_content(self.objs()[i2], old(self).objs()[i2]));
                    assert(false);
                }
            }
        }
    }

    /// Everything reachable from the root set is live: roots are live, and
    /// links only lead to live records.
    pub proof fn lemma_reach_subset_live(&self)
        requires
            self.inv(),
        ensures
            forall|d: usize| #[trigger] self.reach_set().contains(d) ==> self.is_live(d),
    {
        assert forall|d: usize| #[trigger] self.reach_set().contains(d) implies self.is_live(
            d,
        ) by {
            let r = choose|r: usize| self.root_ids().contains(r) && reaches(self.links(), r, d);
            if d == r {
                let k = choose|k: int| 0 <= k < self.root_seq().len() && self.root_seq()[k] == r;
                assert(self.is_live(self.root_seq()[k]));
            } else {
                lemma_reaches_valid(self.links(), r, d);
                let mid = choose|mid: usize|
                    mid < self.links().len() && points_to(self.links()[mid as int], d);
                assert(points_to(self.links()[mid as int], d));
            }
        }
    }

    /// Capacity conservation: the free list and the live records partition
    /// the pool's identities, so their counts always sum to the capacity.
    pub proof fn lemma_capacity_conservation(&self)
        requires
            self.wf(),
        ensures
            self.free_ids().len() + self.live_ids().len() == self.cap(),
    {
        broadcast use vstd::seq_lib::seq_to_set_is_finite;

        let free_set = self.free_ids().to_set();
        self.free_ids().unique_seq_to_set();
        lemma_ids_below_len(self.cap());
        assert(self.live_ids().subset_of(ids_below(self.cap())));
        lemma_len_subset(self.live_ids(), ids_below(self.cap()));
        assert(free_set.disjoint(self.live_ids()));
        assert(free_set.union(self.live_ids()) =~= ids_below(self.cap())) by {
            assert forall|i: usize| i < self.cap() implies free_set.union(
                self.live_ids(),
            ).contains(i) by {
                if !self.is_live(i) {
                    assert(self.free_ids().contains(i));
                }
            }
        }
        lemma_disjoint_union_len(free_set, self.live_ids());
    }

    /// Marking is idempotent: the reachable set depends only on the records'
    /// links and on the root set, never on the mark bits, so a second mark
    /// pass over an unmutated heap computes exactly the same reachable set as
    /// the first.
    pub proof fn lemma_mark_idempotent(&self, other: &Heap<T>)
        requires
            self.objs().len() == other.objs().len(),
            forall|i: int|
                0 <= i < self.objs().len() ==> (#[trigger] self.objs()[i]).spec_head()
                    == other.objs()[i].spec_head() && self.objs()[i].spec_tail() == other.objs()[
                    i
                ].spec_tail(),
            self.root_ids() == other.root_ids(),
        ensures
            self.reach_set() == other.reach_set(),
    {
        assert(self.links() =~= other.links());
        assert(self.reach_set() =~= other.reach_set());
    }

    /// Identity non-aliasing: two concurrently live records never share an
    /// identity, because the pool is indexed by identity and every record
    /// carries the identity of its own slot.
    pub proof fn lemma_identity_non_aliasing(&self, a: usize, b: usize)
        requires
            self.wf(),
            self.is_live(a),
            self.is_live(b),
            a != b,
        ensures
            self.objs()[a as int].spec_id() != self.objs()[b as int].spec_id(),
    {
    }

    /// A root is reachable from the root set.
    pub proof fn lemma_root_reachable(&self, r: usize)
        requires
            self.root_ids().contains(r),
        ensures
            self.reach_set().contains(r),
    {
        lemma_reaches_refl(self.links(), r);
    }

    /// A pass that keeps the root set and the links of every reachable record
    /// keeps the reachable set itself, whatever it does to the rest.
    proof fn lemma_reach_preserved(&self, prev: &Heap<T>)
        requires
            prev.inv(),
            self.cap() == prev.cap(),
            self.objs().len() == prev.objs().len(),
            self.root_ids() == prev.root_ids(),
            forall|i: usize|
                #[trigger] prev.reach_set().contains(i) && i < prev.cap() ==> self.links()[
                    i as int
                ] == prev.links()[i as int],
        ensures
            self.reach_set() == prev.reach_set(),
    {
        let rs = prev.reach_set();
        prev.lemma_reach_subset_live();
        assert forall|i: usize, j: usize|
            rs.contains(i) && i < self.links().len() && #[trigger] points_to(
                self.links()[i as int],
                j,
            ) implies rs.contains(j) by {
            assert(points_to(prev.links()[i as int], j));
            let r = choose|r: usize| prev.root_ids().contains(r) && reaches(prev.links(), r, i);
            lemma_reaches_step(prev.links(), r, i, j);
        }
        assert forall|d: usize| #[trigger] rs.contains(d) implies self.reach_set().contains(d) by {
            let r = choose|r: usize| prev.root_ids().contains(r) && reaches(prev.links(), r, d);
            assert forall|mid: usize|
                #[trigger] reaches(prev.links(), r, mid) && mid < prev.links().len() implies prev
                .links()[mid as int] == self.links()[mid as int] by {
                assert(rs.contains(mid));
            }
            lemma_reaches_agree(prev.links(), self.links(), r, d);
        }
        assert forall|d: usize| #[trigger] self.reach_set().contains(d) implies rs.contains(d) by {
            let r = choose|r: usize| self.root_ids().contains(r) && reaches(self.links(), r, d);
            assert(prev.root_ids().contains(r));
            lemma_reaches_refl(prev.links(), r);
            assert(rs.contains(r));
            assert forall|mid: usize|
                #[trigger] reaches(self.links(), r, mid) && mid < self.links().len() implies self
                .links()[mid as int] == prev.links()[mid as int] by {
                lemma_reaches_in_closed_set(self.links(), rs, r, mid);
            }
            lemma_reaches_agree(self.links(), prev.links(), r, d);
        }
        assert(self.reach_set() =~= prev.reach_set());
    }

    /// Run one full collection pass: clear all marks, mark everything
    /// reachable from the root set, then sweep.  Reachable records are
    /// untouched; everything else is reset to a free, blank record and the
    /// free list is rebuilt to hold exactly those identities in ascending
    /// order.
    pub fn collect(&mut self)
        requires
            old(self).wf(),
        ensures
            final(self).wf(),
            final(self).cap() == old(self).cap(),
            final(self).root_seq() == old(self).root_seq(),
            forall|i: usize|
                #[trigger] old(self).reach_set().contains(i) ==> i < old(self).cap()
                    && final(self).objs()[i as int] == old(self).objs()[i as int],
            forall|i: usize|
                i < old(self).cap() && !old(self).reach_set().contains(i) ==> {
                    let o = #[trigger] final(self).objs()[i as int];
                    o.spec_data() is None && o.spec_head() is None && o.spec_tail() is None
                },
            final(self).free_ids() == swept_ids(old(self).reach_set(), old(self).cap() as nat),
            final(self).reach_set() == old(self).reach_set(),
            final(self).live_ids() == old(self).reach_set(),
            final(self).reach_set() == final(self).live_ids(),
    {
        self.clear_marks();
        let ghost s1 = *self;
        self.mark_all();
        let ghost s2 = *self;
        proof {
            assert(s1.root_ids() == old(self).root_ids());
            assert(s1.reach_set() =~= old(self).reach_set());
            assert forall|k: int| 0 <= k < s2.root_seq().len() implies s2.objs()[
                #[trigger] s2.root_seq()[k] as int
            ].spec_marked() by {
                let r = s2.root_seq()[k];
                assert(s1.root_ids().contains(r));
                lemma_reaches_refl(s1.links(), r);
                assert(s1.reach_set().contains(r));
                assert(old(self).is_live(old(self).root_seq()[k]));
            }
            s1.lemma_reach_subset_live();
            assert forall|i: int|
                0 <= i < s2.cap() && (#[trigger] s2.objs()[i]).spec_marked() implies s2.objs()[
                i
            ].spec_data() is Some by {
                assert(s1.reach_set().contains(i as usize));
                assert(s1.is_live(i as usize));
                assert(same_content(s2.objs()[i], s1.objs()[i]));
            }
        }
        self.sweep();
        proof {
            assert forall|j: usize|
                j < old(self).cap() implies (s2.marked_ids().contains(j) <==> old(
                self,
            ).reach_set().contains(j)) by {
                assert(s2.objs()[j as int].spec_marked() <==> s1.reach_set().contains(j));
            }
            assert forall|j: usize|
                #[trigger] old(self).reach_set().contains(j) implies j < old(self).cap()
                && s2.marked_ids().contains(j) by {
                old(self).lemma_reach_subset_live();
            }
            lemma_swept_ids_congruence(
                s2.marked_ids(),
                old(self).reach_set(),
                old(self).cap() as nat,
            );
            assert forall|i: usize| #[trigger] old(self).reach_set().contains(i) implies i < old(
                self,
            ).cap() && self.objs()[i as int] == old(self).objs()[i as int] by {
                assert(s2.marked_ids().contains(i));
                assert(same_content(self.objs()[i as int], s2.objs()[i as int]));
                assert(same_content(s2.objs()[i as int], s1.objs()[i as int]));
                assert(same_content(s1.objs()[i as int], old(self).objs()[i as int]));
                assert(!self.objs()[i as int].spec_marked());
                assert(!old(self).objs()[i as int].spec_marked());
            }
            assert forall|i: usize|
                i < old(self).cap() && !old(self).reach_set().contains(i) implies {
                let o = #[trigger] self.objs()[i as int];
                o.spec_data() is None && o.spec_head() is None && o.spec_tail() is None
            } by {
                assert(!s2.objs()[i as int].spec_marked());
            }
            assert forall|i: usize|
                #[trigger] old(self).reach_set().contains(i) && i < old(self).cap() implies self
                .links()[i as int] == old(self).links()[i as int] by {
                assert(self.objs()[i as int] == old(self).objs()[i as int]);
            }
            self.lemma_reach_preserved(old(self));
            assert forall|i: usize| self.is_live(i) == old(self).reach_set().contains(i) by {
                if i < old(self).cap() {
                    assert(self.is_live(i) <==> s2.objs()[i as int].spec_marked());
                } else {
                    old(self).lemma_reach_subset_live();
                    assert(!old(self).reach_set().contains(i));
                }
            }
            assert(self.live_ids() =~= old(self).reach_set());
        }
    }

    /// Satisfy an allocation request: pop an identity off the free list and
    /// install the payload, running a collection pass first when the free
    /// list is empty.  Returns `OutOfMemory` exactly when every identity is
    /// reachable from the root set and nothing can be reclaimed; the heap is
    /// then unchanged.  A fresh record carries the payload and no links, and
    /// is never an identity that was reachable when the call was made.
    #[verifier::rlimit(50)]
    #[verifier::spinoff_prover]
    pub fn allocate(&mut self, data: T) -> (r: Result<usize, GcError>)
        requires
            old(self).wf(),
        ensures
            final(self).wf(),
            final(self).cap() == old(self).cap(),
            final(self).root_seq() == old(self).root_seq(),
            r is Err <==> (old(self).free_ids().len() == 0 && (forall|i: usize|
                i < old(self).cap() ==> old(self).reach_set().contains(i))),
            r matches Err(e) ==> e == GcError::OutOfMemory && final(self).objs() == old(
                self,
            ).objs() && final(self).free_ids() == old(self).free_ids(),
            r matches Ok(id) ==> {
                &&& id < old(self).cap()
                &&& !old(self).reach_set().contains(id)
                &&& final(self).objs()[id as int].spec_data() == Some(data)
                &&& final(self).objs()[id as int].spec_head() is None
                &&& final(self).objs()[id as int].spec_tail() is None
                &&& forall|i: usize|
                    #[trigger] old(self).reach_set().contains(i) ==> i < old(self).cap() && i != id
                        && final(self).objs()[i as int] == old(self).objs()[i as int]
                &&& final(self).reach_set() == old(self).reach_set()
                &&& (old(self).free_ids().len() > 0 ==> id == old(self).free_ids().last()
                    && final(self).free_ids() == old(self).free_ids().drop_last() && (forall|i: int|
                    0 <= i < old(self).cap() && i != id ==> final(self).objs()[i] == old(
                        self,
                    ).objs()[i]))
                &&& (old(self).free_ids().len() == 0 ==> {
                    let sw = swept_ids(old(self).reach_set(), old(self).cap() as nat);
                    id == sw.last() && final(self).free_ids() == sw.drop_last()
                })
            },
    {
        if self.free_list.len() == 0 {
            self.collect();
            if self.free_list.len() == 0 {
                proof {
                    lemma_swept_ids_props(old(self).reach_set(), old(self).cap() as nat);
                    assert forall|i: usize| i < old(self).cap() implies old(
                        self,
                    ).reach_set().contains(i) by {
                        if !old(self).reach_set().contains(i) {
                            assert(swept_ids(
                                old(self).reach_set(),
                                old(self).cap() as nat,
                            ).contains(i));
                            assert(false);
                        }
                    }
                    assert forall|i: usize| #[trigger] old(self).reach_set().contains(i) implies i
                        < old(self).cap() && self.objs()[i as int] == old(self).objs()[
                    i as int] by {
                        old(self).lemma_reach_subset_live();
                    }
                    assert(self.objs() =~= old(self).objs());
                    assert(self.free_ids() =~= old(self).free_ids());
                }
                return Err(GcError::OutOfMemory);
            }
        }
        let ghost mid = *self;
        proof {
            if old(self).free_ids().len() == 0 {
                lemma_swept_ids_props(old(self).reach_set(), old(self).cap() as nat);
                let sw = swept_ids(old(self).reach_set(), old(self).cap() as nat);
                assert(!old(self).reach_set().contains(sw[sw.len() - 1]));
            }
        }
        let id = self.free_list.pop().unwrap();
        proof {
            assert(mid.free_ids()[mid.free_ids().len() - 1] == id);
            assert(id < mid.cap() && mid.objs()[id as int].spec_data() is None);
        }
        self.heap[id].data = Some(data);
        proof {
            let prev = mid;
            assert(self.objs() == prev.objs().update(id as int, self.objs()[id as int]));
            // the popped identity was free, hence blank and unreachable
            assert(prev.objs()[id as int].spec_head() is None);
            assert(prev.objs()[id as int].spec_tail() is None);
            prev.lemma_reach_subset_live();
            assert(!prev.reach_set().contains(id));
            // well-formedness of the final state
            assert forall|k: int|
                0 <= k < self.free_ids().len() implies (#[trigger] self.free_ids()[k])
                < self.cap() && self.objs()[self.free_ids()[k] as int].spec_data() is None by {
                assert(self.free_ids()[k] == prev.free_ids()[k]);
                assert(prev.free_ids()[k] != id);
            }
            assert forall|i: usize|
                i < self.cap() && (#[trigger] self.objs()[i as int]).spec_data() is None implies
                self.free_ids().contains(i) by {
                assert(i != id);
                assert(prev.objs()[i as int].spec_data() is None);
                assert(prev.free_ids().contains(i));
                let k = choose|k: int|
                    0 <= k < prev.free_ids().len() && prev.free_ids()[k] == i;
                assert(k != prev.free_ids().len() - 1);
                assert(self.free_ids()[k] == i);
            }
            assert(self.free_ids().no_duplicates());
            assert forall|k: int| 0 <= k < self.root_seq().len() implies self.is_live(
                #[trigger] self.root_seq()[k],
            ) by {
                assert(prev.is_live(prev.root_seq()[k]));
                assert(prev.root_seq()[k] != id);
            }
            assert(self.links() =~= prev.links());
            assert forall|i: int, j: usize|
                0 <= i < self.cap() && #[trigger] points_to(self.links()[i], j) implies self
                .is_live(j) by {
                assert(points_to(prev.links()[i], j));
                assert(prev.is_live(j));
            }
            assert forall|i: int|
                0 <= i < self.cap() && (#[trigger] self.objs()[i]).spec_data() is None implies
                self.objs()[i].spec_head() is None && self.objs()[i].spec_tail() is None by {
                assert(i != id);
            }
            assert(self.wf());
            // reachability is untouched: links and roots are unchanged
            assert forall|i: usize|
                #[trigger] prev.reach_set().contains(i) && i < prev.cap() implies self.links()[
                i as int] == prev.links()[i as int] by {}
            self.lemma_reach_preserved(&prev);
            // tie the two entry paths together
            if old(self).free_ids().len() > 0 {
                assert(prev == *old(self));
                assert(self.free_ids() =~= old(self).free_ids().drop_last());
            } else {
                let sw = swept_ids(old(self).reach_set(), old(self).cap() as nat);
                assert(prev.free_ids() == sw);
                assert(self.free_ids() =~= sw.drop_last());
                assert forall|i: usize| #[trigger] old(self).reach_set().contains(i) implies i
                    < old(self).cap() && i != id && self.objs()[i as int] == old(self).objs()[
                i as int] by {
                    old(self).lemma_reach_subset_live();
                    assert(prev.objs()[i as int] == old(self).objs()[i as int]);
                }
            }
        }
        Ok(id)
    }

    /// Run one collection pass against the current roots, then allocate
    /// `data`: the reclaimed identities form the new free list in ascending
    /// order and the largest of them receives the payload.  When everything
    /// is reachable there is nothing to reclaim and the records are left
    /// unchanged.
    #[verifier::rlimit(50)]
    #[verifier::spinoff_prover]
    fn collect_and_install(&mut self, data: T)
        requires
            old(self).wf(),
        ensures
            final(self).wf(),
            final(self).cap() == old(self).cap(),
            final(self).root_seq() == old(self).root_seq(),
            final(self).reach_set() == old(self).reach_set(),
            forall|i: usize|
                #[trigger] old(self).reach_set().contains(i) ==> i < old(self).cap()
                    && final(self).objs()[i as int] == old(self).objs()[i as int],
            ({
                let sw = swept_ids(old(self).reach_set(), old(self).cap() as nat);
                &&& (sw.len() > 0 ==> final(self).free_ids() == sw.drop_last()
                    && final(self).objs()[sw.last() as int].spec_data() == Some(data)
                    && final(self).objs()[sw.last() as int].spec_head() is None
                    && final(self).objs()[sw.last() as int].spec_tail() is None
                    && (forall|i: usize|
                        i < old(self).cap() && !old(self).reach_set().contains(i) && i
                            != sw.last() ==> final(self).objs()[i as int].spec_data() is None))
                &&& (sw.len() == 0 ==> final(self).objs() == old(self).objs()
                    && final(self).free_ids() == old(self).free_ids())
            }),
    {
        self.collect();
        let ghost mid = *self;
        let r = self.allocate(data);
        proof {
            let sw = swept_ids(old(self).reach_set(), old(self).cap() as nat);
            lemma_swept_ids_props(old(self).reach_set(), old(self).cap() as nat);
            assert(mid.free_ids() == sw);
        }
        match r {
            Ok(id) => {
                proof {
                    let sw = swept_ids(old(self).reach_set(), old(self).cap() as nat);
                    assert(sw.len() > 0);
                    assert(id == sw.last());
                    assert(!old(self).reach_set().contains(id));
                    assert forall|i: usize|
                        i < old(self).cap() && !old(self).reach_set().contains(i) && i
                            != sw.last() implies self.objs()[i as int].spec_data() is None by {
                        assert(self.objs()[i as int] == mid.objs()[i as int]);
                    }
                    assert forall|i: usize| #[trigger] old(self).reach_set().contains(i) implies i
                        < old(self).cap() && self.objs()[i as int] == old(self).objs()[
                    i as int] by {
                        assert(mid.objs()[i as int] == old(self).objs()[i as int]);
                        assert(i != id);
                        assert(self.objs()[i as int] == mid.objs()[i as int]);
                    }
                }
            },
            Err(_) => {
                proof {
                    let sw = swept_ids(old(self).reach_set(), old(self).cap() as nat);
                    assert(sw.len() == 0) by {
                        if sw.len() > 0 {
                            assert(mid.free_ids().len() > 0);
                        }
                    }
                    assert forall|i: usize| i < old(self).cap() implies old(
                        self,
                    ).reach_set().contains(i) by {
                        if !old(self).reach_set().contains(i) {
                            assert(sw.contains(i));
                        }
                    }
                    assert(self.objs() =~= old(self).objs()) by {
                        assert forall|i: int| 0 <= i < old(self).cap() implies self.objs()[i]
                            == old(self).objs()[i] by {
                            assert(old(self).reach_set().contains(i as usize));
                            assert(mid.objs()[i] == old(self).objs()[i]);
                        }
                    }
                    assert(old(self).free_ids().len() == 0) by {
                        if old(self).free_ids().len() > 0 {
                            let j = old(self).free_ids()[0];
                            assert(!old(self).is_live(j));
                            old(self).lemma_reach_subset_live();
                            assert(old(self).reach_set().contains(j));
                        }
                    }
                    assert(self.free_ids() =~= old(self).free_ids());
                }
            },
        }
    }

    /// Reachability only grows when a record that has no links is given one.
    proof fn lemma_reach_after_new_link(&self, prev: &Heap<T>, obj: usize)
        requires
            self.objs().len() == prev.objs().len(),
            obj < prev.objs().len(),
            prev.objs()[obj as int].spec_head() is None,
            prev.objs()[obj as int].spec_tail() is None,
            forall|i: int|
                0 <= i < prev.objs().len() && i != obj ==> self.objs()[i] == prev.objs()[i],
            self.root_seq() == prev.root_seq(),
        ensures
            forall|d: usize|
                #[trigger] prev.reach_set().contains(d) ==> self.reach_set().contains(d),
    {
        assert forall|k: usize, j: usize|
            k < prev.links().len() && #[trigger] points_to(prev.links()[k as int], j) implies
            points_to(self.links()[k as int], j) by {
            if k != obj {
                assert(self.objs()[k as int] == prev.objs()[k as int]);
            }
        }
        assert forall|d: usize| #[trigger] prev.reach_set().contains(d) implies self
            .reach_set().contains(d) by {
            let rr = choose|rr: usize|
                prev.root_ids().contains(rr) && reaches(prev.links(), rr, d);
            lemma_reaches_monotone(prev.links(), self.links(), rr, d);
        }
    }

    /// Swapping a root for a record that links to it keeps everything
    /// reachable.
    proof fn lemma_reach_after_root_swap(&self, prev: &Heap<T>, obj: usize, t: usize)
        requires
            self.objs() == prev.objs(),
            obj < self.objs().len(),
            points_to(self.links()[obj as int], t),
            self.root_ids() == prev.root_ids().remove(t).insert(obj),
        ensures
            forall|d: usize|
                #[trigger] prev.reach_set().contains(d) ==> self.reach_set().contains(d),
    {
        assert(self.links() =~= prev.links());
        assert forall|d: usize| #[trigger] prev.reach_set().contains(d) implies self
            .reach_set().contains(d) by {
            let rr = choose|rr: usize|
                prev.root_ids().contains(rr) && reaches(prev.links(), rr, d);
            assert(reaches(self.links(), rr, d));
            if rr == t {
                lemma_reaches_prepend(self.links(), obj, t, d);
                assert(self.root_ids().contains(obj));
            } else {
                assert(self.root_ids().contains(rr));
            }
        }
    }

    /// States with the same records and root list have the same reachable
    /// set.
    proof fn lemma_reach_same_state(&self, prev: &Heap<T>)
        requires
            self.objs() == prev.objs(),
            self.root_seq() == prev.root_seq(),
        ensures
            self.reach_set() == prev.reach_set(),
    {
        assert(self.links() =~= prev.links());
        assert(self.reach_set() =~= prev.reach_set());
    }

    /// Gather the identities of the currently marked records, in ascending
    /// order.
    fn collect_reachable_set(&self) -> (r: Vec<usize>)
        requires
            self.inv(),
        ensures
            forall|k1: int, k2: int| 0 <= k1 < k2 < r@.len() ==> r@[k1] < r@[k2],
            forall|k: int|
                0 <= k < r@.len() ==> (#[trigger] r@[k]) < self.cap() && self.objs()[
                    r@[k] as int
                ].spec_marked(),
            forall|id: usize|
                id < self.cap() && (#[trigger] self.objs()[id as int]).spec_marked()
                    ==> r@.contains(id),
    {
        let mut result: Vec<usize> = Vec::new();
        let mut i: usize = 0;
        while i < self.size
            invariant
                self.inv(),
                i <= self.cap(),
                forall|k: int| 0 <= k < result@.len() ==> (#[trigger] result@[k]) < i,
                forall|k1: int, k2: int| 0 <= k1 < k2 < result@.len() ==> result@[k1] < result@[k2],
                forall|k: int|
                    0 <= k < result@.len() ==> self.objs()[
                        (#[trigger] result@[k]) as int
                    ].spec_marked(),
                forall|id: usize|
                    id < i && (#[trigger] self.objs()[id as int]).spec_marked()
                        ==> result@.contains(id),
            decreases self.cap() - i,
        {
            let ghost prev = result@;
            if self.heap[i].marked {
                result.push(i);
                proof {
                    assert(result@[prev.len() as int] == i);
                    assert forall|id: usize|
                        id < i + 1 && (#[trigger] self.objs()[id as int]).spec_marked() implies
                        result@.contains(id) by {
                        if id < i {
                            let k = choose|k: int| 0 <= k < prev.len() && prev[k] == id;
                            assert(result@[k] == id);
                        }
                    }
                }
            }
            i = i + 1;
        }
        result
    }

    /// Compute the set of identities reachable from the root set, returned in
    /// ascending order.  The computation borrows the records' mark bits as
    /// scratch state and restores them before returning, so the heap is left
    /// exactly as it was.
    pub fn reachable_set(&mut self) -> (r: Vec<usize>)
        requires
            old(self).wf(),
        ensures
            final(self).wf(),
            final(self).objs() == old(self).objs(),
            final(self).root_seq() == old(self).root_seq(),
            final(self).free_ids() == old(self).free_ids(),
            final(self).cap() == old(self).cap(),
            forall|k1: int, k2: int| 0 <= k1 < k2 < r@.len() ==> r@[k1] < r@[k2],
            forall|k: int|
                0 <= k < r@.len() ==> old(self).reach_set().contains(#[trigger] r@[k]),
            forall|id: usize| #[trigger] old(self).reach_set().contains(id) ==> r@.contains(id),
    {
        self.clear_marks();
        let ghost s1 = *self;
        self.mark_all();
        let ghost s2 = *self;
        let result = self.collect_reachable_set();
        self.clear_marks();
        proof {
            assert(s1.reach_set() =~= old(self).reach_set());
            assert forall|k: int| 0 <= k < result@.len() implies old(self).reach_set().contains(
                #[trigger] result@[k],
            ) by {
                assert(s2.objs()[result@[k] as int].spec_marked());
            }
            assert forall|id: usize| #[trigger] old(self).reach_set().contains(id) implies
                result@.contains(id) by {
                old(self).lemma_reach_subset_live();
                assert(s2.objs()[id as int].spec_marked());
            }
            assert forall|i: int| 0 <= i < old(self).cap() implies self.objs()[i] == old(
                self,
            ).objs()[i] by {
                assert(same_content(self.objs()[i], s2.objs()[i]));
                assert(same_content(s2.objs()[i], s1.objs()[i]));
                assert(same_content(s1.objs()[i], old(self).objs()[i]));
                assert(!self.objs()[i].spec_marked());
                assert(!old(self).objs()[i].spec_marked());
            }
            assert(self.objs() =~= old(self).objs());
        }
        result
    }

    /// Well-formedness survives a change that only rewrites the root list
    /// (to one that is still duplicate-free and all-live).
    proof fn lemma_wf_after_roots_change(&self, prev: &Heap<T>)
        requires
            prev.wf(),
            self.objs() == prev.objs(),
            self.cap() == prev.cap(),
            self.free_ids() == prev.free_ids(),
            self.roots_ok(),
        ensures
            self.wf(),
    {
        assert(self.links() =~= prev.links());
        assert forall|i: int, j: usize|
            0 <= i < self.cap() && #[trigger] points_to(self.links()[i], j) implies self.is_live(
            j,
        ) by {
            assert(points_to(prev.links()[i], j));
        }
    }

    /// The structural invariant survives a change to one live record that
    /// keeps it live, keeps its identity, and links it only at live records.
    proof fn lemma_wf_after_link_change(&self, prev: Heap<T>, id: usize)
        requires
            prev.wf(),
            prev.is_live(id),
            self.cap() == prev.cap(),
            self.root_seq() == prev.root_seq(),
            self.free_ids() == prev.free_ids(),
            self.objs().len() == prev.objs().len(),
            forall|i: int| 0 <= i < prev.cap() && i != id ==> self.objs()[i] == prev.objs()[i],
            self.objs()[id as int].spec_data() is Some,
            self.objs()[id as int].spec_id() == prev.objs()[id as int].spec_id(),
            self.objs()[id as int].spec_marked() == prev.objs()[id as int].spec_marked(),
            forall|j: usize|
                #[trigger] points_to(self.links()[id as int], j) ==> prev.is_live(j) || points_to(
                    prev.links()[id as int],
                    j,
                ),
        ensures
            self.wf(),
    {
        assert forall|i: usize| self.is_live(i) == prev.is_live(i) by {
            if i < self.cap() && i != id {
                assert(self.objs()[i as int] == prev.objs()[i as int]);
            }
        }
        assert forall|i: usize|
            i < self.cap() && (#[trigger] self.objs()[i as int]).spec_data() is None implies self
            .free_ids().contains(i) by {
            assert(self.objs()[i as int] == prev.objs()[i as int]);
        }
        assert forall|i: int, j: usize|
            0 <= i < self.cap() && #[trigger] points_to(self.links()[i], j) implies self.is_live(
            j,
        ) by {
            if i != id {
                assert(self.links()[i] == prev.links()[i]);
                assert(points_to(prev.links()[i], j));
            }
        }
    }
}

impl<T: Clone> Heap<T> {
    /// `allocate`, restated for internal callers that only need the
    /// reachability facts (the full free-list bookkeeping stays out of their
    /// proofs).
    fn allocate_keeping_reachable(&mut self, data: T) -> (r: Result<usize, GcError>)
        requires
            old(self).wf(),
        ensures
            final(self).wf(),
            final(self).cap() == old(self).cap(),
            final(self).root_seq() == old(self).root_seq(),
            final(self).reach_set() == old(self).reach_set(),
            r is Err ==> final(self).objs() == old(self).objs() && final(self).free_ids() == old(
                self,
            ).free_ids(),
            r matches Ok(obj) ==> {
                &&& obj < old(self).cap()
                &&& !old(self).reach_set().contains(obj)
                &&& final(self).is_live(obj)
                &&& final(self).objs()[obj as int].spec_head() is None
                &&& final(self).objs()[obj as int].spec_tail() is None
                &&& forall|i: usize|
                    #[trigger] old(self).reach_set().contains(i) ==> i < old(self).cap() && i
                        != obj && final(self).objs()[i as int] == old(self).objs()[i as int]
            },
    {
        let r = self.allocate(data);
        proof {
            if r is Err {
                self.lemma_reach_same_state(old(self));
            }
        }
        r
    }

    /// One step of filling the heap: allocate a temporary record, chain it in
    /// front of the current chain root `tmp_root`, and make it the new chain
    /// root.  Everything reachable beforehand stays reachable and untouched.
    #[verifier::rlimit(100)]
    #[verifier::spinoff_prover]
    fn chain_step(&mut self, tmp_data: T, tmp_root: usize) -> (r: Result<usize, GcError>)
        requires
            old(self).wf(),
            old(self).root_ids().contains(tmp_root),
        ensures
            final(self).wf(),
            final(self).cap() == old(self).cap(),
            r is Err ==> final(self).objs() == old(self).objs() && final(self).free_ids() == old(
                self,
            ).free_ids() && final(self).root_seq() == old(self).root_seq(),
            r matches Ok(obj) ==> {
                &&& obj < old(self).cap()
                &&& !old(self).reach_set().contains(obj)
                &&& final(self).root_ids() == old(self).root_ids().remove(tmp_root).insert(obj)
                &&& final(self).is_live(obj)
                &&& forall|i: usize|
                    #[trigger] old(self).reach_set().contains(i) ==> i < old(self).cap()
                        && final(self).objs()[i as int] == old(self).objs()[i as int]
                        && final(self).reach_set().contains(i)
            },
    {
        let res = self.allocate_keeping_reachable(tmp_data);
        match res {
            Err(e) => Err(e),
            Ok(obj) => {
                let ghost post_alloc = *self;
                proof {
                    old(self).lemma_root_reachable(tmp_root);
                    assert(old(self).reach_set().contains(tmp_root));
                    assert(self.objs()[tmp_root as int] == old(self).objs()[tmp_root as int]);
                    assert(self.is_live(tmp_root));
                }
                let res2 = self.set_head(obj, Some(tmp_root));
                let ghost post_head = *self;
                proof {
                    assert(res2 is Ok);
                    post_head.lemma_reach_after_new_link(&post_alloc, obj);
                }
                let _ = self.root_remove(tmp_root);
                let _ = self.root_add(obj);
                proof {
                    assert(self.objs() == post_head.objs());
                    assert(points_to(self.links()[obj as int], tmp_root)) by {
                        assert(self.objs()[obj as int].spec_head() == Some(tmp_root));
                    }
                    self.lemma_reach_after_root_swap(&post_head, obj, tmp_root);
                    assert forall|i: usize| #[trigger] old(self).reach_set().contains(i) implies i
                        < old(self).cap() && self.objs()[i as int] == old(self).objs()[i as int]
                        && self.reach_set().contains(i) by {
                        assert(post_alloc.objs()[i as int] == old(self).objs()[i as int]);
                        assert(i != obj);
                        assert(post_alloc.reach_set().contains(i));
                        assert(post_head.reach_set().contains(i));
                    }
                }
                Ok(obj)
            },
        }
    }

    /// Force a full collection pass over the current root set: fill the heap
    /// with temporary records chained from one existing root (so nothing
    /// reachable is lost), then restore the root set, run the collector
    /// against it, and allocate once more.  Everything reachable from the
    /// root set keeps its links and payload, the root set itself is
    /// unchanged, every identity outside the reachable set is reclaimed, and
    /// the largest reclaimed identity receives the temporary payload.
    #[verifier::rlimit(100)]
    #[verifier::spinoff_prover]
    pub fn force_gc(&mut self, tmp_data: T)
        requires
            old(self).wf(),
            old(self).root_seq().len() > 0,
        ensures
            final(self).wf(),
            final(self).cap() == old(self).cap(),
            final(self).root_ids() == old(self).root_ids(),
            forall|i: usize|
                #[trigger] old(self).reach_set().contains(i) ==> i < old(self).cap()
                    && final(self).objs()[i as int] == old(self).objs()[i as int],
            final(self).reach_set() == old(self).reach_set(),
            ({
                let sw = swept_ids(old(self).reach_set(), old(self).cap() as nat);
                &&& (sw.len() > 0 ==> final(self).free_ids() == sw.drop_last()
                    && final(self).objs()[sw.last() as int].spec_data() == Some(tmp_data)
                    && final(self).objs()[sw.last() as int].spec_head() is None
                    && final(self).objs()[sw.last() as int].spec_tail() is None
                    && (forall|i: usize|
                        i < old(self).cap() && !old(self).reach_set().contains(i) && i
                            != sw.last() ==> final(self).objs()[i as int].spec_data() is None))
                &&& (sw.len() == 0 ==> final(self).objs() == old(self).objs())
            }),
    {
        let ghost r0 = old(self).reach_set();
        let origin_root = self.root_set[0];
        proof {
            assert(old(self).root_seq()[0] == origin_root);
            assert(old(self).root_ids().contains(origin_root));
            old(self).lemma_root_reachable(origin_root);
            assert(r0.contains(origin_root));
            assert(self.root_ids() =~= old(self).root_ids().remove(origin_root).insert(
                origin_root,
            ));
        }
        let mut tmp_root = origin_root;
        let mut n: usize = 0;
        while n < self.size
            invariant
                old(self).wf(),
                r0 == old(self).reach_set(),
                self.wf(),
                self.cap() == old(self).cap(),
                old(self).root_ids().contains(origin_root),
                r0.contains(origin_root),
                tmp_root == origin_root || !old(self).root_ids().contains(tmp_root),
                self.root_ids() == old(self).root_ids().remove(origin_root).insert(tmp_root),
                forall|i: usize|
                    #[trigger] r0.contains(i) ==> i < self.cap() && self.objs()[i as int] == old(
                        self,
                    ).objs()[i as int],
                forall|i: usize| #[trigger] r0.contains(i) ==> self.reach_set().contains(i),
                n <= self.cap(),
            decreases self.cap() - n,
        {
            let ghost pre = *self;
            proof {
                assert(self.root_ids().contains(tmp_root));
            }
            let res = self.chain_step(tmp_data.clone(), tmp_root);
            match res {
                Err(_) => {
                    proof {
                        self.lemma_reach_same_state(&pre);
                        assert forall|i: usize| #[trigger] r0.contains(i) implies i < self.cap()
                            && self.objs()[i as int] == old(self).objs()[i as int] && self
                            .reach_set().contains(i) by {
                            assert(pre.reach_set().contains(i));
                        }
                    }
                    break ;
                },
                Ok(obj) => {
                    proof {
                        assert(!old(self).root_ids().contains(obj)) by {
                            if old(self).root_ids().contains(obj) {
                                old(self).lemma_root_reachable(obj);
                                assert(r0.contains(obj));
                                assert(pre.reach_set().contains(obj));
                            }
                        }
                        assert(self.root_ids() =~= old(self).root_ids().remove(
                            origin_root,
                        ).insert(obj));
                        assert forall|i: usize| #[trigger] r0.contains(i) implies i < self.cap()
                            && self.objs()[i as int] == old(self).objs()[i as int] && self
                            .reach_set().contains(i) by {
                            assert(pre.reach_set().contains(i));
                        }
                    }
                    tmp_root = obj;
                    n = n + 1;
                },
            }
        }
        let ghost filled = *self;
        let _ = self.root_remove(tmp_root);
        proof {
            assert(self.objs() == filled.objs());
            assert(self.is_live(origin_root)) by {
                assert(r0.contains(origin_root));
                assert(filled.objs()[origin_root as int] == old(self).objs()[origin_root as int]);
                let k = choose|k: int|
                    0 <= k < old(self).root_seq().len() && old(self).root_seq()[k] == origin_root;
                assert(old(self).is_live(old(self).root_seq()[k]));
            }
        }
        let _ = self.root_add(origin_root);
        let ghost restored = *self;
        proof {
            assert(restored.root_ids() =~= old(self).root_ids());
            assert(restored.objs() == filled.objs());
            assert forall|i: usize|
                #[trigger] old(self).reach_set().contains(i) && i < old(self).cap() implies
                restored.links()[i as int] == old(self).links()[i as int] by {
                assert(restored.objs()[i as int] == old(self).objs()[i as int]);
            }
            restored.lemma_reach_preserved(old(self));
            assert(restored.reach_set() == r0);
        }
        self.collect_and_install(tmp_data);
        proof {
            assert(self.root_ids() =~= old(self).root_ids());
            assert(self.reach_set() == r0);
            assert forall|i: usize| #[trigger] r0.contains(i) implies i < old(self).cap()
                && self.objs()[i as int] == old(self).objs()[i as int] by {
                assert(restored.reach_set().contains(i));
                assert(self.objs()[i as int] == restored.objs()[i as int]);
                assert(restored.objs()[i as int] == old(self).objs()[i as int]);
            }
            let sw = swept_ids(old(self).reach_set(), old(self).cap() as nat);
            assert(swept_ids(restored.reach_set(), restored.cap() as nat) == sw);
            if sw.len() == 0 {
                lemma_swept_ids_props(old(self).reach_set(), old(self).cap() as nat);
                assert(self.objs() =~= old(self).objs()) by {
                    assert forall|i: int| 0 <= i < old(self).cap() implies self.objs()[i] == old(
                        self,
                    ).objs()[i] by {
                        assert(old(self).reach_set().contains(i as usize)) by {
                            if !old(self).reach_set().contains(i as usize) {
                                assert(sw.contains(i as usize));
                            }
                        }
                    }
                }
            } else {
                assert forall|i: usize|
                    i < old(self).cap() && !old(self).reach_set().contains(i) && i
                        != sw.last() implies self.objs()[i as int].spec_data() is None by {
                    assert(!restored.reach_set().contains(i));
                }
            }
        }
    }
}

/// The identities below `n` that are not in `kept`, in ascending order: the
/// free list a sweep pass leaves behind when `kept` is the reachable set.
pub open spec fn swept_ids(kept: Set<usize>, n: nat) -> Seq<usize>
    decreases n,
{
    if n == 0 {
        Seq::empty()
    } else {
        swept_ids(kept, (n - 1) as nat) + if kept.contains((n - 1) as usize) {
            Seq::empty()
        } else {
            seq![(n - 1) as usize]
        }
    }
}

/// `swept_ids(kept, n)` is ascending and holds exactly the identities below
/// `n` outside `kept`.
pub proof fn lemma_swept_ids_props(kept: Set<usize>, n: nat)
    requires
        n <= usize::MAX,
    ensures
        forall|k: int|
            0 <= k < swept_ids(kept, n).len() ==> (#[trigger] swept_ids(kept, n)[k]) < n
                && !kept.contains(swept_ids(kept, n)[k]),
        forall|k1: int, k2: int|
            0 <= k1 < k2 < swept_ids(kept, n).len() ==> swept_ids(kept, n)[k1] < swept_ids(
                kept,
                n,
            )[k2],
        forall|j: usize| j < n && !kept.contains(j) ==> swept_ids(kept, n).contains(j),
    decreases n,
{
    if n > 0 {
        lemma_swept_ids_props(kept, (n - 1) as nat);
        let prev = swept_ids(kept, (n - 1) as nat);
        let cur = swept_ids(kept, n);
        assert forall|j: usize| j < n && !kept.contains(j) implies cur.contains(j) by {
            if j < n - 1 {
                let k = choose|k: int| 0 <= k < prev.len() && prev[k] == j;
                assert(cur[k] == j);
            } else {
                assert(cur[cur.len() - 1] == j);
            }
        }
        assert forall|k1: int, k2: int| 0 <= k1 < k2 < cur.len() implies cur[k1] < cur[k2] by {
            if k2 < prev.len() {
                assert(cur[k1] == prev[k1] && cur[k2] == prev[k2]);
            } else {
                assert(cur[k1] == prev[k1]);
                assert(prev[k1] < n - 1);
                assert(cur[k2] == (n - 1) as usize);
            }
        }
    }
}

/// Two sweeps agree when the kept sets agree below `n`.
pub proof fn lemma_swept_ids_congruence(kept1: Set<usize>, kept2: Set<usize>, n: nat)
    requires
        forall|j: usize| j < n ==> (kept1.contains(j) <==> kept2.contains(j)),
    ensures
        swept_ids(kept1, n) == swept_ids(kept2, n),
    decreases n,
{
    if n > 0 {
        lemma_swept_ids_congruence(kept1, kept2, (n - 1) as nat);
        assert(kept1.contains((n - 1) as usize) <==> kept2.contains((n - 1) as usize));
    }
}

/// How many records below `n` are unmarked (the mark loop's termination
/// measure).
spec fn unmarked_count<T>(objs: Seq<Object<T>>, n: nat) -> nat
    decreases n,
{
    if n == 0 {
        0
    } else {
        unmarked_count(objs, (n - 1) as nat) + if !objs[n - 1].spec_marked() {
            1nat
        } else {
            0nat
        }
    }
}

/// Marking one previously unmarked record lowers the unmarked count by one.
proof fn lemma_unmarked_count_mark<T>(objs1: Seq<Object<T>>, objs2: Seq<Object<T>>, n: nat, k: int)
    requires
        forall|i: int|
            0 <= i < n && i != k ==> (#[trigger] objs2[i]).spec_marked() == objs1[i].spec_marked(),
        0 <= k < n,
        !objs1[k].spec_marked(),
        objs2[k].spec_marked(),
    ensures
        unmarked_count(objs2, n) + 1 == unmarked_count(objs1, n),
    decreases n,
{
    if n - 1 == k {
        lemma_unmarked_count_same(objs1, objs2, (n - 1) as nat);
    } else {
        lemma_unmarked_count_mark(objs1, objs2, (n - 1) as nat, k);
    }
}

/// Records with the same mark bits below `n` have the same unmarked count.
proof fn lemma_unmarked_count_same<T>(objs1: Seq<Object<T>>, objs2: Seq<Object<T>>, n: nat)
    requires
        forall|i: int|
            0 <= i < n ==> (#[trigger] objs2[i]).spec_marked() == objs1[i].spec_marked(),
    ensures
        unmarked_count(objs2, n) == unmarked_count(objs1, n),
    decreases n,
{
    if n > 0 {
        lemma_unmarked_count_same(objs1, objs2, (n - 1) as nat);
    }
}

/// Everything but the mark bit agrees between two records.
spec fn same_content<T>(o1: Object<T>, o2: Object<T>) -> bool {
    &&& o1.spec_head() == o2.spec_head()
    &&& o1.spec_tail() == o2.spec_tail()
    &&& o1.spec_data() == o2.spec_data()
    &&& o1.spec_id() == o2.spec_id()
}

/// The live identities below `n`.
spec fn live_below<T>(h: &Heap<T>, n: usize) -> Set<usize> {
    Set::new(|j: usize| j < n && h.is_live(j))
}

/// `live_below(h, n)` is finite with at most `n` elements.
proof fn lemma_live_below_len<T>(h: &Heap<T>, n: usize)
    ensures
        live_below(h, n).finite(),
        live_below(h, n).len() <= n,
{
    lemma_ids_below_len(n);
    assert(live_below(h, n).subset_of(ids_below(n)));
    lemma_len_subset(live_below(h, n), ids_below(n));
}

} // verus!
