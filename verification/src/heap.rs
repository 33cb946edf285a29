//! The heap object store: owns every allocated object and assigns stable
//! identities.
//!
//! Identity `i` is slot `i` of an internal slot array; a reclaimed slot
//! holds nothing until a later allocation reuses it. Reclaimed slots are
//! remembered on a free list and handed out again, newest first, so the
//! slot array stays as large as the most objects ever live at once — not
//! as large as everything ever allocated. An identity is never reused
//! while its object is live: only the collector empties a slot, and only
//! an empty slot is handed out again.

use vstd::prelude::*;

use crate::item::{GcError, Item, ObjectId};

verus! {

/// One allocated unit: a stable identity, a declared payload size in
/// abstract units, and an ordered sequence of field values.
pub struct HeapObject {
    pub id: ObjectId,
    pub size: usize,
    pub fields: Vec<Item>,
}

/// The mathematical picture of one live object.
pub ghost struct ObjModel {
    pub size: nat,
    pub fields: Seq<Item>,
}

impl HeapObject {
    pub open spec fn model(self) -> ObjModel {
        ObjModel { size: self.size as nat, fields: self.fields@ }
    }
}

/// How many slots hold a live object.
pub open spec fn seq_live_count(s: Seq<Option<HeapObject>>) -> nat
    decreases s.len(),
{
    if s.len() == 0 {
        0
    } else {
        seq_live_count(s.drop_last()) + if s.last() is Some {
            1nat
        } else {
            0nat
        }
    }
}

/// The total declared size of the live objects in the slots.
pub open spec fn seq_live_size(s: Seq<Option<HeapObject>>) -> nat
    decreases s.len(),
{
    if s.len() == 0 {
        0
    } else {
        seq_live_size(s.drop_last()) + match s.last() {
            Some(o) => o.size as nat,
            None => 0nat,
        }
    }
}

/// The slots read as a finite map from identity to object model; the
/// domain is exactly the set of live identities.
pub open spec fn heap_map(s: Seq<Option<HeapObject>>) -> Map<ObjectId, ObjModel> {
    Map::new(
        |i: ObjectId| i < s.len() && s[i as int] is Some,
        |i: ObjectId| (s[i as int]->0).model(),
    )
}

/// At most every slot is live.
pub proof fn lemma_live_count_le_len(s: Seq<Option<HeapObject>>)
    ensures
        seq_live_count(s) <= s.len(),
    decreases s.len(),
{
    if s.len() > 0 {
        lemma_live_count_le_len(s.drop_last());
    }
}

/// Appending a slot adds its contribution to the live count and size.
pub proof fn lemma_live_push(s: Seq<Option<HeapObject>>, o: Option<HeapObject>)
    ensures
        seq_live_count(s.push(o)) == seq_live_count(s) + if o is Some {
            1nat
        } else {
            0nat
        },
        seq_live_size(s.push(o)) == seq_live_size(s) + match o {
            Some(ob) => ob.size as nat,
            None => 0nat,
        },
{
    assert(s.push(o).drop_last() =~= s);
}

/// Emptying a live slot lowers the live count by one and the live size by
/// that object's declared size.
pub proof fn lemma_live_update_to_none(s: Seq<Option<HeapObject>>, i: int)
    requires
        0 <= i < s.len(),
        s[i] is Some,
    ensures
        seq_live_count(s.update(i, None)) + 1 == seq_live_count(s),
        seq_live_size(s.update(i, None)) + (s[i]->0).size == seq_live_size(s),
    decreases s.len(),
{
    let t = s.update(i, None);
    if i == s.len() - 1 {
        assert(t.drop_last() =~= s.drop_last());
    } else {
        assert(t.drop_last() =~= s.drop_last().update(i, None));
        lemma_live_update_to_none(s.drop_last(), i);
    }
}

/// Filling an empty slot raises the live count by one and the live size
/// by the object's declared size.
pub proof fn lemma_live_update_to_some(s: Seq<Option<HeapObject>>, i: int, o: HeapObject)
    requires
        0 <= i < s.len(),
        s[i] is None,
    ensures
        seq_live_count(s.update(i, Some(o))) == seq_live_count(s) + 1,
        seq_live_size(s.update(i, Some(o))) == seq_live_size(s) + o.size,
    decreases s.len(),
{
    let t = s.update(i, Some(o));
    if i == s.len() - 1 {
        assert(t.drop_last() =~= s.drop_last());
    } else {
        assert(t.drop_last() =~= s.drop_last().update(i, Some(o)));
        lemma_live_update_to_some(s.drop_last(), i, o);
    }
}

/// Whether some slot stands empty, ready for reuse.
pub open spec fn has_free_slot(s: Seq<Option<HeapObject>>) -> bool {
    exists|i: int| 0 <= i < s.len() && s[i] is None
}

/// Replacing a live slot by an object of the same declared size leaves the
/// live count and the live size unchanged.
pub proof fn lemma_live_update_same_size(s: Seq<Option<HeapObject>>, i: int, o: HeapObject)
    requires
        0 <= i < s.len(),
        s[i] is Some,
        o.size == (s[i]->0).size,
    ensures
        seq_live_count(s.update(i, Some(o))) == seq_live_count(s),
        seq_live_size(s.update(i, Some(o))) == seq_live_size(s),
    decreases s.len(),
{
    let t = s.update(i, Some(o));
    if i == s.len() - 1 {
        assert(t.drop_last() =~= s.drop_last());
    } else {
        assert(t.drop_last() =~= s.drop_last().update(i, Some(o)));
        lemma_live_update_same_size(s.drop_last(), i, o);
    }
}

/// The store. Mutating it is the only way heap memory usage changes; the
/// running live count and live size are kept alongside for diagnostics.
pub struct Heap {
    slots: Vec<Option<HeapObject>>,
    free: Vec<ObjectId>,
    live_count: usize,
    live_size: usize,
}

impl Heap {
    /// The slot array itself: index `i` holds the object with identity `i`,
    /// or nothing if `i` was never allocated or has been reclaimed.
    pub closed spec fn slots_seq(self) -> Seq<Option<HeapObject>> {
        self.slots@
    }

    /// The store as a map from live identity to object model.
    pub open spec fn model(self) -> Map<ObjectId, ObjModel> {
        heap_map(self.slots_seq())
    }

    pub open spec fn live_count_spec(self) -> nat {
        seq_live_count(self.slots_seq())
    }

    pub open spec fn live_size_spec(self) -> nat {
        seq_live_size(self.slots_seq())
    }

    /// The reclaimed identities awaiting reuse, oldest first; `allocate`
    /// takes from the end.
    pub closed spec fn free_list(self) -> Seq<ObjectId> {
        self.free@
    }

    /// The store's internal invariant: the cached counters agree with the
    /// slots, every stored object carries its own slot index as its
    /// identity, and the free list holds exactly the empty slots, each
    /// once.
    pub closed spec fn wf(self) -> bool {
        &&& self.live_count == seq_live_count(self.slots@)
        &&& self.live_size == seq_live_size(self.slots@)
        &&& forall|i: int|
            0 <= i < self.slots@.len() && self.slots@[i] is Some ==> ((
            #[trigger] self.slots@[i])->0).id == i
        &&& forall|k: int|
            0 <= k < self.free@.len() ==> (#[trigger] self.free@[k]) < self.slots@.len()
                && self.slots@[self.free@[k] as int] is None
        &&& forall|k1: int, k2: int|
            0 <= k1 < k2 < self.free@.len() ==> self.free@[k1] != self.free@[k2]
        &&& forall|i: int|
            0 <= i < self.slots@.len() && self.slots@[i] is None ==> self.free@.contains(
                i as ObjectId,
            )
    }

    /// The live count and live size always fit the machine word: the
    /// store caches them in one.
    pub proof fn lemma_counter_bounds(self)
        requires
            self.wf(),
        ensures
            self.live_count_spec() <= usize::MAX,
            self.live_size_spec() <= usize::MAX,
    {
    }

    /// An empty store.
    pub fn new() -> (h: Heap)
        ensures
            h.wf(),
            h.slots_seq() == Seq::<Option<HeapObject>>::empty(),
            h.model() == Map::<ObjectId, ObjModel>::empty(),
            h.free_list() == Seq::<ObjectId>::empty(),
    {
        let h = Heap { slots: Vec::new(), free: Vec::new(), live_count: 0, live_size: 0 };
        proof {
            assert(h.model() =~= Map::<ObjectId, ObjModel>::empty());
        }
        h
    }

    /// How many slots exist, live or reclaimed.
    pub fn slot_count(&self) -> (n: usize)
        ensures
            n == self.slots_seq().len(),
    {
        self.slots.len()
    }

    /// Whether `id` names a live object.
    pub fn contains(&self, id: ObjectId) -> (b: bool)
        ensures
            b == self.model().dom().contains(id),
    {
        id < self.slots.len() && self.slots[id].is_some()
    }

    /// The number of live objects.
    pub fn live_count(&self) -> (n: usize)
        requires
            self.wf(),
        ensures
            n == self.live_count_spec(),
    {
        self.live_count
    }

    /// The total declared size of the live objects.
    pub fn live_size(&self) -> (n: usize)
        requires
            self.wf(),
        ensures
            n == self.live_size_spec(),
    {
        self.live_size
    }

    /// Creates a new object and returns its identity: the most recently
    /// reclaimed slot when one is free, a fresh slot otherwise. Fails
    /// only on resource exhaustion: when the total live size would no
    /// longer fit, or no slot is free and the identity space is spent.
    pub fn allocate(&mut self, size: usize, fields: Vec<Item>) -> (r: Result<ObjectId, GcError>)
        requires
            old(self).wf(),
        ensures
            final(self).wf(),
            ({
                let exhausted = old(self).live_size_spec() + size > usize::MAX || (old(
                    self,
                ).slots_seq().len() == usize::MAX && !has_free_slot(old(self).slots_seq()));
                match r {
                    Ok(id) => {
                        &&& !exhausted
                        &&& !old(self).model().dom().contains(id)
                        &&& final(self).model() == old(self).model().insert(
                            id,
                            (ObjModel { size: size as nat, fields: fields@ }),
                        )
                        &&& (if old(self).free_list().len() > 0 {
                            &&& id == old(self).free_list().last()
                            &&& final(self).slots_seq() == old(self).slots_seq().update(
                                id as int,
                                Some((HeapObject { id, size, fields })),
                            )
                            &&& final(self).free_list() == old(self).free_list().drop_last()
                        } else {
                            &&& id == old(self).slots_seq().len()
                            &&& final(self).slots_seq() == old(self).slots_seq().push(
                                Some((HeapObject { id, size, fields })),
                            )
                            &&& final(self).free_list() == old(self).free_list()
                        })
                    },
                    Err(e) => {
                        &&& exhausted
                        &&& e == GcError::OutOfMemory
                        &&& *final(self) == *old(self)
                    },
                }
            }),
    {
        if size > usize::MAX - self.live_size {
            return Err(GcError::OutOfMemory);
        }
        if self.free.is_empty() {
            // No slot to reuse: the free list holds every empty slot, so
            // the array is fully live and the object needs a fresh slot.
            if self.slots.len() == usize::MAX {
                proof {
                    assert(!has_free_slot(self.slots@));
                }
                return Err(GcError::OutOfMemory);
            }
            let id = self.slots.len();
            let obj = HeapObject { id, size, fields };
            proof {
                lemma_live_push(self.slots@, Some(obj));
                lemma_live_count_le_len(self.slots@);
            }
            self.slots.push(Some(obj));
            self.live_count = self.live_count + 1;
            self.live_size = self.live_size + size;
            proof {
                assert(self.model() =~= old(self).model().insert(
                    id,
                    ObjModel { size: size as nat, fields: fields@ },
                ));
            }
            Ok(id)
        } else {
            let slot_cap = self.slots.len();
            let id = match self.free.pop() {
                Some(id) => id,
                None => vstd::pervasive::unreached(),
            };
            proof {
                assert(self.slots@.len() == slot_cap);
            }
            let obj = HeapObject { id, size, fields };
            proof {
                lemma_live_update_to_some(self.slots@, id as int, obj);
                lemma_live_count_le_len(self.slots@.update(id as int, Some(obj)));
            }
            self.slots[id] = Some(obj);
            self.live_count = self.live_count + 1;
            self.live_size = self.live_size + size;
            proof {
                assert forall|i: int|
                    0 <= i < self.slots@.len() && self.slots@[i] is None implies self.free@.contains(
                    i as ObjectId,
                ) by {
                    assert(old(self).free@.contains(i as ObjectId));
                    let k = choose|k: int|
                        0 <= k < old(self).free@.len() && old(self).free@[k] == i as ObjectId;
                    assert(k < old(self).free@.len() - 1);
                    assert(self.free@[k] == i as ObjectId);
                }
                assert(self.model() =~= old(self).model().insert(
                    id,
                    ObjModel { size: size as nat, fields: fields@ },
                ));
            }
            Ok(id)
        }
    }

    /// Looks a live object up by identity.
    pub fn get(&self, id: ObjectId) -> (r: Result<&HeapObject, GcError>)
        requires
            self.wf(),
        ensures
            match r {
                Ok(o) => {
                    &&& self.model().dom().contains(id)
                    &&& o.id == id
                    &&& o.model() == self.model()[id]
                },
                Err(e) => {
                    &&& e == GcError::UnknownObject
                    &&& !self.model().dom().contains(id)
                },
            },
    {
        if id >= self.slots.len() {
            return Err(GcError::UnknownObject);
        }
        match &self.slots[id] {
            Some(o) => Ok(o),
            None => Err(GcError::UnknownObject),
        }
    }

    /// Deletes the object named `id` and queues its slot for reuse;
    /// meant to be driven by the collector during sweep, and defensive
    /// against absent identities.
    pub fn remove(&mut self, id: ObjectId) -> (r: Result<(), GcError>)
        requires
            old(self).wf(),
        ensures
            final(self).wf(),
            match r {
                Ok(()) => {
                    &&& old(self).model().dom().contains(id)
                    &&& final(self).slots_seq() == old(self).slots_seq().update(id as int, None)
                    &&& final(self).free_list() == old(self).free_list().push(id)
                    &&& final(self).live_count_spec() + 1 == old(self).live_count_spec()
                    &&& final(self).live_size_spec() + old(self).model()[id].size
                        == old(self).live_size_spec()
                },
                Err(e) => {
                    &&& e == GcError::UnknownObject
                    &&& !old(self).model().dom().contains(id)
                    &&& *final(self) == *old(self)
                },
            },
    {
        if id >= self.slots.len() {
            return Err(GcError::UnknownObject);
        }
        let sz = match &self.slots[id] {
            Some(o) => o.size,
            None => {
                return Err(GcError::UnknownObject);
            },
        };
        proof {
            lemma_live_update_to_none(self.slots@, id as int);
        }
        self.slots[id] = None;
        self.free.push(id);
        self.live_count = self.live_count - 1;
        self.live_size = self.live_size - sz;
        proof {
            assert forall|i: int|
                0 <= i < self.slots@.len() && self.slots@[i] is None implies self.free@.contains(
                i as ObjectId,
            ) by {
                if i == id {
                    assert(self.free@[self.free@.len() - 1] == id);
                } else {
                    let k = choose|k: int|
                        0 <= k < old(self).free@.len() && old(self).free@[k] == i as ObjectId;
                    assert(self.free@[k] == i as ObjectId);
                }
            }
        }
        Ok(())
    }

    /// Overwrites one field of a live object; a failed write leaves the
    /// store untouched.
    pub fn write_field(&mut self, id: ObjectId, index: usize, value: Item) -> (r: Result<
        (),
        GcError,
    >)
        requires
            old(self).wf(),
        ensures
            final(self).wf(),
            match r {
                Ok(()) => {
                    &&& old(self).model().dom().contains(id)
                    &&& index < old(self).model()[id].fields.len()
                    &&& final(self).slots_seq().len() == old(self).slots_seq().len()
                    &&& forall|j: int|
                        0 <= j < old(self).slots_seq().len() && j != id ==> final(self).slots_seq()[j] == old(self).slots_seq()[j]
                    &&& final(self).model() == old(self).model().insert(
                        id,
                        (ObjModel {
                            size: old(self).model()[id].size,
                            fields: old(self).model()[id].fields.update(index as int, value),
                        }),
                    )
                },
                Err(e) => {
                    &&& *final(self) == *old(self)
                    &&& (e == GcError::UnknownObject || e == GcError::IndexOutOfRange)
                    &&& (e == GcError::UnknownObject <==> !old(self).model().dom().contains(id))
                    &&& (e == GcError::IndexOutOfRange <==> old(self).model().dom().contains(id)
                        && index >= old(self).model()[id].fields.len())
                },
            },
    {
        if id >= self.slots.len() {
            return Err(GcError::UnknownObject);
        }
        let (sz, field_count) = match &self.slots[id] {
            Some(o) => (o.size, o.fields.len()),
            None => {
                return Err(GcError::UnknownObject);
            },
        };
        if index >= field_count {
            return Err(GcError::IndexOutOfRange);
        }
        let mut new_fields: Vec<Item> = Vec::new();
        let mut k: usize = 0;
        while k < field_count
            invariant
                *self == *old(self),
                self.wf(),
                id < self.slots@.len(),
                self.slots@[id as int] is Some,
                field_count == (self.slots@[id as int]->0).fields@.len(),
                index < field_count,
                k <= field_count,
                new_fields@.len() == k,
                forall|j: int|
                    0 <= j < k ==> new_fields@[j] == (if j == index {
                        value
                    } else {
                        (self.slots@[id as int]->0).fields@[j]
                    }),
            decreases field_count - k,
        {
            let it = match &self.slots[id] {
                Some(o) => o.fields[k],
                None => Item::Scalar,
            };
            if k == index {
                new_fields.push(value);
            } else {
                new_fields.push(it);
            }
            k = k + 1;
        }
        let replacement = HeapObject { id, size: sz, fields: new_fields };
        proof {
            lemma_live_update_same_size(self.slots@, id as int, replacement);
        }
        self.slots[id] = Some(replacement);
        proof {
            assert(((self.slots@[id as int])->0).fields@ =~= (old(self).model()[id]).fields.update(
                index as int,
                value,
            ));
            assert(self.model() =~= old(self).model().insert(
                id,
                ObjModel {
                    size: old(self).model()[id].size,
                    fields: old(self).model()[id].fields.update(index as int, value),
                },
            ));
        }
        Ok(())
    }
}

} // verus!
