//! The engine: a heap object store and a root table behind one facade,
//! with the stop-the-world mark-and-sweep collector.
//!
//! `collect` runs synchronously through its phases — marking, then
//! sweeping, then back to idle — and no other engine operation executes
//! concurrently with it. A cycle guard (skip what is already marked)
//! keeps it terminating on cyclic graphs. Its cost is proportional to
//! the live graph and the slot array, which slot reuse keeps at the high
//! water of simultaneously live objects, not at total historical
//! allocation.

use vstd::prelude::*;

use crate::heap::{has_free_slot, Heap, HeapObject, ObjModel};
use crate::item::{CollectionStats, GcError, Item, ObjectId};
use crate::reach::{edge, reachable, reachable_in, root_targets};
use crate::reach::{
    lemma_closed_superset_of_reachable, lemma_reachable_is_live, lemma_reachable_restrict,
    lemma_reachable_step, lemma_root_target_reachable,
};
use crate::roots::RootTable;

verus! {

/// How many entries of a mark vector are still unmarked.
spec fn count_false(s: Seq<bool>) -> nat
    decreases s.len(),
{
    if s.len() == 0 {
        0
    } else {
        count_false(s.drop_last()) + if s.last() {
            0nat
        } else {
            1nat
        }
    }
}

proof fn lemma_count_false_update(s: Seq<bool>, i: int)
    requires
        0 <= i < s.len(),
        !s[i],
    ensures
        count_false(s.update(i, true)) + 1 == count_false(s),
    decreases s.len(),
{
    let t = s.update(i, true);
    if i == s.len() - 1 {
        assert(t.drop_last() =~= s.drop_last());
    } else {
        assert(t.drop_last() =~= s.drop_last().update(i, true));
        lemma_count_false_update(s.drop_last(), i);
    }
}

/// Identity `b` still awaits processing: it occurs in the worklist at or
/// beyond the cursor.
spec fn pending(wl: Seq<ObjectId>, cursor: int, b: ObjectId) -> bool {
    exists|j: int| cursor <= j < wl.len() && wl[j] == b
}

/// The collector engine. It exclusively owns its heap object store and
/// its root table; the mutator reaches both only through these methods.
pub struct Gc {
    heap: Heap,
    roots: RootTable,
}

impl Gc {
    /// The engine's heap object store.
    pub closed spec fn heap_store(self) -> Heap {
        self.heap
    }

    /// The engine's root table.
    pub closed spec fn root_table(self) -> RootTable {
        self.roots
    }

    /// The heap as a map from live identity to object model.
    pub open spec fn heap_model(self) -> Map<ObjectId, ObjModel> {
        self.heap_store().model()
    }

    /// The heap's slot array; identities index it.
    pub open spec fn heap_seq(self) -> Seq<Option<HeapObject>> {
        self.heap_store().slots_seq()
    }

    /// The root table as a map from root name to bound pointer target.
    pub open spec fn root_model(self) -> Map<Seq<char>, Option<ObjectId>> {
        self.root_table().model()
    }

    /// The collector's root set: every identity some root points at.
    pub open spec fn root_set(self) -> Set<ObjectId> {
        root_targets(self.root_model())
    }

    /// The reclaimed identities awaiting reuse, oldest first.
    pub open spec fn free_ids(self) -> Seq<ObjectId> {
        self.heap_store().free_list()
    }

    pub open spec fn live_count_spec(self) -> nat {
        self.heap_store().live_count_spec()
    }

    pub open spec fn live_size_spec(self) -> nat {
        self.heap_store().live_size_spec()
    }

    pub open spec fn wf(self) -> bool {
        &&& self.heap_store().wf()
        &&& self.root_table().wf()
    }

    /// A fresh engine: empty heap, no roots.
    pub fn new() -> (gc: Gc)
        ensures
            gc.wf(),
            gc.heap_seq() == Seq::<Option<HeapObject>>::empty(),
            gc.heap_model() == Map::<ObjectId, ObjModel>::empty(),
            gc.root_model() == Map::<Seq<char>, Option<ObjectId>>::empty(),
    {
        Gc { heap: Heap::new(), roots: RootTable::new() }
    }

    /// Creates a new object with the given declared size and field
    /// values and returns its identity: the most recently reclaimed
    /// identity when one is free, a fresh one otherwise — never one that
    /// is still live. Fails only with `OutOfMemory`, on resource
    /// exhaustion.
    pub fn allocate(&mut self, size: usize, fields: Vec<Item>) -> (r: Result<ObjectId, GcError>)
        requires
            old(self).wf(),
        ensures
            final(self).wf(),
            final(self).root_model() == old(self).root_model(),
            ({
                let exhausted = old(self).live_size_spec() + size > usize::MAX || (old(
                    self,
                ).heap_seq().len() == usize::MAX && !has_free_slot(old(self).heap_seq()));
                match r {
                    Ok(id) => {
                        &&& !exhausted
                        &&& !old(self).heap_model().dom().contains(id)
                        &&& final(self).heap_model() == old(self).heap_model().insert(
                            id,
                            (ObjModel { size: size as nat, fields: fields@ }),
                        )
                        &&& (if old(self).free_ids().len() > 0 {
                            &&& id == old(self).free_ids().last()
                            &&& final(self).heap_seq() == old(self).heap_seq().update(
                                id as int,
                                Some((HeapObject { id, size, fields })),
                            )
                            &&& final(self).free_ids() == old(self).free_ids().drop_last()
                        } else {
                            &&& id == old(self).heap_seq().len()
                            &&& final(self).heap_seq() == old(self).heap_seq().push(
                                Some((HeapObject { id, size, fields })),
                            )
                            &&& final(self).free_ids() == old(self).free_ids()
                        })
                    },
                    Err(e) => {
                        &&& exhausted
                        &&& e == GcError::OutOfMemory
                        &&& *final(self) == *old(self)
                    },
                }
            }),
    {
        self.heap.allocate(size, fields)
    }

    /// Overwrites field `index` of the object named `id`. A failed write
    /// surfaces the error immediately and leaves the engine untouched.
    pub fn write_field(&mut self, id: ObjectId, index: usize, value: Item) -> (r: Result<
        (),
        GcError,
    >)
        requires
            old(self).wf(),
        ensures
            final(self).wf(),
            final(self).root_model() == old(self).root_model(),
            match r {
                Ok(()) => {
                    &&& old(self).heap_model().dom().contains(id)
                    &&& index < old(self).heap_model()[id].fields.len()
                    &&& final(self).heap_seq().len() == old(self).heap_seq().len()
                    &&& forall|j: int|
                        0 <= j < old(self).heap_seq().len() && j != id
                            ==> final(self).heap_seq()[j] == old(self).heap_seq()[j]
                    &&& final(self).heap_model() == old(self).heap_model().insert(
                        id,
                        (ObjModel {
                            size: old(self).heap_model()[id].size,
                            fields: old(self).heap_model()[id].fields.update(index as int, value),
                        }),
                    )
                },
                Err(e) => {
                    &&& *final(self) == *old(self)
                    &&& (e == GcError::UnknownObject || e == GcError::IndexOutOfRange)
                    &&& (e == GcError::UnknownObject <==> !old(self).heap_model().dom().contains(
                        id,
                    ))
                    &&& (e == GcError::IndexOutOfRange <==> old(self).heap_model().dom().contains(
                        id,
                    ) && index >= old(self).heap_model()[id].fields.len())
                },
            },
    {
        self.heap.write_field(id, index, value)
    }

    /// Looks a live object up by identity.
    pub fn get(&self, id: ObjectId) -> (r: Result<&HeapObject, GcError>)
        requires
            self.wf(),
        ensures
            match r {
                Ok(o) => {
                    &&& self.heap_model().dom().contains(id)
                    &&& o.id == id
                    &&& o.model() == self.heap_model()[id]
                },
                Err(e) => {
                    &&& e == GcError::UnknownObject
                    &&& !self.heap_model().dom().contains(id)
                },
            },
    {
        self.heap.get(id)
    }

    /// Whether `id` names a live object.
    pub fn contains(&self, id: ObjectId) -> (b: bool)
        ensures
            b == self.heap_model().dom().contains(id),
    {
        self.heap.contains(id)
    }

    /// The number of live objects.
    pub fn live_count(&self) -> (n: usize)
        requires
            self.wf(),
        ensures
            n == self.live_count_spec(),
    {
        self.heap.live_count()
    }

    /// The total declared size of the live objects.
    pub fn live_size(&self) -> (n: usize)
        requires
            self.wf(),
        ensures
            n == self.live_size_spec(),
    {
        self.heap.live_size()
    }

    /// Binds the named root to a pointer value, inserting or overwriting:
    /// the last write wins. Only a pointer — possibly the null pointer —
    /// may be bound; a scalar is rejected with `InvalidRootValue` and the
    /// engine is untouched. The target's validity is not checked here:
    /// a stale target is simply treated as pointing at nothing when the
    /// collector traces.
    pub fn bind_root(&mut self, name: String, value: Item) -> (r: Result<(), GcError>)
        requires
            old(self).wf(),
        ensures
            final(self).wf(),
            final(self).heap_seq() == old(self).heap_seq(),
            match r {
                Ok(()) => {
                    &&& value is Pointer
                    &&& final(self).root_model() == old(self).root_model().insert(
                        name@,
                        value->Pointer_0,
                    )
                },
                Err(e) => {
                    &&& e == GcError::InvalidRootValue
                    &&& value is Scalar
                    &&& *final(self) == *old(self)
                },
            },
    {
        match value {
            Item::Scalar => Err(GcError::InvalidRootValue),
            Item::Pointer(target) => {
                self.roots.bind(name, target);
                Ok(())
            },
        }
    }

    /// Removes the named root. Idempotent: unbinding an absent name is a
    /// no-op, never an error.
    pub fn unbind_root(&mut self, name: &String)
        requires
            old(self).wf(),
        ensures
            final(self).wf(),
            final(self).heap_seq() == old(self).heap_seq(),
            final(self).root_model() == old(self).root_model().remove(name@),
    {
        self.roots.unbind(name);
    }

    /// The mark phase: computes, per slot, whether the object is
    /// reachable from the current root set.
    fn mark(&self) -> (marked: Vec<bool>)
        requires
            self.wf(),
        ensures
            marked@.len() == self.heap_seq().len(),
            marked@.len() <= usize::MAX,
            forall|i: int|
                0 <= i < marked@.len() ==> (marked@[i] <==> reachable(
                    self.heap_model(),
                    self.root_set(),
                    i as ObjectId,
                )),
    {
        let ghost h = self.heap_model();
        let ghost rset = self.root_set();
        let n = self.heap.slot_count();

        let mut marked: Vec<bool> = Vec::new();
        let mut k: usize = 0;
        while k < n
            invariant
                k <= n,
                marked@.len() == k,
                forall|j: int| 0 <= j < k ==> !(#[trigger] marked@[j]),
            decreases n - k,
        {
            marked.push(false);
            k = k + 1;
        }

        // Seed the worklist with every live object a root points at;
        // stale and null root pointers contribute nothing.
        let snapshot = self.roots.roots();
        let snap_len = snapshot.len();
        let mut worklist: Vec<ObjectId> = Vec::new();
        proof {
            assert forall|t: ObjectId| rset.contains(t) && h.dom().contains(t) implies (exists|
                j: int,
            |
                0 <= j < snapshot@.len() && snapshot@[j] == Some(t)) by {
                assert(snapshot@.contains(Some(t)));
            }
            assert forall|t: ObjectId| #[trigger]
                snapshot@.contains(Some(t)) implies rset.contains(t) by {
            }
        }
        let mut s: usize = 0;
        while s < snap_len
            invariant
                self.wf(),
                h == self.heap_model(),
                rset == self.root_set(),
                snap_len == snapshot@.len(),
                s <= snap_len,
                forall|t: ObjectId| #[trigger] snapshot@.contains(Some(t)) ==> rset.contains(t),
                forall|j: int|
                    0 <= j < worklist@.len() ==> h.dom().contains(#[trigger] worklist@[j])
                        && reachable(h, rset, worklist@[j]),
                forall|t: ObjectId|
                    rset.contains(t) && h.dom().contains(t) ==> worklist@.contains(t) || (exists|
                        j: int,
                    |
                        s <= j < snapshot@.len() && snapshot@[j] == Some(t)),
            decreases snap_len - s,
        {
            let ghost wl_before = worklist@;
            match snapshot[s] {
                Some(t) => {
                    if self.heap.contains(t) {
                        proof {
                            assert(snapshot@.contains(Some(t)));
                            assert(rset.contains(t));
                            lemma_root_target_reachable(h, rset, t);
                        }
                        worklist.push(t);
                    }
                },
                None => {},
            }
            proof {
                assert forall|t: ObjectId|
                    rset.contains(t) && h.dom().contains(t) implies worklist@.contains(t) || (
                exists|j: int|
                    s + 1 <= j < snapshot@.len() && snapshot@[j] == Some(t)) by {
                    if !worklist@.contains(t) {
                        if wl_before.contains(t) {
                            let j = choose|j: int|
                                0 <= j < wl_before.len() && wl_before[j] == t;
                            assert(worklist@[j] == t);
                        } else {
                            let j = choose|j: int|
                                s <= j < snapshot@.len() && snapshot@[j] == Some(t);
                            assert(j != s || worklist@[worklist@.len() - 1] == t);
                        }
                    }
                }
            }
            s = s + 1;
        }

        // Trace: process the worklist behind a cursor; marking before
        // expanding is the cycle guard that keeps this terminating.
        let mut cursor: usize = 0;
        while cursor < worklist.len()
            invariant
                self.wf(),
                h == self.heap_model(),
                rset == self.root_set(),
                n == self.heap_seq().len(),
                marked@.len() == n,
                cursor <= worklist@.len(),
                forall|j: int|
                    0 <= j < worklist@.len() ==> h.dom().contains(#[trigger] worklist@[j])
                        && reachable(h, rset, worklist@[j]),
                forall|j: int|
                    0 <= j < marked@.len() && #[trigger] marked@[j] ==> h.dom().contains(
                        j as ObjectId,
                    ) && reachable(h, rset, j as ObjectId),
                forall|t: ObjectId|
                    rset.contains(t) && h.dom().contains(t) ==> marked@[t as int] || pending(
                        worklist@,
                        cursor as int,
                        t,
                    ),
                forall|a: ObjectId, b: ObjectId|
                    a < marked@.len() && marked@[a as int] && #[trigger] edge(h, a, b)
                        ==> marked@[b as int] || pending(worklist@, cursor as int, b),
            decreases count_false(marked@), worklist@.len() - cursor,
        {
            let id = worklist[cursor];
            let ghost wl_before = worklist@;
            let ghost cursor_before = cursor as int;
            if !marked[id] {
                proof {
                    lemma_count_false_update(marked@, id as int);
                }
                marked[id] = true;
                let obj = match self.heap.get(id) {
                    Ok(o) => o,
                    Err(_) => vstd::pervasive::unreached(),
                };
                let field_count = obj.fields.len();
                let ghost marked_after_id = marked@;
                let mut f: usize = 0;
                while f < field_count
                    invariant
                        self.wf(),
                        h == self.heap_model(),
                        rset == self.root_set(),
                        n == self.heap_seq().len(),
                        marked@.len() == n,
                        marked@ == marked_after_id,
                        h.dom().contains(id),
                        reachable(h, rset, id),
                        id < n,
                        marked@[id as int],
                        obj.model() == h[id],
                        field_count == obj.fields@.len(),
                        f <= field_count,
                        0 <= cursor_before < worklist@.len(),
                        wl_before.len() <= worklist@.len(),
                        forall|j: int|
                            0 <= j < wl_before.len() ==> worklist@[j] == wl_before[j],
                        forall|j: int|
                            0 <= j < worklist@.len() ==> h.dom().contains(
                                #[trigger] worklist@[j],
                            ) && reachable(h, rset, worklist@[j]),
                        forall|t: ObjectId|
                            rset.contains(t) && h.dom().contains(t) ==> marked@[t as int]
                                || pending(worklist@, cursor_before, t),
                        forall|a: ObjectId, b: ObjectId|
                            a < marked@.len() && a != id && marked@[a as int] && #[trigger] edge(
                                h,
                                a,
                                b,
                            ) ==> marked@[b as int] || pending(worklist@, cursor_before, b),
                        forall|b: ObjectId|
                            #[trigger] edge(h, id, b) ==> marked@[b as int] || pending(
                                worklist@,
                                cursor_before + 1,
                                b,
                            ) || (exists|k2: int|
                                f <= k2 < obj.fields@.len() && obj.fields@[k2] == Item::Pointer(
                                    Some(b),
                                )),
                    decreases field_count - f,
                {
                    let ghost wl_step = worklist@;
                    let it = obj.fields[f];
                    match it {
                        Item::Pointer(opt_t) => {
                            match opt_t {
                                Some(t) => {
                                    if self.heap.contains(t) && !marked[t] {
                                        proof {
                                            assert(edge(h, id, t));
                                            lemma_reachable_step(h, rset, id, t);
                                        }
                                        worklist.push(t);
                                    }
                                },
                                None => {},
                            }
                        },
                        Item::Scalar => {},
                    }
                    proof {
                        assert forall|b2: ObjectId|
                            pending(wl_step, cursor_before, b2) implies pending(
                            worklist@,
                            cursor_before,
                            b2,
                        ) by {
                            let j = choose|j: int|
                                cursor_before <= j < wl_step.len() && wl_step[j] == b2;
                            assert(worklist@[j] == b2);
                        }
                        assert forall|b: ObjectId| #[trigger]
                            edge(h, id, b) && !(marked@[b as int] || pending(
                                worklist@,
                                cursor_before + 1,
                                b,
                            )) implies (exists|k2: int|
                            f + 1 <= k2 < obj.fields@.len() && obj.fields@[k2] == Item::Pointer(
                                Some(b),
                            )) by {
                            assert forall|j: int|
                                cursor_before + 1 <= j < wl_step.len() && wl_step[j]
                                    == b implies pending(worklist@, cursor_before + 1, b) by {
                                assert(worklist@[j] == b);
                            }
                            let k2 = choose|k2: int|
                                f <= k2 < obj.fields@.len() && obj.fields@[k2] == Item::Pointer(
                                    Some(b),
                                );
                            if k2 == f {
                                assert(h.dom().contains(b));
                                assert(worklist@[worklist@.len() - 1] == b);
                            }
                        }
                    }
                    f = f + 1;
                }
                proof {
                    assert forall|t: ObjectId|
                        rset.contains(t) && h.dom().contains(t) implies marked@[t as int]
                        || pending(worklist@, cursor_before + 1, t) by {
                        if !marked@[t as int] && pending(wl_before, cursor_before, t) {
                            let j = choose|j: int|
                                cursor_before <= j < wl_before.len() && wl_before[j] == t;
                            if j == cursor_before {
                                assert(t == id);
                            } else {
                                assert(worklist@[j] == t);
                            }
                        }
                    }
                    assert forall|a: ObjectId, b: ObjectId|
                        a < marked@.len() && marked@[a as int] && #[trigger] edge(h, a, b)
                            implies marked@[b as int] || pending(
                        worklist@,
                        cursor_before + 1,
                        b,
                    ) by {
                        if a != id && !marked@[b as int] && pending(wl_before, cursor_before, b) {
                            let j = choose|j: int|
                                cursor_before <= j < wl_before.len() && wl_before[j] == b;
                            if j == cursor_before {
                                assert(b == id);
                            } else {
                                assert(worklist@[j] == b);
                            }
                        }
                    }
                }
            } else {
                proof {
                    assert forall|t: ObjectId|
                        rset.contains(t) && h.dom().contains(t) implies marked@[t as int]
                        || pending(worklist@, cursor_before + 1, t) by {
                        if !marked@[t as int] {
                            let j = choose|j: int|
                                cursor_before <= j < worklist@.len() && worklist@[j] == t;
                            if j == cursor_before {
                                assert(marked@[id as int]);
                            }
                        }
                    }
                    assert forall|a: ObjectId, b: ObjectId|
                        a < marked@.len() && marked@[a as int] && #[trigger] edge(h, a, b)
                            implies marked@[b as int] || pending(
                        worklist@,
                        cursor_before + 1,
                        b,
                    ) by {
                        if !marked@[b as int] {
                            let j = choose|j: int|
                                cursor_before <= j < worklist@.len() && worklist@[j] == b;
                            if j == cursor_before {
                                assert(marked@[id as int]);
                            }
                        }
                    }
                }
            }
            cursor = cursor + 1;
        }

        // Mark is complete: the marked set contains every live root
        // target and is closed under edges, so it covers everything
        // reachable; and it was only ever fed reachable objects.
        proof {
            let mset = Set::new(|t: ObjectId| t < marked@.len() && marked@[t as int]);
            assert forall|t: ObjectId| #[trigger]
                rset.contains(t) && h.dom().contains(t) implies mset.contains(t) by {
                assert(!pending(worklist@, cursor as int, t));
            }
            assert forall|a: ObjectId, b: ObjectId|
                mset.contains(a) && #[trigger] edge(h, a, b) implies mset.contains(b) by {
                assert(!pending(worklist@, cursor as int, b));
            }
            assert forall|i: int|
                0 <= i < marked@.len() implies (marked@[i] <==> reachable(
                    h,
                    rset,
                    i as ObjectId,
                )) by {
                if marked@[i] {
                    assert(reachable(h, rset, i as ObjectId));
                }
                if reachable(h, rset, i as ObjectId) {
                    let t = i as ObjectId;
                    lemma_reachable_is_live(h, rset, t);
                    let steps = choose|s2: nat| reachable_in(h, rset, t, s2);
                    lemma_closed_superset_of_reachable(h, rset, mset, t, steps);
                }
            }
        }
        marked
    }

    /// The sweep phase: removes every unmarked object, only after mark
    /// has completed fully. Returns how many objects were reclaimed.
    fn sweep(&mut self, marked: &Vec<bool>) -> (reclaimed: usize)
        requires
            old(self).wf(),
            marked@.len() == old(self).heap_seq().len(),
        ensures
            final(self).wf(),
            final(self).root_table() == old(self).root_table(),
            final(self).heap_seq().len() == old(self).heap_seq().len(),
            forall|j: int|
                0 <= j < old(self).heap_seq().len() ==> final(self).heap_seq()[j] == (if marked@[j] {
                    old(self).heap_seq()[j]
                } else {
                    None::<HeapObject>
                }),
            reclaimed + final(self).live_count_spec() == old(self).live_count_spec(),
    {
        let n = self.heap.slot_count();
        let mut reclaimed: usize = 0;
        let mut i: usize = 0;
        while i < n
            invariant
                self.wf(),
                old(self).wf(),
                self.root_table() == old(self).root_table(),
                n == self.heap_seq().len(),
                n == old(self).heap_seq().len(),
                marked@.len() == n,
                i <= n,
                forall|j: int|
                    0 <= j < i ==> self.heap_seq()[j] == (if marked@[j] {
                        old(self).heap_seq()[j]
                    } else {
                        None::<HeapObject>
                    }),
                forall|j: int| i <= j < n ==> self.heap_seq()[j] == old(self).heap_seq()[j],
                reclaimed + self.live_count_spec() == old(self).live_count_spec(),
            decreases n - i,
        {
            if !marked[i] {
                if self.heap.contains(i) {
                    let _removed = self.heap.remove(i);
                    proof {
                        old(self).heap_store().lemma_counter_bounds();
                    }
                    reclaimed = reclaimed + 1;
                }
            }
            i = i + 1;
        }
        reclaimed
    }

    /// Collects: pauses the world, marks everything reachable from the
    /// current root set, sweeps the rest, and reports what happened.
    ///
    /// Afterwards the heap holds exactly the objects that were reachable
    /// when the call was made, each byte-for-byte as it was; and each of
    /// them is still reachable, so an immediate second collection
    /// reclaims nothing. Roots are untouched. The returned statistics
    /// describe the heap the call leaves behind.
    pub fn collect(&mut self) -> (stats: CollectionStats)
        requires
            old(self).wf(),
        ensures
            final(self).wf(),
            final(self).root_model() == old(self).root_model(),
            final(self).heap_seq().len() == old(self).heap_seq().len(),
            forall|j: int|
                0 <= j < old(self).heap_seq().len() ==> final(self).heap_seq()[j] == (if reachable(
                    old(self).heap_model(),
                    old(self).root_set(),
                    j as ObjectId,
                ) {
                    old(self).heap_seq()[j]
                } else {
                    None::<HeapObject>
                }),
            forall|id: ObjectId|
                #[trigger] final(self).heap_model().dom().contains(id) <==> reachable(
                    old(self).heap_model(),
                    old(self).root_set(),
                    id,
                ),
            forall|id: ObjectId|
                final(self).heap_model().dom().contains(id)
                    ==> #[trigger] final(self).heap_model()[id] == old(self).heap_model()[id],
            forall|id: ObjectId|
                #[trigger] final(self).heap_model().dom().contains(id) ==> reachable(
                    final(self).heap_model(),
                    final(self).root_set(),
                    id,
                ),
            stats.live_count == final(self).live_count_spec(),
            stats.live_size == final(self).live_size_spec(),
            stats.reclaimed_count + stats.live_count == old(self).live_count_spec(),
    {
        let ghost h0 = self.heap_model();
        let ghost r0 = self.root_set();
        let marked = self.mark();
        let reclaimed = self.sweep(&marked);
        let stats = CollectionStats {
            reclaimed_count: reclaimed,
            live_count: self.heap.live_count(),
            live_size: self.heap.live_size(),
        };
        proof {
            let hf = self.heap_model();
            assert forall|id: ObjectId| #[trigger]
                hf.dom().contains(id) <==> reachable(h0, r0, id) by {
                if reachable(h0, r0, id) {
                    lemma_reachable_is_live(h0, r0, id);
                }
            }
            assert forall|id: ObjectId| hf.dom().contains(id) implies #[trigger] hf[id]
                == h0[id] by {
                assert(self.heap_seq()[id as int] == old(self).heap_seq()[id as int]);
            }
            assert forall|id: ObjectId| #[trigger]
                hf.dom().contains(id) implies reachable(hf, self.root_set(), id) by {
                lemma_reachable_restrict(h0, hf, r0, id);
            }
        }
        stats
    }
}

/// Idempotence of collection: calling `collect` twice in succession with
/// no mutator activity in between yields zero reclamations on the second
/// call and an identical live count and live size.
///
/// `first` is the engine right after the first collection — so, by
/// `collect`'s contract, every live object is reachable. `second` and
/// `stats` are the engine and the statistics the second collection left
/// behind — so, again by `collect`'s contract, `second` kept slot for
/// slot exactly what was reachable in `first`, and `stats` accounts for
/// it. Then the second collection changed nothing at all.
pub proof fn lemma_collect_idempotent(first: Gc, second: Gc, stats: CollectionStats)
    requires
        first.heap_seq().len() <= usize::MAX,
        forall|id: ObjectId|
            #[trigger] first.heap_model().dom().contains(id) ==> reachable(
                first.heap_model(),
                first.root_set(),
                id,
            ),
        second.heap_seq().len() == first.heap_seq().len(),
        forall|j: int|
            0 <= j < first.heap_seq().len() ==> second.heap_seq()[j] == (if reachable(
                first.heap_model(),
                first.root_set(),
                j as ObjectId,
            ) {
                first.heap_seq()[j]
            } else {
                None::<HeapObject>
            }),
        stats.reclaimed_count + stats.live_count == first.live_count_spec(),
        stats.live_count == second.live_count_spec(),
        stats.live_size == second.live_size_spec(),
    ensures
        second.heap_seq() == first.heap_seq(),
        stats.reclaimed_count == 0,
        stats.live_count == first.live_count_spec(),
        stats.live_size == first.live_size_spec(),
{
    let h = first.heap_model();
    let r = first.root_set();
    assert forall|j: int|
        0 <= j < first.heap_seq().len() implies second.heap_seq()[j] == first.heap_seq()[j] by {
        if first.heap_seq()[j] is Some {
            assert(h.dom().contains(j as ObjectId));
            assert(reachable(h, r, j as ObjectId));
        } else {
            if reachable(h, r, j as ObjectId) {
                lemma_reachable_is_live(h, r, j as ObjectId);
            }
        }
    }
    assert(second.heap_seq() =~= first.heap_seq());
}

} // verus!
