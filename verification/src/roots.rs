//! The root table: named stack slots of the mutator, each bound to a
//! pointer value.
//!
//! The table is a mapping from root name to pointer target; binding an
//! existing name overwrites it (last write wins), and unbinding an absent
//! name is a no-op. The union of all bound targets is the collector's root
//! set.

use vstd::prelude::*;

use crate::item::ObjectId;

verus! {

/// One named root slot and the pointer value bound to it. `None` is the
/// null pointer: a slot that points at nothing.
pub struct RootBinding {
    pub name: String,
    pub target: Option<ObjectId>,
}

/// The bindings read as a map from root name to pointer target; later
/// entries win, so on a table whose names are unique each entry simply
/// shows through.
pub open spec fn root_map_of(entries: Seq<RootBinding>) -> Map<Seq<char>, Option<ObjectId>>
    decreases entries.len(),
{
    if entries.len() == 0 {
        Map::empty()
    } else {
        root_map_of(entries.drop_last()).insert(entries.last().name@, entries.last().target)
    }
}

/// Whether no two entries share a name.
pub open spec fn unique_names(entries: Seq<RootBinding>) -> bool {
    forall|i: int, j: int|
        0 <= i < j < entries.len() ==> (#[trigger] entries[i]).name@ != (#[trigger] entries[j]).name@
}

/// On a table with unique names, the map's domain is exactly the entry
/// names and each name maps to its entry's target.
pub proof fn lemma_root_map_characterize(entries: Seq<RootBinding>)
    requires
        unique_names(entries),
    ensures
        forall|n: Seq<char>|
            #[trigger] root_map_of(entries).dom().contains(n) <==> (exists|i: int|
                0 <= i < entries.len() && (#[trigger] entries[i]).name@ == n),
        forall|i: int|
            0 <= i < entries.len() ==> root_map_of(entries)[(#[trigger] entries[i]).name@]
                == entries[i].target,
    decreases entries.len(),
{
    if entries.len() > 0 {
        let rest = entries.drop_last();
        lemma_root_map_characterize(rest);
        assert forall|n: Seq<char>| #[trigger]
            root_map_of(entries).dom().contains(n) implies (exists|i: int|
            0 <= i < entries.len() && (#[trigger] entries[i]).name@ == n) by {
            if n == entries.last().name@ {
                assert(entries[entries.len() - 1].name@ == n);
            } else {
                let i = choose|i: int| 0 <= i < rest.len() && (#[trigger] rest[i]).name@ == n;
                assert(entries[i].name@ == n);
            }
        }
        assert forall|n: Seq<char>| (exists|i: int|
            0 <= i < entries.len() && (#[trigger] entries[i]).name@ == n) implies #[trigger]
            root_map_of(entries).dom().contains(n) by {
            let i = choose|i: int| 0 <= i < entries.len() && (#[trigger] entries[i]).name@ == n;
            if i < entries.len() - 1 {
                assert(rest[i].name@ == n);
            }
        }
        assert forall|i: int| 0 <= i < entries.len() implies root_map_of(entries)[(
        #[trigger] entries[i]).name@] == entries[i].target by {
            if i < entries.len() - 1 {
                assert(rest[i].name@ == entries[i].name@);
                assert(entries[i].name@ != entries.last().name@);
            }
        }
    }
}

/// Overwriting the entry that holds a name rewrites just that name in the
/// map.
pub proof fn lemma_root_map_update(entries: Seq<RootBinding>, i: int, b: RootBinding)
    requires
        unique_names(entries),
        0 <= i < entries.len(),
        entries[i].name@ == b.name@,
    ensures
        root_map_of(entries.update(i, b)) == root_map_of(entries).insert(b.name@, b.target),
    decreases entries.len(),
{
    let t = entries.update(i, b);
    if i == entries.len() - 1 {
        assert(t.drop_last() =~= entries.drop_last());
        assert(root_map_of(t) =~= root_map_of(entries).insert(b.name@, b.target));
    } else {
        assert(t.drop_last() =~= entries.drop_last().update(i, b));
        lemma_root_map_update(entries.drop_last(), i, b);
        assert(entries.last().name@ != b.name@);
        assert(root_map_of(t) =~= root_map_of(entries).insert(b.name@, b.target));
    }
}

/// Removing the entry that holds a name removes just that name from the
/// map.
pub proof fn lemma_root_map_remove(entries: Seq<RootBinding>, i: int)
    requires
        unique_names(entries),
        0 <= i < entries.len(),
    ensures
        root_map_of(entries.remove(i)) == root_map_of(entries).remove(entries[i].name@),
    decreases entries.len(),
{
    let t = entries.remove(i);
    let n = entries[i].name@;
    if i == entries.len() - 1 {
        assert(t =~= entries.drop_last());
        lemma_root_map_characterize(entries.drop_last());
        assert(!root_map_of(entries.drop_last()).dom().contains(n));
        assert(root_map_of(t) =~= root_map_of(entries).remove(n));
    } else {
        assert(t.drop_last() =~= entries.drop_last().remove(i));
        assert(t.last() == entries.last());
        lemma_root_map_remove(entries.drop_last(), i);
        assert(entries.last().name@ != n);
        assert(root_map_of(t) =~= root_map_of(entries).remove(n));
    }
}

/// Appending an entry inserts its name into the map.
pub proof fn lemma_root_map_push(entries: Seq<RootBinding>, b: RootBinding)
    ensures
        root_map_of(entries.push(b)) == root_map_of(entries).insert(b.name@, b.target),
{
    assert(entries.push(b).drop_last() =~= entries);
}

/// The table of currently-live named roots.
pub struct RootTable {
    entries: Vec<RootBinding>,
}

impl RootTable {
    /// The table as a map from root name to bound pointer target.
    pub closed spec fn model(self) -> Map<Seq<char>, Option<ObjectId>> {
        root_map_of(self.entries@)
    }

    /// The internal invariant: every live root name occurs once.
    pub closed spec fn wf(self) -> bool {
        unique_names(self.entries@)
    }

    /// An empty table.
    pub fn new() -> (t: RootTable)
        ensures
            t.wf(),
            t.model() == Map::<Seq<char>, Option<ObjectId>>::empty(),
    {
        RootTable { entries: Vec::new() }
    }

    /// Inserts or overwrites the named root; the last write wins.
    pub fn bind(&mut self, name: String, target: Option<ObjectId>)
        requires
            old(self).wf(),
        ensures
            final(self).wf(),
            final(self).model() == old(self).model().insert(name@, target),
    {
        let n = self.entries.len();
        let mut k: usize = 0;
        while k < n
            invariant
                *self == *old(self),
                self.wf(),
                n == self.entries@.len(),
                k <= n,
                forall|j: int| 0 <= j < k ==> (#[trigger] self.entries@[j]).name@ != name@,
            decreases n - k,
        {
            if self.entries[k].name.eq(&name) {
                proof {
                    lemma_root_map_update(
                        self.entries@,
                        k as int,
                        RootBinding { name, target },
                    );
                }
                self.entries[k] = RootBinding { name, target };
                return ;
            }
            k = k + 1;
        }
        proof {
            lemma_root_map_push(self.entries@, RootBinding { name, target });
        }
        self.entries.push(RootBinding { name, target });
    }

    /// Removes the named root; a no-op if the name is absent, so a scope
    /// may exit without ever having bound it.
    pub fn unbind(&mut self, name: &String)
        requires
            old(self).wf(),
        ensures
            final(self).wf(),
            final(self).model() == old(self).model().remove(name@),
    {
        let n = self.entries.len();
        let mut k: usize = 0;
        while k < n
            invariant
                *self == *old(self),
                self.wf(),
                n == self.entries@.len(),
                k <= n,
                forall|j: int| 0 <= j < k ==> (#[trigger] self.entries@[j]).name@ != name@,
            decreases n - k,
        {
            if self.entries[k].name.eq(name) {
                proof {
                    lemma_root_map_remove(self.entries@, k as int);
                }
                self.entries.remove(k);
                return ;
            }
            k = k + 1;
        }
        proof {
            lemma_root_map_characterize(self.entries@);
            assert(!self.model().dom().contains(name@));
            assert(self.model() =~= self.model().remove(name@));
        }
    }

    /// A snapshot of every currently bound pointer value, in no promised
    /// order: exactly the values of the table's map, detached from the
    /// table's own storage.
    pub fn roots(&self) -> (r: Vec<Option<ObjectId>>)
        requires
            self.wf(),
        ensures
            forall|p: Option<ObjectId>|
                #[trigger] r@.contains(p) <==> (exists|n: Seq<char>|
                    self.model().dom().contains(n) && self.model()[n] == p),
    {
        proof {
            lemma_root_map_characterize(self.entries@);
        }
        let n = self.entries.len();
        let mut r: Vec<Option<ObjectId>> = Vec::new();
        let mut k: usize = 0;
        while k < n
            invariant
                self.wf(),
                n == self.entries@.len(),
                k <= n,
                r@.len() == k,
                forall|j: int| 0 <= j < k ==> r@[j] == (#[trigger] self.entries@[j]).target,
            decreases n - k,
        {
            r.push(self.entries[k].target);
            k = k + 1;
        }
        proof {
            assert forall|p: Option<ObjectId>| #[trigger]
                r@.contains(p) implies (exists|nm: Seq<char>|
                self.model().dom().contains(nm) && self.model()[nm] == p) by {
                let j = choose|j: int| 0 <= j < r@.len() && r@[j] == p;
                assert(self.model().dom().contains(self.entries@[j].name@));
                assert(self.model()[self.entries@[j].name@] == p);
            }
            assert forall|p: Option<ObjectId>| (exists|nm: Seq<char>|
                self.model().dom().contains(nm) && self.model()[nm] == p) implies #[trigger]
                r@.contains(p) by {
                let nm = choose|nm: Seq<char>|
                    self.model().dom().contains(nm) && self.model()[nm] == p;
                let i = choose|i: int|
                    0 <= i < self.entries@.len() && (#[trigger] self.entries@[i]).name@ == nm;
                assert(r@[i] == p);
            }
        }
        r
    }
}

} // verus!
