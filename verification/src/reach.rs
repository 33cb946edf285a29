//! Reachability over the object graph: the heap's objects are nodes and
//! its pointer fields are edges.
//!
//! An object is reachable when some root points at it directly or through
//! a chain of pointer fields of live objects. The collector's contract is
//! stated with these definitions, and the laws of tracing collection are
//! proved here: what a closed, untargeted region can never reach, what a
//! rooted cycle always keeps, and why collecting twice reclaims nothing
//! the second time.

use vstd::prelude::*;

use crate::heap::ObjModel;
use crate::item::{Item, ObjectId};

verus! {

/// Live object `a` holds a pointer field targeting live object `b`.
pub open spec fn edge(h: Map<ObjectId, ObjModel>, a: ObjectId, b: ObjectId) -> bool {
    &&& h.dom().contains(a)
    &&& h.dom().contains(b)
    &&& exists|k: int| 0 <= k < h[a].fields.len() && h[a].fields[k] == Item::Pointer(Some(b))
}

/// Object `id` is live and at most `n` pointer hops from the root set.
pub open spec fn reachable_in(
    h: Map<ObjectId, ObjModel>,
    roots: Set<ObjectId>,
    id: ObjectId,
    n: nat,
) -> bool
    decreases n,
{
    if n == 0 {
        roots.contains(id) && h.dom().contains(id)
    } else {
        reachable_in(h, roots, id, (n - 1) as nat) || (exists|m: ObjectId|
            reachable_in(h, roots, m, (n - 1) as nat) && edge(h, m, id))
    }
}

/// Object `id` is live and reachable from the root set by zero or more
/// pointer hops.
pub open spec fn reachable(h: Map<ObjectId, ObjModel>, roots: Set<ObjectId>, id: ObjectId) -> bool {
    exists|n: nat| reachable_in(h, roots, id, n)
}

/// The root set induced by a root table: every identity that some bound
/// root points at. A root bound to the null pointer contributes nothing.
pub open spec fn root_targets(m: Map<Seq<char>, Option<ObjectId>>) -> Set<ObjectId> {
    Set::new(|t: ObjectId| exists|n: Seq<char>| m.dom().contains(n) && m[n] == Some(t))
}

proof fn lemma_reachable_in_is_live(
    h: Map<ObjectId, ObjModel>,
    roots: Set<ObjectId>,
    id: ObjectId,
    n: nat,
)
    requires
        reachable_in(h, roots, id, n),
    ensures
        h.dom().contains(id),
    decreases n,
{
    if n > 0 && reachable_in(h, roots, id, (n - 1) as nat) {
        lemma_reachable_in_is_live(h, roots, id, (n - 1) as nat);
    }
}

/// A reachable object is live.
pub proof fn lemma_reachable_is_live(
    h: Map<ObjectId, ObjModel>,
    roots: Set<ObjectId>,
    id: ObjectId,
)
    requires
        reachable(h, roots, id),
    ensures
        h.dom().contains(id),
{
    let n = choose|n: nat| reachable_in(h, roots, id, n);
    lemma_reachable_in_is_live(h, roots, id, n);
}

/// A live object that a root points at is reachable.
pub proof fn lemma_root_target_reachable(
    h: Map<ObjectId, ObjModel>,
    roots: Set<ObjectId>,
    id: ObjectId,
)
    requires
        roots.contains(id),
        h.dom().contains(id),
    ensures
        reachable(h, roots, id),
{
    assert(reachable_in(h, roots, id, 0));
}

/// One pointer hop from a reachable object reaches its target.
pub proof fn lemma_reachable_step(
    h: Map<ObjectId, ObjModel>,
    roots: Set<ObjectId>,
    a: ObjectId,
    b: ObjectId,
)
    requires
        reachable(h, roots, a),
        edge(h, a, b),
    ensures
        reachable(h, roots, b),
{
    let n = choose|n: nat| reachable_in(h, roots, a, n);
    assert(reachable_in(h, roots, b, n + 1));
}

/// Any set that contains every live root target and is closed under the
/// graph's edges contains every reachable object. This is what makes a
/// finished mark phase complete.
pub proof fn lemma_closed_superset_of_reachable(
    h: Map<ObjectId, ObjModel>,
    roots: Set<ObjectId>,
    marked: Set<ObjectId>,
    id: ObjectId,
    n: nat,
)
    requires
        forall|t: ObjectId|
            #[trigger] roots.contains(t) && h.dom().contains(t) ==> marked.contains(t),
        forall|a: ObjectId, b: ObjectId|
            marked.contains(a) && #[trigger] edge(h, a, b) ==> marked.contains(b),
        reachable_in(h, roots, id, n),
    ensures
        marked.contains(id),
    decreases n,
{
    if n == 0 {
    } else if reachable_in(h, roots, id, (n - 1) as nat) {
        lemma_closed_superset_of_reachable(h, roots, marked, id, (n - 1) as nat);
    } else {
        let m = choose|m: ObjectId|
            reachable_in(h, roots, m, (n - 1) as nat) && edge(h, m, id);
        lemma_closed_superset_of_reachable(h, roots, marked, m, (n - 1) as nat);
    }
}

/// Cycle safety, the unrooted half: a region that no root targets and
/// that no edge enters from outside is unreachable in its entirety — a
/// cycle kept alive only by itself is reclaimed whole. After a
/// collection, whose contract keeps exactly the reachable objects, no
/// member of such a region is present.
pub proof fn lemma_untargeted_closed_region_unreachable(
    h: Map<ObjectId, ObjModel>,
    roots: Set<ObjectId>,
    region: Set<ObjectId>,
    id: ObjectId,
)
    requires
        forall|t: ObjectId| #[trigger] region.contains(t) ==> !roots.contains(t),
        forall|a: ObjectId, b: ObjectId|
            #[trigger] edge(h, a, b) && region.contains(b) ==> region.contains(a),
        region.contains(id),
    ensures
        !reachable(h, roots, id),
{
    if reachable(h, roots, id) {
        let n = choose|n: nat| reachable_in(h, roots, id, n);
        lemma_reachable_in_avoids_closed_region(h, roots, region, id, n);
    }
}

proof fn lemma_reachable_in_avoids_closed_region(
    h: Map<ObjectId, ObjModel>,
    roots: Set<ObjectId>,
    region: Set<ObjectId>,
    id: ObjectId,
    n: nat,
)
    requires
        forall|t: ObjectId| #[trigger] region.contains(t) ==> !roots.contains(t),
        forall|a: ObjectId, b: ObjectId|
            #[trigger] edge(h, a, b) && region.contains(b) ==> region.contains(a),
        reachable_in(h, roots, id, n),
    ensures
        !region.contains(id),
    decreases n,
{
    if n == 0 {
    } else if reachable_in(h, roots, id, (n - 1) as nat) {
        lemma_reachable_in_avoids_closed_region(h, roots, region, id, (n - 1) as nat);
    } else {
        let m = choose|m: ObjectId|
            reachable_in(h, roots, m, (n - 1) as nat) && edge(h, m, id);
        lemma_reachable_in_avoids_closed_region(h, roots, region, m, (n - 1) as nat);
    }
}

proof fn lemma_chain_reachable_upto(
    h: Map<ObjectId, ObjModel>,
    roots: Set<ObjectId>,
    ids: Seq<ObjectId>,
    k: int,
)
    requires
        ids.len() > 0,
        reachable(h, roots, ids[0]),
        forall|i: int| 0 <= i < ids.len() - 1 ==> edge(h, #[trigger] ids[i], ids[i + 1]),
        0 <= k < ids.len(),
    ensures
        reachable(h, roots, ids[k]),
    decreases k,
{
    if k > 0 {
        lemma_chain_reachable_upto(h, roots, ids, k - 1);
        lemma_reachable_step(h, roots, ids[k - 1], ids[k]);
    }
}

/// Every object on a pointer chain that starts at a reachable object is
/// reachable.
pub proof fn lemma_chain_reachable(
    h: Map<ObjectId, ObjModel>,
    roots: Set<ObjectId>,
    ids: Seq<ObjectId>,
)
    requires
        ids.len() > 0,
        reachable(h, roots, ids[0]),
        forall|i: int| 0 <= i < ids.len() - 1 ==> edge(h, #[trigger] ids[i], ids[i + 1]),
    ensures
        forall|i: int| 0 <= i < ids.len() ==> reachable(h, roots, #[trigger] ids[i]),
{
    assert forall|i: int| 0 <= i < ids.len() implies reachable(h, roots, #[trigger] ids[i]) by {
        lemma_chain_reachable_upto(h, roots, ids, i);
    }
}

/// Cycle safety, the rooted half: on a cycle — each member points at the
/// next and the last back at the first — with a root at its head, every
/// member is reachable, so a collection, whose contract keeps exactly the
/// reachable objects, keeps the cycle entirely.
pub proof fn lemma_rooted_cycle_survives(
    h: Map<ObjectId, ObjModel>,
    roots: Set<ObjectId>,
    ids: Seq<ObjectId>,
)
    requires
        ids.len() > 0,
        roots.contains(ids[0]),
        forall|i: int| 0 <= i < ids.len() - 1 ==> edge(h, #[trigger] ids[i], ids[i + 1]),
        edge(h, ids[ids.len() - 1], ids[0]),
    ensures
        forall|i: int| 0 <= i < ids.len() ==> reachable(h, roots, #[trigger] ids[i]),
{
    lemma_root_target_reachable(h, roots, ids[0]);
    lemma_chain_reachable(h, roots, ids);
}

proof fn lemma_reachable_restrict_in(
    h: Map<ObjectId, ObjModel>,
    sub: Map<ObjectId, ObjModel>,
    roots: Set<ObjectId>,
    id: ObjectId,
    n: nat,
)
    requires
        forall|j: ObjectId|
            #[trigger] sub.dom().contains(j) <==> h.dom().contains(j) && reachable(h, roots, j),
        forall|j: ObjectId| sub.dom().contains(j) ==> #[trigger] sub[j] == h[j],
        reachable_in(h, roots, id, n),
    ensures
        reachable_in(sub, roots, id, n),
    decreases n,
{
    if n == 0 {
        assert(reachable(h, roots, id));
    } else if reachable_in(h, roots, id, (n - 1) as nat) {
        lemma_reachable_restrict_in(h, sub, roots, id, (n - 1) as nat);
    } else {
        let m = choose|m: ObjectId|
            reachable_in(h, roots, m, (n - 1) as nat) && edge(h, m, id);
        lemma_reachable_restrict_in(h, sub, roots, m, (n - 1) as nat);
        assert(reachable(h, roots, m));
        assert(reachable(h, roots, id));
        assert(edge(sub, m, id));
        assert(reachable_in(sub, roots, id, n));
    }
}

/// Restricting a heap to its reachable objects severs nothing: whatever
/// was reachable before stays reachable among the survivors. This is why
/// a collection leaves only objects that are still reachable afterwards.
pub proof fn lemma_reachable_restrict(
    h: Map<ObjectId, ObjModel>,
    sub: Map<ObjectId, ObjModel>,
    roots: Set<ObjectId>,
    id: ObjectId,
)
    requires
        forall|j: ObjectId|
            #[trigger] sub.dom().contains(j) <==> h.dom().contains(j) && reachable(h, roots, j),
        forall|j: ObjectId| sub.dom().contains(j) ==> #[trigger] sub[j] == h[j],
        reachable(h, roots, id),
    ensures
        reachable(sub, roots, id),
{
    let n = choose|n: nat| reachable_in(h, roots, id, n);
    lemma_reachable_restrict_in(h, sub, roots, id, n);
}

/// Root rebinding: binding a new value under an existing root name
/// replaces the old binding. When no other root shares the old target,
/// the previously-referenced object leaves the root set, which makes it
/// eligible for collection wherever nothing else reaches it.
pub proof fn lemma_rebind_replaces(
    m: Map<Seq<char>, Option<ObjectId>>,
    name: Seq<char>,
    fresh: Option<ObjectId>,
    former: ObjectId,
)
    requires
        m.dom().contains(name),
        m[name] == Some(former),
        fresh != Some(former),
        forall|other: Seq<char>|
            #[trigger] m.dom().contains(other) && other != name ==> m[other] != Some(former),
    ensures
        root_targets(m).contains(former),
        !root_targets(m.insert(name, fresh)).contains(former),
{
    let m2 = m.insert(name, fresh);
    assert(!root_targets(m2).contains(former)) by {
        if root_targets(m2).contains(former) {
            let w = choose|w: Seq<char>| m2.dom().contains(w) && m2[w] == Some(former);
            if w == name {
                assert(m2[name] == fresh);
            } else {
                assert(m.dom().contains(w));
                assert(m[w] == Some(former));
            }
        }
    }
}

/// Idempotence of collection: on a heap where every live object is
/// already reachable — as any heap is right after a collection — the
/// reachable objects are exactly the live ones, so collecting again
/// reclaims nothing and the live count and live size stand still.
pub proof fn lemma_collected_heap_fixpoint(h: Map<ObjectId, ObjModel>, roots: Set<ObjectId>)
    requires
        forall|id: ObjectId| #[trigger] h.dom().contains(id) ==> reachable(h, roots, id),
    ensures
        forall|id: ObjectId| #[trigger] reachable(h, roots, id) <==> h.dom().contains(id),
{
    assert forall|id: ObjectId| #[trigger] reachable(h, roots, id) implies h.dom().contains(
        id,
    ) by {
        lemma_reachable_is_live(h, roots, id);
    }
}

} // verus!
