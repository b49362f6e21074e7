//! Warming the cache with the objects of one snapshot, within a byte budget.

use vstd::prelude::*;
use vstd::string::*;

use crate::strings;
use crate::phrase::say;
use crate::manifest;
use crate::error::{invalid_query, Error};
use crate::manifest::{ManifestPointer, NamespaceManifest};
use crate::textmap::TextSet;

verus! {

pub const MAX_CACHE_WARM_CONCURRENCY: usize = 256;

#[derive(Clone, Copy, Debug, PartialEq, Eq, Structural)]
pub enum CacheObjectKind {
    Manifest,
    VectorIndex,
    VectorVersionMap,
    Rabitq,
    TextSst,
    AttributeSst,
    DocumentSst,
}

/// An object to load.
#[derive(Clone, Debug)]
pub struct CacheWarmObject {
    pub key: String,
    pub size_bytes: u64,
    pub kind: CacheObjectKind,
}

/// What an object to load stands for.
pub struct ObjectView {
    pub key: Seq<char>,
    pub size_bytes: u64,
    pub kind: CacheObjectKind,
}

pub open spec fn object_view(o: CacheWarmObject) -> ObjectView {
    ObjectView { key: o.key@, size_bytes: o.size_bytes, kind: o.kind }
}

pub open spec fn objects_view(objects: Seq<CacheWarmObject>) -> Seq<ObjectView> {
    Seq::new(objects.len(), |i: int| object_view(objects[i]))
}

#[derive(Clone, Copy, Debug, PartialEq, Eq, Structural)]
pub struct CacheWarmOptions {
    pub max_bytes: u64,
    pub max_concurrency: usize,
}

impl Default for CacheWarmOptions {
    fn default() -> (o: CacheWarmOptions)
        ensures
            o.max_bytes == 64 * 1024 * 1024,
            o.max_concurrency == 16,
    {
        CacheWarmOptions { max_bytes: 67_108_864, max_concurrency: 16 }
    }
}

impl CacheWarmOptions {
    /// Refuses options that would load nothing, or too much at once.
    pub fn validate(&self) -> (r: Result<(), Error>)
        ensures
            1 <= self.max_concurrency <= MAX_CACHE_WARM_CONCURRENCY ==> r is Ok,
            !(1 <= self.max_concurrency <= MAX_CACHE_WARM_CONCURRENCY) ==> r is Err
                && r->Err_0 is InvalidQuery && r->Err_0->InvalidQuery_0@
                == "cache warm max_concurrency must be between 1 and 256"@,
    {
        if self.max_concurrency < 1 || self.max_concurrency > MAX_CACHE_WARM_CONCURRENCY {
            return Err(invalid_query("cache warm max_concurrency must be between 1 and 256"));
        }
        Ok(())
    }
}

/// What to load, and what did not fit the budget.
#[derive(Clone, Debug)]
pub struct CacheWarmPlan {
    pub manifest_generation: u64,
    pub objects: Vec<CacheWarmObject>,
    pub planned_bytes: u64,
    pub skipped_objects: usize,
    pub skipped_bytes: u64,
}

/// What was loaded.
#[derive(Clone, Debug)]
pub struct CacheWarmReport {
    pub plan: CacheWarmPlan,
    pub loaded_objects: usize,
    pub loaded_bytes: u64,
}

/// An object is the first of its key.
pub open spec fn is_first(objects: Seq<ObjectView>, i: int) -> bool {
    forall|j: int| 0 <= j < i ==> (#[trigger] objects[j]).key != objects[i].key
}

/// What has been decided of some candidates: the objects taken, in order, their
/// size, and how many and how much was left out.
#[verifier::ext_equal]
pub struct Admission {
    pub taken: Seq<ObjectView>,
    pub taken_bytes: nat,
    pub skipped: nat,
    pub skipped_bytes: nat,
}

/// Candidates are taken in order while they fit the budget. One that does not fit
/// is left out, and smaller ones after it may still be taken; a key that came
/// before is passed over.
pub open spec fn admitted(objects: Seq<ObjectView>, max_bytes: u64) -> Admission
    decreases objects.len(),
{
    if objects.len() == 0 {
        Admission { taken: Seq::empty(), taken_bytes: 0, skipped: 0, skipped_bytes: 0 }
    } else {
        let a = admitted(objects.drop_last(), max_bytes);
        let o = objects.last();
        if !is_first(objects, objects.len() - 1) {
            a
        } else if a.taken_bytes + o.size_bytes <= max_bytes {
            Admission {
                taken: a.taken.push(o),
                taken_bytes: a.taken_bytes + o.size_bytes as nat,
                skipped: a.skipped,
                skipped_bytes: a.skipped_bytes,
            }
        } else {
            Admission {
                taken: a.taken,
                taken_bytes: a.taken_bytes,
                skipped: a.skipped + 1,
                skipped_bytes: a.skipped_bytes + o.size_bytes as nat,
            }
        }
    }
}

/// A number, or the largest that fits where it does not.
pub open spec fn capped(n: nat) -> nat {
    if n > u64::MAX {
        u64::MAX as nat
    } else {
        n
    }
}

/// The objects of a snapshot, the manifest first.
pub open spec fn warm_candidates(
    ns: Seq<char>,
    pointer: ManifestPointer,
    manifest: NamespaceManifest,
    body_size_bytes: u64,
) -> Seq<ObjectView> {
    seq![
        ObjectView {
            key: manifest::body_name(ns, pointer),
            size_bytes: body_size_bytes,
            kind: CacheObjectKind::Manifest,
        },
    ] + manifest::index_objects(manifest)
}

/// Selects the objects of a snapshot to load within a byte budget.
pub fn cache_warm_plan(
    ns: &str,
    pointer: &ManifestPointer,
    manifest: &NamespaceManifest,
    body_size_bytes: u64,
    max_bytes: u64,
) -> (plan: CacheWarmPlan)
    ensures
        plan.manifest_generation == manifest.generation,
        ({
            let a = admitted(
                warm_candidates(ns@, *pointer, *manifest, body_size_bytes),
                max_bytes,
            );
            &&& objects_view(plan.objects@) == a.taken
            &&& plan.planned_bytes == a.taken_bytes
            &&& plan.skipped_objects == a.skipped
            &&& plan.skipped_bytes == capped(a.skipped_bytes)
        }),
{
    let mut candidates: Vec<CacheWarmObject> = Vec::new();
    let body = CacheWarmObject {
        key: pointer.manifest_body_key(ns),
        size_bytes: body_size_bytes,
        kind: CacheObjectKind::Manifest,
    };
    candidates.push(body);
    let mut rest = manifest.referenced_objects();
    let ghost tail = rest@;
    candidates.append(&mut rest);
    let ghost all = warm_candidates(ns@, *pointer, *manifest, body_size_bytes);
    proof {
        assert(candidates@ =~= seq![body] + tail);
        assert(objects_view(candidates@) =~= all) by {
            assert forall|i: int| 0 <= i < all.len() implies objects_view(candidates@)[i]
                == all[i] by {
                if i > 0 {
                    assert(candidates@[i] == tail[i - 1]);
                    assert(objects_view(tail)[i - 1] == manifest::index_objects(*manifest)[i - 1]);
                }
            }
        }
    }
    let mut seen = TextSet::new();
    let mut objects: Vec<CacheWarmObject> = Vec::new();
    let mut planned_bytes: u64 = 0;
    let mut skipped_objects: usize = 0;
    let mut skipped_bytes: u64 = 0;
    let mut i: usize = 0;
    proof {
        assert(all.take(0) =~= Seq::empty());
        assert(objects_view(objects@) =~= Seq::empty());
    }
    while i < candidates.len()
        invariant
            i <= candidates@.len(),
            objects_view(candidates@) == all,
            seen.wf(),
            forall|k: Seq<char>| #[trigger] seen.set().contains(k) <==> exists|j: int|
                0 <= j < i && (#[trigger] all[j]).key == k,
            ({
                let a = admitted(all.take(i as int), max_bytes);
                &&& objects_view(objects@) == a.taken
                &&& planned_bytes == a.taken_bytes
                &&& planned_bytes <= max_bytes
                &&& skipped_objects == a.skipped
                &&& skipped_objects <= i
                &&& skipped_bytes == capped(a.skipped_bytes)
            }),
        decreases candidates@.len() - i,
    {
        let ghost front = all.take(i + 1);
        let ghost o = all[i as int];
        let ghost before = seen.set();
        let object = &candidates[i];
        proof {
            assert(front.drop_last() =~= all.take(i as int));
            assert(front.last() == o);
            assert(object_view(*object) == o);
        }
        let fresh = seen.insert(object.key.clone());
        proof {
            if fresh {
                assert forall|j: int| 0 <= j < i implies (#[trigger] front[j]).key
                    != front[i as int].key by {
                    assert(front[j] == all[j]);
                    if all[j].key == o.key {
                        assert(before.contains(o.key));
                    }
                }
                assert(is_first(front, i as int));
            } else {
                let j = choose|j: int| 0 <= j < i && (#[trigger] all[j]).key == o.key;
                assert(front[j].key == front[i as int].key);
                assert(!is_first(front, i as int));
            }
            assert forall|k: Seq<char>| #[trigger] seen.set().contains(k) <==> exists|j: int|
                0 <= j < i + 1 && (#[trigger] all[j]).key == k by {
                if before.contains(k) {
                    let j = choose|j: int| 0 <= j < i && (#[trigger] all[j]).key == k;
                    assert(all[j].key == k);
                }
                if exists|j: int| 0 <= j < i + 1 && (#[trigger] all[j]).key == k {
                    let j = choose|j: int| 0 <= j < i + 1 && (#[trigger] all[j]).key == k;
                    if j < i {
                        assert(before.contains(k));
                    }
                }
                assert(all[i as int].key == o.key);
            }
        }
        if fresh {
            if object.size_bytes <= max_bytes - planned_bytes {
                planned_bytes = planned_bytes + object.size_bytes;
                let ghost taken = objects_view(objects@);
                let chosen = CacheWarmObject {
                    key: object.key.clone(),
                    size_bytes: object.size_bytes,
                    kind: object.kind,
                };
                objects.push(chosen);
                assert(objects_view(objects@) =~= taken.push(o));
            } else {
                skipped_objects = skipped_objects + 1;
                skipped_bytes = match skipped_bytes.checked_add(object.size_bytes) {
                    Some(sum) => sum,
                    None => 0xffff_ffff_ffff_ffff,
                };
            }
        }
        i = i + 1;
    }
    assert(all.take(i as int) =~= all);
    CacheWarmPlan {
        manifest_generation: manifest.generation,
        objects,
        planned_bytes,
        skipped_objects,
        skipped_bytes,
    }
}

/// Checks a loaded object against the size that its manifest has for it; a size of
/// zero is not known.
pub fn check_loaded_size(object: &CacheWarmObject, actual_size: u64) -> (r: Result<u64, Error>)
    ensures
        object.size_bytes == 0 || object.size_bytes == actual_size ==> r == Ok::<u64, Error>(
            actual_size,
        ),
        object.size_bytes != 0 && object.size_bytes != actual_size ==> r is Err
            && r->Err_0 is Corrupt && r->Err_0->Corrupt_0@ == "cache warm size mismatch for "@
            + object.key@ + ": manifest "@ + strings::decimal(object.size_bytes as nat)
            + ", object "@ + strings::decimal(actual_size as nat),
{
    if object.size_bytes != 0 && actual_size != object.size_bytes {
        return Err(
            Error::Corrupt(
                say("cache warm size mismatch for ").and(object.key.as_str()).and(
                    ": manifest ",
                ).number(object.size_bytes).and(", object ").number(actual_size).done(),
            ),
        );
    }
    Ok(actual_size)
}

/// The plan stays within its budget, takes no key twice, and takes everything if
/// the budget is large enough.
pub proof fn law_plan_respects_budget(objects: Seq<ObjectView>, max_bytes: u64)
    ensures
        admitted(objects, max_bytes).taken_bytes <= max_bytes,
        forall|i: int, j: int|
            0 <= i < j < admitted(objects, max_bytes).taken.len() ==> (
            #[trigger] admitted(objects, max_bytes).taken[i]).key != (
            #[trigger] admitted(objects, max_bytes).taken[j]).key,
        forall|i: int|
            0 <= i < admitted(objects, max_bytes).taken.len() ==> objects.contains(
                #[trigger] admitted(objects, max_bytes).taken[i],
            ),
        admitted(objects, max_bytes).skipped == 0 <==> admitted(objects, max_bytes).taken.len()
            == admitted(objects, u64::MAX).taken.len() + admitted(objects, u64::MAX).skipped,
        admitted(objects, max_bytes).taken.len() + admitted(objects, max_bytes).skipped
            == admitted(objects, u64::MAX).taken.len() + admitted(objects, u64::MAX).skipped,
    decreases objects.len(),
{
    if objects.len() > 0 {
        let front = objects.drop_last();
        law_plan_respects_budget(front, max_bytes);
        let a = admitted(front, max_bytes);
        let b = admitted(objects, max_bytes);
        assert forall|i: int| 0 <= i < b.taken.len() implies objects.contains(
            #[trigger] b.taken[i],
        ) by {
            if i < a.taken.len() {
                assert(b.taken[i] == a.taken[i]);
                let k = front.index_of(a.taken[i]);
                assert(objects[k] == a.taken[i]);
            } else {
                assert(objects[objects.len() - 1] == b.taken[i]);
            }
        }
        assert forall|i: int, j: int| 0 <= i < j < b.taken.len() implies (
        #[trigger] b.taken[i]).key != (#[trigger] b.taken[j]).key by {
            assert(b.taken[i] == a.taken[i]);
            if j < a.taken.len() {
                assert(b.taken[j] == a.taken[j]);
            } else {
                let k = front.index_of(a.taken[i]);
                assert(objects[k] == a.taken[i]);
            }
        }
    }
}

/// One more candidate is taken exactly if its key is new and it fits what is left of the
/// budget; otherwise nothing that was taken changes, and where it was too large it is
/// counted as left out.
pub proof fn law_candidate_is_taken_if_it_fits(
    objects: Seq<ObjectView>,
    next: ObjectView,
    max_bytes: u64,
)
    ensures
        ({
            let before = admitted(objects, max_bytes);
            let after = admitted(objects.push(next), max_bytes);
            let known = exists|i: int| 0 <= i < objects.len() && (#[trigger] objects[i]).key == next.key;
            &&& known ==> after == before
            &&& !known && before.taken_bytes + next.size_bytes <= max_bytes ==> after.taken
                == before.taken.push(next) && after.taken_bytes == before.taken_bytes
                + next.size_bytes && after.skipped == before.skipped && after.skipped_bytes
                == before.skipped_bytes
            &&& !known && before.taken_bytes + next.size_bytes > max_bytes ==> after.taken
                == before.taken && after.taken_bytes == before.taken_bytes && after.skipped
                == before.skipped + 1 && after.skipped_bytes == before.skipped_bytes
                + next.size_bytes
        }),
        admitted(Seq::empty(), max_bytes).taken.len() == 0,
        admitted(Seq::empty(), max_bytes).skipped == 0,
{
    let all = objects.push(next);
    assert(all.drop_last() =~= objects);
    assert forall|i: int| 0 <= i < objects.len() implies (#[trigger] objects[i]) == all[i] by {}
    let known = exists|i: int| 0 <= i < objects.len() && (#[trigger] objects[i]).key == next.key;
    if known {
        let i = choose|i: int| 0 <= i < objects.len() && (#[trigger] objects[i]).key == next.key;
        assert(all[i].key == all[all.len() - 1].key);
    } else {
        assert forall|j: int| 0 <= j < all.len() - 1 implies (#[trigger] all[j]).key != all[all.len()
            - 1].key by {
            assert(objects[j] == all[j]);
        }
    }
}

/// What a warm-up loads of a snapshot is its manifest, before all else, and every object
/// that the manifest names.
pub proof fn law_whole_snapshot_is_loaded(
    ns: Seq<char>,
    pointer: ManifestPointer,
    manifest: NamespaceManifest,
    body_size_bytes: u64,
    o: ObjectView,
)
    ensures
        ({
            let all = warm_candidates(ns, pointer, manifest, body_size_bytes);
            &&& all.len() > 0
            &&& all[0].key == manifest::body_name(ns, pointer)
            &&& all[0].size_bytes == body_size_bytes
            &&& manifest::index_objects(manifest).contains(o) ==> all.contains(o)
            &&& all.len() == 1 + manifest::index_objects(manifest).len()
        }),
{
    let objects = manifest::index_objects(manifest);
    let all = warm_candidates(ns, pointer, manifest, body_size_bytes);
    if objects.contains(o) {
        let i = objects.index_of(o);
        assert(all[i + 1] == o);
    }
}

} // verus!
