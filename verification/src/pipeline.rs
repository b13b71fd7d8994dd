//! The per-tick pipeline: from pointers, cameras and primitives to one
//! ordered batch of hits per pointer.

use vstd::prelude::*;
use crate::camera::{
    resolve_camera, resolved, serves, CameraView, PointerId, PointerLocation, SurfaceId,
};
use crate::geometry::{distance_sq, distance_within_fits, within, Primitive, WorldPoint};
use crate::ranking::{
    at_distance, candidate, collect_hits, hits_of, hits_of_are_the_primitives_within,
    nearest_first, rank_hits, ranked, ranked_is_a_permutation, ranked_is_nearest_first,
    ranked_is_stable, RankedHit,
};

verus! {

/// A vector of the world.
#[derive(Clone, Copy, Debug, PartialEq, Eq, Structural)]
pub struct Vector3 {
    pub x: i64,
    pub y: i64,
    pub z: i64,
}

/// One hit as the consumer sees it. The distance by which hits are ranked
/// is not part of it.
#[derive(Clone, Copy, Debug, PartialEq, Eq, Structural)]
pub struct HitRecord {
    pub entity: u64,
    /// The camera through which the pointer was mapped to the world.
    pub camera: u64,
    /// The `z` of the entity's transform.
    pub depth: i64,
    pub position: Option<Vector3>,
    pub normal: Option<Vector3>,
}

/// The hits of one pointer in one tick, nearest first, with the order value
/// of the camera that served the pointer.
#[derive(Clone, Debug, PartialEq, Eq)]
pub struct HitBatch {
    pub pointer: PointerId,
    pub hits: Vec<HitRecord>,
    pub order: i64,
}

/// A batch with its hits as a sequence.
pub struct HitBatchView {
    pub pointer: PointerId,
    pub hits: Seq<HitRecord>,
    pub order: i64,
}

impl View for HitBatch {
    type V = HitBatchView;

    open spec fn view(&self) -> HitBatchView {
        HitBatchView { pointer: self.pointer, hits: self.hits@, order: self.order }
    }
}

/// A pointer together with its position in the world.
///
/// `world` is the pointer's screen position mapped through the camera that
/// `resolve_camera` chooses for it. It is `None` where no camera is chosen
/// or the camera cannot map the position.
#[derive(Clone, Copy, Debug, PartialEq, Eq, Structural)]
pub struct ProjectedPointer {
    pub pointer: PointerLocation,
    pub world: Option<WorldPoint>,
}

/// The record emitted for a ranked hit seen through `camera`.
pub open spec fn record_of(h: RankedHit, camera: u64) -> HitRecord {
    HitRecord { entity: h.entity, camera, depth: h.depth, position: None, normal: None }
}

/// Whether `rec` is the record of `prim`, hit at `point` and seen through
/// `camera`.
pub open spec fn emitted_from(rec: HitRecord, point: WorldPoint, prim: Primitive, camera: u64) -> bool {
    within(point, prim) && rec == record_of(candidate(point, prim), camera)
}

/// Whether `first` and `second` are the records of two primitives of
/// `prims` of which the first is no farther from `point` than the second.
pub open spec fn no_farther(
    first: HitRecord,
    second: HitRecord,
    point: WorldPoint,
    prims: Seq<Primitive>,
    camera: u64,
) -> bool {
    exists|i: int, j: int|
        #![trigger prims[i], prims[j]]
        {
            &&& 0 <= i < prims.len()
            &&& 0 <= j < prims.len()
            &&& emitted_from(first, point, prims[i], camera)
            &&& emitted_from(second, point, prims[j], camera)
            &&& distance_sq(point, prims[i].transform) <= distance_sq(point, prims[j].transform)
        }
}

/// The records emitted for ranked hits, in their order.
pub open spec fn records(s: Seq<RankedHit>, camera: u64) -> Seq<HitRecord> {
    Seq::new(s.len(), |i: int| record_of(s[i], camera))
}

/// The batch for a pointer at `point`, seen through `camera`.
pub open spec fn batch_of(
    pointer: PointerId,
    camera: CameraView,
    point: WorldPoint,
    prims: Seq<Primitive>,
) -> HitBatchView {
    HitBatchView {
        pointer,
        hits: records(ranked(hits_of(point, prims)), camera.entity),
        order: camera.order,
    }
}

/// What one pointer contributes to a tick: a batch when a camera is chosen
/// for it and its position maps to the world, nothing otherwise.
pub open spec fn pointer_batch(
    input: ProjectedPointer,
    cameras: Seq<CameraView>,
    primary: Option<SurfaceId>,
    prims: Seq<Primitive>,
) -> Option<HitBatchView> {
    match (resolved(input.pointer, cameras, primary), input.world) {
        (Some(c), Some(point)) => Some(batch_of(input.pointer.id, cameras[c], point, prims)),
        _ => None,
    }
}

/// The batches of a tick: the contributions of the pointers, in their
/// order.
pub open spec fn tick_batches(
    inputs: Seq<ProjectedPointer>,
    cameras: Seq<CameraView>,
    primary: Option<SurfaceId>,
    prims: Seq<Primitive>,
) -> Seq<HitBatchView>
    decreases inputs.len(),
{
    if inputs.len() == 0 {
        Seq::empty()
    } else {
        let front = tick_batches(inputs.drop_last(), cameras, primary, prims);
        match pointer_batch(inputs.last(), cameras, primary, prims) {
            Some(b) => front.push(b),
            None => front,
        }
    }
}

/// The views of a sequence of batches.
pub open spec fn batch_views(batches: Seq<HitBatch>) -> Seq<HitBatchView> {
    Seq::new(batches.len(), |i: int| batches[i]@)
}

/// Turns ranked hits into the records that are emitted, dropping the
/// ranking key.
pub fn to_records(hits: &Vec<RankedHit>, camera: u64) -> (out: Vec<HitRecord>)
    ensures
        out@ == records(hits@, camera),
{
    let mut out: Vec<HitRecord> = Vec::new();
    let mut i: usize = 0;
    while i < hits.len()
        invariant
            i <= hits.len(),
            out.len() == i,
            forall|j: int| 0 <= j < i ==> out@[j] == record_of(hits@[j], camera),
        decreases hits.len() - i,
    {
        let h = hits[i];
        out.push(HitRecord { entity: h.entity, camera, depth: h.depth, position: None, normal: None });
        i += 1;
    }
    assert(out@ =~= records(hits@, camera));
    out
}

/// Builds the batch of a pointer whose world position is `point`, seen
/// through `camera`: every primitive that contains the point, nearest
/// first, primitives at equal distance in the order of `prims`. The batch
/// carries the camera's order value unchanged. It is empty exactly when no
/// primitive contains the point.
pub fn pick_hits(
    pointer: PointerId,
    camera: &CameraView,
    point: WorldPoint,
    prims: &Vec<Primitive>,
) -> (batch: HitBatch)
    ensures
        batch@ == batch_of(pointer, *camera, point, prims@),
        batch.pointer == pointer,
        batch.order == camera.order,
        batch.hits@ == records(ranked(hits_of(point, prims@)), camera.entity),
        nearest_first(ranked(hits_of(point, prims@))),
        forall|d: u128|
            at_distance(ranked(hits_of(point, prims@)), d) == at_distance(hits_of(point, prims@), d),
        (forall|i: int| 0 <= i < prims.len() ==> !within(point, #[trigger] prims[i]))
            <==> batch.hits.len() == 0,
{
    let found = collect_hits(point, prims);
    let sorted = rank_hits(&found);
    let hits = to_records(&sorted, camera.entity);
    proof {
        hits_of_is_empty(point, prims@);
    }
    HitBatch { pointer, hits, order: camera.order }
}

/// Handles one pointer of a tick.
///
/// Returns a batch exactly when the pointer has a location, some active
/// camera draws to the surface under it, and its position maps to the
/// world. The batch is that of `pick_hits` for the first such camera.
pub fn process_pointer(
    input: &ProjectedPointer,
    cameras: &Vec<CameraView>,
    primary: Option<SurfaceId>,
    prims: &Vec<Primitive>,
) -> (r: Option<HitBatch>)
    ensures
        match r {
            Some(b) => pointer_batch(*input, cameras@, primary, prims@) == Some(b@),
            None => pointer_batch(*input, cameras@, primary, prims@).is_none(),
        },
        r.is_some() <==> resolved(input.pointer, cameras@, primary).is_some()
            && input.world.is_some(),
        input.pointer.location.is_none() ==> r.is_none(),
        r.is_some() ==> (r.unwrap().hits.len() == 0 <==> forall|i: int|
            0 <= i < prims.len() ==> !within(input.world.unwrap(), #[trigger] prims[i])),
{
    let c = match resolve_camera(&input.pointer, cameras, primary) {
        Some(c) => c,
        None => {
            return None;
        },
    };
    let point = match input.world {
        Some(point) => point,
        None => {
            return None;
        },
    };
    Some(pick_hits(input.pointer.id, &cameras[c], point, prims))
}

/// Runs one tick: the batches of all pointers, in the order of `inputs`.
/// A pointer that yields no batch is passed over.
pub fn run_tick(
    inputs: &Vec<ProjectedPointer>,
    cameras: &Vec<CameraView>,
    primary: Option<SurfaceId>,
    prims: &Vec<Primitive>,
) -> (out: Vec<HitBatch>)
    ensures
        batch_views(out@) == tick_batches(inputs@, cameras@, primary, prims@),
        out.len() <= inputs.len(),
{
    let mut out: Vec<HitBatch> = Vec::new();
    let mut i: usize = 0;
    while i < inputs.len()
        invariant
            i <= inputs.len(),
            out.len() <= i,
            batch_views(out@) == tick_batches(inputs@.take(i as int), cameras@, primary, prims@),
        decreases inputs.len() - i,
    {
        proof {
            assert(inputs@.take(i + 1).drop_last() =~= inputs@.take(i as int));
            assert(inputs@.take(i + 1).last() == inputs@[i as int]);
        }
        let ghost before = out@;
        match process_pointer(&inputs[i], cameras, primary, prims) {
            Some(b) => {
                out.push(b);
                assert(batch_views(out@) =~= batch_views(before).push(b@));
            },
            None => {},
        }
        i += 1;
    }
    proof {
        assert(inputs@.take(inputs.len() as int) =~= inputs@);
    }
    out
}

/// `hits_of` is empty exactly when no primitive contains the point, and
/// never longer than the list of primitives.
pub proof fn hits_of_is_empty(point: WorldPoint, prims: Seq<Primitive>)
    ensures
        hits_of(point, prims).len() <= prims.len(),
        (forall|i: int| 0 <= i < prims.len() ==> !within(point, #[trigger] prims[i]))
            <==> hits_of(point, prims).len() == 0,
    decreases prims.len(),
{
    if prims.len() > 0 {
        let front = prims.drop_last();
        hits_of_is_empty(point, front);
        if hits_of(point, prims).len() == 0 {
            assert forall|i: int| 0 <= i < prims.len() implies !within(
                point,
                #[trigger] prims[i],
            ) by {
                if i < front.len() {
                    assert(front[i] == prims[i]);
                }
            }
        }
        if forall|i: int| 0 <= i < prims.len() ==> !within(point, #[trigger] prims[i]) {
            assert forall|i: int| 0 <= i < front.len() implies !within(
                point,
                #[trigger] front[i],
            ) by {
                assert(front[i] == prims[i]);
            }
            assert(!within(point, prims[prims.len() - 1]));
        }
    }
}

/// A pointer without a location contributes no batch.
pub proof fn unlocated_pointer_is_silent(
    input: ProjectedPointer,
    cameras: Seq<CameraView>,
    primary: Option<SurfaceId>,
    prims: Seq<Primitive>,
)
    requires
        input.pointer.location.is_none(),
    ensures
        pointer_batch(input, cameras, primary, prims).is_none(),
{
}

/// A pointer over a surface that no active camera draws to contributes no
/// batch. An inactive camera serves no surface.
pub proof fn unserved_pointer_is_silent(
    input: ProjectedPointer,
    cameras: Seq<CameraView>,
    primary: Option<SurfaceId>,
    prims: Seq<Primitive>,
)
    requires
        input.pointer.location.is_some(),
        forall|j: int|
            0 <= j < cameras.len() ==> !serves(
                #[trigger] cameras[j],
                input.pointer.location.unwrap().target,
                primary,
            ),
    ensures
        pointer_batch(input, cameras, primary, prims).is_none(),
{
    crate::camera::first_serving_is_least(cameras, input.pointer.location.unwrap().target, primary);
}

/// A pointer that is served and mapped to the world contributes one batch;
/// where no primitive contains its position, that batch has no hits.
pub proof fn empty_overlap_gives_empty_batch(
    input: ProjectedPointer,
    cameras: Seq<CameraView>,
    primary: Option<SurfaceId>,
    prims: Seq<Primitive>,
)
    requires
        resolved(input.pointer, cameras, primary).is_some(),
        input.world.is_some(),
        forall|i: int| 0 <= i < prims.len() ==> !within(input.world.unwrap(), #[trigger] prims[i]),
    ensures
        pointer_batch(input, cameras, primary, prims).is_some(),
        pointer_batch(input, cameras, primary, prims).unwrap().hits.len() == 0,
        tick_batches(seq![input], cameras, primary, prims).len() == 1,
{
    hits_of_is_empty(input.world.unwrap(), prims);
    ranked_is_nearest_first(hits_of(input.world.unwrap(), prims));
    let one = seq![input];
    assert(one.drop_last() =~= Seq::<ProjectedPointer>::empty());
    assert(one.last() == input);
    assert(tick_batches(one.drop_last(), cameras, primary, prims).len() == 0);
}

/// The hits of a batch are ordered by distance: they are the records of the
/// ranked hits, no ranked hit is farther than a later one, and the hits at
/// any one distance stand in the order of the primitives they come from.
pub proof fn batch_is_nearest_first_and_stable(
    pointer: PointerId,
    camera: CameraView,
    point: WorldPoint,
    prims: Seq<Primitive>,
    d: u128,
)
    ensures
        batch_of(pointer, camera, point, prims).hits == records(
            ranked(hits_of(point, prims)),
            camera.entity,
        ),
        batch_of(pointer, camera, point, prims).hits.len() == hits_of(point, prims).len(),
        nearest_first(ranked(hits_of(point, prims))),
        at_distance(ranked(hits_of(point, prims)), d) == at_distance(hits_of(point, prims), d),
{
    ranked_is_nearest_first(hits_of(point, prims));
    ranked_is_stable(hits_of(point, prims), d);
}

/// Every record of a batch refers to a primitive that contains the point,
/// and every primitive that contains the point has its record in the batch.
pub proof fn batch_holds_the_primitives_within(
    pointer: PointerId,
    camera: CameraView,
    point: WorldPoint,
    prims: Seq<Primitive>,
)
    ensures
        forall|k: int|
            0 <= k < batch_of(pointer, camera, point, prims).hits.len() ==> exists|j: int|
                0 <= j < prims.len() && within(point, #[trigger] prims[j]) && (#[trigger] batch_of(
                    pointer,
                    camera,
                    point,
                    prims,
                ).hits[k]) == record_of(candidate(point, prims[j]), camera.entity),
        forall|j: int|
            0 <= j < prims.len() && within(point, #[trigger] prims[j]) ==> batch_of(
                pointer,
                camera,
                point,
                prims,
            ).hits.contains(record_of(candidate(point, prims[j]), camera.entity)),
{
    let found = hits_of(point, prims);
    let sorted = ranked(found);
    let hits = batch_of(pointer, camera, point, prims).hits;
    ranked_is_a_permutation(found);
    hits_of_are_the_primitives_within(point, prims);
    assert forall|k: int| 0 <= k < hits.len() implies exists|j: int|
        0 <= j < prims.len() && within(point, #[trigger] prims[j]) && (#[trigger] hits[k])
            == record_of(candidate(point, prims[j]), camera.entity) by {
        assert(sorted.contains(sorted[k]));
        assert(found.contains(sorted[k]));
        let j = choose|j: int|
            0 <= j < prims.len() && within(point, #[trigger] prims[j]) && sorted[k] == candidate(
                point,
                prims[j],
            );
        assert(hits[k] == record_of(candidate(point, prims[j]), camera.entity));
    }
    assert forall|j: int| 0 <= j < prims.len() && within(point, #[trigger] prims[j]) implies hits.contains(
        record_of(candidate(point, prims[j]), camera.entity),
    ) by {
        let h = candidate(point, prims[j]);
        assert(found.contains(h));
        assert(sorted.contains(h));
        let k = choose|k: int| 0 <= k < sorted.len() && sorted[k] == h;
        assert(hits[k] == record_of(h, camera.entity));
    }
}

/// Of any two records of a batch the earlier one belongs to a primitive
/// that is no farther from the point than the primitive of the later one.
pub proof fn batch_order_follows_distance(
    pointer: PointerId,
    camera: CameraView,
    point: WorldPoint,
    prims: Seq<Primitive>,
)
    ensures
        forall|a: int, b: int|
            0 <= a < b < batch_of(pointer, camera, point, prims).hits.len() ==> #[trigger] no_farther(
                batch_of(pointer, camera, point, prims).hits[a],
                batch_of(pointer, camera, point, prims).hits[b],
                point,
                prims,
                camera.entity,
            ),
{
    let found = hits_of(point, prims);
    let sorted = ranked(found);
    let hits = batch_of(pointer, camera, point, prims).hits;
    ranked_is_a_permutation(found);
    ranked_is_nearest_first(found);
    hits_of_are_the_primitives_within(point, prims);
    assert forall|a: int, b: int| 0 <= a < b < hits.len() implies #[trigger] no_farther(
        hits[a],
        hits[b],
        point,
        prims,
        camera.entity,
    ) by {
        assert(sorted[a].distance_sq <= sorted[b].distance_sq);
        assert(sorted.contains(sorted[a]));
        assert(sorted.contains(sorted[b]));
        assert(found.contains(sorted[a]));
        assert(found.contains(sorted[b]));
        let i = choose|i: int|
            0 <= i < prims.len() && within(point, #[trigger] prims[i]) && sorted[a] == candidate(
                point,
                prims[i],
            );
        let j = choose|j: int|
            0 <= j < prims.len() && within(point, #[trigger] prims[j]) && sorted[b] == candidate(
                point,
                prims[j],
            );
        distance_within_fits(point, prims[i]);
        distance_within_fits(point, prims[j]);
        assert(hits[a] == record_of(sorted[a], camera.entity));
        assert(hits[b] == record_of(sorted[b], camera.entity));
        assert(emitted_from(hits[a], point, prims[i], camera.entity));
        assert(emitted_from(hits[b], point, prims[j], camera.entity));
    }
}

/// A tick over one pointer emits that pointer's batch, if it has one, and
/// nothing else.
pub proof fn tick_of_one_pointer(
    input: ProjectedPointer,
    cameras: Seq<CameraView>,
    primary: Option<SurfaceId>,
    prims: Seq<Primitive>,
)
    ensures
        tick_batches(seq![input], cameras, primary, prims) == match pointer_batch(
            input,
            cameras,
            primary,
            prims,
        ) {
            Some(b) => seq![b],
            None => Seq::empty(),
        },
{
    let one = seq![input];
    assert(one.drop_last() =~= Seq::<ProjectedPointer>::empty());
    assert(one.last() == input);
    let front = tick_batches(one.drop_last(), cameras, primary, prims);
    assert(front =~= Seq::<HitBatchView>::empty());
    match pointer_batch(input, cameras, primary, prims) {
        Some(b) => {
            assert(front.push(b) =~= seq![b]);
        },
        None => {},
    }
}

/// Pointers are handled independently: the batches of a tick are those of
/// any first part of the pointers followed by those of the rest.
pub proof fn tick_handles_pointers_independently(
    first: Seq<ProjectedPointer>,
    rest: Seq<ProjectedPointer>,
    cameras: Seq<CameraView>,
    primary: Option<SurfaceId>,
    prims: Seq<Primitive>,
)
    ensures
        tick_batches(first + rest, cameras, primary, prims) == tick_batches(
            first,
            cameras,
            primary,
            prims,
        ) + tick_batches(rest, cameras, primary, prims),
    decreases rest.len(),
{
    let a = tick_batches(first, cameras, primary, prims);
    if rest.len() == 0 {
        assert(first + rest =~= first);
        assert(a + tick_batches(rest, cameras, primary, prims) =~= a);
    } else {
        tick_handles_pointers_independently(first, rest.drop_last(), cameras, primary, prims);
        assert((first + rest).drop_last() =~= first + rest.drop_last());
        assert((first + rest).last() == rest.last());
        let b = tick_batches(rest.drop_last(), cameras, primary, prims);
        match pointer_batch(rest.last(), cameras, primary, prims) {
            Some(x) => {
                assert((a + b).push(x) =~= a + b.push(x));
            },
            None => {},
        }
    }
}

/// A tick emits no batch under a pointer id all of whose pointers
/// contribute none.
pub proof fn tick_is_silent_for(
    inputs: Seq<ProjectedPointer>,
    cameras: Seq<CameraView>,
    primary: Option<SurfaceId>,
    prims: Seq<Primitive>,
    id: PointerId,
)
    requires
        forall|i: int|
            0 <= i < inputs.len() && (#[trigger] inputs[i]).pointer.id == id ==> pointer_batch(
                inputs[i],
                cameras,
                primary,
                prims,
            ).is_none(),
    ensures
        forall|k: int|
            0 <= k < tick_batches(inputs, cameras, primary, prims).len() ==> (#[trigger] tick_batches(
                inputs,
                cameras,
                primary,
                prims,
            )[k]).pointer != id,
    decreases inputs.len(),
{
    if inputs.len() > 0 {
        let front = inputs.drop_last();
        assert forall|i: int|
            0 <= i < front.len() && (#[trigger] front[i]).pointer.id == id implies pointer_batch(
            front[i],
            cameras,
            primary,
            prims,
        ).is_none() by {
            assert(front[i] == inputs[i]);
        }
        tick_is_silent_for(front, cameras, primary, prims, id);
        assert(inputs[inputs.len() - 1] == inputs.last());
    }
}

} // verus!
