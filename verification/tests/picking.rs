use circle_picking::camera::{
    camera_serves, normalize_target, resolve_camera, CameraView, Location, PointerId,
    PointerLocation, RenderTarget, ScreenPoint, SurfaceId,
};
use circle_picking::geometry::{
    hit_distance, Primitive, PrimitiveShape, WorldPoint, WorldTransform,
};
use circle_picking::pipeline::{
    pick_hits, process_pointer, run_tick, to_records, HitBatch, HitRecord, ProjectedPointer,
};
use circle_picking::ranking::{collect_hits, rank_hits, RankedHit};

const WINDOW: SurfaceId = SurfaceId::Window(7);

fn circle(entity: u64, x: i64, y: i64, z: i64, radius: i64) -> Primitive {
    Primitive {
        entity,
        transform: WorldTransform { x, y, z },
        shape: PrimitiveShape::Circle { radius },
        pickable: true,
    }
}

fn at(x: i64, y: i64) -> WorldPoint {
    WorldPoint { x, y }
}

fn camera(entity: u64, is_active: bool, target: RenderTarget, order: i64) -> CameraView {
    CameraView { entity, is_active, target, order }
}

fn mouse_over(target: SurfaceId) -> PointerLocation {
    PointerLocation {
        id: PointerId::Mouse,
        location: Some(Location { target, position: ScreenPoint { x: 320, y: 240 } }),
    }
}

fn record(entity: u64, camera: u64, depth: i64) -> HitRecord {
    HitRecord { entity, camera, depth, position: None, normal: None }
}

fn hit(entity: u64, distance_sq: u128, depth: i64) -> RankedHit {
    RankedHit { entity, distance_sq, depth }
}

#[test]
fn pointer_at_centre_hits_with_distance_zero() {
    let prims = vec![circle(1, 0, 0, 0, 50)];
    let cams = vec![camera(100, true, RenderTarget::Primary, 0)];
    let inputs = vec![ProjectedPointer { pointer: mouse_over(WINDOW), world: Some(at(0, 0)) }];
    let out = run_tick(&inputs, &cams, Some(WINDOW), &prims);
    assert_eq!(
        out,
        vec![HitBatch { pointer: PointerId::Mouse, hits: vec![record(1, 100, 0)], order: 0 }]
    );
    assert_eq!(hit_distance(at(0, 0), &prims[0]), Some(0));
    assert_eq!(collect_hits(at(0, 0), &prims), vec![hit(1, 0, 0)]);
}

#[test]
fn pointer_just_outside_gives_one_empty_batch() {
    let prims = vec![circle(1, 0, 0, 0, 50)];
    let cams = vec![camera(100, true, RenderTarget::Primary, 0)];
    let inputs = vec![ProjectedPointer { pointer: mouse_over(WINDOW), world: Some(at(51, 0)) }];
    let out = run_tick(&inputs, &cams, Some(WINDOW), &prims);
    assert_eq!(out.len(), 1);
    assert_eq!(out[0].pointer, PointerId::Mouse);
    assert!(out[0].hits.is_empty());
    assert_eq!(out[0].order, 0);
}

#[test]
fn equal_distances_keep_input_order() {
    let a = circle(1, 0, 0, 0, 50);
    let b = circle(2, 10, 0, 0, 50);
    let cams = vec![camera(100, true, RenderTarget::Surface(WINDOW), 0)];
    let inputs = vec![ProjectedPointer { pointer: mouse_over(WINDOW), world: Some(at(5, 0)) }];

    let out = run_tick(&inputs, &cams, None, &vec![a, b]);
    assert_eq!(out.len(), 1);
    assert_eq!(out[0].hits, vec![record(1, 100, 0), record(2, 100, 0)]);

    let swapped = run_tick(&inputs, &cams, None, &vec![b, a]);
    assert_eq!(swapped[0].hits, vec![record(2, 100, 0), record(1, 100, 0)]);

    assert_eq!(hit_distance(at(5, 0), &a), Some(25));
    assert_eq!(hit_distance(at(5, 0), &b), Some(25));
}

#[test]
fn inactive_camera_gives_no_batch() {
    let prims = vec![circle(1, 0, 0, 0, 50)];
    let cams = vec![camera(100, false, RenderTarget::Primary, 0)];
    let pointer = mouse_over(WINDOW);
    let inputs = vec![ProjectedPointer { pointer, world: Some(at(0, 0)) }];
    assert!(run_tick(&inputs, &cams, Some(WINDOW), &prims).is_empty());
    assert_eq!(resolve_camera(&pointer, &cams, Some(WINDOW)), None);
    assert_eq!(process_pointer(&inputs[0], &cams, Some(WINDOW), &prims), None);
}

#[test]
fn boundary_is_a_miss_and_one_unit_inside_is_a_hit() {
    let c = circle(1, 0, 0, 0, 50);
    assert_eq!(hit_distance(at(50, 0), &c), None);
    assert_eq!(hit_distance(at(0, -50), &c), None);
    assert_eq!(hit_distance(at(30, 40), &c), None);
    assert_eq!(hit_distance(at(-30, -40), &c), None);
    assert_eq!(hit_distance(at(49, 0), &c), Some(2401));
    assert_eq!(hit_distance(at(30, 39), &c), Some(2421));
    assert_eq!(hit_distance(at(-30, 39), &c), Some(2421));
}

#[test]
fn distance_is_measured_from_the_centre() {
    let c = circle(1, 100, -200, 3, 10);
    assert_eq!(hit_distance(at(100, -200), &c), Some(0));
    assert_eq!(hit_distance(at(106, -192), &c), None);
    assert_eq!(hit_distance(at(106, -193), &c), Some(85));
    assert_eq!(hit_distance(at(0, 0), &c), None);
}

#[test]
fn radius_of_zero_or_less_is_never_hit() {
    assert_eq!(hit_distance(at(0, 0), &circle(1, 0, 0, 0, 0)), None);
    assert_eq!(hit_distance(at(0, 0), &circle(1, 0, 0, 0, -5)), None);
    assert_eq!(hit_distance(at(0, 0), &circle(1, 0, 0, 0, i64::MIN)), None);
    assert_eq!(hit_distance(at(0, 0), &circle(1, 0, 0, 0, 1)), Some(0));
    assert_eq!(hit_distance(at(1, 0), &circle(1, 0, 0, 0, 1)), None);
}

#[test]
fn extreme_coordinates_do_not_overflow() {
    let far = circle(1, i64::MIN, i64::MIN, 0, i64::MAX);
    assert_eq!(hit_distance(at(i64::MAX, i64::MAX), &far), None);
    assert_eq!(hit_distance(at(i64::MIN, i64::MIN), &far), Some(0));
    let wide = circle(2, 0, 0, 0, i64::MAX);
    let m = (i64::MAX - 1) as u128;
    assert_eq!(hit_distance(at(i64::MAX - 1, 0), &wide), Some(m * m));
    assert_eq!(hit_distance(at(i64::MAX, 0), &wide), None);
    assert_eq!(hit_distance(at(i64::MAX - 1, i64::MAX - 1), &wide), None);
}

#[test]
fn unmarked_primitive_is_still_tested() {
    let mut c = circle(1, 0, 0, 0, 50);
    c.pickable = false;
    assert_eq!(collect_hits(at(1, 1), &vec![c]), vec![hit(1, 2, 0)]);
}

#[test]
fn collect_keeps_input_order_and_drops_misses() {
    let prims = vec![
        circle(1, 0, 0, 5, 50),
        circle(2, 200, 0, 6, 50),
        circle(3, 3, 4, -7, 50),
        circle(4, 0, 40, 8, 50),
    ];
    assert_eq!(
        collect_hits(at(0, 0), &prims),
        vec![hit(1, 0, 5), hit(3, 25, -7), hit(4, 1600, 8)]
    );
    assert_eq!(collect_hits(at(1000, 1000), &prims), vec![]);
    assert_eq!(collect_hits(at(0, 0), &vec![]), vec![]);
}

#[test]
fn rank_orders_by_distance_and_is_stable() {
    let input = vec![
        hit(1, 30, 0),
        hit(2, 10, 0),
        hit(3, 30, 0),
        hit(4, 0, 0),
        hit(5, 10, 0),
        hit(6, 30, 0),
    ];
    let out = rank_hits(&input);
    assert_eq!(
        out,
        vec![hit(4, 0, 0), hit(2, 10, 0), hit(5, 10, 0), hit(1, 30, 0), hit(3, 30, 0), hit(6, 30, 0)]
    );
    for w in out.windows(2) {
        assert!(w[0].distance_sq <= w[1].distance_sq);
    }
    assert_eq!(rank_hits(&vec![]), vec![]);
    assert_eq!(rank_hits(&vec![hit(9, 4, 1)]), vec![hit(9, 4, 1)]);
    assert_eq!(rank_hits(&out), out);
}

#[test]
fn rank_reverses_a_descending_list() {
    let input = vec![hit(1, 5, 0), hit(2, 4, 0), hit(3, 3, 0), hit(4, 2, 0), hit(5, 1, 0)];
    assert_eq!(
        rank_hits(&input),
        vec![hit(5, 1, 0), hit(4, 2, 0), hit(3, 3, 0), hit(2, 4, 0), hit(1, 5, 0)]
    );
}

#[test]
fn records_drop_the_distance_and_keep_depth_and_camera() {
    let out = to_records(&vec![hit(1, 9, -3), hit(2, 16, 4)], 77);
    assert_eq!(out, vec![record(1, 77, -3), record(2, 77, 4)]);
    assert_eq!(out[0].position, None);
    assert_eq!(out[0].normal, None);
    assert_eq!(to_records(&vec![], 77), vec![]);
}

#[test]
fn nearer_primitive_comes_first_whatever_its_depth() {
    let prims = vec![circle(1, 0, 0, 100, 50), circle(2, 10, 0, -100, 50), circle(3, 4, 0, 0, 50)];
    let cam = camera(9, true, RenderTarget::Primary, -2);
    let batch = pick_hits(PointerId::Touch(3), &cam, at(8, 0), &prims);
    assert_eq!(batch.pointer, PointerId::Touch(3));
    assert_eq!(batch.order, -2);
    assert_eq!(batch.hits, vec![record(2, 9, -100), record(3, 9, 0), record(1, 9, 100)]);
}

#[test]
fn order_value_is_passed_through() {
    for order in [i64::MIN, -1, 0, 1, 42, i64::MAX] {
        let cam = camera(9, true, RenderTarget::Primary, order);
        let batch = pick_hits(PointerId::Mouse, &cam, at(0, 0), &vec![]);
        assert_eq!(batch.order, order);
        assert!(batch.hits.is_empty());
    }
}

#[test]
fn primary_target_resolves_only_with_a_primary_surface() {
    assert_eq!(normalize_target(RenderTarget::Primary, Some(WINDOW)), Some(WINDOW));
    assert_eq!(normalize_target(RenderTarget::Primary, None), None);
    let image = SurfaceId::Image(5);
    assert_eq!(normalize_target(RenderTarget::Surface(image), None), Some(image));
    assert_eq!(normalize_target(RenderTarget::Surface(image), Some(WINDOW)), Some(image));
}

#[test]
fn camera_serves_only_its_own_surface_while_active() {
    let cam = camera(1, true, RenderTarget::Primary, 0);
    assert!(camera_serves(&cam, WINDOW, Some(WINDOW)));
    assert!(!camera_serves(&cam, WINDOW, None));
    assert!(!camera_serves(&cam, WINDOW, Some(SurfaceId::Window(8))));
    assert!(!camera_serves(&cam, SurfaceId::Image(7), Some(WINDOW)));
    let off = camera(1, false, RenderTarget::Surface(WINDOW), 0);
    assert!(!camera_serves(&off, WINDOW, Some(WINDOW)));
    let view = camera(1, true, RenderTarget::Surface(SurfaceId::TextureView(2)), 0);
    assert!(camera_serves(&view, SurfaceId::TextureView(2), None));
    assert!(!camera_serves(&view, SurfaceId::TextureView(3), None));
}

#[test]
fn first_matching_camera_is_chosen() {
    let other = SurfaceId::Window(8);
    let cams = vec![
        camera(1, true, RenderTarget::Surface(other), 0),
        camera(2, false, RenderTarget::Primary, 1),
        camera(3, true, RenderTarget::Primary, 2),
        camera(4, true, RenderTarget::Surface(WINDOW), 3),
    ];
    assert_eq!(resolve_camera(&mouse_over(WINDOW), &cams, Some(WINDOW)), Some(2));
    assert_eq!(resolve_camera(&mouse_over(WINDOW), &cams, None), Some(3));
    assert_eq!(resolve_camera(&mouse_over(other), &cams, Some(WINDOW)), Some(0));
    assert_eq!(resolve_camera(&mouse_over(SurfaceId::Image(1)), &cams, Some(WINDOW)), None);
    assert_eq!(resolve_camera(&mouse_over(WINDOW), &vec![], Some(WINDOW)), None);
}

#[test]
fn pointer_without_location_gives_no_batch() {
    let prims = vec![circle(1, 0, 0, 0, 50)];
    let cams = vec![camera(100, true, RenderTarget::Primary, 0)];
    let gone = PointerLocation { id: PointerId::Touch(1), location: None };
    assert_eq!(resolve_camera(&gone, &cams, Some(WINDOW)), None);
    let input = ProjectedPointer { pointer: gone, world: Some(at(0, 0)) };
    assert_eq!(process_pointer(&input, &cams, Some(WINDOW), &prims), None);
    assert!(run_tick(&vec![input], &cams, Some(WINDOW), &prims).is_empty());
}

#[test]
fn missing_primary_surface_silences_pointers_of_primary_cameras() {
    let prims = vec![circle(1, 0, 0, 0, 50)];
    let cams = vec![camera(100, true, RenderTarget::Primary, 0)];
    let input = ProjectedPointer { pointer: mouse_over(WINDOW), world: Some(at(0, 0)) };
    assert_eq!(process_pointer(&input, &cams, None, &prims), None);
}

#[test]
fn failed_projection_gives_no_batch() {
    let prims = vec![circle(1, 0, 0, 0, 50)];
    let cams = vec![camera(100, true, RenderTarget::Primary, 0)];
    let input = ProjectedPointer { pointer: mouse_over(WINDOW), world: None };
    assert_eq!(process_pointer(&input, &cams, Some(WINDOW), &prims), None);
    assert!(run_tick(&vec![input], &cams, Some(WINDOW), &prims).is_empty());
}

#[test]
fn tick_emits_one_batch_per_served_pointer_in_order() {
    let second = SurfaceId::Window(8);
    let prims = vec![circle(1, 0, 0, 1, 50), circle(2, 100, 0, 2, 60)];
    let cams = vec![
        camera(10, true, RenderTarget::Primary, 5),
        camera(11, true, RenderTarget::Surface(second), 6),
    ];
    let touch = |n: u64, target: SurfaceId| PointerLocation {
        id: PointerId::Touch(n),
        location: Some(Location { target, position: ScreenPoint { x: 0, y: 0 } }),
    };
    let inputs = vec![
        ProjectedPointer { pointer: touch(1, WINDOW), world: Some(at(45, 0)) },
        ProjectedPointer {
            pointer: PointerLocation { id: PointerId::Touch(2), location: None },
            world: None,
        },
        ProjectedPointer { pointer: touch(3, second), world: Some(at(500, 500)) },
        ProjectedPointer { pointer: touch(4, SurfaceId::Image(1)), world: Some(at(0, 0)) },
        ProjectedPointer { pointer: touch(5, second), world: Some(at(60, 0)) },
        ProjectedPointer {
            pointer: PointerLocation {
                id: PointerId::Custom(99),
                location: Some(Location { target: WINDOW, position: ScreenPoint { x: 1, y: 1 } }),
            },
            world: Some(at(100, 59)),
        },
    ];
    let out = run_tick(&inputs, &cams, Some(WINDOW), &prims);
    assert_eq!(
        out,
        vec![
            HitBatch {
                pointer: PointerId::Touch(1),
                hits: vec![record(1, 10, 1), record(2, 10, 2)],
                order: 5,
            },
            HitBatch { pointer: PointerId::Touch(3), hits: vec![], order: 6 },
            HitBatch { pointer: PointerId::Touch(5), hits: vec![record(2, 11, 2)], order: 6 },
            HitBatch { pointer: PointerId::Custom(99), hits: vec![record(2, 10, 2)], order: 5 },
        ]
    );
    assert!(run_tick(&vec![], &cams, Some(WINDOW), &prims).is_empty());
}
