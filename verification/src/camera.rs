//! Pointers, cameras, and the choice of the camera that serves a pointer.

use vstd::prelude::*;

verus! {

/// Tells concurrent pointers apart.
#[derive(Clone, Copy, Debug, PartialEq, Eq, Structural)]
pub enum PointerId {
    Mouse,
    Touch(u64),
    Custom(u128),
}

/// A concrete surface: something a camera draws to and a pointer can be
/// over.
#[derive(Clone, Copy, Debug, PartialEq, Eq, Structural)]
pub enum SurfaceId {
    Window(u64),
    Image(u128),
    TextureView(u32),
}

/// What a camera declares as its target: a concrete surface, or the primary
/// surface, whichever that is this tick.
#[derive(Clone, Copy, Debug, PartialEq, Eq, Structural)]
pub enum RenderTarget {
    Primary,
    Surface(SurfaceId),
}

/// A position on a surface, in pixels.
#[derive(Clone, Copy, Debug, PartialEq, Eq, Structural)]
pub struct ScreenPoint {
    pub x: i64,
    pub y: i64,
}

/// Where a pointer is: the surface under it and the position on that
/// surface.
#[derive(Clone, Copy, Debug, PartialEq, Eq, Structural)]
pub struct Location {
    pub target: SurfaceId,
    pub position: ScreenPoint,
}

/// A pointer and, while it is over a tracked surface, its location.
#[derive(Clone, Copy, Debug, PartialEq, Eq, Structural)]
pub struct PointerLocation {
    pub id: PointerId,
    pub location: Option<Location>,
}

/// What the library reads of a camera. The mapping from screen to world
/// stays with the host, which applies it to the camera chosen here.
#[derive(Clone, Copy, Debug, PartialEq, Eq, Structural)]
pub struct CameraView {
    pub entity: u64,
    pub is_active: bool,
    pub target: RenderTarget,
    pub order: i64,
}

/// The concrete surface that a declared target stands for, given the
/// primary surface of this tick, if there is one.
pub open spec fn normalized(target: RenderTarget, primary: Option<SurfaceId>) -> Option<SurfaceId> {
    match target {
        RenderTarget::Primary => primary,
        RenderTarget::Surface(s) => Some(s),
    }
}

/// Whether `camera` serves pointers over `surface`: it is active and its
/// target resolves to that surface.
pub open spec fn serves(camera: CameraView, surface: SurfaceId, primary: Option<SurfaceId>) -> bool {
    camera.is_active && normalized(camera.target, primary) == Some(surface)
}

/// The index of the first camera that serves `surface`, if any does.
pub open spec fn first_serving(
    cameras: Seq<CameraView>,
    surface: SurfaceId,
    primary: Option<SurfaceId>,
) -> Option<int>
    decreases cameras.len(),
{
    if cameras.len() == 0 {
        None
    } else {
        match first_serving(cameras.drop_last(), surface, primary) {
            Some(i) => Some(i),
            None => if serves(cameras.last(), surface, primary) {
                Some(cameras.len() - 1)
            } else {
                None
            },
        }
    }
}

/// The index of the camera chosen for a pointer: none for a pointer without
/// a location, else the first camera that serves the surface under it.
pub open spec fn resolved(
    pointer: PointerLocation,
    cameras: Seq<CameraView>,
    primary: Option<SurfaceId>,
) -> Option<int> {
    match pointer.location {
        None => None,
        Some(loc) => first_serving(cameras, loc.target, primary),
    }
}

/// Resolves a declared target to a concrete surface. The symbolic target
/// resolves only while a primary surface exists.
pub fn normalize_target(target: RenderTarget, primary: Option<SurfaceId>) -> (r: Option<SurfaceId>)
    ensures
        r == normalized(target, primary),
{
    match target {
        RenderTarget::Primary => primary,
        RenderTarget::Surface(s) => Some(s),
    }
}

/// Whether a camera serves pointers over `surface`.
pub fn camera_serves(camera: &CameraView, surface: SurfaceId, primary: Option<SurfaceId>) -> (r: bool)
    ensures
        r == serves(*camera, surface, primary),
{
    if !camera.is_active {
        return false;
    }
    match normalize_target(camera.target, primary) {
        Some(s) => s == surface,
        None => false,
    }
}

/// `first_serving` names the least index of a serving camera, and is `None`
/// exactly when no camera serves the surface.
pub proof fn first_serving_is_least(
    cameras: Seq<CameraView>,
    surface: SurfaceId,
    primary: Option<SurfaceId>,
)
    ensures
        match first_serving(cameras, surface, primary) {
            Some(i) => {
                &&& 0 <= i < cameras.len()
                &&& serves(cameras[i], surface, primary)
                &&& forall|j: int| 0 <= j < i ==> !serves(#[trigger] cameras[j], surface, primary)
            },
            None => forall|j: int|
                0 <= j < cameras.len() ==> !serves(#[trigger] cameras[j], surface, primary),
        },
    decreases cameras.len(),
{
    if cameras.len() > 0 {
        let front = cameras.drop_last();
        first_serving_is_least(front, surface, primary);
        assert forall|j: int| 0 <= j < front.len() implies front[j] == cameras[j] by {}
        match first_serving(front, surface, primary) {
            Some(i) => {
                assert(front[i] == cameras[i]);
            },
            None => {
                assert forall|j: int| 0 <= j < cameras.len() - 1 implies !serves(
                    #[trigger] cameras[j],
                    surface,
                    primary,
                ) by {
                    assert(front[j] == cameras[j]);
                }
            },
        }
    }
}

/// Chooses the camera for a pointer.
///
/// Returns the index of the first active camera whose target resolves to
/// the surface under the pointer. Returns `None` for a pointer without a
/// location and for one that no camera serves.
pub fn resolve_camera(
    pointer: &PointerLocation,
    cameras: &Vec<CameraView>,
    primary: Option<SurfaceId>,
) -> (r: Option<usize>)
    ensures
        match r {
            Some(i) => resolved(*pointer, cameras@, primary) == Some(i as int),
            None => resolved(*pointer, cameras@, primary).is_none(),
        },
        pointer.location.is_none() ==> r.is_none(),
        match (r, pointer.location) {
            (Some(i), Some(loc)) => {
                &&& i < cameras.len()
                &&& serves(cameras[i as int], loc.target, primary)
                &&& forall|j: int| 0 <= j < i ==> !serves(#[trigger] cameras[j], loc.target, primary)
            },
            (None, Some(loc)) => forall|j: int|
                0 <= j < cameras.len() ==> !serves(#[trigger] cameras[j], loc.target, primary),
            (Some(_), None) => false,
            (None, None) => true,
        },
{
    let loc = match pointer.location {
        None => {
            return None;
        },
        Some(loc) => loc,
    };
    proof {
        first_serving_is_least(cameras@, loc.target, primary);
    }
    let mut i: usize = 0;
    while i < cameras.len()
        invariant
            i <= cameras.len(),
            pointer.location == Some(loc),
            match first_serving(cameras@, loc.target, primary) {
                Some(k) => {
                    &&& 0 <= k < cameras.len()
                    &&& serves(cameras[k], loc.target, primary)
                    &&& forall|j: int|
                        0 <= j < k ==> !serves(#[trigger] cameras[j], loc.target, primary)
                },
                None => forall|j: int|
                    0 <= j < cameras.len() ==> !serves(#[trigger] cameras[j], loc.target, primary),
            },
            forall|j: int| 0 <= j < i ==> !serves(#[trigger] cameras[j], loc.target, primary),
        decreases cameras.len() - i,
    {
        if camera_serves(&cameras[i], loc.target, primary) {
            return Some(i);
        }
        i += 1;
    }
    None
}

} // verus!
