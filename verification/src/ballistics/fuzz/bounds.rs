//! How large the target is: a sphere around it in the world and a box in its own frame.

use crate::ballistics::collect::Aabb;
use crate::ballistics::fuzz::scene;
use crate::ballistics::fuzz::findings::TargetKind;
use crate::ballistics::fuzz::scene::{Affine, Scene};
use crate::float::F32;
use crate::vector::Vec3;
use vstd::prelude::*;

verus! {

/// The sphere around the target in the world, and its box in its own frame.
#[derive(Clone, Copy, Debug, PartialEq, Eq)]
pub struct TankBounds {
    pub center: Vec3,
    pub radius: F32,
    pub local: Aabb,
}

/// The part of the world that is searched, a hundred kilometres to every side.
#[verifier::allow_in_spec]
pub fn everywhere() -> Aabb
    returns
        (Aabb {
            min: Vec3 { x: F32 { bits: 0xc7c3_5000 }, y: F32 { bits: 0xc7c3_5000 }, z: F32 { bits: 0xc7c3_5000 } },
            max: Vec3 { x: F32 { bits: 0x47c3_5000 }, y: F32 { bits: 0x47c3_5000 }, z: F32 { bits: 0x47c3_5000 } },
        }),
{
    Aabb {
        min: Vec3 { x: F32 { bits: 0xc7c3_5000 }, y: F32 { bits: 0xc7c3_5000 }, z: F32 { bits: 0xc7c3_5000 } },
        max: Vec3 { x: F32 { bits: 0x47c3_5000 }, y: F32 { bits: 0x47c3_5000 }, z: F32 { bits: 0x47c3_5000 } },
    }
}

/// A box that holds nothing.
#[verifier::allow_in_spec]
pub fn hollow() -> Aabb
    returns
        (Aabb {
            min: Vec3 { x: F32 { bits: 0x7f80_0000 }, y: F32 { bits: 0x7f80_0000 }, z: F32 { bits: 0x7f80_0000 } },
            max: Vec3 { x: F32 { bits: 0xff80_0000 }, y: F32 { bits: 0xff80_0000 }, z: F32 { bits: 0xff80_0000 } },
        }),
{
    Aabb {
        min: Vec3 { x: F32 { bits: 0x7f80_0000 }, y: F32 { bits: 0x7f80_0000 }, z: F32 { bits: 0x7f80_0000 } },
        max: Vec3 { x: F32 { bits: 0xff80_0000 }, y: F32 { bits: 0xff80_0000 }, z: F32 { bits: 0xff80_0000 } },
    }
}

/// The box that holds both.
pub open spec fn joined(a: Aabb, b: Aabb) -> Aabb {
    Aabb { min: a.min.lower(b.min), max: a.max.upper(b.max) }
}

/// A corner of a box, numbered by which ends it takes.
pub open spec fn corner(aabb: Aabb, i: int) -> Vec3 {
    Vec3 {
        x: if i % 2 == 0 {
            aabb.min.x
        } else {
            aabb.max.x
        },
        y: if i / 2 % 2 == 0 {
            aabb.min.y
        } else {
            aabb.max.y
        },
        z: if i / 4 % 2 == 0 {
            aabb.min.z
        } else {
            aabb.max.z
        },
    }
}

/// A box grown by the first corners of another, each taken to the target's frame.
pub open spec fn cornered(local: Aabb, aabb: Aabb, to_local: Affine, n: int) -> Aabb
    decreases n,
{
    if n <= 0 {
        local
    } else {
        let p = to_local.moved(corner(aabb, n - 1));
        joined(cornered(local, aabb, to_local, n - 1), Aabb { min: p, max: p })
    }
}

/// The boxes that the search meets.
pub open spec fn met(boxes: Seq<Aabb>) -> Seq<Aabb> {
    boxes.filter(|aabb: Aabb| scene::overlaps(everywhere(), aabb))
}

/// The box in the world around all boxes.
pub open spec fn world_box(boxes: Seq<Aabb>) -> Aabb
    decreases boxes.len(),
{
    if boxes.len() == 0 {
        hollow()
    } else {
        joined(world_box(boxes.drop_last()), boxes.last())
    }
}

/// The box in the target's frame around the corners of all boxes.
pub open spec fn local_box(boxes: Seq<Aabb>, to_local: Affine) -> Aabb
    decreases boxes.len(),
{
    if boxes.len() == 0 {
        hollow()
    } else {
        cornered(local_box(boxes.drop_last(), to_local), boxes.last(), to_local, 8)
    }
}

/// The bounds of some boxes.
pub open spec fn bounds_of(boxes: Seq<Aabb>, to_local: Affine) -> TankBounds {
    let world = world_box(boxes);
    TankBounds {
        center: world.min.sum(world.max).scaled(F32 { bits: 0x3f00_0000 }),
        radius: world.max.difference(world.min).norm().product(F32 { bits: 0x3f00_0000 }),
        local: local_box(boxes, to_local),
    }
}

fn grown(local: Aabb, aabb: &Aabb, to_local: &Affine) -> (wider: Aabb)
    ensures
        wider == cornered(local, *aabb, *to_local, 8),
{
    let mut wider: Aabb = local;
    let mut i: u32 = 0;
    while i < 8
        invariant
            i <= 8,
            wider == cornered(local, *aabb, *to_local, i as int),
        decreases 8 - i,
    {
        let at: Vec3 = Vec3 {
            x: if i % 2 == 0 {
                aabb.min.x
            } else {
                aabb.max.x
            },
            y: if i / 2 % 2 == 0 {
                aabb.min.y
            } else {
                aabb.max.y
            },
            z: if i / 4 % 2 == 0 {
                aabb.min.z
            } else {
                aabb.max.z
            },
        };
        assert(at == corner(*aabb, i as int));
        let p: Vec3 = to_local.point(at);
        wider = Aabb { min: wider.min.min(p), max: wider.max.max(p) };
        i = i + 1;
    }
    wider
}

/// The bounds of the target's boxes, or nothing where the search meets none.
pub fn tank_bounds(boxes: &Vec<Aabb>, to_local: &Affine) -> (bounds: Option<TankBounds>)
    ensures
        bounds == if met(boxes@).len() == 0 {
            None
        } else {
            Some(bounds_of(met(boxes@), *to_local))
        },
{
    let mut world: Aabb = hollow();
    let mut local: Aabb = hollow();
    let mut any: bool = false;
    let mut i: usize = 0;
    let ghost keep = |aabb: Aabb| scene::overlaps(everywhere(), aabb);
    while i < boxes.len()
        invariant
            i <= boxes@.len(),
            keep == (|aabb: Aabb| scene::overlaps(everywhere(), aabb)),
            any == (met(boxes@.take(i as int)).len() > 0),
            world == world_box(met(boxes@.take(i as int))),
            local == local_box(met(boxes@.take(i as int)), *to_local),
        decreases boxes.len() - i,
    {
        let aabb: Aabb = boxes[i];
        proof {
            let next = boxes@.take(i + 1);
            assert(next.drop_last() =~= boxes@.take(i as int));
            assert(next.last() == aabb);
            reveal_with_fuel(Seq::filter, 1);
            let seen = met(boxes@.take(i as int));
            if keep(aabb) {
                assert(met(next) == seen.push(aabb));
                assert(met(next).drop_last() =~= seen);
            } else {
                assert(met(next) == seen);
            }
        }
        if scene::overlap(&everywhere(), &aabb) {
            any = true;
            world = Aabb { min: world.min.min(aabb.min), max: world.max.max(aabb.max) };
            local = grown(local, &aabb, to_local);
        }
        i = i + 1;
    }
    assert(boxes@.take(i as int) =~= boxes@);
    if any {
        let half: F32 = F32 { bits: 0x3f00_0000 };
        Some(
            TankBounds {
                center: world.min.plus(world.max).times(half),
                radius: world.max.minus(world.min).length().times(half),
                local,
            },
        )
    } else {
        None
    }
}

/// What a volume is worth reporting as: ammunition before crew, and nothing else.
pub open spec fn kind_of(crew: bool, ammunition: bool) -> Option<TargetKind> {
    if ammunition {
        Some(TargetKind::Ammo)
    } else if crew {
        Some(TargetKind::Crew)
    } else {
        None
    }
}

pub fn target_kind(crew: bool, ammunition: bool) -> (kind: Option<TargetKind>)
    ensures
        kind == kind_of(crew, ammunition),
{
    if ammunition {
        Some(TargetKind::Ammo)
    } else if crew {
        Some(TargetKind::Crew)
    } else {
        None
    }
}

/// The boxes of the scene's colliders.
pub open spec fn boxes_of(scene: Scene) -> Seq<Aabb> {
    Seq::new(scene.colliders@.len(), |i: int| scene.colliders@[i].aabb)
}

/// The scene with its bounds measured off its own colliders. There is none where no collider
/// is met, nor where there is nothing worth reporting: a run would then show nothing.
pub fn bind(scene: Scene) -> (bound: Option<Scene>)
    ensures
        match bound {
            Some(bound) => {
                let bounds = bounds_of(met(boxes_of(scene)), scene.to_local);
                &&& met(boxes_of(scene)).len() > 0
                &&& scene.targets@.len() > 0
                &&& bound == (Scene {
                    center: bounds.center,
                    radius: bounds.radius,
                    local: bounds.local,
                    ..scene
                })
            },
            None => met(boxes_of(scene)).len() == 0 || scene.targets@.len() == 0,
        },
{
    let mut boxes: Vec<Aabb> = Vec::new();
    let mut i: usize = 0;
    while i < scene.colliders.len()
        invariant
            i <= scene.colliders@.len(),
            boxes@ == boxes_of(scene).take(i as int),
        decreases scene.colliders.len() - i,
    {
        boxes.push(scene.colliders[i].aabb);
        assert(boxes@ =~= boxes_of(scene).take(i + 1));
        i = i + 1;
    }
    assert(boxes@ =~= boxes_of(scene));
    if scene.targets.len() == 0 {
        return None;
    }
    match tank_bounds(&boxes, &scene.to_local) {
        None => None,
        Some(bounds) => Some(
            Scene { center: bounds.center, radius: bounds.radius, local: bounds.local, ..scene },
        ),
    }
}

/// The point lies in the box.
pub open spec fn holds(aabb: Aabb, p: Vec3) -> bool {
    &&& aabb.min.x.value() <= p.x.value() <= aabb.max.x.value()
    &&& aabb.min.y.value() <= p.y.value() <= aabb.max.y.value()
    &&& aabb.min.z.value() <= p.z.value() <= aabb.max.z.value()
}

/// No component is missing.
pub open spec fn is_numeric(p: Vec3) -> bool {
    !p.x.is_nan() && !p.y.is_nan() && !p.z.is_nan()
}

/// A box that has grown holds what it held, and the ends of what it grew by.
proof fn lemma_joined(a: Aabb, b: Aabb)
    requires
        is_numeric(a.min),
        is_numeric(a.max),
    ensures
        is_numeric(joined(a, b).min),
        is_numeric(joined(a, b).max),
        forall|p: Vec3| holds(a, p) ==> #[trigger] holds(joined(a, b), p),
        is_numeric(b.min) && is_numeric(b.max) && b.min.x.value() <= b.max.x.value() && b.min.y.value()
            <= b.max.y.value() && b.min.z.value() <= b.max.z.value() ==> holds(joined(a, b), b.min) && holds(
            joined(a, b),
            b.max,
        ),
{
}

proof fn lemma_cornered(local: Aabb, aabb: Aabb, to_local: Affine, n: int, i: int)
    requires
        is_numeric(local.min),
        is_numeric(local.max),
        0 <= n,
    ensures
        is_numeric(cornered(local, aabb, to_local, n).min),
        is_numeric(cornered(local, aabb, to_local, n).max),
        forall|p: Vec3| holds(local, p) ==> #[trigger] holds(cornered(local, aabb, to_local, n), p),
        0 <= i < n && is_numeric(to_local.moved(corner(aabb, i))) ==> holds(
            cornered(local, aabb, to_local, n),
            to_local.moved(corner(aabb, i)),
        ),
    decreases n,
{
    if n > 0 {
        lemma_cornered(local, aabb, to_local, n - 1, i);
        let p = to_local.moved(corner(aabb, n - 1));
        let before = cornered(local, aabb, to_local, n - 1);
        lemma_joined(before, Aabb { min: p, max: p });
    }
}

proof fn lemma_hollow()
    ensures
        is_numeric(hollow().min),
        is_numeric(hollow().max),
{
}

/// The box in the target's frame holds every corner of every box, taken there: any choice of an end
/// along each axis.
pub proof fn law_the_local_box_holds_every_corner(boxes: Seq<Aabb>, to_local: Affine, k: int, x: bool, y: bool, z: bool)
    requires
        0 <= k < boxes.len(),
    ensures
        ({
            let aabb = boxes[k];
            let p = to_local.moved(
                Vec3 {
                    x: if x {
                        aabb.max.x
                    } else {
                        aabb.min.x
                    },
                    y: if y {
                        aabb.max.y
                    } else {
                        aabb.min.y
                    },
                    z: if z {
                        aabb.max.z
                    } else {
                        aabb.min.z
                    },
                },
            );
            is_numeric(p) ==> holds(local_box(boxes, to_local), p)
        }),
    decreases boxes.len(),
{
    let fewer = boxes.drop_last();
    lemma_local_numeric(fewer, to_local);
    let i: int = (if x {
        1int
    } else {
        0int
    }) + (if y {
        2int
    } else {
        0int
    }) + (if z {
        4int
    } else {
        0int
    });
    lemma_cornered(local_box(fewer, to_local), boxes.last(), to_local, 8, i);
    if k < fewer.len() {
        assert(fewer[k] == boxes[k]);
        law_the_local_box_holds_every_corner(fewer, to_local, k, x, y, z);
    }
}

proof fn lemma_local_numeric(boxes: Seq<Aabb>, to_local: Affine)
    ensures
        is_numeric(local_box(boxes, to_local).min),
        is_numeric(local_box(boxes, to_local).max),
    decreases boxes.len(),
{
    if boxes.len() == 0 {
        lemma_hollow();
    } else {
        lemma_local_numeric(boxes.drop_last(), to_local);
        lemma_cornered(local_box(boxes.drop_last(), to_local), boxes.last(), to_local, 8, 0);
    }
}

/// The box in the world holds every box: both its ends.
pub proof fn law_the_world_box_holds_every_box(boxes: Seq<Aabb>, k: int)
    requires
        0 <= k < boxes.len(),
        is_numeric(boxes[k].min),
        is_numeric(boxes[k].max),
        boxes[k].min.x.value() <= boxes[k].max.x.value(),
        boxes[k].min.y.value() <= boxes[k].max.y.value(),
        boxes[k].min.z.value() <= boxes[k].max.z.value(),
    ensures
        holds(world_box(boxes), boxes[k].min),
        holds(world_box(boxes), boxes[k].max),
    decreases boxes.len(),
{
    let fewer = boxes.drop_last();
    lemma_world_numeric(fewer);
    lemma_joined(world_box(fewer), boxes.last());
    if k < fewer.len() {
        assert(fewer[k] == boxes[k]);
        law_the_world_box_holds_every_box(fewer, k);
    }
}

proof fn lemma_world_numeric(boxes: Seq<Aabb>)
    ensures
        is_numeric(world_box(boxes).min),
        is_numeric(world_box(boxes).max),
    decreases boxes.len(),
{
    if boxes.len() == 0 {
        lemma_hollow();
    } else {
        lemma_world_numeric(boxes.drop_last());
        lemma_joined(world_box(boxes.drop_last()), boxes.last());
    }
}

} // verus!
