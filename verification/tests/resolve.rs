use overmatch::ballistics::collect::triangle::Triangle;
use overmatch::ballistics::collect::{BallisticSurfaces, Candidate, Collider, Shape, TriMesh};
use overmatch::ballistics::resolve::{
    bent_direction, build_corridor, close, closing_walk, disc_radius, entrance_request, entrance_span, max_corridor,
    order_candidates, perforate_or_embed, remaining_capability, resolve_entrance, sample_offsets, volume_table,
    with_spall, ArmorCrossing, Closing, CorridorRequest, Entered, MarchingShell, Owner, ShockCause,
};
use overmatch::ballistics::sanctioned::{CombatantId, ShotId};
use overmatch::ballistics::walk::disc::{DiscFrame, DiscWalk};
use overmatch::ballistics::walk::disc_walk::walk_disc;
use overmatch::ballistics::walk::stage::{finish, Outcome, ResolutionPlan, Shot, Turn};
use overmatch::ballistics::walk::vocabulary::{Entity, WalkError, WalkLaws};
use overmatch::float::F32;
use overmatch::vector::{Quat, Vec3};

fn num(x: f32) -> F32 {
    F32::from_bits(x.to_bits())
}

fn float(x: F32) -> f32 {
    f32::from_bits(x.to_bits())
}

fn vec3(v: [f32; 3]) -> Vec3 {
    Vec3 { x: num(v[0]), y: num(v[1]), z: num(v[2]) }
}

fn floats(v: Vec3) -> [f32; 3] {
    [float(v.x), float(v.y), float(v.z)]
}

const PLATE: Entity = Entity { id: 1 };

const FACES: [[u32; 3]; 12] = [
    [0, 3, 2],
    [0, 2, 1],
    [4, 5, 6],
    [4, 6, 7],
    [0, 1, 5],
    [0, 5, 4],
    [3, 7, 6],
    [3, 6, 2],
    [0, 4, 7],
    [0, 7, 3],
    [1, 2, 6],
    [1, 6, 5],
];

/// A plate across the third axis, a hundred millimetres thick.
fn plate() -> (TriMesh, BallisticSurfaces) {
    let h = [2.0_f32, 2.0, 0.05];
    let corner = |i: u32| {
        let x = if i == 0 || i == 3 || i == 4 || i == 7 { -h[0] } else { h[0] };
        let y = if i == 0 || i == 1 || i == 4 || i == 5 { -h[1] } else { h[1] };
        let z = if i < 4 { -h[2] } else { h[2] };
        vec3([x, y, z])
    };
    (
        TriMesh {
            triangles: FACES
                .iter()
                .map(|f| Triangle { a: corner(f[0]), b: corner(f[1]), c: corner(f[2]) })
                .collect(),
        },
        BallisticSurfaces {
            shells: vec![0; 12],
            corners: FACES.iter().map(|f| (f[0], f[1], f[2])).collect(),
            scale: vec3([1.0, 1.0, 1.0]),
        },
    )
}

fn ring() -> Vec<(F32, F32)> {
    (0..6)
        .map(|k| {
            let (sin, cos) = (k as f32 * std::f32::consts::TAU / 6.0).sin_cos();
            (num(cos), num(sin))
        })
        .collect()
}

fn walked(request: &CorridorRequest, plate: &(TriMesh, BallisticSurfaces)) -> Result<DiscWalk, WalkError> {
    let laws = WalkLaws::default();
    let candidate = || Candidate {
        node: PLATE,
        primitive: Entity { id: 2 },
        collider: Some(Collider {
            position: Vec3::zero(),
            rotation: Quat::identity(),
            scale: vec3([1.0, 1.0, 1.0]),
            shape: Shape::TriMesh(&plate.0, Some(&plate.1)),
        }),
    };
    let offsets = sample_offsets(request, &ring());
    let answers = offsets.iter().map(|_| vec![candidate()]).collect();
    let corridor = build_corridor(request, &ring(), &answers, &laws)?;
    let volumes = volume_table(&corridor, &vec![(PLATE, num(1000.0))])?;
    walk_disc(&corridor, &volumes, &laws)
}

/// The same request, asked and answered until the crossing closes.
fn driven(request: &mut CorridorRequest, plate: &(TriMesh, BallisticSurfaces), factors: &Vec<(Entity, F32)>) -> (Closing, u32) {
    let laws = WalkLaws::default();
    let mut asked = 0;
    loop {
        asked += 1;
        let answers = sample_offsets(request, &ring())
            .iter()
            .map(|_| {
                vec![Candidate {
                    node: PLATE,
                    primitive: Entity { id: 2 },
                    collider: Some(Collider {
                        position: Vec3::zero(),
                        rotation: Quat::identity(),
                        scale: vec3([1.0, 1.0, 1.0]),
                        shape: Shape::TriMesh(&plate.0, Some(&plate.1)),
                    }),
                }]
            })
            .collect();
        match closing_walk(request, &ring(), &answers, factors, &laws) {
            Closing::Extend(length) => request.length = length,
            closing => return (closing, asked),
        }
    }
}

#[test]
fn a_corridor_is_asked_for_until_it_closes() {
    let frame = DiscFrame::anchored(vec3([0.0, 0.0, -1.0])).expect("a direction");
    let contact = num(1.0);
    let ask = || entrance_request(vec3([0.0, 0.0, 1.0]), vec3([0.0, 0.0, -1.0]), frame, num(0.088), contact, Vec::new());
    let factors = vec![(PLATE, num(1000.0))];
    let mut request = ask();
    let (closing, _) = driven(&mut request, &plate(), &factors);
    let (walk, _) = entrance([0.0, 0.0, 1.0], [0.0, 0.0, -1.0]);
    assert_eq!(closing, Closing::Closed(walk));
    let mut short = ask();
    short.length = num(0.01);
    let (closing, asked) = driven(&mut short, &plate(), &factors);
    assert!(matches!(closing, Closing::Closed(walk) if walk.events.is_empty()));
    assert_eq!(asked, 1, "nothing is met, so nothing is open");
    let mut open = ask();
    open.length = num(1.0);
    let (closing, asked) = driven(&mut open, &plate(), &factors);
    assert!(matches!(closing, Closing::Closed(walk) if walk.events.len() == 1));
    assert_eq!((asked, float(open.length)), (2, 2.0), "the first corridor ends inside the plate");
    let unknown = driven(&mut ask(), &plate(), &Vec::new());
    assert_eq!(unknown, (Closing::Failed(WalkError::UnknownVolume { volume: PLATE }), 1));
}

fn shell(direction: [f32; 3]) -> MarchingShell {
    MarchingShell {
        caliber: num(0.088),
        mass: num(10.0),
        shot: Some(shot_id()),
        ricochets: 2,
        terminal_emitted: false,
        direction: vec3(direction),
        speed: num(800.0),
    }
}

fn shot_id() -> ShotId {
    ShotId { combatant: CombatantId { id: 7 }, weapon: 0, fire_tick: 100 }
}

fn owners() -> Vec<(Entity, Owner)> {
    let owner = |body, victim| Owner { body: Entity { id: body }, victim: Some(CombatantId { id: victim }) };
    vec![(Entity { id: 77 }, owner(51, 8)), (PLATE, owner(50, 9))]
}

/// The entrance of a round that starts a metre before the plate.
fn entrance(origin: [f32; 3], direction: [f32; 3]) -> (DiscWalk, F32) {
    let frame = DiscFrame::anchored(vec3(direction)).expect("a direction");
    let contact = num(1.0);
    let mut request = entrance_request(vec3(origin), vec3(direction), frame, num(0.088), contact, Vec::new());
    loop {
        match close(request.length, walked(&request, &plate()), &WalkLaws::default()) {
            Closing::Extend(length) => request.length = length,
            Closing::Closed(walk) => return (walk, contact),
            Closing::Failed(error) => panic!("{error:?}"),
        }
    }
}

/// A square contact turns nothing.
fn square(axis: [f32; 3], walk: &DiscWalk) -> Turn {
    let back = [-axis[0], -axis[1], -axis[2]];
    Turn {
        incidence: num(0.0),
        specular: vec3(back),
        full: num(std::f32::consts::PI),
        blended: vec3(back),
        bent: vec3(axis),
        carried: walk.frame.u,
    }
}

fn plan(capability: f32) -> (DiscWalk, ResolutionPlan, Vec3) {
    let axis = [0.0, 0.0, 1.0];
    let (walk, contact) = entrance([0.1, 0.2, -1.0], axis);
    let shot = Shot { caliber: num(0.088), capability: num(capability) };
    let laws = WalkLaws::default();
    let mut health = vec![(PLATE, num(300.0))];
    let turn = square(axis, &walk);
    let entered =
        resolve_entrance(&mut shell(axis), &walk, contact, &shot, &turn, num(1.0), &owners(), true, &laws, &mut health);
    assert_eq!(health, vec![(PLATE, num(300.0))], "biting in costs nothing yet");
    match entered {
        Entered::Bites(request, corridor) => {
            let bent = bent_direction(&request, vec3(axis));
            let transit = walked(&corridor, &plate()).unwrap();
            let plan = finish(&transit, &request, &shot, &laws).unwrap();
            (transit, plan, bent)
        }
        other => panic!("{other:?}"),
    }
}

#[test]
fn a_strong_round_perforates_and_charges_the_plate() {
    let (transit, plan, bent) = plan(250.0);
    assert!(matches!(plan.outcome, Outcome::Perforated { .. }));
    assert!((float(plan.cost_spent) - 100.0).abs() < 0.5, "{}", float(plan.cost_spent));
    let left = remaining_capability(num(250.0), &plan);
    assert!((float(left) - 150.0).abs() < 0.5);
    let mut health = vec![(Entity { id: 99 }, num(5.0)), (PLATE, num(300.0))];
    let mut round = shell([0.0, 0.0, 1.0]);
    let (crossing, effects) = perforate_or_embed(
        &mut round,
        &transit,
        &plan,
        bent,
        num(600.0),
        &owners(),
        true,
        &WalkLaws::default(),
        &mut health,
    );
    match crossing.outcome {
        ArmorCrossing::Perforated { exit, direction, speed } => {
            assert!((floats(exit)[2] - 0.05).abs() < 1e-4, "{:?}", floats(exit));
            assert_eq!(floats(direction), [0.0, 0.0, 1.0]);
            assert_eq!(float(speed), 600.0);
        }
        other => panic!("{other:?}"),
    }
    assert!((float(crossing.damage) - 100.0).abs() < 0.5);
    assert!((float(health[1].1) - 200.0).abs() < 0.5);
    assert_eq!(float(health[0].1), 5.0);
    assert!((float(crossing.travel) - 1.05).abs() < 1e-3, "{}", float(crossing.travel));
    assert_eq!(crossing.seeds.len(), 7);
    assert!(crossing.seeds.iter().all(|seed| seed.inside.is_empty()), "clear of the plate");
    let push = effects.impulse.unwrap();
    assert_eq!((push.body, push.cause), (Entity { id: 50 }, ShockCause::Perforation));
    assert_eq!(floats(push.momentum), [0.0, 0.0, 2000.0]);
    assert!(effects.impact.penetrated && effects.ricochet.is_none());
    let terminal = effects.terminal.unwrap();
    assert_eq!((terminal.shot, terminal.after_bounces, terminal.victim), (shot_id(), 2, Some(CombatantId { id: 9 })));
    assert_eq!(effects.bursts.len(), plan.spall.len());
    assert!(!effects.bursts.is_empty(), "a perforated plate throws spall");
    assert!(round.terminal_emitted);
    let again = perforate_or_embed(
        &mut round,
        &transit,
        &plan,
        bent,
        num(600.0),
        &owners(),
        true,
        &WalkLaws::default(),
        &mut health,
    );
    assert!(again.1.terminal.is_none(), "the end of a shot is reported once");
    assert!(round.terminal_emitted);
}

#[test]
fn a_weak_round_stops_where_its_capability_ends() {
    let (transit, plan, bent) = plan(50.0);
    let mut health = vec![(PLATE, num(30.0))];
    let mut spent = shell([0.0, 0.0, 1.0]);
    spent.terminal_emitted = true;
    let laws = WalkLaws::default();
    let (crossing, effects) =
        perforate_or_embed(&mut spent, &transit, &plan, bent, num(0.0), &Vec::new(), true, &laws, &mut health);
    match crossing.outcome {
        ArmorCrossing::Embedded { at } => assert!(floats(at)[2].abs() < 1e-3, "halfway: {:?}", floats(at)),
        other => panic!("{other:?}"),
    }
    assert_eq!(float(health[0].1), 0.0, "hit points never fall below none");
    assert_eq!(float(crossing.damage), 30.0);
    assert_eq!(float(remaining_capability(num(50.0), &plan)), 0.0);
    assert!(effects.impulse.is_none() && effects.terminal.is_none());
    assert!(effects.bursts.is_empty() && crossing.seeds.is_empty());

    let mut untouched = vec![(PLATE, num(30.0))];
    let (crossing, _) =
        perforate_or_embed(&mut spent, &transit, &plan, bent, num(0.0), &Vec::new(), false, &laws, &mut untouched);
    assert_eq!(float(crossing.damage), 0.0);
    assert_eq!(untouched, vec![(PLATE, num(30.0))]);
}

#[test]
fn a_grazing_round_bounces_and_jars_the_plate() {
    let angle = 80.0_f32.to_radians();
    let direction = [angle.sin(), 0.0, angle.cos()];
    let length = (direction[0] * direction[0] + direction[2] * direction[2]).sqrt();
    let direction = [direction[0] / length, 0.0, direction[2] / length];
    let (walk, contact) = entrance([-direction[0], 0.2, -0.05 - direction[2]], direction);
    let out = [direction[0], 0.0, -direction[2]];
    let turn = Turn {
        incidence: num(angle),
        specular: vec3(out),
        full: num(std::f32::consts::PI - 2.0 * angle),
        blended: vec3(out),
        bent: vec3(direction),
        carried: walk.frame.u,
    };
    let shot = Shot { caliber: num(0.088), capability: num(250.0) };
    let mut health = vec![(PLATE, num(300.0))];
    let squareness = num(angle.cos());
    let mut round = shell(direction);
    let entered = resolve_entrance(
        &mut round,
        &walk,
        contact,
        &shot,
        &turn,
        squareness,
        &owners(),
        true,
        &WalkLaws::default(),
        &mut health,
    );
    assert_eq!(round.ricochets, 3, "the bounce is counted");
    match entered {
        Entered::Bounced(crossing, effects) => {
            match crossing.outcome {
                ArmorCrossing::Ricochet { direction, speed } => {
                    assert!((floats(direction)[2] - out[2]).abs() < 1e-5);
                    assert!((float(speed) - 480.0).abs() < 1e-3, "{}", float(speed));
                }
                other => panic!("{other:?}"),
            }
            let jar = 0.045 * 250.0 * angle.cos();
            assert!((float(crossing.damage) - jar).abs() < 1e-3, "{}", float(crossing.damage));
            assert!((float(health[0].1) - (300.0 - jar)).abs() < 1e-3);
            let told = effects.ricochet.unwrap();
            assert_eq!((told.sequence, told.victim), (2, Some(CombatantId { id: 9 })));
            assert!(!effects.impact.penetrated && effects.terminal.is_none());
            let resume = crossing.resume.unwrap();
            assert!((floats(resume)[2] - (-0.05 - 0.044)).abs() < 1e-3, "{:?}", floats(resume));
        }
        other => panic!("{other:?}"),
    }
}

#[test]
fn a_round_past_the_plate_misses() {
    let axis = [0.0, 0.0, 1.0];
    let (walk, contact) = entrance([10.0, 0.0, -1.0], axis);
    let shot = Shot { caliber: num(0.088), capability: num(250.0) };
    let turn = square(axis, &walk);
    let laws = WalkLaws::default();
    match resolve_entrance(&mut shell(axis), &walk, contact, &shot, &turn, num(1.0), &owners(), true, &laws, &mut vec![]) {
        Entered::Missed(crossing) => {
            assert_eq!(float(crossing.travel), 1.5);
            assert!(matches!(
                crossing.outcome,
                ArmorCrossing::Perforated { exit, speed, .. }
                    if floats(exit) == [10.0, 0.0, 0.5] && float(speed) == 800.0
            ));
        }
        other => panic!("{other:?}"),
    }
}

#[test]
fn a_corridor_is_extended_until_its_first_crossing_closes() {
    let laws = WalkLaws::default();
    let open = || WalkError::IncompleteCorridor { sample: 0, open: vec![], length: num(0.5) };
    assert_eq!(close(num(0.5), Err(open()), &laws), Closing::Extend(num(1.0)));
    assert_eq!(close(num(40.0), Err(open()), &laws), Closing::Extend(num(50.0)));
    assert_eq!(close(max_corridor(), Err(open()), &laws), Closing::Failed(open()));
    let unknown = WalkError::UnknownVolume { volume: PLATE };
    assert_eq!(close(num(0.5), Err(unknown.clone()), &laws), Closing::Failed(unknown));
    let (walk, _) = entrance([0.1, 0.2, -1.0], [0.0, 0.0, 1.0]);
    assert_eq!(close(num(1.5), Ok(walk.clone()), &laws), Closing::Closed(walk.clone()));
    assert_eq!(close(num(1.06), Ok(walk.clone()), &laws), Closing::Extend(num(2.12)), "too close to the end");
    assert_eq!(close(max_corridor(), Ok(walk.clone()), &laws), Closing::Closed(walk));
}

#[test]
fn the_disc_is_the_axis_alone_under_its_least_calibre() {
    assert_eq!(float(disc_radius(num(0.088))), 0.044);
    assert_eq!(float(disc_radius(num(0.02))), 0.01);
    assert_eq!(float(disc_radius(num(0.0079))), 0.0);
    let frame = DiscFrame::anchored(vec3([0.0, 0.0, 1.0])).unwrap();
    let along = |caliber: f32, contact: f32| {
        entrance_request(Vec3::zero(), vec3([0.0, 0.0, 1.0]), frame, num(caliber), num(contact), Vec::new())
    };
    assert_eq!(sample_offsets(&along(0.0079, 1.0), &ring()), vec![Vec3::zero()]);
    let offsets = sample_offsets(&along(0.088, 1.0), &ring());
    assert_eq!(offsets.len(), 7);
    assert_eq!(offsets[0], Vec3::zero());
    for offset in &offsets[1..] {
        assert!((float(offset.length()) - 0.044).abs() < 1e-6);
    }
    assert_eq!(float(along(0.088, 1.0).length), 1.5);
    assert_eq!(along(0.088, -3.0).length, entrance_span());
    assert_eq!(along(0.088, 1.0e6).length, max_corridor());
}

#[test]
fn a_volume_that_the_world_does_not_know_is_an_error() {
    let (mesh, surfaces) = plate();
    let frame = DiscFrame::anchored(vec3([0.0, 0.0, 1.0])).unwrap();
    let request =
        entrance_request(vec3([0.0, 0.1, -1.0]), vec3([0.0, 0.0, 1.0]), frame, num(0.0079), num(1.0), Vec::new());
    let candidate = Candidate {
        node: PLATE,
        primitive: Entity { id: 2 },
        collider: Some(Collider {
            position: Vec3::zero(),
            rotation: Quat::identity(),
            scale: vec3([1.0, 1.0, 1.0]),
            shape: Shape::TriMesh(&mesh, Some(&surfaces)),
        }),
    };
    let corridor = build_corridor(&request, &ring(), &vec![vec![candidate]], &WalkLaws::default()).unwrap();
    assert_eq!(corridor.samples[0].hits.len(), 2);
    assert_eq!(volume_table(&corridor, &vec![]).err(), Some(WalkError::UnknownVolume { volume: PLATE }));
    assert!(volume_table(&corridor, &vec![(PLATE, num(1000.0))]).is_ok());
}

#[test]
fn spall_comes_on_top() {
    assert_eq!(float(with_spall(num(10.0), &vec![])), 10.0);
    assert_eq!(float(with_spall(num(10.0), &vec![num(1.0), num(2.5)])), 13.5);
}

#[test]
fn candidates_come_in_one_order() {
    let pair = |a: u64, b: u64| (Entity { id: a }, Entity { id: b });
    let sorted = vec![pair(1, 5), pair(2, 1), pair(2, 9), pair(3, 0)];
    assert_eq!(order_candidates(&vec![pair(2, 9), pair(1, 5), pair(3, 0), pair(2, 1)]), sorted);
    assert_eq!(order_candidates(&vec![pair(3, 0), pair(2, 1), pair(2, 9), pair(1, 5)]), sorted);
}
