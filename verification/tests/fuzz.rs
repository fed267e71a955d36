use overmatch::ballistics::collect::triangle::Triangle;
use overmatch::ballistics::collect::{Aabb, BallisticSurfaces, TriMesh};
use overmatch::ballistics::fuzz::arguments::{arguments, gate_passes, ArgumentError, BAKE_RAYS};
use overmatch::ballistics::fuzz::bounds::{bind, tank_bounds, target_kind};
use overmatch::ballistics::fuzz::findings::{
    adjudicate, blamed_primitive, blamed_volume, is_known_multi_shell, probe_rounds, BlessList, Blessing, Report,
    TargetKind, Verdict, ViolationKind,
};
use overmatch::ballistics::fuzz::lines::{render, Line};
use overmatch::ballistics::fuzz::measure::{cell_at, finding_floor, pierce_local, prefix_cost};
use overmatch::ballistics::fuzz::pass::{check_ray_invariants, duplication_gate, run_fuzz, Gate};
use overmatch::ballistics::fuzz::rays::{draws_for, ray_for, FuzzConfig, FuzzRay, Rng};
use overmatch::ballistics::fuzz::scene::{probe, volume_name, volume_text, Affine, Scene, SceneCollider, Target};
use overmatch::ballistics::fuzz::words::line_words;
use overmatch::ballistics::walk::vocabulary::{Entity, PrimitiveKey, ShellKey, WalkError, WalkLaws};
use overmatch::float::{F32, F64};
use overmatch::vector::{Quat, Vec3};

fn num(x: f32) -> F32 {
    F32::from_bits(x.to_bits())
}

fn float(x: F32) -> f32 {
    f32::from_bits(x.to_bits())
}

fn vec3(v: [f32; 3]) -> Vec3 {
    Vec3 { x: num(v[0]), y: num(v[1]), z: num(v[2]) }
}

fn floats(v: Vec3) -> [f32; 3] {
    [float(v.x), float(v.y), float(v.z)]
}

fn identity() -> Affine {
    Affine {
        x_axis: vec3([1.0, 0.0, 0.0]),
        y_axis: vec3([0.0, 1.0, 0.0]),
        z_axis: vec3([0.0, 0.0, 1.0]),
        translation: Vec3::zero(),
    }
}

const FACES: [[u32; 3]; 12] = [
    [0, 3, 2],
    [0, 2, 1],
    [4, 5, 6],
    [4, 6, 7],
    [0, 1, 5],
    [0, 5, 4],
    [3, 7, 6],
    [3, 6, 2],
    [0, 4, 7],
    [0, 7, 3],
    [1, 2, 6],
    [1, 6, 5],
];

/// A closed box around a point of the target's frame.
fn solid(entity: u64, at: [f32; 3], size: [f32; 3]) -> SceneCollider {
    let h = [size[0] * 0.5, size[1] * 0.5, size[2] * 0.5];
    let corner = |i: u32| {
        let x = if i == 0 || i == 3 || i == 4 || i == 7 { -h[0] } else { h[0] };
        let y = if i == 0 || i == 1 || i == 4 || i == 5 { -h[1] } else { h[1] };
        let z = if i < 4 { -h[2] } else { h[2] };
        vec3([x, y, z])
    };
    SceneCollider {
        node: Entity { id: entity },
        primitive: Entity { id: 1000 + entity },
        aabb: Aabb {
            min: vec3([at[0] - h[0], at[1] - h[1], at[2] - h[2]]),
            max: vec3([at[0] + h[0], at[1] + h[1], at[2] + h[2]]),
        },
        position: vec3(at),
        rotation: Quat::identity(),
        scale: vec3([1.0, 1.0, 1.0]),
        mesh: TriMesh {
            triangles: FACES
                .iter()
                .map(|f| Triangle { a: corner(f[0]), b: corner(f[1]), c: corner(f[2]) })
                .collect(),
        },
        surfaces: Some(BallisticSurfaces {
            shells: vec![0; 12],
            corners: FACES.iter().map(|f| (f[0], f[1], f[2])).collect(),
            scale: vec3([1.0, 1.0, 1.0]),
        }),
    }
}

const SIDES: [[u32; 3]; 4] = [[0, 2, 5], [0, 5, 7], [0, 7, 2], [2, 7, 5]];

/// A closed pyramid on four corners of a box.
fn pyramid(entity: u64, at: [f32; 3], size: [f32; 3]) -> SceneCollider {
    let whole = solid(entity, at, size);
    let corner = |i: u32| match i {
        0 => whole.mesh.triangles[0].a,
        2 => whole.mesh.triangles[0].c,
        5 => whole.mesh.triangles[2].b,
        _ => whole.mesh.triangles[3].c,
    };
    SceneCollider {
        mesh: TriMesh {
            triangles: SIDES.iter().map(|f| Triangle { a: corner(f[0]), b: corner(f[1]), c: corner(f[2]) }).collect(),
        },
        surfaces: Some(BallisticSurfaces {
            shells: vec![0; 4],
            corners: SIDES.iter().map(|f| (f[0], f[1], f[2])).collect(),
            scale: vec3([1.0, 1.0, 1.0]),
        }),
        ..whole
    }
}

/// Name, place, size, factor, and what it is worth reporting as.
const PARTS: [(&str, [f32; 3], [f32; 3], f32, Option<TargetKind>); 15] = [
    ("Hull_Front", [0.0, 1.013, -3.07], [3.031, 1.811, 0.1003], 1.0, None),
    ("Hull_Back", [0.0, 1.017, 3.03], [3.037, 1.823, 0.0807], 1.0, None),
    ("Hull_Left", [-1.51, 1.019, 0.011], [0.0809, 1.829, 6.133], 1.0, None),
    ("Hull_Right", [1.51, 1.021, 0.013], [0.0811, 1.831, 6.137], 1.0, None),
    ("Hull_Roof", [0.0, 1.93, 0.007], [3.041, 0.0253, 6.143], 1.0, None),
    ("Hull_Floor", [0.0, 0.11, 0.009], [3.043, 0.0257, 6.149], 1.0, None),
    ("Commander", [-0.41, 1.03, 0.83], [0.503, 1.103, 0.507], 0.02, Some(TargetKind::Crew)),
    ("Gunner", [-0.43, 1.05, 0.17], [0.509, 1.107, 0.511], 0.02, Some(TargetKind::Crew)),
    ("Loader", [0.47, 1.07, 0.37], [0.513, 1.109, 0.517], 0.02, Some(TargetKind::Crew)),
    ("Driver", [-0.57, 1.09, -1.61], [0.451, 1.117, 0.691], 0.02, Some(TargetKind::Crew)),
    ("BowGunner", [0.59, 1.11, -1.63], [0.453, 1.119, 0.693], 0.02, Some(TargetKind::Crew)),
    ("Ammo_L_0", [-1.19, 1.13, -0.41], [0.301, 0.607, 0.813], 0.3, Some(TargetKind::Ammo)),
    ("Ammo_L_1", [-1.21, 1.15, 0.71], [0.303, 0.611, 0.817], 0.3, Some(TargetKind::Ammo)),
    ("Ammo_R_0", [1.19, 1.17, -0.43], [0.307, 0.613, 0.819], 0.3, Some(TargetKind::Ammo)),
    ("Ammo_R_1", [1.21, 1.19, 0.73], [0.309, 0.617, 0.823], 0.3, Some(TargetKind::Ammo)),
];

const CAPABILITIES: [f32; 7] = [8.0, 25.0, 50.0, 90.0, 130.0, 160.0, 210.0];

fn unbound() -> Scene {
    let id = |i: usize| Entity { id: i as u64 + 1 };
    Scene {
        colliders: PARTS.iter().enumerate().map(|(i, part)| solid(i as u64 + 1, part.1, part.2)).collect(),
        factors: PARTS.iter().enumerate().map(|(i, part)| (id(i), num(1000.0 * part.3))).collect(),
        names: PARTS.iter().enumerate().map(|(i, part)| (id(i), part.0.to_string())).collect(),
        written: (1..=5001).map(|i| (Entity { id: i }, format!("{i}v0"))).collect(),
        parents: (0..PARTS.len()).map(|i| (Entity { id: 1001 + i as u64 }, id(i))).collect(),
        targets: PARTS
            .iter()
            .enumerate()
            .filter_map(|(i, part)| part.4.map(|kind| Target { entity: id(i), name: part.0.to_string(), kind }))
            .collect(),
        spare_volume: Entity { id: 5000 },
        spare_primitive: Entity { id: 5001 },
        to_local: identity(),
        local: Aabb { min: Vec3::zero(), max: Vec3::zero() },
        center: Vec3::zero(),
        radius: num(0.0),
        laws: WalkLaws::default(),
        capabilities: CAPABILITIES.iter().map(|c| num(*c)).collect(),
        ring: (0..6)
            .map(|k| {
                let (sin, cos) = (k as f32 * std::f32::consts::TAU / 6.0).sin_cos();
                (num(cos), num(sin))
            })
            .collect(),
    }
}

fn tank() -> Scene {
    bind(unbound()).expect("the target has colliders and crew")
}

fn turned(angle: F32) -> (F32, F32) {
    let (sin, cos) = float(angle).sin_cos();
    (num(cos), num(sin))
}

/// The crew and the ammunition as pyramids in one solid block.
fn block_tank() -> Scene {
    let mut scene = unbound();
    scene.colliders = vec![solid(1, [0.0, 1.021, 0.007], [3.103, 1.851, 6.157])];
    for (i, part) in PARTS.iter().enumerate() {
        if part.4.is_some() {
            scene.colliders.push(pyramid(i as u64 + 1, part.1, part.2));
        }
    }
    bind(scene).expect("the target has colliders and crew")
}

fn fuzz(config: &FuzzConfig) -> Report {
    fire_at(&tank(), config)
}

fn fire_at(scene: &Scene, config: &FuzzConfig) -> Report {
    let turns = (0..config.rays)
        .map(|ray| {
            let draws = draws_for(config.seed, ray);
            (turned(draws.azimuth), turned(draws.angle))
        })
        .collect();
    run_fuzz(config, scene, &turns)
}

fn config(rays: u64) -> FuzzConfig {
    FuzzConfig { rays, ..FuzzConfig::default() }
}

const CI_RAYS: u64 = 10_000;

#[test]
fn every_crew_and_ammunition_volume_is_actually_reached() {
    let report = fire_at(&block_tank(), &config(CI_RAYS));
    for volume in [
        "Commander",
        "Gunner",
        "Loader",
        "Driver",
        "BowGunner",
        "Ammo_L_0",
        "Ammo_L_1",
        "Ammo_R_0",
        "Ammo_R_1",
    ] {
        assert!(
            report.presence_census.get(&volume.to_string()).is_some_and(|n| n > 0),
            "no ray crossed `{volume}` in {CI_RAYS} rays",
        );
        assert!(
            report.min_reach.get(&volume.to_string()).is_some(),
            "`{volume}` was crossed but no cost-to-reach was recorded for it",
        );
    }
    assert!(
        report.rays_crossing > report.rays / 10,
        "only {} of {} rays met the tank",
        report.rays_crossing,
        report.rays,
    );
}

#[test]
fn a_sound_target_breaks_no_invariant() {
    let report = fuzz(&config(2_000));
    assert!(report.violations.is_empty(), "{:?}", report.violations);
    assert!(report.walk_errors.is_empty(), "{:?}", report.walk_errors);
    assert!(report.duplication_checks > 0);
    assert!(report.is_clean());
    let bless = BlessList { openings: Vec::new() };
    let verdict = adjudicate(&report, &bless);
    assert!(gate_passes(&report, &verdict), "no plate is as thin as the weakest gun");
    assert_eq!(report.rays, 2_000);
    for (name, cost) in report.min_reach.rows() {
        assert!(float(*cost) >= 24.0, "{name} is behind the roof at least: {}", float(*cost));
    }
}

#[test]
fn a_corridor_above_the_gate_floor_is_reported_unblessed() {
    let report = fuzz(&FuzzConfig { finding_floor: Some(num(60.0)), ..config(2_000) });
    assert!(!report.regions.is_empty(), "raising the floor to 60 reference-mm found no corridor at all");
    for region in &report.regions {
        assert!(region.admitting.is_some(), "a corridor cheap enough to be a finding must be admitted by SOME gun");
        assert_eq!(region.measurements.len(), probe_rounds().len(), "every opening is measured against every gun");
    }
    for pair in report.regions.windows(2) {
        assert!(float(pair[0].min_axis_cost) <= float(pair[1].min_axis_cost), "the cheapest first");
    }
    let verdict = adjudicate(&report, &BlessList { openings: Vec::new() });
    assert_eq!(verdict.unblessed.len(), report.regions.len(), "a bless list must not absorb corridors it never named");
    assert!(!gate_passes(&report, &verdict));

    let everything = BlessList { openings: vec![blessing("all of it", [0.0, 0.0, 0.0], 100.0)] };
    let verdict = adjudicate(&report, &everything);
    assert!(verdict.unblessed.is_empty() && verdict.stale.is_empty());
    assert!(gate_passes(&report, &verdict));
}

#[test]
fn a_run_is_a_pure_function_of_its_seed() {
    let once = fuzz(&config(400));
    let again = fuzz(&config(400));
    let reach = |report: &Report| report.min_reach.rows().clone();
    let census = |report: &Report| report.presence_census.rows().clone();
    assert_eq!(reach(&once), reach(&again), "two runs at one seed must measure the same tank");
    assert_eq!(census(&once), census(&again));
    assert_eq!(once.walk_errors.len(), again.walk_errors.len(), "even the failures replay");

    let other = fuzz(&FuzzConfig { seed: 0x1234_5678, ..config(400) });
    assert_ne!(census(&once), census(&other), "a different seed must fire different rays");
}

fn blessing(name: &str, center: [f32; 3], radius: f32) -> Blessing {
    Blessing {
        name: name.to_string(),
        center: vec3(center),
        radius: num(radius),
        admits: num(0.02),
        reason: "decided on purpose".to_string(),
    }
}

#[test]
fn a_blessing_that_covers_nothing_is_stale() {
    let report = fuzz(&FuzzConfig { finding_floor: Some(num(60.0)), ..config(400) });
    let bless = BlessList { openings: vec![blessing("far away", [500.0, 0.0, 0.0], 1.0)] };
    let verdict = adjudicate(&report, &bless);
    assert_eq!(verdict.stale, vec!["far away".to_string()]);
    assert_eq!(verdict.unblessed.len(), report.regions.len());
    assert!(blessing("near", [1.0, 0.0, 0.0], 1.0).covers(vec3([0.5, 0.0, 0.0])));
    assert!(!blessing("near", [1.0, 0.0, 0.0], 1.0).covers(vec3([-0.5, 0.0, 0.0])));
}

#[test]
fn the_bounds_hold_every_box() {
    let boxes = vec![
        Aabb { min: vec3([-1.0, 0.0, 0.0]), max: vec3([0.0, 2.0, 1.0]) },
        Aabb { min: vec3([0.0, 1.0, -4.0]), max: vec3([3.0, 2.0, 0.0]) },
        Aabb { min: vec3([3.0e5, 0.0, 0.0]), max: vec3([4.0e5, 1.0, 1.0]) },
    ];
    let mut to_local = identity();
    to_local.translation = vec3([10.0, 0.0, 0.0]);
    let bounds = tank_bounds(&boxes, &to_local).unwrap();
    assert_eq!(floats(bounds.center), [1.0, 1.0, -1.5]);
    assert_eq!(float(bounds.radius), (16.0_f32 + 4.0 + 25.0).sqrt() * 0.5);
    assert_eq!(floats(bounds.local.min), [9.0, 0.0, -4.0]);
    assert_eq!(floats(bounds.local.max), [13.0, 2.0, 1.0]);
    assert!(tank_bounds(&vec![], &to_local).is_none());
    assert!(tank_bounds(&vec![boxes[2]], &to_local).is_none(), "nothing that far out is met");
}

#[test]
fn a_target_without_crew_or_colliders_is_not_bound() {
    let mut bare = unbound();
    bare.targets.clear();
    assert!(bind(bare).is_none());
    let mut hollow = unbound();
    hollow.colliders.clear();
    assert!(bind(hollow).is_none());
    let scene = tank();
    assert_eq!(floats(scene.local.min)[1], float(scene.colliders[5].aabb.min.y));
    assert_eq!(target_kind(true, true), Some(TargetKind::Ammo));
    assert_eq!(target_kind(true, false), Some(TargetKind::Crew));
    assert_eq!(target_kind(false, true), Some(TargetKind::Ammo));
    assert_eq!(target_kind(false, false), None);
}

#[test]
fn rays_are_drawn_from_seed_and_index_alone() {
    assert_eq!(draws_for(7, 3), draws_for(7, 3));
    assert_ne!(draws_for(7, 3), draws_for(7, 4));
    assert_ne!(draws_for(7, 3), draws_for(8, 3));
    let mut rng = Rng::for_ray(7, 3);
    for _ in 0..100 {
        let share = float(rng.unit());
        assert!((0.0..1.0).contains(&share), "{share}");
    }
    for ray in 0..200 {
        let draws = draws_for(7, ray);
        let shot =
            ray_for(&draws, num(0.15), vec3([1.0, 2.0, 3.0]), num(4.0), turned(draws.azimuth), turned(draws.angle));
        let direction = floats(shot.direction);
        let norm = direction.iter().map(|x| x * x).sum::<f32>().sqrt();
        assert!((norm - 1.0).abs() < 1e-5, "{direction:?}");
        assert_eq!(float(shot.length), 12.0);
        let from: Vec<f32> = floats(shot.origin).iter().zip([1.0, 2.0, 3.0]).map(|(a, b)| a - b).collect();
        let along = from.iter().zip(direction).map(|(a, b)| a * b).sum::<f32>();
        let off = (from.iter().map(|x| x * x).sum::<f32>() - along * along).max(0.0).sqrt();
        assert!((along + 6.0).abs() < 1e-3, "{along}");
        let span = if float(draws.aim) < 0.15 { 6.4 } else { 4.0 };
        assert!(off <= span + 1e-3, "{off} over {span}");
    }
}

#[test]
fn the_axis_through_the_roof_pays_for_the_roof() {
    let scene = tank();
    let ray = FuzzRay { origin: vec3([-0.41, 8.0, 0.83]), direction: vec3([0.0, -1.0, 0.0]), length: num(20.0) };
    let walked = probe(&scene, &ray, num(0.0)).unwrap();
    let axis = &walked.walks[0];
    let cost = float(axis.cost);
    assert!((cost - (25.3 + 0.02 * 1103.0 + 25.7)).abs() < 0.1, "{cost}");
    let entry = pierce_local(&scene, &ray).unwrap();
    assert!((floats(entry)[1] - 1.94265).abs() < 1e-3, "{:?}", floats(entry));
    let miss = FuzzRay { origin: vec3([50.0, 8.0, 0.0]), direction: vec3([0.0, -1.0, 0.0]), length: num(20.0) };
    assert!(pierce_local(&scene, &miss).is_none());
    assert!(probe(&scene, &miss, num(0.0)).unwrap().walks[0].presence.is_empty());
    assert_eq!(prefix_cost(&Vec::new(), F64::from_whole(3)), F64::zero());
}

#[test]
fn cells_are_counted_downwards() {
    assert_eq!(cell_at(vec3([0.01, -0.01, 0.0])).1, -1);
    assert_eq!(cell_at(vec3([0.01, -0.01, 0.0])).0, 0);
}

#[test]
fn the_floor_is_the_weakest_gun_unless_another_is_asked_for() {
    let capabilities: Vec<F32> = CAPABILITIES.iter().map(|c| num(*c)).collect();
    assert_eq!(float(finding_floor(&config(1), &capabilities)), 8.0);
    assert_eq!(
        float(finding_floor(&FuzzConfig { finding_floor: Some(num(60.0)), ..config(1) }, &capabilities)),
        60.0,
    );
}

#[test]
fn guns_rise_by_calibre() {
    let rounds = probe_rounds();
    assert_eq!(rounds.len(), 7);
    assert!(rounds.windows(2).all(|pair| float(pair[0].caliber) < float(pair[1].caliber)));
    assert_eq!((rounds[0].name, float(rounds[0].caliber), float(rounds[0].mass)), ("7.92mm", 0.0079, 0.0118));
    assert_eq!((rounds[5].name, float(rounds[5].mass), float(rounds[5].speed)), ("88mm", 10.2, 773.0));
    assert_eq!((TargetKind::Crew.label(), TargetKind::Ammo.label()), ("crew", "ammo"));
}

fn shell_key() -> ShellKey {
    ShellKey { volume: Entity { id: 4 }, primitive: Entity { id: 9 }, shell: 0 }
}

#[test]
fn errors_blame_what_they_name() {
    let missing = WalkError::UnknownVolume { volume: Entity { id: 3 } };
    assert_eq!(blamed_volume(&missing), Some(Entity { id: 3 }));
    assert_eq!(blamed_primitive(&missing), None);
    let open = WalkError::IncompleteCorridor { sample: 0, open: vec![shell_key()], length: num(1.0) };
    assert_eq!(blamed_volume(&open), Some(Entity { id: 4 }));
    assert_eq!(blamed_primitive(&open), Some(PrimitiveKey { volume: Entity { id: 4 }, primitive: Entity { id: 9 } }));
    let bad = WalkError::BadCorridor { sample: 0, reason: "no axis" };
    assert_eq!(blamed_volume(&bad), None);
    assert!(is_known_multi_shell("Hull_Rear_Plate"));
    assert!(is_known_multi_shell("Wheel_L_3"));
    assert!(is_known_multi_shell("Turret_Cupola"));
    assert!(!is_known_multi_shell("Hull_Front"));
}

#[test]
fn volumes_go_by_their_own_name_or_their_parents() {
    let scene = tank();
    assert_eq!(volume_name(&scene, Entity { id: 1 }), "Hull_Front");
    assert_eq!(volume_name(&scene, Entity { id: 1001 }), "Hull_Front (shard)");
    assert_eq!(volume_name(&scene, Entity { id: 77 }), "77v0");
    assert_eq!(volume_text(&scene, Entity { id: 1 }), "1v0");
    assert_eq!(volume_text(&scene, Entity { id: 1001 }), "1001v0");
}

/// A report of nothing.
fn blank() -> Report {
    run_fuzz(&config(0), &tank(), &Vec::new())
}

#[test]
fn broken_invariants_are_told() {
    let scene = tank();
    let through = FuzzRay { origin: vec3([-0.41, 8.0, 0.83]), direction: vec3([0.0, -1.0, 0.0]), length: num(20.0) };
    let mut axis = probe(&scene, &through, num(0.0)).unwrap().walks.remove(0);
    let mut report = blank();
    check_ray_invariants(3, true, &axis, &mut report);
    assert!(report.violations.is_empty(), "material and steps");
    check_ray_invariants(4, false, &axis, &mut report);
    assert_eq!(report.violations.len(), 1);
    assert_eq!(report.violations[0].ray, 4);
    assert!(matches!(report.violations[0].kind, ViolationKind::FabricatedEvent { events } if events > 0));
    axis.events.clear();
    check_ray_invariants(5, true, &axis, &mut report);
    assert_eq!(report.violations.len(), 2);
    assert!(matches!(report.violations[1].kind, ViolationKind::SilentPenetration { .. }));
    check_ray_invariants(6, false, &axis, &mut report);
    assert_eq!(report.violations.len(), 2, "nothing crossed and nothing told");
    assert!(!report.is_clean());
}

#[test]
fn a_copy_that_changes_the_cost_is_told() {
    let gate = |same: Option<f32>, twice: Option<f32>| {
        let mut report = blank();
        let seen = Gate { volume: Entity { id: 2 }, before: num(100.0), same: same.map(num), twice: twice.map(num) };
        duplication_gate(9, &Some(seen), &mut report);
        (report.duplication_checks, report.violations)
    };
    assert_eq!(gate(Some(100.0), Some(180.0)), (1, vec![]));
    let (checks, told) = gate(Some(101.0), Some(90.0));
    assert_eq!(checks, 1);
    assert_eq!(told.len(), 2);
    assert!(matches!(told[0].kind, ViolationKind::DuplicationChangedCost { .. }));
    assert!(matches!(told[1].kind, ViolationKind::DuplicationLoweredCost { .. }));
    let mut report = blank();
    duplication_gate(9, &None, &mut report);
    assert_eq!(report.duplication_checks, 0);
}

#[test]
fn the_report_is_told_line_by_line() {
    let report = fuzz(&FuzzConfig { finding_floor: Some(num(60.0)), ..config(400) });
    let bless = BlessList { openings: vec![blessing("far away", [500.0, 0.0, 0.0], 1.0)] };
    let verdict = adjudicate(&report, &bless);
    let lines = render(&report, &bless, &verdict);
    assert_eq!(lines[..5], [Line::Title, Line::Summary, Line::Sphere, Line::InvariantsHeading, Line::NoViolation]);
    let count = |pick: fn(&Line) -> bool| lines.iter().filter(|line| pick(line)).count();
    assert_eq!(count(|line| matches!(line, Line::Census { .. })), report.presence_census.len());
    assert_eq!(count(|line| matches!(line, Line::Route { .. })), report.min_reach.len());
    assert_eq!(count(|line| matches!(line, Line::RegionHeading { opening: None, .. })), report.regions.len());
    assert_eq!(count(|line| matches!(line, Line::Measurement { .. })), 7 * report.regions.len());
    assert_eq!(count(|line| matches!(line, Line::Unblessed { .. })), report.regions.len());
    assert_eq!(lines[lines.len() - 1], Line::Stale { place: 0 });

    let quiet = blank();
    let nothing = BlessList { openings: Vec::new() };
    let lines = render(&quiet, &nothing, &Verdict { unblessed: vec![], stale: vec![] });
    assert!(lines.contains(&Line::NoRegion) && lines.contains(&Line::AllBlessed));
}

#[test]
fn lines_without_a_measured_number_have_their_words() {
    let report = fuzz(&FuzzConfig { finding_floor: Some(num(60.0)), ..config(400) });
    let bless = BlessList { openings: vec![blessing("far away", [500.0, 0.0, 0.0], 1.0)] };
    let verdict = adjudicate(&report, &bless);
    let words = |line: Line| line_words(line, &report, &bless, &verdict);
    let told = |line: Line| words(line).unwrap();
    assert_eq!(told(Line::Title), "# Ballistic ray fuzzer \u{2014} Tiger I\n");
    assert_eq!(told(Line::InvariantsHeading), "## Invariants\n");
    assert_eq!(told(Line::NoViolation), "- no violation");
    assert_eq!(told(Line::ErrorRate), "\n`WalkError` rate: 0 / 400 rays");
    assert_eq!(told(Line::CensusHeading), "\n## Volume census (rays crossing each volume)\n");
    let (name, count) = report.presence_census.rows()[1].clone();
    assert_eq!(told(Line::Census { place: 1 }), format!("- `{name}` \u{2014} {count}"));
    assert_eq!(
        told(Line::RoutesHeading),
        "\n## Thinnest route to each crew / ammunition volume\n\n| volume | cheapest axis cost (ref-mm) |\n|---|---|"
    );
    assert_eq!(told(Line::CorridorsHeading), "\n## Corridors reaching crew or ammunition\n");
    assert_eq!(
        told(Line::Truncated),
        "> **TRUNCATED** \u{2014} the region cap was reached; the list below is not exhaustive.\n"
    );
    assert_eq!(told(Line::NoRegion), "None.");
    let region = &report.regions[0];
    let targets: Vec<String> = region.targets.rows().iter().map(|row| row.0.clone()).collect();
    let rest = format!("\u{b7} {} \u{b7} {}", region.kind.label(), targets.join(", "));
    assert_eq!(told(Line::RegionHeading { place: 0, opening: None }), format!("### UNBLESSED {rest}"));
    assert_eq!(told(Line::RegionHeading { place: 0, opening: Some(0) }), format!("### far away {rest}"));
    assert_eq!(
        told(Line::MeasurementsHeading),
        "\n| round | \u{3b7} | cost (ref-mm) | capability | admits |\n|---|---|---|---|---|"
    );
    assert_eq!(told(Line::RegionEnd), "");
    assert_eq!(told(Line::VerdictHeading), "\n## Verdict\n");
    assert_eq!(told(Line::AllBlessed), "- every corridor found is blessed");
    assert_eq!(told(Line::Stale { place: 0 }), "- stale blessing (no corridor found): `far away`");
    for line in [Line::Summary, Line::Sphere, Line::Route { place: 0 }, Line::RegionEntry { place: 0 }] {
        assert_eq!(words(line), None);
    }

    let mut blamed = blank();
    blamed.walk_error_volumes.set(&"Hull_Front".to_string(), 12);
    let words = |known: bool| line_words(Line::ErrorVolume { place: 0, known }, &blamed, &bless, &verdict).unwrap();
    assert_eq!(words(true), "- `Hull_Front` \u{2014} 12 (known multi-shell gap)");
    assert_eq!(words(false), "- `Hull_Front` \u{2014} 12 (**UNEXPLAINED**)");
}

#[test]
fn an_unnamed_volume_is_blamed_as_it_is_written() {
    let mut scene = tank();
    scene.names.remove(0);
    scene.colliders[0].mesh.triangles.truncate(2);
    scene.colliders[0].surfaces = None;
    let config = config(600);
    let turns = (0..config.rays)
        .map(|ray| {
            let draws = draws_for(config.seed, ray);
            (turned(draws.azimuth), turned(draws.angle))
        })
        .collect();
    let report = run_fuzz(&config, &scene, &turns);
    assert!(!report.walk_errors.is_empty());
    assert!(report.walk_errors.iter().all(|failure| failure.volume == "1v0"));
}

#[test]
fn a_volume_that_cannot_be_walked_is_a_failure_with_its_name() {
    let mut scene = tank();
    scene.colliders[0].mesh.triangles.truncate(2);
    scene.colliders[0].surfaces = None;
    let config = config(600);
    let turns = (0..config.rays)
        .map(|ray| {
            let draws = draws_for(config.seed, ray);
            (turned(draws.azimuth), turned(draws.angle))
        })
        .collect();
    let report = run_fuzz(&config, &scene, &turns);
    assert!(!report.walk_errors.is_empty(), "an open mesh cannot be walked");
    assert!(report.walk_errors.iter().all(|failure| failure.volume == "Hull_Front"));
    assert_eq!(report.walk_error_volumes.get(&"Hull_Front".to_string()), Some(report.walk_errors.len() as u64));
    assert_eq!(report.unexplained_walk_errors().len(), report.walk_errors.len());
    assert!(!report.is_clean());
}

fn words(list: &[&str]) -> Vec<String> {
    list.iter().map(|word| word.to_string()).collect()
}

#[test]
fn the_command_line_is_read_flag_by_flag() {
    let read = arguments(&words(&[])).unwrap();
    assert_eq!(read.config, FuzzConfig { rays: BAKE_RAYS, ..FuzzConfig::default() });
    assert_eq!(read.out, "target/ballistic-fuzzer-report.md");
    let read = arguments(&words(&["--rays", "5", "--out", "x.md", "--seed", "7", "--rays", "6"])).unwrap();
    assert_eq!((read.config.rays, read.config.seed, read.out.as_str()), (6, 7, "x.md"));
    let refusal = |list: &[&str]| format!("{:?}", arguments(&words(list)).err().unwrap());
    assert_eq!(refusal(&["--rays"]), format!("{:?}", ArgumentError::NeedsValue("--rays".to_string())));
    assert_eq!(refusal(&["--rays", "many"]), format!("{:?}", ArgumentError::NotANumber("many".to_string())));
    assert_eq!(refusal(&["--quick", "1"]), format!("{:?}", ArgumentError::UnknownFlag("--quick".to_string())));
}

#[test]
fn a_region_names_the_smallest_gun_that_gets_through() {
    let report = fuzz(&FuzzConfig { finding_floor: Some(num(60.0)), ..config(500) });
    let rounds = probe_rounds();
    assert!(!report.regions.is_empty());
    for region in &report.regions {
        assert_eq!(region.admitting_caliber(), region.admitting.map(|gun| rounds[gun].caliber));
        assert!(region.admitting_caliber().is_some_and(|caliber| float(caliber) > 0.0079));
    }
}
