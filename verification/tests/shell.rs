use overmatch::asset_verify::{exit_code, request, Request};
use overmatch::ballistics::view::{
    dress_projectile, held_visibility, on_hold, Dressing, NewRound, TracerStreak, Visibility,
};
use overmatch::branding::{icon_of, load_icon, IconError};
use overmatch::camera::{
    blended_look, fly, fly_sensitivity, glide_exponent, glide_share, gunner_fov_fallback, heading, look, may_look, orbit_far, orbit_near,
    orbit_pivot, orbit_seat, orbit_sensitivity, pitch_limit, reaim, view_fov, Bearing, FlyKeys, OrbitCamera,
};
use overmatch::float::F32;
use overmatch::spike::client::{
    conditioned, feed_action_state, gate_opens, simulate_watchdog, Cursor, Exit, MenuOverlay, SimulateInput,
    TankCommand,
};
use overmatch::spike::server::{impulse, is_told, pending, perturb_after_delay, PERTURB_AFTER};
use overmatch::spike::watch::{drift_limit, nan_tripwire, snap_limit, LastPosition, LogTimer, RollbackWatch};
use overmatch::vector::{Quat, Vec3};

fn num(x: f32) -> F32 {
    F32::from_bits(x.to_bits())
}

fn float(x: F32) -> f32 {
    f32::from_bits(x.to_bits())
}

fn vec3(x: f32, y: f32, z: f32) -> Vec3 {
    Vec3 { x: num(x), y: num(y), z: num(z) }
}

fn floats(v: Vec3) -> [f32; 3] {
    [float(v.x), float(v.y), float(v.z)]
}

#[test]
fn a_streak_is_no_longer_than_the_flight() {
    let streak = TracerStreak { nominal_len: num(14.0) };
    for (flown, length) in [(0.0, 0.0), (3.0, 3.0), (14.0, 14.0), (200.0, 14.0), (-1.0, 0.0)] {
        let drawn = streak.drawn_transform(num(flown));
        assert_eq!(floats(drawn.scale), [1.0, length, 1.0], "{flown}");
        assert_eq!(floats(drawn.translation), [0.0, 0.0, length * 0.5], "{flown}");
        let turned = drawn.rotation.rotate(Vec3::unit_y());
        assert!((float(turned.z) + 1.0).abs() < 1e-6 && float(turned.y).abs() < 1e-6);
    }
}

fn round(caliber: f32, tracer: bool, held: bool) -> NewRound {
    NewRound {
        caliber: num(caliber),
        speed: num(755.0),
        at: vec3(3.0, 0.0, 4.0),
        muzzle: Some(vec3(0.0, 0.0, 0.0)),
        held,
        tracer,
    }
}

#[test]
fn rounds_are_dressed_by_their_calibre() {
    let limit = num(0.02);
    assert_eq!(dress_projectile(&round(0.088, false, false), limit), Dressing::Shell(Visibility::Inherited));
    assert_eq!(dress_projectile(&round(0.02, true, true), limit), Dressing::Shell(Visibility::Hidden));
    assert_eq!(dress_projectile(&round(0.0079, false, false), limit), Dressing::Nothing);
    match dress_projectile(&round(0.0079, true, true), limit) {
        Dressing::Streak { visibility, streak, transform } => {
            assert_eq!(visibility, Visibility::Hidden);
            assert_eq!(float(streak.nominal_len), 755.0 * 0.018);
            assert_eq!(float(transform.scale.y), 5.0, "as far as it has flown from the muzzle");
        }
        other => panic!("{other:?}"),
    }
    let mut slow = round(0.0079, true, false);
    slow.speed = num(10.0);
    slow.muzzle = None;
    match dress_projectile(&slow, limit) {
        Dressing::Streak { streak, transform, .. } => {
            assert_eq!(float(streak.nominal_len), 2.0);
            assert_eq!(float(transform.scale.y), 0.0);
        }
        other => panic!("{other:?}"),
    }
}

#[test]
fn a_hold_hides_what_is_drawn_and_nothing_else() {
    assert_eq!(held_visibility(true), Visibility::Hidden);
    assert_eq!(held_visibility(false), Visibility::Inherited);
    assert_eq!(on_hold(true, true), Some(Visibility::Hidden));
    assert_eq!(on_hold(true, false), Some(Visibility::Inherited));
    assert_eq!(on_hold(false, true), None);
}

fn encoded(width: u32, height: u32) -> Vec<u8> {
    let mut pixels = image::RgbaImage::new(width, height);
    for (x, y, pixel) in pixels.enumerate_pixels_mut() {
        *pixel = image::Rgba([x as u8, y as u8, 7, 200]);
    }
    let mut bytes = std::io::Cursor::new(Vec::new());
    pixels.write_to(&mut bytes, image::ImageFormat::Png).unwrap();
    bytes.into_inner()
}

#[test]
fn an_icon_is_decoded_to_its_pixels() {
    let png = encoded(3, 2);
    let icon = load_icon(&png).unwrap();
    assert_eq!((icon.width, icon.height), (3, 2));
    assert_eq!(icon.rgba.len(), 24);
    assert_ne!(icon.rgba, png);
    assert_eq!(icon.rgba[..8], [0, 0, 7, 200, 1, 0, 7, 200]);
    assert_eq!(icon.rgba[20..], [2, 1, 7, 200]);
}

#[test]
fn bytes_that_are_no_image_give_no_icon() {
    assert_eq!(load_icon(&[1, 2, 3]).err(), Some(IconError::Undecoded));
    let png = encoded(3, 2);
    assert_eq!(load_icon(&png[..20]).err(), Some(IconError::Undecoded));
    assert_eq!(icon_of(None).err(), Some(IconError::Undecoded));
    let icon = icon_of(Some((1, 1, vec![1, 2, 3, 4]))).unwrap();
    assert_eq!((icon.width, icon.height, icon.rgba), (1, 1, vec![1, 2, 3, 4]));
}

#[test]
fn the_view_turns_freely_and_pitches_short_of_upright() {
    let (yaw, pitch) = look(num(1.0), num(0.5), num(100.0), num(-100.0), fly_sensitivity());
    assert_eq!(float(yaw), 1.0 - 100.0 * 0.003_f32);
    assert_eq!(float(pitch), 0.5 - -100.0 * 0.003_f32);
    let (yaw, pitch) = look(num(1.0), num(0.5), num(100.0), num(1.0e6), orbit_sensitivity());
    assert_eq!(float(yaw), 1.0 - 100.0 * 0.004_f32);
    assert_eq!(float(pitch), -(std::f32::consts::FRAC_PI_2 - 0.001));
    let (_, pitch) = look(num(1.0), num(0.5), num(0.0), num(-1.0e6), orbit_sensitivity());
    assert_eq!(pitch, pitch_limit());
    assert_eq!(float(pitch), std::f32::consts::FRAC_PI_2 - 0.001);
}

const STILL: FlyKeys = FlyKeys { forward: false, back: false, right: false, left: false, up: false, down: false };

#[test]
fn free_flight_goes_where_the_keys_point() {
    let from = vec3(1.0, 2.0, 3.0);
    let go = |keys: FlyKeys| floats(fly(from, Quat::identity(), &keys, num(0.5)));
    assert_eq!(go(STILL), [1.0, 2.0, 3.0]);
    assert_eq!(go(FlyKeys { forward: true, ..STILL }), [1.0, 2.0, -3.0]);
    assert_eq!(go(FlyKeys { back: true, ..STILL }), [1.0, 2.0, 9.0]);
    assert_eq!(go(FlyKeys { right: true, ..STILL }), [7.0, 2.0, 3.0]);
    assert_eq!(go(FlyKeys { left: true, ..STILL }), [-5.0, 2.0, 3.0]);
    assert_eq!(go(FlyKeys { up: true, ..STILL }), [1.0, 8.0, 3.0]);
    assert_eq!(go(FlyKeys { down: true, ..STILL }), [1.0, -4.0, 3.0]);
    assert_eq!(go(FlyKeys { forward: true, back: true, ..STILL }), [1.0, 2.0, 3.0]);
    let diagonal = go(FlyKeys { forward: true, right: true, ..STILL });
    let step = ((diagonal[0] - 1.0).powi(2) + (diagonal[2] - 3.0).powi(2)).sqrt();
    assert!((step - 6.0).abs() < 1e-5, "{diagonal:?}");
}

#[test]
fn the_orbit_dollies_between_its_ends() {
    let mut orbit = OrbitCamera { zoom: num(0.0), target_zoom: num(0.0) };
    assert_eq!(orbit.distance(), orbit_far());
    orbit.dolly(num(50.0), num(0.5));
    assert_eq!(float(orbit.target_zoom), 0.5);
    assert_eq!(float(orbit.zoom), 0.25);
    assert_eq!(float(orbit.distance()), 18.0 + (5.0 - 18.0) * 0.25);
    orbit.dolly(num(1.0e9), num(1.0));
    assert_eq!((float(orbit.target_zoom), float(orbit.zoom)), (1.0, 1.0));
    assert_eq!(orbit.distance(), orbit_near());
    orbit.dolly(num(-1.0e9), num(1.0));
    assert_eq!(float(orbit.target_zoom), 0.0);
}

#[test]
fn the_orbit_sits_behind_its_pivot() {
    let pivot = orbit_pivot(vec3(10.0, 0.0, -5.0), Quat::identity(), vec3(1.0, 2.0, 1.0), vec3(0.5, 1.0, 0.25));
    assert_eq!(floats(pivot), [10.5, 4.5, -4.75]);
    assert_eq!(floats(orbit_seat(pivot, Quat::identity(), num(6.0))), [10.5, 4.5, 1.25]);
    assert!(may_look(true, true, true));
    assert!(!may_look(false, true, true) && !may_look(true, false, true) && !may_look(true, true, false));
}

#[test]
fn the_field_of_view_falls_back() {
    assert_eq!(float(view_fov(Some(num(0.7)), gunner_fov_fallback())), 0.7);
    assert_eq!(float(view_fov(None, gunner_fov_fallback())), 0.12);
}

#[test]
fn leaving_the_optic_looks_through_the_pivot() {
    let pivot = vec3(1.0, 1.0, 1.0);
    assert_eq!(reaim(true, Some(vec3(1.0, 1.0, -3.0)), pivot), Some(vec3(0.0, 0.0, -1.0)));
    assert_eq!(reaim(false, Some(vec3(1.0, 1.0, -3.0)), pivot), None);
    assert_eq!(reaim(true, None, pivot), None);
    assert_eq!(reaim(true, Some(pivot), pivot), None);
    assert_eq!(heading(vec3(f32::NAN, 0.0, 0.0)), None);
    assert_eq!(heading(vec3(0.0, 2.0, 0.0)), Some(Vec3::unit_y()));
}

#[test]
fn the_blend_starts_at_the_sight_line() {
    let sight = Bearing { yaw: num(0.35), pitch: num(0.06) };
    let intent = Bearing { yaw: num(0.65), pitch: num(-0.09) };
    let lead = num(0.3);
    assert_eq!(blended_look(sight, Some((lead, intent)), num(0.0)), sight);
    for k in [0.0, 0.5, 1.0] {
        assert_eq!(blended_look(sight, None, num(k)), sight);
    }
    let half = blended_look(sight, Some((lead, intent)), num(0.5));
    assert_eq!(float(half.yaw), 0.35 + 0.5 * 0.3);
    assert_eq!(float(half.pitch), 0.06 + 0.5 * (-0.09 - 0.06_f32));
    let whole = blended_look(sight, Some((lead, intent)), num(1.0));
    assert!((float(whole.pitch) + 0.09).abs() < 1e-6);
}

fn drive(script: &mut SimulateInput, ticks: u32) -> Vec<TankCommand> {
    let mut slot = TankCommand::default();
    (0..ticks)
        .map(|_| {
            script.buffer_input(&mut slot, None);
            slot
        })
        .collect()
}

#[test]
fn the_short_script_arcs_and_fires_once() {
    let mut script = SimulateInput::new(false, None);
    let told = drive(&mut script, 600);
    assert_eq!(script.ticks, 600);
    for (i, command) in told.iter().enumerate() {
        let tick = i + 1;
        let driving = (128..384).contains(&tick);
        assert_eq!(float(command.throttle), if driving { 1.0 } else { 0.0 });
        assert_eq!(float(command.steer), if driving { 0.3 } else { 0.0 });
        assert_eq!(command.fire_primary, tick == 300);
        assert_eq!(command.aim.map(floats), Some([200.0, 0.0, -800.0]));
        assert_eq!(float(command.range), 800.0);
    }
    assert_eq!(simulate_watchdog(&script, num(1.0)), Some(Exit::Success));
}

#[test]
fn the_long_script_drives_straight() {
    let mut script = SimulateInput::new(true, Some(110));
    let told = drive(&mut script, 1280);
    assert!(told.iter().all(|command| float(command.steer) == 0.0));
    assert_eq!(float(told[1086].throttle), 1.0);
    assert_eq!(float(told[1087].throttle), 0.0);
    assert_eq!(told.iter().filter(|command| command.fire_primary).count(), 1);
    assert!(told[109].fire_primary);
}

#[test]
fn the_aim_can_go_round() {
    let mut script = SimulateInput::new(false, None);
    let angle = float(script.sweep_angle());
    assert_eq!(angle, 0.02);
    let mut slot = TankCommand::default();
    script.buffer_input(&mut slot, Some((num(angle.sin()), num(angle.cos()))));
    assert_eq!(slot.aim.map(floats), Some([800.0 * angle.sin(), 0.0, -800.0 * angle.cos()]));
}

#[test]
fn the_watchdog_bails_after_forty_seconds() {
    let script = SimulateInput::new(false, None);
    assert_eq!(simulate_watchdog(&script, num(40.0)), None);
    assert_eq!(simulate_watchdog(&script, num(40.5)), Some(Exit::Failure));
}

#[test]
fn an_open_menu_feeds_nothing_and_a_remote_tank_withholds() {
    let gathered = TankCommand {
        throttle: num(0.5),
        steer: num(0.25),
        aim: Some(vec3(1.0, 2.0, 3.0)),
        range: num(600.0),
        fire_primary: true,
        fire_secondary: true,
        crew_swap: Some(2),
    };
    let mut command = gathered;
    assert_eq!(feed_action_state(false, &mut command, true), gathered);
    assert_eq!(command, gathered);
    assert_eq!(feed_action_state(true, &mut command, true), TankCommand::default());
    assert_eq!(command, gathered);
    assert_eq!(feed_action_state(false, &mut command, false), gathered);
    assert_eq!(command.aim, None);
    assert!(!command.fire_primary && !command.fire_secondary);
    assert_eq!(command.crew_swap, None);
    assert_eq!((float(command.throttle), float(command.range)), (0.5, 600.0));
}

#[test]
fn the_menu_releases_and_grabs_the_cursor() {
    let mut menu = MenuOverlay { open: false };
    assert_eq!(menu.toggle(false), None);
    assert_eq!(menu.toggle(true), Some(Cursor::Released));
    assert!(menu.open);
    assert_eq!(menu.toggle(true), Some(Cursor::Grabbed));
    assert!(!menu.open);
}

#[test]
fn the_game_opens_once_loaded() {
    assert!(gate_opens(true, Some(true)));
    assert!(!gate_opens(true, Some(false)) && !gate_opens(true, None) && !gate_opens(false, Some(true)));
}

#[test]
fn no_delay_means_no_conditioner() {
    assert_eq!(conditioned(None, None), Some((100, 20)));
    assert_eq!(conditioned(Some(5), Some(0)), Some((5, 0)));
    assert_eq!(conditioned(Some(0), Some(9)), None);
}

#[test]
fn a_jump_is_told_once_it_is_long_enough() {
    let mut last = LastPosition { at: None };
    assert_eq!(last.moved(vec3(0.0, 0.0, 0.0), snap_limit()), None);
    assert_eq!(last.moved(vec3(0.5, 0.0, 0.0), snap_limit()), None);
    assert_eq!(last.moved(vec3(1.5, 0.0, 0.0), snap_limit()).map(float), Some(1.0));
    assert_eq!(last.moved(vec3(1.75, 0.0, 0.0), drift_limit()).map(float), Some(0.25));
}

#[test]
fn rollbacks_are_told_when_their_count_changes() {
    let mut watch = RollbackWatch { last_count: 0 };
    assert!(!watch.is_news(0));
    assert!(watch.is_news(2));
    assert!(!watch.is_news(2));
}

#[test]
fn positions_are_logged_every_two_seconds() {
    let mut timer = LogTimer { seconds: num(0.0) };
    let due: Vec<bool> = (0..6).map(|_| timer.is_due(num(0.75))).collect();
    assert_eq!(due, [false, false, true, false, false, true]);
}

#[test]
fn the_tripwire_names_what_is_poisoned_and_trips_once() {
    let good = vec3(1.0, 2.0, 3.0);
    let bad = vec3(1.0, f32::NAN, 3.0);
    let turned = Quat { x: num(f32::INFINITY), y: num(0.0), z: num(0.0), w: num(1.0) };
    let poses = vec![(good, Quat::identity()), (good, turned), (bad, Quat::identity())];
    let mut tripped = false;
    assert_eq!(nan_tripwire(&mut tripped, &vec![good], &vec![(good, Quat::identity())]), (vec![], vec![]));
    assert!(!tripped);
    assert_eq!(nan_tripwire(&mut tripped, &vec![good, bad], &poses), (vec![1], vec![1, 2]));
    assert!(tripped);
    assert_eq!(nan_tripwire(&mut tripped, &vec![bad], &poses), (vec![], vec![]));
}

#[test]
fn a_client_is_pushed_once() {
    let mut slot = Some(pending(5));
    assert_eq!(slot.unwrap().at, 5 + PERTURB_AFTER);
    assert_eq!(perturb_after_delay(&mut slot, 4 + PERTURB_AFTER), None);
    assert_eq!(perturb_after_delay(&mut slot, 5 + PERTURB_AFTER).map(floats), Some([171_000.0, 0.0, 0.0]));
    assert_eq!(slot, None);
    assert_eq!(perturb_after_delay(&mut slot, u64::MAX), None);
    assert_eq!(floats(impulse()), [171_000.0, 0.0, 0.0]);
    let mut command = TankCommand::default();
    assert!(!is_told(&command));
    command.throttle = num(-0.0);
    assert!(!is_told(&command));
    command.fire_primary = true;
    assert!(is_told(&command));
}

fn words(list: &[&str]) -> Vec<String> {
    list.iter().map(|word| word.to_string()).collect()
}

#[test]
fn the_asset_check_reads_its_words() {
    assert_eq!(request(&words(&[])), Request::Usage);
    assert_eq!(request(&words(&["a.glb"])), Request::Verify);
    assert_eq!(request(&words(&["a.glb", "--canon"])), Request::Verify);
    assert_eq!(request(&words(&["--canon"])), Request::Usage);
    assert_eq!(request(&words(&["--canon", "a.ron"])), Request::Canon(1));
    assert_eq!(request(&words(&["--canon", "a.ron", "b.ron"])), Request::Usage);
    assert_eq!(exit_code(&vec![]), 0);
    assert_eq!(exit_code(&vec![false, false]), 0);
    assert_eq!(exit_code(&vec![false, true, false]), 1);
}

type V = [f32; 3];

fn plus(a: V, b: V) -> V {
    [a[0] + b[0], a[1] + b[1], a[2] + b[2]]
}

fn minus(a: V, b: V) -> V {
    [a[0] - b[0], a[1] - b[1], a[2] - b[2]]
}

fn times(a: V, s: f32) -> V {
    [a[0] * s, a[1] * s, a[2] * s]
}

fn dot(a: V, b: V) -> f32 {
    a[0] * b[0] + a[1] * b[1] + a[2] * b[2]
}

fn cross(a: V, b: V) -> V {
    [a[1] * b[2] - b[1] * a[2], a[2] * b[0] - b[2] * a[0], a[0] * b[1] - b[0] * a[1]]
}

/// The angle between two directions, without the cosine, which has no digits left near zero.
fn angle_between(a: V, b: V) -> f32 {
    let c = cross(a, b);
    dot(c, c).sqrt().atan2(dot(a, b))
}

const EPS: f32 = 1e-5;

fn about_x(v: V, angle: f32) -> V {
    let (sin, cos) = angle.sin_cos();
    [v[0], cos * v[1] - sin * v[2], sin * v[1] + cos * v[2]]
}

fn about_y(v: V, angle: f32) -> V {
    let (sin, cos) = angle.sin_cos();
    [cos * v[0] + sin * v[2], v[1], -sin * v[0] + cos * v[2]]
}

fn about_z(v: V, angle: f32) -> V {
    let (sin, cos) = angle.sin_cos();
    [cos * v[0] - sin * v[1], sin * v[0] + cos * v[1], v[2]]
}

const STAND: V = [137.0, 4.0, -512.0];

/// A direction of the hull in the world: the hull stands off the level.
fn to_world(v: V) -> V {
    about_y(about_x(about_z(v, 0.23), 0.11), 0.7)
}

fn to_hull(v: V) -> V {
    about_z(about_x(about_y(v, -0.7), -0.11), -0.23)
}

fn point_to_world(v: V) -> V {
    plus(to_world(v), STAND)
}

fn point_to_hull(v: V) -> V {
    to_hull(minus(v, STAND))
}

const MOUNT: V = [0.0, 2.2171, -1.1];
const LOB: f32 = 0.02;
const LADDER: [f32; 5] = [0.0, 0.25, 0.5, 0.75, 1.0];

fn hull_local_dir(yaw: f32, pitch: f32) -> V {
    about_y(about_x([0.0, 0.0, -1.0], pitch), yaw)
}

fn yaw_pitch_of(v: V) -> (f32, f32) {
    ((-v[0]).atan2(-v[2]), v[1].atan2((v[0] * v[0] + v[2] * v[2]).sqrt()))
}

fn shortest_angle(angle: f32) -> f32 {
    let half = std::f32::consts::PI;
    (angle + half).rem_euclid(2.0 * half) - half
}

/// The mount, the sight line and the committed point, in the world, the world and the hull.
fn sighting(turret: f32, elevation: f32, yaw: f32, pitch: f32, range: f32) -> (V, V, V) {
    let sight = to_world(about_y(about_x([0.0, 0.0, -1.0], elevation - LOB), turret));
    let point = plus(MOUNT, times(hull_local_dir(yaw, pitch), range));
    (point_to_world(MOUNT), sight, point)
}

/// The blended look as a direction of the world.
fn look_along(eye: V, sight: V, intent: Option<V>, k: f32) -> V {
    let Some(point) = intent else {
        return sight;
    };
    let (yaw, pitch) = yaw_pitch_of(to_hull(sight));
    let (intent_yaw, intent_pitch) = yaw_pitch_of(minus(point, point_to_hull(eye)));
    let bearing = blended_look(
        Bearing { yaw: num(yaw), pitch: num(pitch) },
        Some((num(shortest_angle(intent_yaw - yaw)), Bearing { yaw: num(intent_yaw), pitch: num(intent_pitch) })),
        num(k),
    );
    to_world(hull_local_dir(float(bearing.yaw), float(bearing.pitch)))
}

#[test]
fn the_gun_end_of_the_blend_is_the_sight_line() {
    for (yaw, pitch, range) in [(0.0, 0.0, 50.0), (0.4, -0.2, 4000.0), (-1.9, 0.3, 120.0)] {
        let (eye, sight, point) = sighting(0.35, 0.08, yaw, pitch, range);
        let off = angle_between(look_along(eye, sight, Some(point), 0.0), sight);
        assert!(off < EPS, "0 must look along the gun's sight line, off by {off} rad");
    }
    let sight = Bearing { yaw: num(0.35), pitch: num(0.06) };
    for k in LADDER {
        assert_eq!(blended_look(sight, None, num(k)), sight);
    }
}

#[test]
fn the_intent_end_of_the_blend_is_the_committed_point() {
    for (yaw, pitch, range) in [(0.0, -0.05, 40.0), (0.4, -0.2, 4000.0), (-1.9, 0.3, 120.0)] {
        let (eye, sight, point) = sighting(0.35, 0.08, yaw, pitch, range);
        let off = angle_between(look_along(eye, sight, Some(point), 1.0), minus(point_to_world(point), eye));
        assert!(off < EPS, "1 must look at the committed point, off by {off} rad");
    }
}

#[test]
fn one_knob_carries_both_axes_the_same_fraction() {
    let (eye, sight, point) = sighting(0.35, 0.08, 0.65, -0.09, 900.0);
    let bearing = |k| yaw_pitch_of(to_hull(look_along(eye, sight, Some(point), k)));
    let (gun_yaw, gun_pitch) = bearing(0.0);
    let (intent_yaw, intent_pitch) = bearing(1.0);
    let (yaw_lead, pitch_lead) = (shortest_angle(intent_yaw - gun_yaw), intent_pitch - gun_pitch);
    assert!(
        yaw_lead.abs() > 0.2 && pitch_lead.abs() > 0.1,
        "the fixture must lead on both axes, or this proves nothing",
    );
    for k in LADDER {
        let (yaw, pitch) = bearing(k);
        let (yaw_fraction, pitch_fraction) =
            (shortest_angle(yaw - gun_yaw) / yaw_lead, (pitch - gun_pitch) / pitch_lead);
        assert!(
            (yaw_fraction - k).abs() < EPS && (pitch_fraction - k).abs() < EPS,
            "at k = {k} the yaw travelled {yaw_fraction} of its lead and the pitch {pitch_fraction}",
        );
    }
}

#[test]
fn the_yaw_blend_crosses_the_wrap_the_short_way() {
    const SPLIT: f32 = 0.02;
    let seam = std::f32::consts::PI;
    let sight = to_world(hull_local_dir(seam - SPLIT, 0.01));
    let point = plus(MOUNT, times(hull_local_dir(-seam + SPLIT, 0.01), 500.0));
    let eye = point_to_world(MOUNT);
    let intent = minus(point_to_world(point), eye);
    let look = look_along(eye, sight, Some(point), 0.5);
    let (from_sight, from_intent) = (angle_between(look, sight), angle_between(look, intent));
    assert!(
        (from_sight - SPLIT).abs() < EPS && (from_intent - SPLIT).abs() < EPS,
        "a half blend across the wrap must land halfway: {from_sight} rad and {from_intent} rad",
    );
}

#[test]
fn the_knob_never_overshoots() {
    let sight = Bearing { yaw: num(3.1), pitch: num(0.2) };
    for (lead, pitch) in [(0.3, -0.4), (-2.0, 1.1), (0.0, 0.2), (1.0e-38, 0.2000001)] {
        let intent = Some((num(lead), Bearing { yaw: num(0.0), pitch: num(pitch) }));
        let mut last = blended_look(sight, intent, num(0.0));
        for step in 1..=1000 {
            let next = blended_look(sight, intent, num(step as f32 / 1000.0));
            let (yaw, rise) = (float(next.yaw) - float(last.yaw), float(next.pitch) - float(last.pitch));
            assert!(if lead >= 0.0 { yaw >= 0.0 } else { yaw <= 0.0 });
            assert!(if pitch >= 0.2 { rise >= 0.0 } else { rise <= 0.0 });
            last = next;
        }
    }
}

#[test]
fn the_zoom_glides_by_the_frame() {
    let exponent = float(glide_exponent(num(0.016)));
    assert_eq!(exponent, -12.0 * 0.016_f32);
    assert_eq!(float(glide_share(num(exponent.exp()))), 1.0 - (-12.0 * 0.016_f32).exp());
}
