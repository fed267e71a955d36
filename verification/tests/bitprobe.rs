use overmatch::bitprobe::capture::{
    belt_payload, bool_word, clutch_engine_payload, contact_payload, element_payload, f32_word, pose_payload,
    tick_payloads, transmission_input_payload, transmission_state_payload, vec3_words, BitprobeCapture,
    ContactInputProbe, DriveSide, ElementOutputProbe, PoseProbe, ProjectionValue, TickError, TransmissionProbe,
};
use overmatch::bitprobe::dump::{hash_words, seam_names, DumpError, DumpWriter};
use overmatch::bitprobe::fields::{
    belt_fields, clutch_engine_fields, contact_fields, element_fields, pose_fields, transmission_input_fields,
    transmission_state_fields, FieldKind,
};
use overmatch::bitprobe::run::{is_ready, output_word, poll, spawn_due, Poll, Readiness, UsageError, FIXTURE_UPDATES};
use overmatch::bitprobe::script::{
    phases, scripted_input, CRUISE_END, RAMP_END, SETTLE_END, TICK_COUNT, TIGHT_END, WIDE_END,
};
use overmatch::bitprobe::startup::{startup_dump, Fixture, StartupBuilder, TankSpec, TerrainBlock, TrackSpec};
use overmatch::float::{F32, F64};
use overmatch::vector::{Quat, Vec3};
use std::io::Read;

fn num(x: f32) -> F32 {
    F32::from_bits(x.to_bits())
}

fn float(x: F32) -> f32 {
    f32::from_bits(x.to_bits())
}

fn vec3(x: f32, y: f32, z: f32) -> Vec3 {
    Vec3 { x: num(x), y: num(y), z: num(z) }
}

fn input(tick: u32) -> (f32, f32) {
    let (throttle, steer) = scripted_input(tick);
    (float(throttle), float(steer))
}

#[test]
fn scenario_boundaries_are_exact_and_cover_every_tick() {
    assert_eq!(input(0), (0.0, 0.0));
    assert_eq!(input(SETTLE_END - 1), (0.0, 0.0));
    assert_eq!(input(RAMP_END - 1), (1.0, 0.0));
    assert_eq!(input(CRUISE_END), (1.0, 0.35));
    assert_eq!(input(WIDE_END), (1.0, 0.80));
    assert_eq!(input(TIGHT_END), (1.0, 0.0));
    assert_eq!(input(TICK_COUNT - 1), (1.0, 0.0));
}

#[test]
fn fnv_hash_uses_little_endian_word_bytes() {
    let bytes = [0x04_u8, 0x03, 0x02, 0x01];
    let mut expected = 0xcbf2_9ce4_8422_2325_u64;
    for byte in bytes {
        expected ^= u64::from(byte);
        expected = expected.wrapping_mul(0x0000_0100_0000_01b3);
    }
    assert_eq!(hash_words(&vec![0x0102_0304]), expected);
}

#[test]
fn vector_payload_width_matches_the_declared_three_fields() {
    let mut words = Vec::new();
    vec3_words(&mut words, vec3(1.0, 2.0, 3.0));
    assert_eq!(words, [1.0_f32.to_bits(), 2.0_f32.to_bits(), 3.0_f32.to_bits()]);
}

#[test]
fn the_ramp_climbs_by_one_in_a_hundred_and_twenty_eight() {
    for tick in SETTLE_END..RAMP_END {
        assert_eq!(input(tick), ((tick - SETTLE_END + 1) as f32 / 128.0, 0.0));
    }
}

#[test]
fn the_phases_join_and_hold_their_input() {
    let all = phases();
    assert_eq!(all[0].start, 0);
    assert_eq!(all[all.len() - 1].end_exclusive, TICK_COUNT);
    for pair in all.windows(2) {
        assert_eq!(pair[0].end_exclusive, pair[1].start);
    }
    for phase in &all {
        if phase.name != "linear throttle ramp" {
            for tick in phase.start..phase.end_exclusive {
                assert_eq!(scripted_input(tick), scripted_input(phase.start));
            }
            assert_eq!(phase.throttle.parse::<f32>().unwrap(), input(phase.start).0);
        }
        assert_eq!(phase.steer.parse::<f32>().unwrap(), input(phase.start).1);
    }
}

#[test]
fn the_hash_of_nothing_is_its_seed() {
    assert_eq!(hash_words(&vec![]), 0xcbf2_9ce4_8422_2325);
    assert_ne!(hash_words(&vec![1, 2]), hash_words(&vec![2, 1]));
}

fn contact(station: u32) -> ContactInputProbe {
    ContactInputProbe {
        station,
        material: 2,
        column: 3,
        query_a: vec3(4.0, 5.0, 6.0),
        query_m: vec3(7.0, 8.0, 9.0),
        query_b: vec3(10.0, 11.0, 12.0),
        out: vec3(13.0, 14.0, 15.0),
        reach: num(16.0),
        depths: [num(17.0), num(18.0), num(19.0)],
    }
}

fn element(station: u32) -> ElementOutputProbe {
    ElementOutputProbe {
        station,
        material: 2,
        column: 3,
        active: true,
        point: vec3(5.0, 6.0, 7.0),
        normal: vec3(8.0, 9.0, 10.0),
        load: num(11.0),
        load_elastic: num(12.0),
        slip_long: num(13.0),
        slip_lat: num(14.0),
        f_long: num(15.0),
        f_lat: num(16.0),
        strain: vec3(17.0, 18.0, 19.0),
        dwell: 20,
    }
}

fn capture() -> BitprobeCapture {
    let mut capture = BitprobeCapture::default();
    capture.tanks_seen = 1;
    capture.command = [num(0.25), num(-0.5)];
    capture.contact_inputs = [vec![contact(1)], vec![contact(5), contact(6)]];
    capture.element_outputs = [vec![], vec![element(1)]];
    capture.belt_reaction = [num(3.0), num(-4.0)];
    capture.transmission.k = num(9.0);
    capture.transmission.demand_updated = true;
    capture.transmission.omega_end = num(7.5);
    capture.transmission.j = [num(1.5), num(2.5)];
    capture
}

fn pose() -> PoseProbe {
    PoseProbe {
        position: vec3(1.0, 2.0, 3.0),
        rotation: Quat { x: num(4.0), y: num(5.0), z: num(6.0), w: num(7.0) },
        linear_velocity: vec3(8.0, 9.0, 10.0),
        angular_velocity: vec3(11.0, 12.0, 13.0),
        throttle: num(14.0),
        steer: num(15.0),
        drive: [
            DriveSide { speed: num(16.0), phase: F64::from_bits(0x1122_3344_5566_7788) },
            DriveSide { speed: num(19.0), phase: F64::from_bits(0x99aa_bbcc_ddee_ff00) },
        ],
        grip: [(num(22.0), num(23.0)), (num(24.0), num(25.0))],
        traction_force: vec3(26.0, 27.0, 28.0),
        traction_torque: vec3(29.0, 30.0, 31.0),
        belt_reaction: [num(32.0), num(33.0)],
        field_digest: 0xfeed_beef,
    }
}

fn state() -> Vec<ProjectionValue> {
    let mut values = vec![
        ProjectionValue::U8(4),
        ProjectionValue::I8(-1),
        ProjectionValue::Bool(true),
        ProjectionValue::F32(num(2.0)),
        ProjectionValue::Scheduler { tag: 1, from: 2, to: 3 },
    ];
    while values.len() < 16 {
        values.push(ProjectionValue::I8(5));
    }
    values
}

#[test]
fn contact_records_come_side_by_side() {
    let words = contact_payload(&capture());
    assert_eq!(words.len(), 1 + 3 * contact_fields().len());
    assert_eq!(words[0], 3);
    assert_eq!(words[1..5], [0, 1, 2, 3]);
    assert_eq!(words[21..25], [1, 5, 2, 3]);
    assert_eq!(words[41..45], [1, 6, 2, 3]);
    let floats: Vec<f32> = words[5..21].iter().map(|w| f32::from_bits(*w)).collect();
    let expected: Vec<f32> = (4..20).map(|n| n as f32).collect();
    assert_eq!(floats, expected);
}

#[test]
fn element_records_follow_their_schema() {
    let words = element_payload(&capture());
    assert_eq!(words.len(), 1 + element_fields().len());
    assert_eq!(words[..6], [1, 1, 1, 2, 3, 1]);
    let floats: Vec<f32> = words[6..21].iter().map(|w| f32::from_bits(*w)).collect();
    let expected: Vec<f32> = (5..20).map(|n| n as f32).collect();
    assert_eq!(floats, expected);
    assert_eq!(words[21], 20);
}

#[test]
fn the_transmission_seams_follow_their_schemas() {
    let capture = capture();
    assert_eq!(belt_payload(&capture), [3.0_f32.to_bits(), (-4.0_f32).to_bits()]);
    assert_eq!(belt_fields().len(), 2);
    let given = transmission_input_payload(&capture);
    assert_eq!(given.len(), transmission_input_fields().len());
    assert_eq!(given[0], 0.25_f32.to_bits());
    assert_eq!(given[15], 1);
    let step = clutch_engine_payload(capture.transmission);
    let fields = clutch_engine_fields();
    assert_eq!(step.len(), fields.len());
    for (name, value) in [("k", 9.0_f32), ("omega_end", 7.5), ("j_left", 1.5), ("j_right", 2.5), ("lambda", 0.0)] {
        let at = fields.iter().position(|field| field.name == name).unwrap();
        assert_eq!(step[at], value.to_bits(), "{name}");
    }
    let words = transmission_state_payload(&state());
    assert_eq!(words.len(), transmission_state_fields().len());
    assert_eq!(words[..7], [4, u32::MAX, 1, 2.0_f32.to_bits(), 1, 2, 3]);
    assert_eq!(words[7], 5);
}

#[test]
fn the_pose_splits_doubles_into_halves() {
    let words = pose_payload(&pose());
    let fields = pose_fields();
    assert_eq!(words.len(), fields.len());
    for (i, field) in fields.iter().enumerate() {
        match field.kind {
            FieldKind::F32 => assert_eq!(f32::from_bits(words[i]), (i + 1) as f32, "{}", field.name),
            FieldKind::LowHalf | FieldKind::HighHalf => {}
            _ => assert_eq!(words[i], 0xfeed_beef),
        }
    }
    assert_eq!(words[16..18], [0x5566_7788, 0x1122_3344]);
    assert_eq!(words[19..21], [0xddee_ff00, 0x99aa_bbcc]);
    assert_eq!(fields[16].kind.label(), "f64_lo");
    assert_eq!(fields[17].kind.label(), "f64_hi");
}

#[test]
fn a_tick_needs_one_tank_and_its_transmission() {
    let mut capture = capture();
    let seams = tick_payloads(&capture, Some(&state()), &pose()).unwrap();
    assert_eq!(seams.len(), seam_names().len());
    assert_eq!(seams[0], contact_payload(&capture));
    assert_eq!(seams[6], pose_payload(&pose()));
    assert_eq!(tick_payloads(&capture, None, &pose()), Err(TickError::TransmissionLost));
    capture.tanks_seen = 2;
    assert_eq!(tick_payloads(&capture, Some(&state()), &pose()), Err(TickError::TanksSeen(2)));
    capture.clear_tick();
    assert_eq!(tick_payloads(&capture, None, &pose()), Err(TickError::TanksSeen(0)));
    assert_eq!(contact_payload(&capture), [0]);
    assert_eq!(float(capture.transmission.k), 0.0);
    assert_eq!(clutch_engine_payload(TransmissionProbe::default()), vec![0; 46]);
}

#[test]
fn words_are_pushed_one_by_one() {
    let mut words = vec![7];
    f32_word(&mut words, num(1.0));
    bool_word(&mut words, true);
    bool_word(&mut words, false);
    assert_eq!(words, [7, 0x3f80_0000, 1, 0]);
}

fn seams() -> Vec<Vec<u32>> {
    vec![vec![1], vec![], vec![2, 3], vec![4], vec![5], vec![6], vec![0xaabb_ccdd]]
}

fn word(bytes: &[u8], at: usize) -> u32 {
    u32::from_le_bytes([bytes[at], bytes[at + 1], bytes[at + 2], bytes[at + 3]])
}

#[test]
fn a_dump_unpacks_to_what_was_written() {
    let header = b"{\"a\":1}".to_vec();
    let mut writer = DumpWriter::create(&header).unwrap();
    writer.tick(9, &seams()).unwrap();
    let content = writer.content().clone();
    assert_eq!(content[..8], *b"OMBP\x01\r\n\0");
    assert_eq!(word(&content, 8), 7);
    assert_eq!(content[12..19], header[..]);
    assert_eq!(word(&content, 19), 9);
    let mut at = 23;
    for payload in seams() {
        let hash = u64::from_le_bytes(content[at..at + 8].try_into().unwrap());
        assert_eq!(hash, hash_words(&payload));
        assert_eq!(word(&content, at + 8) as usize, payload.len());
        for (i, value) in payload.iter().enumerate() {
            assert_eq!(word(&content, at + 12 + 4 * i), *value);
        }
        at += 12 + 4 * payload.len();
    }
    assert_eq!(at, content.len());

    let packed = writer.finish().unwrap();
    assert_ne!(packed, content);
    assert_eq!(packed[..10], [0x1f, 0x8b, 8, 0, 0, 0, 0, 0, 0, 255]);
    let mut unpacked = Vec::new();
    flate2::read::GzDecoder::new(&packed[..]).read_to_end(&mut unpacked).unwrap();
    assert_eq!(unpacked, content);

    let again = DumpWriter::create(&header).map(|mut w| {
        w.tick(9, &seams()).unwrap();
        w.finish().unwrap()
    });
    assert_eq!(again.unwrap(), packed, "no time and no name gets into a dump");
}

#[test]
fn dumps_that_differ_read_differently() {
    let content = |tick: u32, seams: Vec<Vec<u32>>| {
        let mut writer = DumpWriter::create(&vec![1, 2]).unwrap();
        writer.tick(tick, &seams).unwrap();
        writer.content().clone()
    };
    let mut moved = seams();
    let word = moved[2].pop().unwrap();
    moved[3].insert(0, word);
    assert_ne!(content(1, seams()), content(1, moved));
    assert_ne!(content(1, seams()), content(2, seams()));
    assert_ne!(DumpError::HeaderTooLong, DumpError::Unpacked);
}

fn fixture() -> Fixture {
    let block = TerrainBlock {
        translation: vec3(1.0, 2.0, 3.0),
        rotation: Quat::identity(),
        scale: vec3(4.0, 5.0, 6.0),
    };
    let mut field = StartupBuilder::default();
    field.bool("field.flat", true);
    field.vec2("field.cell", num(0.5), num(0.25));
    let mut gear = StartupBuilder::default();
    gear.double("gear.ratio", F64::from_bits(0x1122_3344_5566_7788));
    let one = num(1.0);
    Fixture {
        terrain_revision: 0x0000_0002_0000_0001,
        terrain_blocks: vec![block; 11],
        field,
        gear,
        spec: TankSpec {
            mass: num(57_000.0),
            inertia_extents: (one, num(2.0), num(3.0)),
            track: TrackSpec {
                pitch: one,
                link_count: 96,
                width: one,
                thickness: one,
                link_mass: one,
                hinge_torque: one,
                max_link_angle: one,
                plane_x: one,
                sprocket_center: (num(7.0), num(8.0)),
                sprocket_teeth: 20,
                idler_center: (one, one),
                idler_radius: one,
                wheel_radius: one,
                max_speed: one,
                power: one,
                force: one,
                governor_gain: one,
                inertia: one,
                stiffness_per_m: one,
                damping_per_m: one,
                engage: num(0.125),
            },
        },
        position: vec3(100.0, 2.0, 100.0),
        rotation: Quat::identity(),
        linear_velocity: vec3(0.0, 0.0, 0.0),
        angular_velocity: vec3(0.0, 0.0, -1.0),
    }
}

#[test]
fn the_startup_names_everything_in_order() {
    let out = startup_dump(&fixture());
    let entries = out.entries();
    let of = |name: &str| {
        let found: Vec<_> = entries.iter().filter(|entry| entry.name == name).collect();
        assert_eq!(found.len(), 1, "{name}");
        (found[0].kind, found[0].bits)
    };
    assert_eq!(entries[0].name, "format.version");
    assert_eq!(entries[0].bits, 1);
    assert_eq!(of("scenario.tick_hz"), (FieldKind::U32, 64));
    assert_eq!(of("scenario.tick_count"), (FieldKind::U32, 3_072));
    assert_eq!(of("scenario.spawn.translation.y"), (FieldKind::F32, 2.0_f32.to_bits()));
    assert_eq!(of("scenario.spawn.rotation.w"), (FieldKind::F32, 1.0_f32.to_bits()));
    let dt = (1.0_f64 / 64.0).to_bits();
    assert_eq!(of("scenario.fixed_dt.lo"), (FieldKind::U32, dt as u32));
    assert_eq!(of("scenario.fixed_dt.hi"), (FieldKind::U32, (dt >> 32) as u32));
    assert_eq!(of("terrain.revision.lo").1, 1);
    assert_eq!(of("terrain.revision.hi").1, 2);
    assert_eq!(of("terrain.block_count").1, 11);
    assert_eq!(of("terrain.blocks[0].translation.x").1, 1.0_f32.to_bits());
    assert_eq!(of("terrain.blocks[10].scale.z").1, 6.0_f32.to_bits());
    assert_eq!(of("field.flat"), (FieldKind::Bool, 1));
    assert_eq!(of("field.cell.y"), (FieldKind::F32, 0.25_f32.to_bits()));
    assert_eq!(of("gear.ratio.lo").1, 0x5566_7788);
    assert_eq!(of("gear.ratio.hi").1, 0x1122_3344);
    assert_eq!(of("spec.inertia_extents.z").1, 3.0_f32.to_bits());
    assert_eq!(of("spec.track.link_count"), (FieldKind::U32, 96));
    assert_eq!(of("spec.track.sprocket.center.z").1, 7.0_f32.to_bits());
    assert_eq!(of("spec.track.support.engage").1, 0.125_f32.to_bits());
    assert_eq!(entries[entries.len() - 1].name, "initial.angular_velocity.z");
    assert_eq!(entries.len(), 9 + 3 + 4 + 2 + 3 + 11 * 10 + 3 + 2 + 27 + 13);
}

#[test]
fn a_run_takes_one_path_and_waits_so_long() {
    assert_eq!(output_word(0), Err(UsageError::NoOutput));
    assert_eq!(output_word(1), Err(UsageError::NoOutput));
    assert_eq!(output_word(2), Ok(1));
    assert_eq!(output_word(3), Err(UsageError::TooManyWords));
    assert_eq!(poll(0, FIXTURE_UPDATES, false), Poll::Again);
    assert_eq!(poll(FIXTURE_UPDATES - 1, FIXTURE_UPDATES, false), Poll::GiveUp);
    assert_eq!(poll(FIXTURE_UPDATES - 1, FIXTURE_UPDATES, true), Poll::Ready);
    assert!(is_ready(Readiness { gear: true, field: true, tank: true, playing: true }));
    assert!(!is_ready(Readiness { gear: true, field: false, tank: true, playing: true }));
    assert_eq!(spawn_due(true, true), None);
    assert_eq!(spawn_due(false, false), None);
    assert_eq!(spawn_due(false, true), Some((vec3(100.0, 2.0, 100.0), Quat::identity())));
}
