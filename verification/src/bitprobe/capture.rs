//! What one tick leaves behind, and the payload of words that each seam makes of it.

use crate::bitprobe::fields;
use crate::float::{F32, F64};
use crate::vector::{Quat, Vec3};
use vstd::prelude::*;

verus! {

/// What a contact query was given and found.
#[derive(Clone, Copy, Debug)]
pub struct ContactInputProbe {
    pub station: u32,
    pub material: u32,
    pub column: u32,
    pub query_a: Vec3,
    pub query_m: Vec3,
    pub query_b: Vec3,
    pub out: Vec3,
    pub reach: F32,
    pub depths: [F32; 3],
}

/// What an element of the track pressed on the ground with.
#[derive(Clone, Copy, Debug)]
pub struct ElementOutputProbe {
    pub station: u32,
    pub material: u32,
    pub column: u32,
    pub active: bool,
    pub point: Vec3,
    pub normal: Vec3,
    pub load: F32,
    pub load_elastic: F32,
    pub slip_long: F32,
    pub slip_lat: F32,
    pub f_long: F32,
    pub f_lat: F32,
    pub strain: Vec3,
    pub dwell: u32,
}

/// One step of the transmission.
#[derive(Clone, Copy, Debug)]
pub struct TransmissionProbe {
    pub throttle: F32,
    pub steer: F32,
    pub side_commands: [F32; 2],
    pub speeds: [F32; 2],
    pub reactions: [F32; 2],
    pub dt: F32,
    pub direction: F32,
    pub demand_sample: F32,
    pub demand_pre: F32,
    pub demand_post: F32,
    pub demand_updated: bool,
    pub mean_speed: F32,
    pub difference_speed: F32,
    pub shaft_speed: F32,
    pub gear_reduction: F32,
    pub k: F32,
    pub omega_idle: F32,
    pub omega_floor: F32,
    pub omega_pre: F32,
    pub u_fuel: F32,
    pub rpm: F32,
    pub tau_idle: F32,
    pub tau_induced: F32,
    pub tau_drag: F32,
    pub tau_free: F32,
    pub power_available: F32,
    pub i_mean: F32,
    pub f_other: F32,
    pub tau_star: F32,
    pub tau_clamped: F32,
    pub omega_coupled: F32,
    pub tau_c: F32,
    pub engaged: bool,
    pub shifting: bool,
    pub f_c_pre_scale: F32,
    pub f_s_pre_scale: F32,
    pub lambda: F32,
    pub j: [F32; 2],
    pub power_left: F32,
    pub power_right: F32,
    pub power_positive: F32,
    pub power_negative: F32,
    pub power_net: F32,
    pub power_scale: F32,
    pub omega_integrated: F32,
    pub forces: [F32; 2],
    pub raw_next: [F32; 2],
    pub next_speeds: [F32; 2],
    pub reanchor_attempted: bool,
    pub reanchor_locked: F32,
    pub reanchor_tau_impl: F32,
    pub reanchor_feasible: bool,
    pub omega_end: F32,
}

impl TransmissionProbe {
    /// A step in which nothing happened.
    pub open spec fn blank() -> TransmissionProbe {
        TransmissionProbe {
            throttle: F32::zero(),
            steer: F32::zero(),
            side_commands: [F32::zero(), F32::zero()],
            speeds: [F32::zero(), F32::zero()],
            reactions: [F32::zero(), F32::zero()],
            dt: F32::zero(),
            direction: F32::zero(),
            demand_sample: F32::zero(),
            demand_pre: F32::zero(),
            demand_post: F32::zero(),
            demand_updated: false,
            mean_speed: F32::zero(),
            difference_speed: F32::zero(),
            shaft_speed: F32::zero(),
            gear_reduction: F32::zero(),
            k: F32::zero(),
            omega_idle: F32::zero(),
            omega_floor: F32::zero(),
            omega_pre: F32::zero(),
            u_fuel: F32::zero(),
            rpm: F32::zero(),
            tau_idle: F32::zero(),
            tau_induced: F32::zero(),
            tau_drag: F32::zero(),
            tau_free: F32::zero(),
            power_available: F32::zero(),
            i_mean: F32::zero(),
            f_other: F32::zero(),
            tau_star: F32::zero(),
            tau_clamped: F32::zero(),
            omega_coupled: F32::zero(),
            tau_c: F32::zero(),
            engaged: false,
            shifting: false,
            f_c_pre_scale: F32::zero(),
            f_s_pre_scale: F32::zero(),
            lambda: F32::zero(),
            j: [F32::zero(), F32::zero()],
            power_left: F32::zero(),
            power_right: F32::zero(),
            power_positive: F32::zero(),
            power_negative: F32::zero(),
            power_net: F32::zero(),
            power_scale: F32::zero(),
            omega_integrated: F32::zero(),
            forces: [F32::zero(), F32::zero()],
            raw_next: [F32::zero(), F32::zero()],
            next_speeds: [F32::zero(), F32::zero()],
            reanchor_attempted: false,
            reanchor_locked: F32::zero(),
            reanchor_tau_impl: F32::zero(),
            reanchor_feasible: false,
            omega_end: F32::zero(),
        }
    }
}

impl Default for TransmissionProbe {
    fn default() -> (probe: TransmissionProbe)
        ensures
            probe == TransmissionProbe::blank(),
    {
        TransmissionProbe {
            throttle: F32::zero(),
            steer: F32::zero(),
            side_commands: [F32::zero(), F32::zero()],
            speeds: [F32::zero(), F32::zero()],
            reactions: [F32::zero(), F32::zero()],
            dt: F32::zero(),
            direction: F32::zero(),
            demand_sample: F32::zero(),
            demand_pre: F32::zero(),
            demand_post: F32::zero(),
            demand_updated: false,
            mean_speed: F32::zero(),
            difference_speed: F32::zero(),
            shaft_speed: F32::zero(),
            gear_reduction: F32::zero(),
            k: F32::zero(),
            omega_idle: F32::zero(),
            omega_floor: F32::zero(),
            omega_pre: F32::zero(),
            u_fuel: F32::zero(),
            rpm: F32::zero(),
            tau_idle: F32::zero(),
            tau_induced: F32::zero(),
            tau_drag: F32::zero(),
            tau_free: F32::zero(),
            power_available: F32::zero(),
            i_mean: F32::zero(),
            f_other: F32::zero(),
            tau_star: F32::zero(),
            tau_clamped: F32::zero(),
            omega_coupled: F32::zero(),
            tau_c: F32::zero(),
            engaged: false,
            shifting: false,
            f_c_pre_scale: F32::zero(),
            f_s_pre_scale: F32::zero(),
            lambda: F32::zero(),
            j: [F32::zero(), F32::zero()],
            power_left: F32::zero(),
            power_right: F32::zero(),
            power_positive: F32::zero(),
            power_negative: F32::zero(),
            power_net: F32::zero(),
            power_scale: F32::zero(),
            omega_integrated: F32::zero(),
            forces: [F32::zero(), F32::zero()],
            raw_next: [F32::zero(), F32::zero()],
            next_speeds: [F32::zero(), F32::zero()],
            reanchor_attempted: false,
            reanchor_locked: F32::zero(),
            reanchor_tau_impl: F32::zero(),
            reanchor_feasible: false,
            omega_end: F32::zero(),
        }
    }
}

/// What one tick leaves behind.
#[derive(Debug)]
pub struct BitprobeCapture {
    pub tanks_seen: u32,
    pub command: [F32; 2],
    pub contact_inputs: [Vec<ContactInputProbe>; 2],
    pub element_outputs: [Vec<ElementOutputProbe>; 2],
    pub belt_reaction: [F32; 2],
    pub transmission: TransmissionProbe,
}

impl BitprobeCapture {
    /// Nothing has been captured yet.
    pub open spec fn is_clear(self) -> bool {
        &&& self.tanks_seen == 0
        &&& self.command@ == seq![F32::zero(), F32::zero()]
        &&& self.contact_inputs@[0]@.len() == 0
        &&& self.contact_inputs@[1]@.len() == 0
        &&& self.element_outputs@[0]@.len() == 0
        &&& self.element_outputs@[1]@.len() == 0
        &&& self.belt_reaction@ == seq![F32::zero(), F32::zero()]
        &&& self.transmission == TransmissionProbe::blank()
    }

    /// Makes ready for the next tick.
    pub fn clear_tick(&mut self)
        ensures
            final(self).is_clear(),
    {
        self.tanks_seen = 0;
        self.command = [F32::zero(), F32::zero()];
        self.contact_inputs = [Vec::new(), Vec::new()];
        self.element_outputs = [Vec::new(), Vec::new()];
        self.belt_reaction = [F32::zero(), F32::zero()];
        self.transmission = TransmissionProbe::default();
    }
}

impl Default for BitprobeCapture {
    fn default() -> (capture: BitprobeCapture)
        ensures
            capture.is_clear(),
    {
        BitprobeCapture {
            tanks_seen: 0,
            command: [F32::zero(), F32::zero()],
            contact_inputs: [Vec::new(), Vec::new()],
            element_outputs: [Vec::new(), Vec::new()],
            belt_reaction: [F32::zero(), F32::zero()],
            transmission: TransmissionProbe::default(),
        }
    }
}

/// A value of the transmission's state.
#[derive(Clone, Copy, Debug)]
pub enum ProjectionValue {
    U8(u8),
    I8(i8),
    Bool(bool),
    F32(F32),
    Scheduler { tag: u8, from: u8, to: u8 },
}

/// One side of the running gear.
#[derive(Clone, Copy, Debug)]
pub struct DriveSide {
    pub speed: F32,
    pub phase: F64,
}

/// Where the tank is and how it moves, with the state of its tracks.
#[derive(Clone, Copy, Debug)]
pub struct PoseProbe {
    pub position: Vec3,
    pub rotation: Quat,
    pub linear_velocity: Vec3,
    pub angular_velocity: Vec3,
    pub throttle: F32,
    pub steer: F32,
    pub drive: [DriveSide; 2],
    /// For each side the longitudinal and the lateral grip.
    pub grip: [(F32, F32); 2],
    pub traction_force: Vec3,
    pub traction_torque: Vec3,
    pub belt_reaction: [F32; 2],
    pub field_digest: u32,
}

/// A truth as a word.
pub open spec fn flag(value: bool) -> u32 {
    if value {
        1
    } else {
        0
    }
}

pub open spec fn vec3_bits(v: Vec3) -> Seq<u32> {
    seq![v.x.bits, v.y.bits, v.z.bits]
}

/// The low word of a double.
pub open spec fn low_half(x: F64) -> u32 {
    (x.bits % 0x1_0000_0000) as u32
}

/// The high word of a double.
pub open spec fn high_half(x: F64) -> u32 {
    (x.bits / 0x1_0000_0000) as u32
}

/// A small signed number as a word, by its two's complement.
pub open spec fn signed_word(value: i8) -> u32 {
    if value >= 0 {
        value as u32
    } else {
        (0x1_0000_0000 + value) as u32
    }
}

/// How many records there are, modulo the width of a word.
pub open spec fn count_word(left: nat, right: nat) -> u32 {
    ((left + right) % 0x1_0000_0000) as u32
}

pub fn f32_word(output: &mut Vec<u32>, value: F32)
    ensures
        final(output)@ == old(output)@.push(value.bits),
{
    output.push(value.bits);
}

pub fn vec3_words(output: &mut Vec<u32>, value: Vec3)
    ensures
        final(output)@ == old(output)@ + vec3_bits(value),
{
    f32_word(output, value.x);
    f32_word(output, value.y);
    f32_word(output, value.z);
}

pub fn bool_word(output: &mut Vec<u32>, value: bool)
    ensures
        final(output)@ == old(output)@.push(flag(value)),
{
    output.push(flag_word(value));
}

fn flag_word(value: bool) -> (word: u32)
    ensures
        word == flag(value),
{
    if value {
        1
    } else {
        0
    }
}

fn halves(x: F64) -> (words: (u32, u32))
    ensures
        words == (low_half(x), high_half(x)),
{
    ((x.bits % 0x1_0000_0000) as u32, (x.bits / 0x1_0000_0000) as u32)
}

fn counted(left: usize, right: usize) -> (word: u32)
    ensures
        word == count_word(left as nat, right as nat),
{
    let total: u64 = (left as u64 % 0x1_0000_0000 + right as u64 % 0x1_0000_0000) % 0x1_0000_0000;
    total as u32
}

/// The words of one contact record.
pub open spec fn contact_record(side: u32, record: ContactInputProbe) -> Seq<u32> {
    seq![side, record.station, record.material, record.column] + vec3_bits(record.query_a) + vec3_bits(
        record.query_m,
    ) + vec3_bits(record.query_b) + vec3_bits(record.out) + seq![
        record.reach.bits,
        record.depths@[0].bits,
        record.depths@[1].bits,
        record.depths@[2].bits,
    ]
}

/// The words of a side's contact records, one record after another.
pub open spec fn contact_words(side: u32, records: Seq<ContactInputProbe>) -> Seq<u32>
    decreases records.len(),
{
    if records.len() == 0 {
        seq![]
    } else {
        contact_words(side, records.drop_last()) + contact_record(side, records.last())
    }
}

/// The contact seam: how many records, then the left side's and the right side's.
pub open spec fn contact_seam(capture: BitprobeCapture) -> Seq<u32> {
    seq![count_word(capture.contact_inputs@[0]@.len(), capture.contact_inputs@[1]@.len())] + contact_words(
        0,
        capture.contact_inputs@[0]@,
    ) + contact_words(1, capture.contact_inputs@[1]@)
}

fn contact_side(output: &mut Vec<u32>, side: u32, records: &Vec<ContactInputProbe>)
    ensures
        final(output)@ == old(output)@ + contact_words(side, records@),
{
    let mut i: usize = 0;
    assert(output@ =~= old(output)@ + contact_words(side, records@.take(0)));
    while i < records.len()
        invariant
            i <= records@.len(),
            output@ == old(output)@ + contact_words(side, records@.take(i as int)),
        decreases records.len() - i,
    {
        let record: ContactInputProbe = records[i];
        let ghost earlier = output@;
        output.push(side);
        output.push(record.station);
        output.push(record.material);
        output.push(record.column);
        vec3_words(output, record.query_a);
        vec3_words(output, record.query_m);
        vec3_words(output, record.query_b);
        vec3_words(output, record.out);
        f32_word(output, record.reach);
        f32_word(output, record.depths[0]);
        f32_word(output, record.depths[1]);
        f32_word(output, record.depths[2]);
        proof {
            assert(output@ =~= earlier + contact_record(side, record));
            let next = records@.take(i + 1);
            assert(next.drop_last() =~= records@.take(i as int));
            assert(next.last() == record);
            assert(output@ =~= old(output)@ + contact_words(side, next));
        }
        i = i + 1;
    }
    assert(records@.take(i as int) =~= records@);
}

pub fn contact_payload(capture: &BitprobeCapture) -> (words: Vec<u32>)
    ensures
        words@ == contact_seam(*capture),
{
    let mut output: Vec<u32> = Vec::new();
    output.push(counted(capture.contact_inputs[0].len(), capture.contact_inputs[1].len()));
    contact_side(&mut output, 0, &capture.contact_inputs[0]);
    contact_side(&mut output, 1, &capture.contact_inputs[1]);
    assert(output@ =~= contact_seam(*capture));
    output
}

/// The words of one element record.
pub open spec fn element_record(side: u32, record: ElementOutputProbe) -> Seq<u32> {
    seq![side, record.station, record.material, record.column, flag(record.active)] + vec3_bits(record.point)
        + vec3_bits(record.normal) + seq![
        record.load.bits,
        record.load_elastic.bits,
        record.slip_long.bits,
        record.slip_lat.bits,
        record.f_long.bits,
        record.f_lat.bits,
    ] + vec3_bits(record.strain) + seq![record.dwell]
}

/// The words of a side's element records, one record after another.
pub open spec fn element_words(side: u32, records: Seq<ElementOutputProbe>) -> Seq<u32>
    decreases records.len(),
{
    if records.len() == 0 {
        seq![]
    } else {
        element_words(side, records.drop_last()) + element_record(side, records.last())
    }
}

/// The element seam: how many records, then the left side's and the right side's.
pub open spec fn element_seam(capture: BitprobeCapture) -> Seq<u32> {
    seq![count_word(capture.element_outputs@[0]@.len(), capture.element_outputs@[1]@.len())] + element_words(
        0,
        capture.element_outputs@[0]@,
    ) + element_words(1, capture.element_outputs@[1]@)
}

fn element_side(output: &mut Vec<u32>, side: u32, records: &Vec<ElementOutputProbe>)
    ensures
        final(output)@ == old(output)@ + element_words(side, records@),
{
    let mut i: usize = 0;
    assert(output@ =~= old(output)@ + element_words(side, records@.take(0)));
    while i < records.len()
        invariant
            i <= records@.len(),
            output@ == old(output)@ + element_words(side, records@.take(i as int)),
        decreases records.len() - i,
    {
        let record: ElementOutputProbe = records[i];
        let ghost earlier = output@;
        output.push(side);
        output.push(record.station);
        output.push(record.material);
        output.push(record.column);
        bool_word(output, record.active);
        vec3_words(output, record.point);
        vec3_words(output, record.normal);
        f32_word(output, record.load);
        f32_word(output, record.load_elastic);
        f32_word(output, record.slip_long);
        f32_word(output, record.slip_lat);
        f32_word(output, record.f_long);
        f32_word(output, record.f_lat);
        vec3_words(output, record.strain);
        output.push(record.dwell);
        proof {
            assert(output@ =~= earlier + element_record(side, record));
            let next = records@.take(i + 1);
            assert(next.drop_last() =~= records@.take(i as int));
            assert(next.last() == record);
            assert(output@ =~= old(output)@ + element_words(side, next));
        }
        i = i + 1;
    }
    assert(records@.take(i as int) =~= records@);
}

pub fn element_payload(capture: &BitprobeCapture) -> (words: Vec<u32>)
    ensures
        words@ == element_seam(*capture),
{
    let mut output: Vec<u32> = Vec::new();
    output.push(counted(capture.element_outputs[0].len(), capture.element_outputs[1].len()));
    element_side(&mut output, 0, &capture.element_outputs[0]);
    element_side(&mut output, 1, &capture.element_outputs[1]);
    assert(output@ =~= element_seam(*capture));
    output
}

/// The belt seam.
pub open spec fn belt_seam(capture: BitprobeCapture) -> Seq<u32> {
    seq![capture.belt_reaction@[0].bits, capture.belt_reaction@[1].bits]
}

pub fn belt_payload(capture: &BitprobeCapture) -> (words: Vec<u32>)
    ensures
        words@ == belt_seam(*capture),
{
    vec![capture.belt_reaction[0].bits, capture.belt_reaction[1].bits]
}

/// The seam of what the transmission was given.
pub open spec fn transmission_input_seam(capture: BitprobeCapture) -> Seq<u32> {
    let probe = capture.transmission;
    seq![
        capture.command@[0].bits,
        capture.command@[1].bits,
        probe.throttle.bits,
        probe.steer.bits,
        probe.side_commands@[0].bits,
        probe.side_commands@[1].bits,
        probe.speeds@[0].bits,
        probe.speeds@[1].bits,
        probe.reactions@[0].bits,
        probe.reactions@[1].bits,
        probe.dt.bits,
        probe.direction.bits,
        probe.demand_sample.bits,
        probe.demand_pre.bits,
        probe.demand_post.bits,
        flag(probe.demand_updated),
    ]
}

pub fn transmission_input_payload(capture: &BitprobeCapture) -> (words: Vec<u32>)
    ensures
        words@ == transmission_input_seam(*capture),
{
    let probe: TransmissionProbe = capture.transmission;
    let words: Vec<u32> = vec![
        capture.command[0].bits,
        capture.command[1].bits,
        probe.throttle.bits,
        probe.steer.bits,
        probe.side_commands[0].bits,
        probe.side_commands[1].bits,
        probe.speeds[0].bits,
        probe.speeds[1].bits,
        probe.reactions[0].bits,
        probe.reactions[1].bits,
        probe.dt.bits,
        probe.direction.bits,
        probe.demand_sample.bits,
        probe.demand_pre.bits,
        probe.demand_post.bits,
        flag_word(probe.demand_updated),
    ];
    assert(words@ =~= transmission_input_seam(*capture));
    words
}

/// The seam of the clutch and engine step.
pub open spec fn clutch_engine_seam(probe: TransmissionProbe) -> Seq<u32> {
    seq![
        probe.mean_speed.bits,
        probe.difference_speed.bits,
        probe.shaft_speed.bits,
        probe.gear_reduction.bits,
        probe.k.bits,
        probe.omega_idle.bits,
        probe.omega_floor.bits,
        probe.omega_pre.bits,
        probe.u_fuel.bits,
        probe.rpm.bits,
        probe.tau_idle.bits,
        probe.tau_induced.bits,
        probe.tau_drag.bits,
        probe.tau_free.bits,
        probe.power_available.bits,
        probe.i_mean.bits,
        probe.f_other.bits,
        probe.tau_star.bits,
        probe.tau_clamped.bits,
        probe.omega_coupled.bits,
        probe.tau_c.bits,
        flag(probe.engaged),
        flag(probe.shifting),
        probe.f_c_pre_scale.bits,
        probe.f_s_pre_scale.bits,
        probe.lambda.bits,
        probe.j@[0].bits,
        probe.j@[1].bits,
        probe.power_left.bits,
        probe.power_right.bits,
        probe.power_positive.bits,
        probe.power_negative.bits,
        probe.power_net.bits,
        probe.power_scale.bits,
        probe.omega_integrated.bits,
        probe.forces@[0].bits,
        probe.forces@[1].bits,
        probe.raw_next@[0].bits,
        probe.raw_next@[1].bits,
        probe.next_speeds@[0].bits,
        probe.next_speeds@[1].bits,
        flag(probe.reanchor_attempted),
        probe.reanchor_locked.bits,
        probe.reanchor_tau_impl.bits,
        flag(probe.reanchor_feasible),
        probe.omega_end.bits,
    ]
}

pub fn clutch_engine_payload(probe: TransmissionProbe) -> (words: Vec<u32>)
    ensures
        words@ == clutch_engine_seam(probe),
{
    let words: Vec<u32> = vec![
        probe.mean_speed.bits,
        probe.difference_speed.bits,
        probe.shaft_speed.bits,
        probe.gear_reduction.bits,
        probe.k.bits,
        probe.omega_idle.bits,
        probe.omega_floor.bits,
        probe.omega_pre.bits,
        probe.u_fuel.bits,
        probe.rpm.bits,
        probe.tau_idle.bits,
        probe.tau_induced.bits,
        probe.tau_drag.bits,
        probe.tau_free.bits,
        probe.power_available.bits,
        probe.i_mean.bits,
        probe.f_other.bits,
        probe.tau_star.bits,
        probe.tau_clamped.bits,
        probe.omega_coupled.bits,
        probe.tau_c.bits,
        flag_word(probe.engaged),
        flag_word(probe.shifting),
        probe.f_c_pre_scale.bits,
        probe.f_s_pre_scale.bits,
        probe.lambda.bits,
        probe.j[0].bits,
        probe.j[1].bits,
        probe.power_left.bits,
        probe.power_right.bits,
        probe.power_positive.bits,
        probe.power_negative.bits,
        probe.power_net.bits,
        probe.power_scale.bits,
        probe.omega_integrated.bits,
        probe.forces[0].bits,
        probe.forces[1].bits,
        probe.raw_next[0].bits,
        probe.raw_next[1].bits,
        probe.next_speeds[0].bits,
        probe.next_speeds[1].bits,
        flag_word(probe.reanchor_attempted),
        probe.reanchor_locked.bits,
        probe.reanchor_tau_impl.bits,
        flag_word(probe.reanchor_feasible),
        probe.omega_end.bits,
    ];
    assert(words@ =~= clutch_engine_seam(probe));
    words
}

/// The words of one value of the transmission's state.
pub open spec fn projected(value: ProjectionValue) -> Seq<u32> {
    match value {
        ProjectionValue::U8(v) => seq![v as u32],
        ProjectionValue::I8(v) => seq![signed_word(v)],
        ProjectionValue::Bool(v) => seq![flag(v)],
        ProjectionValue::F32(v) => seq![v.bits],
        ProjectionValue::Scheduler { tag, from, to } => seq![tag as u32, from as u32, to as u32],
    }
}

/// The seam of the transmission's state: the words of its values, in order.
pub open spec fn transmission_state_seam(values: Seq<ProjectionValue>) -> Seq<u32>
    decreases values.len(),
{
    if values.len() == 0 {
        seq![]
    } else {
        transmission_state_seam(values.drop_last()) + projected(values.last())
    }
}

pub fn transmission_state_payload(values: &Vec<ProjectionValue>) -> (words: Vec<u32>)
    ensures
        words@ == transmission_state_seam(values@),
{
    let mut output: Vec<u32> = Vec::new();
    let mut i: usize = 0;
    while i < values.len()
        invariant
            i <= values@.len(),
            output@ == transmission_state_seam(values@.take(i as int)),
        decreases values.len() - i,
    {
        let ghost earlier = output@;
        match values[i] {
            ProjectionValue::U8(value) => output.push(value as u32),
            ProjectionValue::I8(value) => {
                let word: i64 = if value >= 0 {
                    value as i64
                } else {
                    0x1_0000_0000 + value as i64
                };
                output.push(word as u32);
            },
            ProjectionValue::Bool(value) => bool_word(&mut output, value),
            ProjectionValue::F32(value) => f32_word(&mut output, value),
            ProjectionValue::Scheduler { tag, from, to } => {
                output.push(tag as u32);
                output.push(from as u32);
                output.push(to as u32);
            },
        }
        proof {
            assert(output@ =~= earlier + projected(values@[i as int]));
            let next = values@.take(i + 1);
            assert(next.drop_last() =~= values@.take(i as int));
            assert(next.last() == values@[i as int]);
        }
        i = i + 1;
    }
    assert(values@.take(i as int) =~= values@);
    output
}

/// The words of one side of the running gear.
pub open spec fn drive_words(side: DriveSide) -> Seq<u32> {
    seq![side.speed.bits, low_half(side.phase), high_half(side.phase)]
}

/// The pose seam.
pub open spec fn pose_seam(pose: PoseProbe) -> Seq<u32> {
    vec3_bits(pose.position) + seq![
        pose.rotation.x.bits,
        pose.rotation.y.bits,
        pose.rotation.z.bits,
        pose.rotation.w.bits,
    ] + vec3_bits(pose.linear_velocity) + vec3_bits(pose.angular_velocity) + seq![
        pose.throttle.bits,
        pose.steer.bits,
    ] + drive_words(pose.drive@[0]) + drive_words(pose.drive@[1]) + seq![
        pose.grip@[0].0.bits,
        pose.grip@[0].1.bits,
        pose.grip@[1].0.bits,
        pose.grip@[1].1.bits,
    ] + vec3_bits(pose.traction_force) + vec3_bits(pose.traction_torque) + seq![
        pose.belt_reaction@[0].bits,
        pose.belt_reaction@[1].bits,
        pose.field_digest,
    ]
}

fn drive_side(output: &mut Vec<u32>, side: DriveSide)
    ensures
        final(output)@ == old(output)@ + drive_words(side),
{
    let (low, high) = halves(side.phase);
    output.push(side.speed.bits);
    output.push(low);
    output.push(high);
}

pub fn pose_payload(pose: &PoseProbe) -> (words: Vec<u32>)
    ensures
        words@ == pose_seam(*pose),
{
    let mut output: Vec<u32> = Vec::new();
    vec3_words(&mut output, pose.position);
    f32_word(&mut output, pose.rotation.x);
    f32_word(&mut output, pose.rotation.y);
    f32_word(&mut output, pose.rotation.z);
    f32_word(&mut output, pose.rotation.w);
    vec3_words(&mut output, pose.linear_velocity);
    vec3_words(&mut output, pose.angular_velocity);
    f32_word(&mut output, pose.throttle);
    f32_word(&mut output, pose.steer);
    drive_side(&mut output, pose.drive[0]);
    drive_side(&mut output, pose.drive[1]);
    f32_word(&mut output, pose.grip[0].0);
    f32_word(&mut output, pose.grip[0].1);
    f32_word(&mut output, pose.grip[1].0);
    f32_word(&mut output, pose.grip[1].1);
    vec3_words(&mut output, pose.traction_force);
    vec3_words(&mut output, pose.traction_torque);
    f32_word(&mut output, pose.belt_reaction[0]);
    f32_word(&mut output, pose.belt_reaction[1]);
    output.push(pose.field_digest);
    assert(output@ =~= pose_seam(*pose));
    output
}

/// Why a tick cannot be dumped.
#[derive(Clone, Copy, Debug, PartialEq, Eq, Structural)]
pub enum TickError {
    /// The tick captured another number of tanks than one.
    TanksSeen(u32),
    TransmissionLost,
}

/// The seams of a tick, in the order of the dump.
pub open spec fn seams_of(
    capture: BitprobeCapture,
    transmission: Seq<ProjectionValue>,
    pose: PoseProbe,
) -> Seq<Seq<u32>> {
    seq![
        contact_seam(capture),
        element_seam(capture),
        belt_seam(capture),
        transmission_input_seam(capture),
        clutch_engine_seam(capture.transmission),
        transmission_state_seam(transmission),
        pose_seam(pose),
    ]
}

/// The payloads of a tick that captured exactly one tank, which still has its transmission.
pub fn tick_payloads(
    capture: &BitprobeCapture,
    transmission: Option<&Vec<ProjectionValue>>,
    pose: &PoseProbe,
) -> (seams: Result<Vec<Vec<u32>>, TickError>)
    ensures
        match seams {
            Ok(seams) => {
                &&& capture.tanks_seen == 1
                &&& transmission is Some
                &&& seams@.len() == 7
                &&& forall|i: int|
                    0 <= i < 7 ==> (#[trigger] seams@[i])@ == seams_of(*capture, transmission->0@, *pose)[i]
            },
            Err(TickError::TanksSeen(count)) => capture.tanks_seen == count && count != 1,
            Err(TickError::TransmissionLost) => capture.tanks_seen == 1 && transmission is None,
        },
{
    if capture.tanks_seen != 1 {
        return Err(TickError::TanksSeen(capture.tanks_seen));
    }
    match transmission {
        None => Err(TickError::TransmissionLost),
        Some(values) => Ok(
            vec![
                contact_payload(capture),
                element_payload(capture),
                belt_payload(capture),
                transmission_input_payload(capture),
                clutch_engine_payload(capture.transmission),
                transmission_state_payload(values),
                pose_payload(pose),
            ],
        ),
    }
}

proof fn lemma_contact_width(side: u32, records: Seq<ContactInputProbe>)
    ensures
        contact_words(side, records).len() == records.len() * 20,
    decreases records.len(),
{
    if records.len() > 0 {
        lemma_contact_width(side, records.drop_last());
        assert(contact_record(side, records.last()).len() == 20);
    }
}

proof fn lemma_element_width(side: u32, records: Seq<ElementOutputProbe>)
    ensures
        element_words(side, records).len() == records.len() * 21,
    decreases records.len(),
{
    if records.len() > 0 {
        lemma_element_width(side, records.drop_last());
        assert(element_record(side, records.last()).len() == 21);
    }
}

/// A payload has exactly the words that the schema of its seam declares: a seam of records has
/// a count and then one schema's worth of words per record, any other seam one word per field.
pub proof fn law_payloads_fill_their_schemas(capture: BitprobeCapture, pose: PoseProbe)
    ensures
        contact_seam(capture).len() == 1 + (capture.contact_inputs@[0]@.len() + capture.contact_inputs@[1]@.len())
            * fields::contact_schema().len(),
        element_seam(capture).len() == 1 + (capture.element_outputs@[0]@.len()
            + capture.element_outputs@[1]@.len()) * fields::element_schema().len(),
        belt_seam(capture).len() == fields::belt_schema().len(),
        transmission_input_seam(capture).len() == fields::transmission_input_schema().len(),
        clutch_engine_seam(capture.transmission).len() == fields::clutch_engine_schema().len(),
        pose_seam(pose).len() == fields::pose_schema().len(),
{
    lemma_contact_width(0, capture.contact_inputs@[0]@);
    lemma_contact_width(1, capture.contact_inputs@[1]@);
    lemma_element_width(0, capture.element_outputs@[0]@);
    lemma_element_width(1, capture.element_outputs@[1]@);
    let contacts = capture.contact_inputs@[0]@.len() + capture.contact_inputs@[1]@.len();
    let elements = capture.element_outputs@[0]@.len() + capture.element_outputs@[1]@.len();
    assert(contacts * fields::contact_schema().len() == contacts * 20) by (nonlinear_arith)
        requires
            fields::contact_schema().len() == 20;
    assert(elements * fields::element_schema().len() == elements * 21) by (nonlinear_arith)
        requires
            fields::element_schema().len() == 21;
}

/// The transmission's state fills its schema where it has sixteen values, one of them the
/// scheduler's.
pub proof fn law_state_fills_its_schema(values: Seq<ProjectionValue>, at: int)
    requires
        values.len() == 16,
        0 <= at < values.len(),
        forall|i: int| 0 <= i < values.len() ==> ((#[trigger] values[i]) is Scheduler <==> i == at),
    ensures
        transmission_state_seam(values).len() == fields::transmission_state_schema().len(),
{
    lemma_state_width(values, at);
}

proof fn lemma_state_width(values: Seq<ProjectionValue>, at: int)
    requires
        0 <= at,
        forall|i: int| 0 <= i < values.len() ==> ((#[trigger] values[i]) is Scheduler <==> i == at),
    ensures
        transmission_state_seam(values).len() == values.len() + if at < values.len() {
            2int
        } else {
            0
        },
    decreases values.len(),
{
    if values.len() > 0 {
        let rest = values.drop_last();
        assert forall|i: int| 0 <= i < rest.len() implies ((#[trigger] rest[i]) is Scheduler <==> i == at) by {
            assert(rest[i] == values[i]);
        }
        lemma_state_width(rest, at);
        assert(values.last() == values[values.len() - 1]);
    }
}

} // verus!
