//! The names and kinds of the words of each seam, in the order in which they are dumped.

use vstd::prelude::*;

verus! {

/// What a word of a payload holds.
#[derive(Clone, Copy, Debug, PartialEq, Eq, Structural)]
pub enum FieldKind {
    U32,
    I32,
    Bool,
    F32,
    /// The low half of a double.
    LowHalf,
    /// The high half of a double.
    HighHalf,
}

impl FieldKind {
    pub open spec fn named(self) -> Seq<char> {
        match self {
            FieldKind::U32 => "u32"@,
            FieldKind::I32 => "i32"@,
            FieldKind::Bool => "bool"@,
            FieldKind::F32 => "f32"@,
            FieldKind::LowHalf => "f64_lo"@,
            FieldKind::HighHalf => "f64_hi"@,
        }
    }

    /// The kind as the header spells it.
    pub fn label(self) -> (text: &'static str)
        ensures
            text@ == self.named(),
    {
        match self {
            FieldKind::U32 => "u32",
            FieldKind::I32 => "i32",
            FieldKind::Bool => "bool",
            FieldKind::F32 => "f32",
            FieldKind::LowHalf => "f64_lo",
            FieldKind::HighHalf => "f64_hi",
        }
    }
}

/// One word of a payload.
#[derive(Clone, Copy, Debug)]
pub struct Field {
    pub name: &'static str,
    pub kind: FieldKind,
}

fn field(name: &'static str, kind: FieldKind) -> (entry: Field)
    ensures
        entry == (Field { name, kind }),
{
    Field { name, kind }
}

/// The words of one contact record.
pub open spec fn contact_schema() -> Seq<Field> {
    seq![
        Field { name: "side", kind: FieldKind::U32 },
        Field { name: "station", kind: FieldKind::U32 },
        Field { name: "material", kind: FieldKind::U32 },
        Field { name: "column", kind: FieldKind::U32 },
        Field { name: "query_a.x", kind: FieldKind::F32 },
        Field { name: "query_a.y", kind: FieldKind::F32 },
        Field { name: "query_a.z", kind: FieldKind::F32 },
        Field { name: "query_m.x", kind: FieldKind::F32 },
        Field { name: "query_m.y", kind: FieldKind::F32 },
        Field { name: "query_m.z", kind: FieldKind::F32 },
        Field { name: "query_b.x", kind: FieldKind::F32 },
        Field { name: "query_b.y", kind: FieldKind::F32 },
        Field { name: "query_b.z", kind: FieldKind::F32 },
        Field { name: "out.x", kind: FieldKind::F32 },
        Field { name: "out.y", kind: FieldKind::F32 },
        Field { name: "out.z", kind: FieldKind::F32 },
        Field { name: "reach", kind: FieldKind::F32 },
        Field { name: "depth_a", kind: FieldKind::F32 },
        Field { name: "depth_m", kind: FieldKind::F32 },
        Field { name: "depth_b", kind: FieldKind::F32 },
    ]
}

pub fn contact_fields() -> (fields: Vec<Field>)
    ensures
        fields@ == contact_schema(),
        fields@.len() == 20,
{
    let fields: Vec<Field> = vec![
        field("side", FieldKind::U32),
        field("station", FieldKind::U32),
        field("material", FieldKind::U32),
        field("column", FieldKind::U32),
        field("query_a.x", FieldKind::F32),
        field("query_a.y", FieldKind::F32),
        field("query_a.z", FieldKind::F32),
        field("query_m.x", FieldKind::F32),
        field("query_m.y", FieldKind::F32),
        field("query_m.z", FieldKind::F32),
        field("query_b.x", FieldKind::F32),
        field("query_b.y", FieldKind::F32),
        field("query_b.z", FieldKind::F32),
        field("out.x", FieldKind::F32),
        field("out.y", FieldKind::F32),
        field("out.z", FieldKind::F32),
        field("reach", FieldKind::F32),
        field("depth_a", FieldKind::F32),
        field("depth_m", FieldKind::F32),
        field("depth_b", FieldKind::F32),
    ];
    assert(fields@ =~= contact_schema());
    fields
}

/// The words of one element record.
pub open spec fn element_schema() -> Seq<Field> {
    seq![
        Field { name: "side", kind: FieldKind::U32 },
        Field { name: "station", kind: FieldKind::U32 },
        Field { name: "material", kind: FieldKind::U32 },
        Field { name: "column", kind: FieldKind::U32 },
        Field { name: "active", kind: FieldKind::Bool },
        Field { name: "point.x", kind: FieldKind::F32 },
        Field { name: "point.y", kind: FieldKind::F32 },
        Field { name: "point.z", kind: FieldKind::F32 },
        Field { name: "normal.x", kind: FieldKind::F32 },
        Field { name: "normal.y", kind: FieldKind::F32 },
        Field { name: "normal.z", kind: FieldKind::F32 },
        Field { name: "load", kind: FieldKind::F32 },
        Field { name: "load_elastic", kind: FieldKind::F32 },
        Field { name: "slip_long", kind: FieldKind::F32 },
        Field { name: "slip_lat", kind: FieldKind::F32 },
        Field { name: "f_long", kind: FieldKind::F32 },
        Field { name: "f_lat", kind: FieldKind::F32 },
        Field { name: "strain.x", kind: FieldKind::F32 },
        Field { name: "strain.y", kind: FieldKind::F32 },
        Field { name: "strain.z", kind: FieldKind::F32 },
        Field { name: "dwell", kind: FieldKind::U32 },
    ]
}

pub fn element_fields() -> (fields: Vec<Field>)
    ensures
        fields@ == element_schema(),
        fields@.len() == 21,
{
    let fields: Vec<Field> = vec![
        field("side", FieldKind::U32),
        field("station", FieldKind::U32),
        field("material", FieldKind::U32),
        field("column", FieldKind::U32),
        field("active", FieldKind::Bool),
        field("point.x", FieldKind::F32),
        field("point.y", FieldKind::F32),
        field("point.z", FieldKind::F32),
        field("normal.x", FieldKind::F32),
        field("normal.y", FieldKind::F32),
        field("normal.z", FieldKind::F32),
        field("load", FieldKind::F32),
        field("load_elastic", FieldKind::F32),
        field("slip_long", FieldKind::F32),
        field("slip_lat", FieldKind::F32),
        field("f_long", FieldKind::F32),
        field("f_lat", FieldKind::F32),
        field("strain.x", FieldKind::F32),
        field("strain.y", FieldKind::F32),
        field("strain.z", FieldKind::F32),
        field("dwell", FieldKind::U32),
    ];
    assert(fields@ =~= element_schema());
    fields
}

/// The words of the belt reactions.
pub open spec fn belt_schema() -> Seq<Field> {
    seq![
        Field { name: "left", kind: FieldKind::F32 },
        Field { name: "right", kind: FieldKind::F32 },
    ]
}

pub fn belt_fields() -> (fields: Vec<Field>)
    ensures
        fields@ == belt_schema(),
        fields@.len() == 2,
{
    let fields: Vec<Field> = vec![
        field("left", FieldKind::F32),
        field("right", FieldKind::F32),
    ];
    assert(fields@ =~= belt_schema());
    fields
}

/// The words of what the transmission was given.
pub open spec fn transmission_input_schema() -> Seq<Field> {
    seq![
        Field { name: "command_throttle", kind: FieldKind::F32 },
        Field { name: "command_steer", kind: FieldKind::F32 },
        Field { name: "shaped_throttle", kind: FieldKind::F32 },
        Field { name: "shaped_steer", kind: FieldKind::F32 },
        Field { name: "side_command_left", kind: FieldKind::F32 },
        Field { name: "side_command_right", kind: FieldKind::F32 },
        Field { name: "belt_speed_left", kind: FieldKind::F32 },
        Field { name: "belt_speed_right", kind: FieldKind::F32 },
        Field { name: "reaction_left", kind: FieldKind::F32 },
        Field { name: "reaction_right", kind: FieldKind::F32 },
        Field { name: "dt", kind: FieldKind::F32 },
        Field { name: "direction", kind: FieldKind::F32 },
        Field { name: "demand_sample", kind: FieldKind::F32 },
        Field { name: "demand_pre", kind: FieldKind::F32 },
        Field { name: "demand_post", kind: FieldKind::F32 },
        Field { name: "demand_updated", kind: FieldKind::Bool },
    ]
}

pub fn transmission_input_fields() -> (fields: Vec<Field>)
    ensures
        fields@ == transmission_input_schema(),
        fields@.len() == 16,
{
    let fields: Vec<Field> = vec![
        field("command_throttle", FieldKind::F32),
        field("command_steer", FieldKind::F32),
        field("shaped_throttle", FieldKind::F32),
        field("shaped_steer", FieldKind::F32),
        field("side_command_left", FieldKind::F32),
        field("side_command_right", FieldKind::F32),
        field("belt_speed_left", FieldKind::F32),
        field("belt_speed_right", FieldKind::F32),
        field("reaction_left", FieldKind::F32),
        field("reaction_right", FieldKind::F32),
        field("dt", FieldKind::F32),
        field("direction", FieldKind::F32),
        field("demand_sample", FieldKind::F32),
        field("demand_pre", FieldKind::F32),
        field("demand_post", FieldKind::F32),
        field("demand_updated", FieldKind::Bool),
    ];
    assert(fields@ =~= transmission_input_schema());
    fields
}

/// The words of the clutch and engine step.
pub open spec fn clutch_engine_schema() -> Seq<Field> {
    seq![
        Field { name: "mean_speed", kind: FieldKind::F32 },
        Field { name: "difference_speed", kind: FieldKind::F32 },
        Field { name: "shaft_speed", kind: FieldKind::F32 },
        Field { name: "gear_reduction", kind: FieldKind::F32 },
        Field { name: "k", kind: FieldKind::F32 },
        Field { name: "omega_idle", kind: FieldKind::F32 },
        Field { name: "omega_floor", kind: FieldKind::F32 },
        Field { name: "omega_pre", kind: FieldKind::F32 },
        Field { name: "u_fuel", kind: FieldKind::F32 },
        Field { name: "rpm", kind: FieldKind::F32 },
        Field { name: "tau_idle", kind: FieldKind::F32 },
        Field { name: "tau_induced", kind: FieldKind::F32 },
        Field { name: "tau_drag", kind: FieldKind::F32 },
        Field { name: "tau_free", kind: FieldKind::F32 },
        Field { name: "power_available", kind: FieldKind::F32 },
        Field { name: "i_mean", kind: FieldKind::F32 },
        Field { name: "f_other", kind: FieldKind::F32 },
        Field { name: "tau_star", kind: FieldKind::F32 },
        Field { name: "tau_clamped", kind: FieldKind::F32 },
        Field { name: "omega_coupled", kind: FieldKind::F32 },
        Field { name: "tau_c", kind: FieldKind::F32 },
        Field { name: "engaged", kind: FieldKind::Bool },
        Field { name: "shifting", kind: FieldKind::Bool },
        Field { name: "f_c_pre_scale", kind: FieldKind::F32 },
        Field { name: "f_s_pre_scale", kind: FieldKind::F32 },
        Field { name: "lambda", kind: FieldKind::F32 },
        Field { name: "j_left", kind: FieldKind::F32 },
        Field { name: "j_right", kind: FieldKind::F32 },
        Field { name: "power_left", kind: FieldKind::F32 },
        Field { name: "power_right", kind: FieldKind::F32 },
        Field { name: "power_positive", kind: FieldKind::F32 },
        Field { name: "power_negative", kind: FieldKind::F32 },
        Field { name: "power_net", kind: FieldKind::F32 },
        Field { name: "power_scale", kind: FieldKind::F32 },
        Field { name: "omega_integrated", kind: FieldKind::F32 },
        Field { name: "force_left", kind: FieldKind::F32 },
        Field { name: "force_right", kind: FieldKind::F32 },
        Field { name: "raw_next_left", kind: FieldKind::F32 },
        Field { name: "raw_next_right", kind: FieldKind::F32 },
        Field { name: "next_speed_left", kind: FieldKind::F32 },
        Field { name: "next_speed_right", kind: FieldKind::F32 },
        Field { name: "reanchor_attempted", kind: FieldKind::Bool },
        Field { name: "reanchor_locked", kind: FieldKind::F32 },
        Field { name: "reanchor_tau_impl", kind: FieldKind::F32 },
        Field { name: "reanchor_feasible", kind: FieldKind::Bool },
        Field { name: "omega_end", kind: FieldKind::F32 },
    ]
}

pub fn clutch_engine_fields() -> (fields: Vec<Field>)
    ensures
        fields@ == clutch_engine_schema(),
        fields@.len() == 46,
{
    let fields: Vec<Field> = vec![
        field("mean_speed", FieldKind::F32),
        field("difference_speed", FieldKind::F32),
        field("shaft_speed", FieldKind::F32),
        field("gear_reduction", FieldKind::F32),
        field("k", FieldKind::F32),
        field("omega_idle", FieldKind::F32),
        field("omega_floor", FieldKind::F32),
        field("omega_pre", FieldKind::F32),
        field("u_fuel", FieldKind::F32),
        field("rpm", FieldKind::F32),
        field("tau_idle", FieldKind::F32),
        field("tau_induced", FieldKind::F32),
        field("tau_drag", FieldKind::F32),
        field("tau_free", FieldKind::F32),
        field("power_available", FieldKind::F32),
        field("i_mean", FieldKind::F32),
        field("f_other", FieldKind::F32),
        field("tau_star", FieldKind::F32),
        field("tau_clamped", FieldKind::F32),
        field("omega_coupled", FieldKind::F32),
        field("tau_c", FieldKind::F32),
        field("engaged", FieldKind::Bool),
        field("shifting", FieldKind::Bool),
        field("f_c_pre_scale", FieldKind::F32),
        field("f_s_pre_scale", FieldKind::F32),
        field("lambda", FieldKind::F32),
        field("j_left", FieldKind::F32),
        field("j_right", FieldKind::F32),
        field("power_left", FieldKind::F32),
        field("power_right", FieldKind::F32),
        field("power_positive", FieldKind::F32),
        field("power_negative", FieldKind::F32),
        field("power_net", FieldKind::F32),
        field("power_scale", FieldKind::F32),
        field("omega_integrated", FieldKind::F32),
        field("force_left", FieldKind::F32),
        field("force_right", FieldKind::F32),
        field("raw_next_left", FieldKind::F32),
        field("raw_next_right", FieldKind::F32),
        field("next_speed_left", FieldKind::F32),
        field("next_speed_right", FieldKind::F32),
        field("reanchor_attempted", FieldKind::Bool),
        field("reanchor_locked", FieldKind::F32),
        field("reanchor_tau_impl", FieldKind::F32),
        field("reanchor_feasible", FieldKind::Bool),
        field("omega_end", FieldKind::F32),
    ];
    assert(fields@ =~= clutch_engine_schema());
    fields
}

/// The words of the transmission after the tick.
pub open spec fn transmission_state_schema() -> Seq<Field> {
    seq![
        Field { name: "gear", kind: FieldKind::U32 },
        Field { name: "shift_ticks", kind: FieldKind::U32 },
        Field { name: "steer_step", kind: FieldKind::U32 },
        Field { name: "reverse", kind: FieldKind::Bool },
        Field { name: "park", kind: FieldKind::Bool },
        Field { name: "last_shift_dir", kind: FieldKind::I32 },
        Field { name: "dwell_ticks", kind: FieldKind::U32 },
        Field { name: "omega_e", kind: FieldKind::F32 },
        Field { name: "clutch_out", kind: FieldKind::Bool },
        Field { name: "demand_n", kind: FieldKind::F32 },
        Field { name: "demand_initialized", kind: FieldKind::Bool },
        Field { name: "grade_confirm_ticks", kind: FieldKind::U32 },
        Field { name: "grade_target", kind: FieldKind::U32 },
        Field { name: "scheduler_tag", kind: FieldKind::U32 },
        Field { name: "scheduler_from", kind: FieldKind::U32 },
        Field { name: "scheduler_to", kind: FieldKind::U32 },
        Field { name: "hill_hold", kind: FieldKind::Bool },
        Field { name: "hold_reengage_ticks", kind: FieldKind::U32 },
    ]
}

pub fn transmission_state_fields() -> (fields: Vec<Field>)
    ensures
        fields@ == transmission_state_schema(),
        fields@.len() == 18,
{
    let fields: Vec<Field> = vec![
        field("gear", FieldKind::U32),
        field("shift_ticks", FieldKind::U32),
        field("steer_step", FieldKind::U32),
        field("reverse", FieldKind::Bool),
        field("park", FieldKind::Bool),
        field("last_shift_dir", FieldKind::I32),
        field("dwell_ticks", FieldKind::U32),
        field("omega_e", FieldKind::F32),
        field("clutch_out", FieldKind::Bool),
        field("demand_n", FieldKind::F32),
        field("demand_initialized", FieldKind::Bool),
        field("grade_confirm_ticks", FieldKind::U32),
        field("grade_target", FieldKind::U32),
        field("scheduler_tag", FieldKind::U32),
        field("scheduler_from", FieldKind::U32),
        field("scheduler_to", FieldKind::U32),
        field("hill_hold", FieldKind::Bool),
        field("hold_reengage_ticks", FieldKind::U32),
    ];
    assert(fields@ =~= transmission_state_schema());
    fields
}

/// The words of the pose, velocities and track state.
pub open spec fn pose_schema() -> Seq<Field> {
    seq![
        Field { name: "position.x", kind: FieldKind::F32 },
        Field { name: "position.y", kind: FieldKind::F32 },
        Field { name: "position.z", kind: FieldKind::F32 },
        Field { name: "rotation.x", kind: FieldKind::F32 },
        Field { name: "rotation.y", kind: FieldKind::F32 },
        Field { name: "rotation.z", kind: FieldKind::F32 },
        Field { name: "rotation.w", kind: FieldKind::F32 },
        Field { name: "linear_velocity.x", kind: FieldKind::F32 },
        Field { name: "linear_velocity.y", kind: FieldKind::F32 },
        Field { name: "linear_velocity.z", kind: FieldKind::F32 },
        Field { name: "angular_velocity.x", kind: FieldKind::F32 },
        Field { name: "angular_velocity.y", kind: FieldKind::F32 },
        Field { name: "angular_velocity.z", kind: FieldKind::F32 },
        Field { name: "drive.throttle", kind: FieldKind::F32 },
        Field { name: "drive.steer", kind: FieldKind::F32 },
        Field { name: "drive.left.speed", kind: FieldKind::F32 },
        Field { name: "drive.left.phase_lo", kind: FieldKind::LowHalf },
        Field { name: "drive.left.phase_hi", kind: FieldKind::HighHalf },
        Field { name: "drive.right.speed", kind: FieldKind::F32 },
        Field { name: "drive.right.phase_lo", kind: FieldKind::LowHalf },
        Field { name: "drive.right.phase_hi", kind: FieldKind::HighHalf },
        Field { name: "grip.left.long", kind: FieldKind::F32 },
        Field { name: "grip.left.lat", kind: FieldKind::F32 },
        Field { name: "grip.right.long", kind: FieldKind::F32 },
        Field { name: "grip.right.lat", kind: FieldKind::F32 },
        Field { name: "effect.traction_force.x", kind: FieldKind::F32 },
        Field { name: "effect.traction_force.y", kind: FieldKind::F32 },
        Field { name: "effect.traction_force.z", kind: FieldKind::F32 },
        Field { name: "effect.traction_torque.x", kind: FieldKind::F32 },
        Field { name: "effect.traction_torque.y", kind: FieldKind::F32 },
        Field { name: "effect.traction_torque.z", kind: FieldKind::F32 },
        Field { name: "effect.reaction_left", kind: FieldKind::F32 },
        Field { name: "effect.reaction_right", kind: FieldKind::F32 },
        Field { name: "effect.field_digest", kind: FieldKind::U32 },
    ]
}

pub fn pose_fields() -> (fields: Vec<Field>)
    ensures
        fields@ == pose_schema(),
        fields@.len() == 34,
{
    let fields: Vec<Field> = vec![
        field("position.x", FieldKind::F32),
        field("position.y", FieldKind::F32),
        field("position.z", FieldKind::F32),
        field("rotation.x", FieldKind::F32),
        field("rotation.y", FieldKind::F32),
        field("rotation.z", FieldKind::F32),
        field("rotation.w", FieldKind::F32),
        field("linear_velocity.x", FieldKind::F32),
        field("linear_velocity.y", FieldKind::F32),
        field("linear_velocity.z", FieldKind::F32),
        field("angular_velocity.x", FieldKind::F32),
        field("angular_velocity.y", FieldKind::F32),
        field("angular_velocity.z", FieldKind::F32),
        field("drive.throttle", FieldKind::F32),
        field("drive.steer", FieldKind::F32),
        field("drive.left.speed", FieldKind::F32),
        field("drive.left.phase_lo", FieldKind::LowHalf),
        field("drive.left.phase_hi", FieldKind::HighHalf),
        field("drive.right.speed", FieldKind::F32),
        field("drive.right.phase_lo", FieldKind::LowHalf),
        field("drive.right.phase_hi", FieldKind::HighHalf),
        field("grip.left.long", FieldKind::F32),
        field("grip.left.lat", FieldKind::F32),
        field("grip.right.long", FieldKind::F32),
        field("grip.right.lat", FieldKind::F32),
        field("effect.traction_force.x", FieldKind::F32),
        field("effect.traction_force.y", FieldKind::F32),
        field("effect.traction_force.z", FieldKind::F32),
        field("effect.traction_torque.x", FieldKind::F32),
        field("effect.traction_torque.y", FieldKind::F32),
        field("effect.traction_torque.z", FieldKind::F32),
        field("effect.reaction_left", FieldKind::F32),
        field("effect.reaction_right", FieldKind::F32),
        field("effect.field_digest", FieldKind::U32),
    ];
    assert(fields@ =~= pose_schema());
    fields
}

} // verus!
