//! What the run starts from: every constant and quantity that shapes it, by name and by bits.

use crate::bitprobe::capture;
use crate::bitprobe::fields::FieldKind;
use crate::bitprobe::script::{
    CLIMB_END, CRUISE_END, FORMAT_VERSION, RAMP_END, SETTLE_END, TICK_COUNT, TICK_HZ, TIGHT_END, WIDE_END,
};
use crate::float::{F32, F64};
use crate::text;
use crate::text::decimal;
use crate::vector::{Quat, Vec3};
use vstd::prelude::*;
use vstd::string::StringExecFns;

verus! {

/// A named word.
#[derive(Debug)]
pub struct StartupEntry {
    pub name: String,
    pub kind: FieldKind,
    pub bits: u32,
}

/// A named word, as the contracts read it.
pub type Entry = (Seq<char>, FieldKind, u32);

impl View for StartupEntry {
    type V = Entry;

    open spec fn view(&self) -> Entry {
        (self.name@, self.kind, self.bits)
    }
}

/// The entries of a list.
pub open spec fn listed(entries: Seq<StartupEntry>) -> Seq<Entry> {
    Seq::new(entries.len(), |i: int| entries[i]@)
}

pub open spec fn single_entry(name: Seq<char>, value: F32) -> Entry {
    (name, FieldKind::F32, value.bits)
}

pub open spec fn word_entry(name: Seq<char>, value: u32) -> Entry {
    (name, FieldKind::U32, value)
}

pub open spec fn truth_entry(name: Seq<char>, value: bool) -> Entry {
    (name, FieldKind::Bool, capture::flag(value))
}

pub open spec fn double_entries(name: Seq<char>, value: F64) -> Seq<Entry> {
    seq![
        word_entry(name + ".lo"@, capture::low_half(value)),
        word_entry(name + ".hi"@, capture::high_half(value)),
    ]
}

pub open spec fn vec2_entries(name: Seq<char>, x: F32, y: F32) -> Seq<Entry> {
    seq![single_entry(name + ".x"@, x), single_entry(name + ".y"@, y)]
}

pub open spec fn vec3_entries(name: Seq<char>, value: Vec3) -> Seq<Entry> {
    seq![
        single_entry(name + ".x"@, value.x),
        single_entry(name + ".y"@, value.y),
        single_entry(name + ".z"@, value.z),
    ]
}

pub open spec fn quat_entries(name: Seq<char>, value: Quat) -> Seq<Entry> {
    seq![
        single_entry(name + ".x"@, value.x),
        single_entry(name + ".y"@, value.y),
        single_entry(name + ".z"@, value.z),
        single_entry(name + ".w"@, value.w),
    ]
}

fn joined(name: &str, suffix: &str) -> (whole: String)
    ensures
        whole@ == name@ + suffix@,
{
    name.to_owned().concat(suffix)
}

/// Entries, in the order in which they were made.
#[derive(Debug)]
pub struct StartupBuilder {
    entries: Vec<StartupEntry>,
}

impl View for StartupBuilder {
    type V = Seq<Entry>;

    closed spec fn view(&self) -> Seq<Entry> {
        listed(self.entries@)
    }
}

impl Default for StartupBuilder {
    fn default() -> (builder: StartupBuilder)
        ensures
            builder@ == Seq::<Entry>::empty(),
    {
        let builder = StartupBuilder { entries: Vec::new() };
        assert(builder@ =~= Seq::<Entry>::empty());
        builder
    }
}

impl StartupBuilder {
    fn put(&mut self, name: String, kind: FieldKind, bits: u32)
        ensures
            final(self)@ == old(self)@.push((name@, kind, bits)),
    {
        self.entries.push(StartupEntry { name, kind, bits });
        assert(self@ =~= old(self)@.push((name@, kind, bits)));
    }

    pub fn single(&mut self, name: &str, value: F32)
        ensures
            final(self)@ == old(self)@.push(single_entry(name@, value)),
    {
        self.put(name.to_owned(), FieldKind::F32, value.bits);
    }

    pub fn u32(&mut self, name: &str, value: u32)
        ensures
            final(self)@ == old(self)@.push(word_entry(name@, value)),
    {
        self.put(name.to_owned(), FieldKind::U32, value);
    }

    pub fn bool(&mut self, name: &str, value: bool)
        ensures
            final(self)@ == old(self)@.push(truth_entry(name@, value)),
    {
        self.put(name.to_owned(), FieldKind::Bool, if value { 1 } else { 0 });
    }

    /// A double, as its two halves.
    pub fn double(&mut self, name: &str, value: F64)
        ensures
            final(self)@ == old(self)@ + double_entries(name@, value),
    {
        self.put(joined(name, ".lo"), FieldKind::U32, (value.bits % 0x1_0000_0000) as u32);
        self.put(joined(name, ".hi"), FieldKind::U32, (value.bits / 0x1_0000_0000) as u32);
        assert(self@ =~= old(self)@ + double_entries(name@, value));
    }

    pub fn vec2(&mut self, name: &str, x: F32, y: F32)
        ensures
            final(self)@ == old(self)@ + vec2_entries(name@, x, y),
    {
        self.put(joined(name, ".x"), FieldKind::F32, x.bits);
        self.put(joined(name, ".y"), FieldKind::F32, y.bits);
        assert(self@ =~= old(self)@ + vec2_entries(name@, x, y));
    }

    pub fn vec3(&mut self, name: &str, value: Vec3)
        ensures
            final(self)@ == old(self)@ + vec3_entries(name@, value),
    {
        self.put(joined(name, ".x"), FieldKind::F32, value.x.bits);
        self.put(joined(name, ".y"), FieldKind::F32, value.y.bits);
        self.put(joined(name, ".z"), FieldKind::F32, value.z.bits);
        assert(self@ =~= old(self)@ + vec3_entries(name@, value));
    }

    pub fn quat(&mut self, name: &str, value: Quat)
        ensures
            final(self)@ == old(self)@ + quat_entries(name@, value),
    {
        self.put(joined(name, ".x"), FieldKind::F32, value.x.bits);
        self.put(joined(name, ".y"), FieldKind::F32, value.y.bits);
        self.put(joined(name, ".z"), FieldKind::F32, value.z.bits);
        self.put(joined(name, ".w"), FieldKind::F32, value.w.bits);
        assert(self@ =~= old(self)@ + quat_entries(name@, value));
    }

    /// Everything that another builder holds, after what this one holds.
    pub fn append(&mut self, other: &StartupBuilder)
        ensures
            final(self)@ == old(self)@ + other@,
    {
        let mut i: usize = 0;
        assert(self@ =~= old(self)@ + other@.take(0));
        while i < other.entries.len()
            invariant
                i <= other.entries@.len(),
                other@.len() == other.entries@.len(),
                self@ == old(self)@ + other@.take(i as int),
            decreases other.entries.len() - i,
        {
            self.put(other.entries[i].name.clone(), other.entries[i].kind, other.entries[i].bits);
            proof {
                assert(other@[i as int] == other.entries@[i as int]@);
                assert(self@ =~= old(self)@ + other@.take(i + 1));
            }
            i = i + 1;
        }
        assert(other@.take(i as int) =~= other@);
    }

    /// The entries, in order.
    pub fn entries(&self) -> (entries: &Vec<StartupEntry>)
        ensures
            listed(entries@) == self@,
    {
        &self.entries
    }
}

/// A block of the terrain.
#[derive(Clone, Copy, Debug)]
pub struct TerrainBlock {
    pub translation: Vec3,
    pub rotation: Quat,
    pub scale: Vec3,
}

/// The dimensions of the track and of what drives it.
#[derive(Clone, Copy, Debug)]
pub struct TrackSpec {
    pub pitch: F32,
    pub link_count: u64,
    pub width: F32,
    pub thickness: F32,
    pub link_mass: F32,
    pub hinge_torque: F32,
    pub max_link_angle: F32,
    pub plane_x: F32,
    /// Along the hull, then up.
    pub sprocket_center: (F32, F32),
    pub sprocket_teeth: u32,
    /// Along the hull, then up.
    pub idler_center: (F32, F32),
    pub idler_radius: F32,
    pub wheel_radius: F32,
    pub max_speed: F32,
    pub power: F32,
    pub force: F32,
    pub governor_gain: F32,
    pub inertia: F32,
    pub stiffness_per_m: F32,
    pub damping_per_m: F32,
    pub engage: F32,
}

#[derive(Clone, Copy, Debug)]
pub struct TankSpec {
    pub mass: F32,
    pub inertia_extents: (F32, F32, F32),
    pub track: TrackSpec,
}

/// What the run starts from.
#[derive(Debug)]
pub struct Fixture {
    pub terrain_revision: u64,
    pub terrain_blocks: Vec<TerrainBlock>,
    /// What the ground field says of itself.
    pub field: StartupBuilder,
    /// What the running gear says of itself.
    pub gear: StartupBuilder,
    pub spec: TankSpec,
    pub position: Vec3,
    pub rotation: Quat,
    pub linear_velocity: Vec3,
    pub angular_velocity: Vec3,
}

/// Where the tank is put.
#[verifier::allow_in_spec]
pub fn spawn_translation() -> Vec3
    returns
        (Vec3 { x: F32 { bits: 0x42c8_0000 }, y: F32 { bits: 0x4000_0000 }, z: F32 { bits: 0x42c8_0000 } }),
{
    Vec3 { x: F32 { bits: 0x42c8_0000 }, y: F32 { bits: 0x4000_0000 }, z: F32 { bits: 0x42c8_0000 } }
}

/// The length of a tick in seconds.
pub open spec fn tick_length() -> F64 {
    F64::one().quotient(F64::whole(TICK_HZ as nat))
}

/// The entries of the script.
pub open spec fn scenario_entries() -> Seq<Entry> {
    seq![
        word_entry("format.version"@, FORMAT_VERSION),
        word_entry("scenario.tick_hz"@, TICK_HZ),
        word_entry("scenario.tick_count"@, TICK_COUNT),
        word_entry("scenario.settle_end"@, SETTLE_END),
        word_entry("scenario.ramp_end"@, RAMP_END),
        word_entry("scenario.climb_end"@, CLIMB_END),
        word_entry("scenario.cruise_end"@, CRUISE_END),
        word_entry("scenario.wide_end"@, WIDE_END),
        word_entry("scenario.tight_end"@, TIGHT_END),
    ] + vec3_entries("scenario.spawn.translation"@, spawn_translation()) + quat_entries(
        "scenario.spawn.rotation"@,
        Quat::identity(),
    ) + double_entries("scenario.fixed_dt"@, tick_length())
}

/// What the names of a block's entries start with.
pub open spec fn block_name(i: nat) -> Seq<char> {
    "terrain.blocks["@ + text::decimal_of(i) + "]"@
}

/// The entries of one block.
pub open spec fn block_entries(i: nat, block: TerrainBlock) -> Seq<Entry> {
    vec3_entries(block_name(i) + ".translation"@, block.translation) + quat_entries(
        block_name(i) + ".rotation"@,
        block.rotation,
    ) + vec3_entries(block_name(i) + ".scale"@, block.scale)
}

/// The entries of the blocks, numbered from zero.
pub open spec fn blocks_entries(blocks: Seq<TerrainBlock>) -> Seq<Entry>
    decreases blocks.len(),
{
    if blocks.len() == 0 {
        seq![]
    } else {
        blocks_entries(blocks.drop_last()) + block_entries((blocks.len() - 1) as nat, blocks.last())
    }
}

/// The entries of the terrain.
pub open spec fn terrain_entries(revision: u64, blocks: Seq<TerrainBlock>) -> Seq<Entry> {
    seq![
        word_entry("terrain.revision.lo"@, (revision % 0x1_0000_0000) as u32),
        word_entry("terrain.revision.hi"@, (revision / 0x1_0000_0000) as u32),
        word_entry("terrain.block_count"@, (blocks.len() % 0x1_0000_0000) as u32),
    ] + blocks_entries(blocks)
}

/// The entries of the tank.
pub open spec fn spec_entries(spec: TankSpec) -> Seq<Entry> {
    let track = spec.track;
    seq![
        single_entry("spec.mass"@, spec.mass),
        single_entry("spec.inertia_extents.x"@, spec.inertia_extents.0),
        single_entry("spec.inertia_extents.y"@, spec.inertia_extents.1),
        single_entry("spec.inertia_extents.z"@, spec.inertia_extents.2),
        single_entry("spec.track.pitch"@, track.pitch),
        word_entry("spec.track.link_count"@, (track.link_count % 0x1_0000_0000) as u32),
        single_entry("spec.track.width"@, track.width),
        single_entry("spec.track.thickness"@, track.thickness),
        single_entry("spec.track.link_mass"@, track.link_mass),
        single_entry("spec.track.hinge_torque"@, track.hinge_torque),
        single_entry("spec.track.max_link_angle"@, track.max_link_angle),
        single_entry("spec.track.plane_x"@, track.plane_x),
        single_entry("spec.track.sprocket.center.z"@, track.sprocket_center.0),
        single_entry("spec.track.sprocket.center.y"@, track.sprocket_center.1),
        word_entry("spec.track.sprocket.teeth"@, track.sprocket_teeth),
        single_entry("spec.track.idler.center.z"@, track.idler_center.0),
        single_entry("spec.track.idler.center.y"@, track.idler_center.1),
        single_entry("spec.track.idler.radius"@, track.idler_radius),
        single_entry("spec.track.wheel_radius"@, track.wheel_radius),
        single_entry("spec.track.powertrain.max_speed"@, track.max_speed),
        single_entry("spec.track.powertrain.power"@, track.power),
        single_entry("spec.track.powertrain.force"@, track.force),
        single_entry("spec.track.powertrain.governor_gain"@, track.governor_gain),
        single_entry("spec.track.powertrain.inertia"@, track.inertia),
        single_entry("spec.track.support.stiffness_per_m"@, track.stiffness_per_m),
        single_entry("spec.track.support.damping_per_m"@, track.damping_per_m),
        single_entry("spec.track.support.engage"@, track.engage),
    ]
}

/// The entries of where the tank starts.
pub open spec fn initial_entries(fixture: Fixture) -> Seq<Entry> {
    vec3_entries("initial.position"@, fixture.position) + quat_entries("initial.rotation"@, fixture.rotation)
        + vec3_entries("initial.linear_velocity"@, fixture.linear_velocity) + vec3_entries(
        "initial.angular_velocity"@,
        fixture.angular_velocity,
    )
}

/// Everything the run starts from.
pub open spec fn startup_entries(fixture: Fixture) -> Seq<Entry> {
    scenario_entries() + terrain_entries(fixture.terrain_revision, fixture.terrain_blocks@) + fixture.field@
        + fixture.gear@ + spec_entries(fixture.spec) + initial_entries(fixture)
}

fn put_scenario(out: &mut StartupBuilder)
    ensures
        final(out)@ == old(out)@ + scenario_entries(),
{
    out.u32("format.version", FORMAT_VERSION);
    out.u32("scenario.tick_hz", TICK_HZ);
    out.u32("scenario.tick_count", TICK_COUNT);
    out.u32("scenario.settle_end", SETTLE_END);
    out.u32("scenario.ramp_end", RAMP_END);
    out.u32("scenario.climb_end", CLIMB_END);
    out.u32("scenario.cruise_end", CRUISE_END);
    out.u32("scenario.wide_end", WIDE_END);
    out.u32("scenario.tight_end", TIGHT_END);
    out.vec3("scenario.spawn.translation", spawn_translation());
    out.quat("scenario.spawn.rotation", Quat::identity());
    out.double("scenario.fixed_dt", F64::one().over(F64::from_whole(TICK_HZ as u64)));
    assert(out@ =~= old(out)@ + scenario_entries());
}

fn put_block(out: &mut StartupBuilder, i: usize, block: TerrainBlock)
    ensures
        final(out)@ == old(out)@ + block_entries(i as nat, block),
{
    let stem: String = "terrain.blocks[".to_owned().concat(decimal(i as u64).as_str()).concat("]");
    out.vec3(joined(stem.as_str(), ".translation").as_str(), block.translation);
    out.quat(joined(stem.as_str(), ".rotation").as_str(), block.rotation);
    out.vec3(joined(stem.as_str(), ".scale").as_str(), block.scale);
    assert(out@ =~= old(out)@ + block_entries(i as nat, block));
}

fn put_terrain(out: &mut StartupBuilder, revision: u64, blocks: &Vec<TerrainBlock>)
    ensures
        final(out)@ == old(out)@ + terrain_entries(revision, blocks@),
{
    out.u32("terrain.revision.lo", (revision % 0x1_0000_0000) as u32);
    out.u32("terrain.revision.hi", (revision / 0x1_0000_0000) as u32);
    out.u32("terrain.block_count", (blocks.len() as u64 % 0x1_0000_0000) as u32);
    let ghost earlier = out@;
    let mut i: usize = 0;
    assert(out@ =~= earlier + blocks_entries(blocks@.take(0)));
    while i < blocks.len()
        invariant
            i <= blocks@.len(),
            out@ == earlier + blocks_entries(blocks@.take(i as int)),
        decreases blocks.len() - i,
    {
        put_block(out, i, blocks[i]);
        proof {
            let next = blocks@.take(i + 1);
            assert(next.drop_last() =~= blocks@.take(i as int));
            assert(out@ =~= earlier + blocks_entries(next));
        }
        i = i + 1;
    }
    assert(blocks@.take(i as int) =~= blocks@);
    assert(out@ =~= old(out)@ + terrain_entries(revision, blocks@));
}

fn put_spec(out: &mut StartupBuilder, spec: &TankSpec)
    ensures
        final(out)@ == old(out)@ + spec_entries(*spec),
{
    let track: TrackSpec = spec.track;
    out.single("spec.mass", spec.mass);
    out.single("spec.inertia_extents.x", spec.inertia_extents.0);
    out.single("spec.inertia_extents.y", spec.inertia_extents.1);
    out.single("spec.inertia_extents.z", spec.inertia_extents.2);
    out.single("spec.track.pitch", track.pitch);
    out.u32("spec.track.link_count", (track.link_count % 0x1_0000_0000) as u32);
    out.single("spec.track.width", track.width);
    out.single("spec.track.thickness", track.thickness);
    out.single("spec.track.link_mass", track.link_mass);
    out.single("spec.track.hinge_torque", track.hinge_torque);
    out.single("spec.track.max_link_angle", track.max_link_angle);
    out.single("spec.track.plane_x", track.plane_x);
    out.single("spec.track.sprocket.center.z", track.sprocket_center.0);
    out.single("spec.track.sprocket.center.y", track.sprocket_center.1);
    out.u32("spec.track.sprocket.teeth", track.sprocket_teeth);
    out.single("spec.track.idler.center.z", track.idler_center.0);
    out.single("spec.track.idler.center.y", track.idler_center.1);
    out.single("spec.track.idler.radius", track.idler_radius);
    out.single("spec.track.wheel_radius", track.wheel_radius);
    out.single("spec.track.powertrain.max_speed", track.max_speed);
    out.single("spec.track.powertrain.power", track.power);
    out.single("spec.track.powertrain.force", track.force);
    out.single("spec.track.powertrain.governor_gain", track.governor_gain);
    out.single("spec.track.powertrain.inertia", track.inertia);
    out.single("spec.track.support.stiffness_per_m", track.stiffness_per_m);
    out.single("spec.track.support.damping_per_m", track.damping_per_m);
    out.single("spec.track.support.engage", track.engage);
    assert(out@ =~= old(out)@ + spec_entries(*spec));
}

/// Lists everything the run starts from.
pub fn startup_dump(fixture: &Fixture) -> (out: StartupBuilder)
    ensures
        out@ == startup_entries(*fixture),
{
    let mut out: StartupBuilder = StartupBuilder::default();
    put_scenario(&mut out);
    put_terrain(&mut out, fixture.terrain_revision, &fixture.terrain_blocks);
    out.append(&fixture.field);
    out.append(&fixture.gear);
    put_spec(&mut out, &fixture.spec);
    out.vec3("initial.position", fixture.position);
    out.quat("initial.rotation", fixture.rotation);
    out.vec3("initial.linear_velocity", fixture.linear_velocity);
    out.vec3("initial.angular_velocity", fixture.angular_velocity);
    assert(out@ =~= startup_entries(*fixture));
    out
}

} // verus!
