//! Outcomes that the authority sanctioned: the bounded buffer they land in, and
//! the bounded plan that turns them back into flight.
//!
//! A shell on a client is cosmetic. What the authority decided arrives keyed by
//! shot, perhaps early and perhaps out of order; it is consumed strictly in
//! sequence, and never integrated through an outcome that is already known.

pub mod chain;

use crate::float::F32;
use crate::vector::Vec3;
use vstd::prelude::*;

verus! {

/// The ticks that one cosmetic reconstruction may integrate, and the segments it may have.
pub const MAX_COSMETIC_CATCH_UP_TICKS: u32 = 100;

#[derive(Clone, Copy, Debug, PartialEq, Eq, PartialOrd, Ord, Hash, Structural)]
pub struct CombatantId {
    pub id: u64,
}

/// One shot: who fired which weapon at which tick.
#[derive(Clone, Copy, Debug, PartialEq, Eq, PartialOrd, Ord, Hash, Structural)]
pub struct ShotId {
    pub combatant: CombatantId,
    pub weapon: u8,
    pub fire_tick: u32,
}

impl ShotId {
    /// Shots order by combatant, then weapon, then tick.
    pub open spec fn precedes(self, other: ShotId) -> bool {
        ||| self.combatant.id < other.combatant.id
        ||| self.combatant.id == other.combatant.id && self.weapon < other.weapon
        ||| self.combatant.id == other.combatant.id && self.weapon == other.weapon && self.fire_tick < other.fire_tick
    }

    fn is_before(self, other: ShotId) -> (yes: bool)
        ensures
            yes == self.precedes(other),
    {
        self.combatant.id < other.combatant.id || (self.combatant.id == other.combatant.id && self.weapon
            < other.weapon) || (self.combatant.id == other.combatant.id && self.weapon == other.weapon
            && self.fire_tick < other.fire_tick)
    }
}

/// A sanctioned ricochet.
#[derive(Clone, Copy, Debug, PartialEq, Eq)]
pub struct SanctionedBounce {
    /// Where the shell restarts.
    pub origin: Vec3,
    /// The direction after the bounce.
    pub direction: Vec3,
    /// The speed after the bounce (m/s).
    pub speed: F32,
    /// The tick at which the bounce resolved.
    pub bounce_tick: u32,
    /// The ordinal, from zero; consumed strictly in order.
    pub sequence: u32,
    /// Whose body took the impulse, if anyone's did.
    pub victim: Option<CombatantId>,
}

/// A sanctioned end in armour.
#[derive(Clone, Copy, Debug, PartialEq, Eq)]
pub struct SanctionedTerminal {
    pub position: Vec3,
    pub normal: Vec3,
    pub penetrated: bool,
    /// The tick at which it resolved.
    pub impact_tick: u32,
    /// The bounces that must be consumed before it.
    pub after_bounces: u32,
    /// Whose body took the impulse, if anyone's did.
    pub victim: Option<CombatantId>,
}

/// What is known of one shot.
struct SanctionedShot {
    bounces: Vec<SanctionedBounce>,
    terminal: Option<SanctionedTerminal>,
    /// Seconds since it was last touched.
    age: F32,
}

/// What is known of one shot, as the contracts read it.
pub struct ShotRecord {
    pub bounces: Seq<SanctionedBounce>,
    pub terminal: Option<SanctionedTerminal>,
    pub age: F32,
}

impl SanctionedShot {
    spec fn record(self) -> ShotRecord {
        ShotRecord { bounces: self.bounces@, terminal: self.terminal, age: self.age }
    }
}

/// The shots that the buffer may hold.
pub const MAX_SHOTS: usize = 4096;

/// The bounces that one shot may hold.
pub const MAX_BOUNCES_PER_SHOT: usize = 100;

/// The bounded buffer of sanctioned outcomes.
pub struct SanctionedShots {
    shots: Vec<(ShotId, SanctionedShot)>,
}

#[derive(Clone, Copy, Debug, PartialEq, Eq, Structural)]
pub enum SanctionedBounceInsert {
    Inserted,
    Duplicate,
    Capacity,
}

/// The records of a list of shots.
spec fn records_of(shots: Seq<(ShotId, SanctionedShot)>) -> Map<ShotId, ShotRecord>
    decreases shots.len(),
{
    if shots.len() == 0 {
        Map::empty()
    } else {
        records_of(shots.drop_last()).insert(shots.last().0, shots.last().1.record())
    }
}

impl View for SanctionedShots {
    type V = Map<ShotId, ShotRecord>;

    closed spec fn view(&self) -> Map<ShotId, ShotRecord> {
        records_of(self.shots@)
    }
}

/// Some bounce has the sequence.
pub open spec fn has_sequence(bounces: Seq<SanctionedBounce>, sequence: u32) -> bool {
    exists|i: int| 0 <= i < bounces.len() && (#[trigger] bounces[i]).sequence == sequence
}

/// A record holds no more bounces than can be consumed, each sequence once.
pub open spec fn record_bounded(record: ShotRecord) -> bool {
    &&& record.bounces.len() <= MAX_BOUNCES_PER_SHOT
    &&& forall|i: int, j: int|
        0 <= i < j < record.bounces.len() ==> (#[trigger] record.bounces[i]).sequence != (
        #[trigger] record.bounces[j]).sequence
}

/// The buffer is within its bounds.
pub open spec fn bounded(records: Map<ShotId, ShotRecord>) -> bool {
    &&& records.dom().finite()
    &&& records.dom().len() <= MAX_SHOTS
    &&& forall|shot: ShotId| #[trigger] records.contains_key(shot) ==> record_bounded(records[shot])
}

/// `a` goes before `b` when the buffer is full: it is older, or as old with the greater identity.
pub open spec fn goes_before(records: Map<ShotId, ShotRecord>, a: ShotId, b: ShotId) -> bool {
    ||| records[a].age.rank() > records[b].age.rank()
    ||| records[a].age.rank() == records[b].age.rank() && (b == a || b.precedes(a))
}

/// The shot that goes when the buffer is full.
pub open spec fn is_oldest(records: Map<ShotId, ShotRecord>, shot: ShotId) -> bool {
    &&& records.contains_key(shot)
    &&& forall|other: ShotId| #[trigger] records.contains_key(other) ==> goes_before(records, shot, other)
}

/// The buffer once a shot is touched: room is made for a new one, and its age starts over.
pub open spec fn touched(records: Map<ShotId, ShotRecord>, shot: ShotId) -> Map<ShotId, ShotRecord> {
    let kept = if records.dom().len() >= MAX_SHOTS && !records.contains_key(shot) {
        records.remove(choose|oldest: ShotId| is_oldest(records, oldest))
    } else {
        records
    };
    if kept.contains_key(shot) {
        kept.insert(shot, ShotRecord { age: F32::zero(), ..kept[shot] })
    } else {
        kept.insert(shot, ShotRecord { bounces: Seq::empty(), terminal: None, age: F32::zero() })
    }
}

/// What inserting a bounce answers.
pub open spec fn bounce_verdict(
    records: Map<ShotId, ShotRecord>,
    shot: ShotId,
    bounce: SanctionedBounce,
) -> SanctionedBounceInsert {
    let record = touched(records, shot)[shot];
    if has_sequence(record.bounces, bounce.sequence) {
        SanctionedBounceInsert::Duplicate
    } else if record.bounces.len() >= MAX_BOUNCES_PER_SHOT {
        SanctionedBounceInsert::Capacity
    } else {
        SanctionedBounceInsert::Inserted
    }
}

/// The buffer once a bounce is inserted.
pub open spec fn with_bounce(
    records: Map<ShotId, ShotRecord>,
    shot: ShotId,
    bounce: SanctionedBounce,
) -> Map<ShotId, ShotRecord> {
    let now = touched(records, shot);
    if bounce_verdict(records, shot, bounce) == SanctionedBounceInsert::Inserted {
        now.insert(shot, ShotRecord { bounces: now[shot].bounces.push(bounce), ..now[shot] })
    } else {
        now
    }
}

/// The buffer once a terminal is inserted: the first one holds.
pub open spec fn with_terminal(
    records: Map<ShotId, ShotRecord>,
    shot: ShotId,
    terminal: SanctionedTerminal,
) -> Map<ShotId, ShotRecord> {
    let now = touched(records, shot);
    if now[shot].terminal is Some {
        now
    } else {
        now.insert(shot, ShotRecord { terminal: Some(terminal), ..now[shot] })
    }
}

/// The first bounce from place `i` on that has this ordinal.
pub open spec fn bounce_at(bounces: Seq<SanctionedBounce>, ordinal: nat, i: int) -> Option<SanctionedBounce>
    decreases bounces.len() - i,
{
    if i >= bounces.len() {
        None
    } else if bounces[i].sequence == ordinal {
        Some(bounces[i])
    } else {
        bounce_at(bounces, ordinal, i + 1)
    }
}

/// The next bounce, if it has arrived.
pub open spec fn next_bounce(records: Map<ShotId, ShotRecord>, shot: ShotId, consumed: nat) -> Option<SanctionedBounce> {
    if records.contains_key(shot) {
        bounce_at(records[shot].bounces, consumed, 0)
    } else {
        None
    }
}

/// The terminal, once all of its bounces are consumed.
pub open spec fn due_terminal(
    records: Map<ShotId, ShotRecord>,
    shot: ShotId,
    consumed: nat,
) -> Option<SanctionedTerminal> {
    if records.contains_key(shot) {
        match records[shot].terminal {
            Some(terminal) => if terminal.after_bounces == consumed {
                Some(terminal)
            } else {
                None
            },
            None => None,
        }
    } else {
        None
    }
}

/// A shot outlives the aging.
pub open spec fn survives(record: ShotRecord, dt: F32) -> bool {
    record.age.sum(dt).at_most(F32 { bits: 0x4040_0000 })
}

/// The buffer once time has passed: what has grown older than three seconds is gone.
pub open spec fn aged(records: Map<ShotId, ShotRecord>, dt: F32) -> Map<ShotId, ShotRecord> {
    Map::new(
        |shot: ShotId| records.contains_key(shot) && survives(records[shot], dt),
        |shot: ShotId| ShotRecord { age: records[shot].age.sum(dt), ..records[shot] },
    )
}

/// Each shot occurs once.
spec fn distinct(shots: Seq<(ShotId, SanctionedShot)>) -> bool {
    forall|i: int, j: int| 0 <= i < j < shots.len() ==> (#[trigger] shots[i]).0 != (#[trigger] shots[j]).0
}

spec fn listed(shots: Seq<(ShotId, SanctionedShot)>, shot: ShotId) -> bool {
    exists|i: int| 0 <= i < shots.len() && (#[trigger] shots[i]).0 == shot
}

proof fn lemma_records(shots: Seq<(ShotId, SanctionedShot)>)
    requires
        distinct(shots),
    ensures
        records_of(shots).dom().finite(),
        records_of(shots).dom().len() == shots.len(),
        forall|shot: ShotId| #[trigger] records_of(shots).contains_key(shot) <==> listed(shots, shot),
        forall|i: int|
            0 <= i < shots.len() ==> records_of(shots).contains_key((#[trigger] shots[i]).0) && records_of(
                shots,
            )[shots[i].0] == shots[i].1.record(),
    decreases shots.len(),
{
    if shots.len() > 0 {
        let rest = shots.drop_last();
        let last = shots.last();
        assert forall|i: int, j: int| 0 <= i < j < rest.len() implies (#[trigger] rest[i]).0 != (#[trigger] rest[j]).0 by {
            assert(rest[i] == shots[i] && rest[j] == shots[j]);
        }
        lemma_records(rest);
        assert(!listed(rest, last.0)) by {
            if listed(rest, last.0) {
                let i = choose|i: int| 0 <= i < rest.len() && (#[trigger] rest[i]).0 == last.0;
                assert(shots[i].0 == shots[shots.len() - 1].0);
            }
        }
        assert(!records_of(rest).contains_key(last.0));
        assert(records_of(shots).dom() =~= records_of(rest).dom().insert(last.0));
        assert forall|shot: ShotId| #[trigger] records_of(shots).contains_key(shot) <==> listed(shots, shot) by {
            if listed(rest, shot) {
                let i = choose|i: int| 0 <= i < rest.len() && (#[trigger] rest[i]).0 == shot;
                assert(shots[i].0 == shot);
            }
            if listed(shots, shot) {
                let i = choose|i: int| 0 <= i < shots.len() && (#[trigger] shots[i]).0 == shot;
                if i < rest.len() {
                    assert(rest[i].0 == shot);
                }
            }
            assert(records_of(rest).contains_key(shot) <==> listed(rest, shot));
            assert(shots[shots.len() - 1] == last);
        }
        assert forall|i: int| 0 <= i < shots.len() implies records_of(shots).contains_key((#[trigger] shots[i]).0)
            && records_of(shots)[shots[i].0] == shots[i].1.record() by {
            if i < rest.len() {
                assert(rest[i] == shots[i]);
                assert(shots[i].0 != shots[shots.len() - 1].0);
            }
        }
    }
}

/// A list of distinct shots has the records that its places have.
proof fn lemma_records_are(shots: Seq<(ShotId, SanctionedShot)>, records: Map<ShotId, ShotRecord>)
    requires
        distinct(shots),
        forall|shot: ShotId| #[trigger] records.contains_key(shot) <==> listed(shots, shot),
        forall|i: int| 0 <= i < shots.len() ==> records[(#[trigger] shots[i]).0] == shots[i].1.record(),
    ensures
        records_of(shots) == records,
{
    lemma_records(shots);
    assert forall|shot: ShotId| records_of(shots).contains_key(shot) implies records_of(shots)[shot] == records[shot] by {
        let i = choose|i: int| 0 <= i < shots.len() && (#[trigger] shots[i]).0 == shot;
        assert(shots[i].0 == shot);
    }
    assert(records_of(shots) =~= records);
}

/// At most one shot is the oldest.
proof fn lemma_oldest_unique(records: Map<ShotId, ShotRecord>, a: ShotId, b: ShotId)
    requires
        is_oldest(records, a),
        is_oldest(records, b),
    ensures
        a == b,
{
    assert(goes_before(records, a, b));
    assert(goes_before(records, b, a));
}

impl SanctionedShots {
    #[verifier::type_invariant]
    spec fn well_formed(self) -> bool {
        &&& distinct(self.shots@)
        &&& self.shots@.len() <= MAX_SHOTS
        &&& forall|i: int| 0 <= i < self.shots@.len() ==> record_bounded((#[trigger] self.shots@[i]).1.record())
    }

    /// The empty buffer.
    pub fn new() -> (shots: SanctionedShots)
        ensures
            shots@ == Map::<ShotId, ShotRecord>::empty(),
    {
        SanctionedShots { shots: Vec::new() }
    }

    /// How many shots are buffered.
    pub fn len(&self) -> (count: usize)
        ensures
            count == self@.dom().len(),
            self@.dom().finite(),
    {
        proof {
            use_type_invariant(self);
            lemma_records(self.shots@);
        }
        self.shots.len()
    }

    fn find(shots: &Vec<(ShotId, SanctionedShot)>, shot: ShotId) -> (place: Option<usize>)
        ensures
            match place {
                Some(i) => i < shots@.len() && shots@[i as int].0 == shot,
                None => !listed(shots@, shot),
            },
    {
        let mut i: usize = 0;
        while i < shots.len()
            invariant
                i <= shots.len(),
                forall|j: int| 0 <= j < i ==> (#[trigger] shots@[j]).0 != shot,
            decreases shots.len() - i,
        {
            if shots[i].0 == shot {
                return Some(i);
            }
            i = i + 1;
        }
        None
    }

    /// The place of the shot that goes.
    fn find_oldest(shots: &Vec<(ShotId, SanctionedShot)>) -> (place: usize)
        requires
            shots@.len() > 0,
            distinct(shots@),
        ensures
            place < shots@.len(),
            is_oldest(records_of(shots@), shots@[place as int].0),
    {
        let mut place: usize = 0;
        let mut i: usize = 1;
        let ghost records = records_of(shots@);
        proof {
            lemma_records(shots@);
        }
        while i < shots.len()
            invariant
                1 <= i <= shots.len(),
                place < i,
                records == records_of(shots@),
                forall|j: int|
                    0 <= j < shots@.len() ==> records.contains_key((#[trigger] shots@[j]).0) && records[shots@[j].0]
                        == shots@[j].1.record(),
                forall|j: int| 0 <= j < i ==> goes_before(records, shots@[place as int].0, (#[trigger] shots@[j]).0),
            decreases shots.len() - i,
        {
            let older: u64 = shots[i].1.age.order_key();
            let so_far: u64 = shots[place].1.age.order_key();
            assert(records[shots@[i as int].0] == shots@[i as int].1.record());
            assert(records[shots@[place as int].0] == shots@[place as int].1.record());
            if older > so_far || (older == so_far && shots[place].0.is_before(shots[i].0)) {
                assert forall|j: int| 0 <= j < i + 1 implies goes_before(
                    records,
                    shots@[i as int].0,
                    (#[trigger] shots@[j]).0,
                ) by {
                    if j < i {
                        assert(goes_before(records, shots@[place as int].0, shots@[j].0));
                    }
                }
                place = i;
            }
            i = i + 1;
        }
        proof {
            assert forall|other: ShotId| #[trigger] records.contains_key(other) implies goes_before(
                records,
                shots@[place as int].0,
                other,
            ) by {
                let j = choose|j: int| 0 <= j < shots@.len() && (#[trigger] shots@[j]).0 == other;
                assert(goes_before(records, shots@[place as int].0, shots@[j].0));
            }
        }
        place
    }

    /// Touches a shot and tells its place.
    fn touch(shots: &mut Vec<(ShotId, SanctionedShot)>, shot: ShotId) -> (place: usize)
        requires
            distinct(old(shots)@),
            old(shots)@.len() <= MAX_SHOTS,
            forall|i: int| 0 <= i < old(shots)@.len() ==> record_bounded((#[trigger] old(shots)@[i]).1.record()),
        ensures
            distinct(final(shots)@),
            final(shots)@.len() <= MAX_SHOTS,
            forall|i: int| 0 <= i < final(shots)@.len() ==> record_bounded((#[trigger] final(shots)@[i]).1.record()),
            records_of(final(shots)@) == touched(records_of(old(shots)@), shot),
            place < final(shots)@.len(),
            final(shots)@[place as int].0 == shot,
    {
        let ghost before = shots@;
        let ghost records = records_of(before);
        proof {
            lemma_records(before);
        }
        let mut found: Option<usize> = Self::find(shots, shot);
        if shots.len() >= MAX_SHOTS && found.is_none() {
            let oldest: usize = Self::find_oldest(shots);
            let ghost gone = before[oldest as int].0;
            shots.remove(oldest);
            proof {
                let now = shots@;
                assert(now =~= before.remove(oldest as int));
                lemma_oldest_unique(records, gone, choose|o: ShotId| is_oldest(records, o));
                assert forall|i: int, j: int| 0 <= i < j < now.len() implies (#[trigger] now[i]).0 != (#[trigger] now[j]).0 by {
                    let x = if i < oldest { i } else { i + 1 };
                    let y = if j < oldest { j } else { j + 1 };
                    assert(now[i] == before[x] && now[j] == before[y]);
                }
                let kept = records.remove(gone);
                assert forall|s: ShotId| #[trigger] kept.contains_key(s) <==> listed(now, s) by {
                    if kept.contains_key(s) {
                        let x = choose|x: int| 0 <= x < before.len() && (#[trigger] before[x]).0 == s;
                        let i = if x < oldest { x } else { x - 1 };
                        assert(now[i].0 == s);
                    }
                    if listed(now, s) {
                        let i = choose|i: int| 0 <= i < now.len() && (#[trigger] now[i]).0 == s;
                        let x = if i < oldest { i } else { i + 1 };
                        assert(now[i] == before[x]);
                        assert(listed(before, s));
                        assert(before[x].0 != before[oldest as int].0);
                    }
                }
                assert forall|i: int| 0 <= i < now.len() implies kept[(#[trigger] now[i]).0] == now[i].1.record() by {
                    let x = if i < oldest { i } else { i + 1 };
                    assert(now[i] == before[x]);
                    assert(before[x].0 != before[oldest as int].0);
                }
                lemma_records_are(now, kept);
                assert(!kept.contains_key(shot));
                assert forall|i: int| 0 <= i < now.len() implies record_bounded((#[trigger] now[i]).1.record()) by {
                    let x = if i < oldest { i } else { i + 1 };
                    assert(now[i] == before[x]);
                }
            }
        }
        let ghost room = shots@;
        let ghost kept = records_of(room);
        proof {
            lemma_records(room);
        }
        match found {
            Some(place) => {
                assert(room == before);
                let ghost was = room[place as int].1;
                let (id, mut entry) = shots.remove(place);
                entry.age = F32::zero();
                shots.insert(place, (id, entry));
                proof {
                    let now = shots@;
                    assert(now =~= room.update(place as int, (id, entry)));
                    assert(entry.record() == (ShotRecord { age: F32::zero(), ..was.record() }));
                    let records_now = kept.insert(shot, ShotRecord { age: F32::zero(), ..kept[shot] });
                    assert(kept[shot] == was.record()) by {
                        assert(room[place as int].0 == shot);
                    }
                    assert forall|s: ShotId| #[trigger] records_now.contains_key(s) <==> listed(now, s) by {
                        if listed(room, s) {
                            let i = choose|i: int| 0 <= i < room.len() && (#[trigger] room[i]).0 == s;
                            assert(now[i].0 == s);
                        }
                        if listed(now, s) {
                            let i = choose|i: int| 0 <= i < now.len() && (#[trigger] now[i]).0 == s;
                            assert(room[i].0 == s);
                        }
                    }
                    assert forall|i: int| 0 <= i < now.len() implies records_now[(#[trigger] now[i]).0] == now[i].1.record() by {
                        if i != place {
                            assert(now[i] == room[i]);
                            assert(room[i].0 != room[place as int].0);
                        }
                    }
                    assert(listed(room, shot)) by {
                        assert(room[place as int].0 == shot);
                    }
                    lemma_records_are(now, records_now);
                }
                place
            },
            None => {
                let place: usize = shots.len();
                shots.push(
                    (
                        shot,
                        SanctionedShot { bounces: Vec::new(), terminal: None, age: F32::zero() },
                    ),
                );
                proof {
                    let now = shots@;
                    let fresh = ShotRecord { bounces: Seq::<SanctionedBounce>::empty(), terminal: None, age: F32::zero() };
                    assert(now[place as int].1.record().bounces =~= fresh.bounces);
                    let records_now = kept.insert(shot, fresh);
                    assert(!listed(room, shot));
                    assert forall|i: int, j: int| 0 <= i < j < now.len() implies (#[trigger] now[i]).0 != (#[trigger] now[j]).0 by {
                        assert(now[i] == room[i]);
                        if j < room.len() {
                            assert(now[j] == room[j]);
                        } else if room[i].0 == shot {
                            assert(listed(room, shot));
                        }
                    }
                    assert forall|s: ShotId| #[trigger] records_now.contains_key(s) <==> listed(now, s) by {
                        if listed(room, s) {
                            let i = choose|i: int| 0 <= i < room.len() && (#[trigger] room[i]).0 == s;
                            assert(now[i].0 == s);
                        }
                        assert(now[place as int].0 == shot);
                        if listed(now, s) {
                            let i = choose|i: int| 0 <= i < now.len() && (#[trigger] now[i]).0 == s;
                            if i < room.len() {
                                assert(room[i].0 == s);
                            }
                        }
                    }
                    assert forall|i: int| 0 <= i < now.len() implies records_now[(#[trigger] now[i]).0] == now[i].1.record() by {
                        if i < room.len() {
                            assert(now[i] == room[i]);
                            if room[i].0 == shot {
                                assert(listed(room, shot));
                            }
                        }
                    }
                    lemma_records_are(now, records_now);
                }
                place
            },
        }
    }
}

proof fn lemma_replaced(
    shots: Seq<(ShotId, SanctionedShot)>,
    now: Seq<(ShotId, SanctionedShot)>,
    place: int,
)
    requires
        distinct(shots),
        0 <= place < shots.len(),
        now.len() == shots.len(),
        now[place].0 == shots[place].0,
        forall|i: int| 0 <= i < shots.len() && i != place ==> #[trigger] now[i] == shots[i],
    ensures
        distinct(now),
        records_of(now) == records_of(shots).insert(shots[place].0, now[place].1.record()),
{
    lemma_records(shots);
    assert forall|i: int, j: int| 0 <= i < j < now.len() implies (#[trigger] now[i]).0 != (#[trigger] now[j]).0 by {
        assert(now[i].0 == shots[i].0 && now[j].0 == shots[j].0);
    }
    let records = records_of(shots).insert(shots[place].0, now[place].1.record());
    assert forall|s: ShotId| #[trigger] records.contains_key(s) <==> listed(now, s) by {
        if listed(shots, s) {
            let i = choose|i: int| 0 <= i < shots.len() && (#[trigger] shots[i]).0 == s;
            assert(now[i].0 == s);
        }
        assert(now[place].0 == shots[place].0);
        if listed(now, s) {
            let i = choose|i: int| 0 <= i < now.len() && (#[trigger] now[i]).0 == s;
            assert(shots[i].0 == s);
        }
    }
    assert forall|i: int| 0 <= i < now.len() implies records[(#[trigger] now[i]).0] == now[i].1.record() by {
        if i != place {
            assert(now[i] == shots[i]);
            if i < place {
                assert(shots[i].0 != shots[place].0);
            } else {
                assert(shots[place].0 != shots[i].0);
            }
        }
    }
    lemma_records_are(now, records);
}

proof fn lemma_bounded(shots: Seq<(ShotId, SanctionedShot)>)
    requires
        distinct(shots),
        shots.len() <= MAX_SHOTS,
        forall|i: int| 0 <= i < shots.len() ==> record_bounded((#[trigger] shots[i]).1.record()),
    ensures
        bounded(records_of(shots)),
{
    lemma_records(shots);
    let records = records_of(shots);
    assert forall|shot: ShotId| #[trigger] records.contains_key(shot) implies record_bounded(records[shot]) by {
        let i = choose|i: int| 0 <= i < shots.len() && (#[trigger] shots[i]).0 == shot;
        assert(records[shots[i].0] == shots[i].1.record());
    }
}

impl SanctionedShots {
    /// Takes the list out, leaving the buffer empty.
    fn take(&mut self) -> (shots: Vec<(ShotId, SanctionedShot)>)
        ensures
            records_of(shots@) == old(self)@,
            distinct(shots@),
            shots@.len() <= MAX_SHOTS,
            forall|i: int| 0 <= i < shots@.len() ==> record_bounded((#[trigger] shots@[i]).1.record()),
    {
        proof {
            use_type_invariant(&*self);
        }
        let mut shots: Vec<(ShotId, SanctionedShot)> = Vec::new();
        core::mem::swap(&mut shots, &mut self.shots);
        shots
    }

    /// Inserts a bounce, once for each shot and sequence.
    pub fn insert(&mut self, shot: ShotId, bounce: SanctionedBounce) -> (verdict: SanctionedBounceInsert)
        ensures
            verdict == bounce_verdict(old(self)@, shot, bounce),
            final(self)@ == with_bounce(old(self)@, shot, bounce),
            bounded(final(self)@),
    {
        let mut shots: Vec<(ShotId, SanctionedShot)> = self.take();
        let place: usize = Self::touch(&mut shots, shot);
        let ghost now = shots@;
        proof {
            lemma_records(now);
            assert(records_of(now)[now[place as int].0] == now[place as int].1.record());
        }
        let mut duplicate: bool = false;
        let mut i: usize = 0;
        while i < shots[place].1.bounces.len()
            invariant
                place < shots@.len(),
                shots@ == now,
                i <= now[place as int].1.bounces@.len(),
                duplicate == exists|j: int|
                    0 <= j < i && (#[trigger] now[place as int].1.bounces@[j]).sequence == bounce.sequence,
            decreases now[place as int].1.bounces@.len() - i,
        {
            if shots[place].1.bounces[i].sequence == bounce.sequence {
                duplicate = true;
                assert(now[place as int].1.bounces@[i as int].sequence == bounce.sequence);
            }
            i = i + 1;
        }
        let verdict: SanctionedBounceInsert;
        if duplicate {
            verdict = SanctionedBounceInsert::Duplicate;
        } else if shots[place].1.bounces.len() >= MAX_BOUNCES_PER_SHOT {
            verdict = SanctionedBounceInsert::Capacity;
        } else {
            let (id, mut entry) = shots.remove(place);
            let ghost held = entry.bounces@;
            entry.bounces.push(bounce);
            shots.insert(place, (id, entry));
            proof {
                assert(shots@ =~= now.update(place as int, (id, entry)));
                assert(entry.bounces@ == held.push(bounce));
                assert forall|a: int, b: int| 0 <= a < b < entry.bounces@.len() implies (#[trigger] entry.bounces@[a]).sequence
                    != (#[trigger] entry.bounces@[b]).sequence by {
                    assert(entry.bounces@[a] == held[a]);
                    if b < held.len() {
                        assert(entry.bounces@[b] == held[b]);
                        assert(record_bounded(now[place as int].1.record()));
                    }
                }
                lemma_replaced(now, shots@, place as int);
                assert(shots@[place as int].1.record() == (ShotRecord {
                    bounces: records_of(now)[shot].bounces.push(bounce),
                    ..records_of(now)[shot]
                }));
            }
            verdict = SanctionedBounceInsert::Inserted;
        }
        proof {
            assert forall|j: int| 0 <= j < shots@.len() implies record_bounded((#[trigger] shots@[j]).1.record()) by {
                if j != place {
                    assert(shots@[j] == now[j]);
                }
            }
            lemma_bounded(shots@);
        }
        self.shots = shots;
        verdict
    }

    /// Records a shot's terminal; the first one holds.
    pub fn insert_terminal(&mut self, shot: ShotId, terminal: SanctionedTerminal) -> (recorded: bool)
        ensures
            recorded == touched(old(self)@, shot)[shot].terminal is None,
            final(self)@ == with_terminal(old(self)@, shot, terminal),
            bounded(final(self)@),
    {
        let mut shots: Vec<(ShotId, SanctionedShot)> = self.take();
        let place: usize = Self::touch(&mut shots, shot);
        let ghost now = shots@;
        proof {
            lemma_records(now);
            assert(records_of(now)[now[place as int].0] == now[place as int].1.record());
        }
        let recorded: bool = shots[place].1.terminal.is_none();
        if recorded {
            let (id, mut entry) = shots.remove(place);
            entry.terminal = Some(terminal);
            shots.insert(place, (id, entry));
            proof {
                assert(shots@ =~= now.update(place as int, (id, entry)));
                lemma_replaced(now, shots@, place as int);
            }
        }
        proof {
            assert forall|j: int| 0 <= j < shots@.len() implies record_bounded((#[trigger] shots@[j]).1.record()) by {
                if j != place {
                    assert(shots@[j] == now[j]);
                } else {
                    assert(record_bounded(now[place as int].1.record()));
                }
            }
            lemma_bounded(shots@);
        }
        self.shots = shots;
        recorded
    }

    /// Whether anything is buffered for the shot.
    pub fn has_shot(&self, shot: ShotId) -> (yes: bool)
        ensures
            yes == self@.contains_key(shot),
    {
        proof {
            use_type_invariant(self);
            lemma_records(self.shots@);
        }
        match Self::find(&self.shots, shot) {
            Some(i) => {
                assert(self.shots@[i as int].0 == shot);
                true
            },
            None => false,
        }
    }

    /// The next bounce in sequence, if it has arrived.
    pub fn next(&self, shot: ShotId, consumed: usize) -> (bounce: Option<SanctionedBounce>)
        ensures
            bounce == next_bounce(self@, shot, consumed as nat),
    {
        proof {
            use_type_invariant(self);
            lemma_records(self.shots@);
        }
        match Self::find(&self.shots, shot) {
            Some(place) => {
                assert(self.shots@[place as int].0 == shot);
                let bounces: &Vec<SanctionedBounce> = &self.shots[place].1.bounces;
                let mut i: usize = 0;
                while i < bounces.len()
                    invariant
                        i <= bounces@.len(),
                        next_bounce(self@, shot, consumed as nat) == bounce_at(bounces@, consumed as nat, i as int),
                    decreases bounces.len() - i,
                {
                    if bounces[i].sequence as usize == consumed {
                        return Some(bounces[i]);
                    }
                    i = i + 1;
                }
                None
            },
            None => None,
        }
    }

    /// The terminal, once all of its bounces are consumed.
    pub fn terminal(&self, shot: ShotId, consumed: usize) -> (terminal: Option<SanctionedTerminal>)
        ensures
            terminal == due_terminal(self@, shot, consumed as nat),
    {
        proof {
            use_type_invariant(self);
            lemma_records(self.shots@);
        }
        match Self::find(&self.shots, shot) {
            Some(place) => {
                assert(self.shots@[place as int].0 == shot);
                match self.shots[place].1.terminal {
                    Some(terminal) => if terminal.after_bounces as usize == consumed {
                        Some(terminal)
                    } else {
                        None
                    },
                    None => None,
                }
            },
            None => None,
        }
    }

    /// Ages every shot by `dt` and drops those older than three seconds.
    pub fn age(&mut self, dt: F32)
        ensures
            final(self)@ == aged(old(self)@, dt),
            bounded(final(self)@),
    {
        let mut shots: Vec<(ShotId, SanctionedShot)> = self.take();
        let ghost before = shots@;
        let mut kept: Vec<(ShotId, SanctionedShot)> = Vec::new();
        let ghost mut places: Seq<int> = Seq::empty();
        let ghost mut done: int = before.len() as int;
        proof {
            lemma_records(before);
            assert(before.take(done) =~= before);
        }
        while shots.len() > 0
            invariant
                0 <= done <= before.len(),
                distinct(before),
                before.len() <= MAX_SHOTS,
                forall|i: int| 0 <= i < before.len() ==> record_bounded((#[trigger] before[i]).1.record()),
                shots@ == before.take(done),
                places.len() == kept@.len(),
                kept@.len() <= before.len() - done,
                forall|i: int| 0 <= i < places.len() ==> done <= #[trigger] places[i] < before.len(),
                forall|i: int, j: int| 0 <= i < j < places.len() ==> (#[trigger] places[j]) < (#[trigger] places[i]),
                forall|i: int|
                    0 <= i < kept@.len() ==> (#[trigger] kept@[i]).0 == before[places[i]].0 && kept@[i].1.record() == (
                    ShotRecord { age: before[places[i]].1.age.sum(dt), ..before[places[i]].1.record() }) && survives(
                        before[places[i]].1.record(),
                        dt,
                    ),
                forall|x: int|
                    done <= x < before.len() && survives((#[trigger] before[x]).1.record(), dt) ==> exists|i: int|
                        0 <= i < places.len() && #[trigger] places[i] == x,
            decreases shots@.len(),
        {
            let ghost was = before[done - 1];
            let last: Option<(ShotId, SanctionedShot)> = shots.pop();
            match last {
                Some((id, mut entry)) => {
                    assert((id, entry) == was);
                    let age: F32 = entry.age.plus(dt);
                    entry.age = age;
                    let ghost old_places = places;
                    if age.le(F32 { bits: 0x4040_0000 }) {
                        kept.push((id, entry));
                        proof {
                            places = places.push(done - 1);
                        }
                    }
                    proof {
                        assert forall|x: int|
                            done - 1 <= x < before.len() && survives((#[trigger] before[x]).1.record(), dt) implies exists|i: int|
                            0 <= i < places.len() && #[trigger] places[i] == x by {
                            if x == done - 1 {
                                assert(places[places.len() - 1] == x);
                            } else {
                                let i = choose|i: int| 0 <= i < old_places.len() && #[trigger] old_places[i] == x;
                                assert(places[i] == x);
                            }
                        }
                        done = done - 1;
                        assert(shots@ =~= before.take(done));
                    }
                },
                None => {},
            }
        }
        proof {
            let records = aged(records_of(before), dt);
            assert(done == 0) by {
                assert(before.take(done).len() == done);
            }
            assert forall|i: int, j: int| 0 <= i < j < kept@.len() implies (#[trigger] kept@[i]).0 != (#[trigger] kept@[j]).0 by {
                assert(places[j] < places[i]);
                assert(before[places[j]].0 != before[places[i]].0);
            }
            assert forall|shot: ShotId| #[trigger] records.contains_key(shot) <==> listed(kept@, shot) by {
                if records.contains_key(shot) {
                    assert(records_of(before).contains_key(shot));
                    let x = choose|x: int| 0 <= x < before.len() && (#[trigger] before[x]).0 == shot;
                    assert(survives(before[x].1.record(), dt));
                    let i = choose|i: int| 0 <= i < places.len() && #[trigger] places[i] == x;
                    assert(kept@[i].0 == shot);
                }
                if listed(kept@, shot) {
                    let i = choose|i: int| 0 <= i < kept@.len() && (#[trigger] kept@[i]).0 == shot;
                    assert(records_of(before)[before[places[i]].0] == before[places[i]].1.record());
                }
            }
            assert forall|i: int| 0 <= i < kept@.len() implies records[(#[trigger] kept@[i]).0] == kept@[i].1.record() by {
                assert(records_of(before)[before[places[i]].0] == before[places[i]].1.record());
                assert(listed(kept@, kept@[i].0));
                assert(records.contains_key(kept@[i].0));
            }
            lemma_records_are(kept@, records);
            assert forall|i: int| 0 <= i < kept@.len() implies record_bounded((#[trigger] kept@[i]).1.record()) by {
                assert(record_bounded(before[places[i]].1.record()));
            }
            lemma_bounded(kept@);
        }
        self.shots = kept;
    }
}

impl Default for SanctionedShots {
    /// The empty buffer.
    fn default() -> (shots: SanctionedShots)
        ensures
            shots@ == Map::<ShotId, ShotRecord>::empty(),
    {
        SanctionedShots::new()
    }
}

/// The same bounce again is refused as a duplicate and leaves the buffer as it is.
pub proof fn law_insert_is_idempotent(records: Map<ShotId, ShotRecord>, shot: ShotId, bounce: SanctionedBounce)
    requires
        bounce_verdict(records, shot, bounce) != SanctionedBounceInsert::Capacity,
    ensures
        bounce_verdict(with_bounce(records, shot, bounce), shot, bounce) == SanctionedBounceInsert::Duplicate,
        with_bounce(with_bounce(records, shot, bounce), shot, bounce) == with_bounce(records, shot, bounce),
{
    let once = with_bounce(records, shot, bounce);
    assert(once.contains_key(shot));
    if bounce_verdict(records, shot, bounce) == SanctionedBounceInsert::Inserted {
        let bounces = once[shot].bounces;
        assert(bounces[bounces.len() - 1].sequence == bounce.sequence);
    }
    assert(has_sequence(once[shot].bounces, bounce.sequence));
    assert(touched(once, shot) =~= once);
}

/// The first terminal holds whatever comes after it.
pub proof fn law_first_terminal_holds(
    records: Map<ShotId, ShotRecord>,
    shot: ShotId,
    first: SanctionedTerminal,
    later: SanctionedTerminal,
)
    requires
        !records.contains_key(shot) || records[shot].terminal is None,
    ensures
        with_terminal(records, shot, first)[shot].terminal == Some(first),
        with_terminal(with_terminal(records, shot, first), shot, later) == with_terminal(records, shot, first),
{
    let once = with_terminal(records, shot, first);
    assert(once.contains_key(shot));
    assert(touched(once, shot) =~= once);
}

/// Touching one shot leaves every other shot as it was, the one that goes aside.
pub proof fn law_other_shots_are_kept(records: Map<ShotId, ShotRecord>, shot: ShotId, other: ShotId)
    requires
        records.contains_key(other),
        other != shot,
        records.dom().len() < MAX_SHOTS || records.contains_key(shot) || !is_oldest(records, other),
        exists|oldest: ShotId| is_oldest(records, oldest),
    ensures
        touched(records, shot).contains_key(other),
        touched(records, shot)[other] == records[other],
{
    let gone = choose|oldest: ShotId| is_oldest(records, oldest);
    assert(is_oldest(records, gone));
}

/// How many ticks lie between two ticks of a wrapping clock; none where the second
/// is the later one.
pub open spec fn ticks_between(now: u32, then: u32) -> Option<u32> {
    let gap = (now - then) % 0x1_0000_0000;
    if gap < 0x8000_0000 {
        Some(gap as u32)
    } else {
        None
    }
}

/// The ticks elapsed since `then`, across the wrap of the clock.
pub fn elapsed_ticks(now: u32, then: u32) -> (gap: Option<u32>)
    ensures
        gap == ticks_between(now, then),
{
    let gap: u32 = now.wrapping_sub(then);
    if gap < 0x8000_0000 {
        Some(gap)
    } else {
        None
    }
}

/// One stretch of free flight from a sanctioned bounce.
#[derive(Clone, Copy, Debug, PartialEq, Eq)]
pub struct SanctionedFlightSegment {
    pub bounce: SanctionedBounce,
    /// The ticks to integrate from the bounce.
    pub steps: u32,
}

/// The flight through every outcome known by the present: stretches to integrate in
/// order, and the terminal that ends them, if one does.
#[derive(Clone, Debug, PartialEq)]
pub struct SanctionedCatchUp {
    pub segments: Vec<SanctionedFlightSegment>,
    pub terminal: Option<SanctionedTerminal>,
}

/// Why a chain of outcomes cannot be flown.
#[derive(Clone, Copy, Debug, PartialEq, Eq, Structural)]
pub enum SanctionedCatchUpReject {
    IntervalBeyondCosmeticHorizon,
    ChainBeyondCosmeticHorizon,
}

impl SanctionedCatchUpReject {
    pub fn trace_reason(self) -> (reason: &'static str)
        ensures
            reason@ == match self {
                SanctionedCatchUpReject::IntervalBeyondCosmeticHorizon => "interval_beyond_cosmetic_horizon"@,
                SanctionedCatchUpReject::ChainBeyondCosmeticHorizon => "chain_beyond_cosmetic_horizon"@,
            },
    {
        match self {
            SanctionedCatchUpReject::IntervalBeyondCosmeticHorizon => "interval_beyond_cosmetic_horizon",
            SanctionedCatchUpReject::ChainBeyondCosmeticHorizon => "chain_beyond_cosmetic_horizon",
        }
    }
}

/// What comes next in a chain.
#[derive(Clone, Copy, Debug, PartialEq, Eq)]
pub enum NextOutcome {
    /// A bounce, so many ticks on.
    Bounce(SanctionedBounce, u32),
    /// The terminal, so many ticks on.
    Terminal(SanctionedTerminal, u32),
    /// Nothing that is due yet.
    Nothing,
}

/// An outcome at `tick` is due by the present, so many ticks after the bounce.
pub open spec fn due_after(present: u32, tick: u32, since: u32) -> Option<u32> {
    if ticks_between(present, tick) is Some {
        ticks_between(tick, since)
    } else {
        None
    }
}

/// What comes after `bounce`, `consumed` bounces being consumed: the bounce or the
/// terminal that is due, the terminal where both fall on one tick or it comes first.
#[verifier::opaque]
pub open spec fn next_outcome(
    records: Map<ShotId, ShotRecord>,
    shot: ShotId,
    consumed: nat,
    since: u32,
    present: Option<u32>,
) -> NextOutcome {
    match present {
        None => NextOutcome::Nothing,
        Some(present) => {
            let bounce = match next_bounce(records, shot, consumed) {
                Some(next) => match due_after(present, next.bounce_tick, since) {
                    Some(gap) => NextOutcome::Bounce(next, gap),
                    None => NextOutcome::Nothing,
                },
                None => NextOutcome::Nothing,
            };
            let terminal = match due_terminal(records, shot, consumed) {
                Some(terminal) => match due_after(present, terminal.impact_tick, since) {
                    Some(gap) => NextOutcome::Terminal(terminal, gap),
                    None => NextOutcome::Nothing,
                },
                None => NextOutcome::Nothing,
            };
            match (bounce, terminal) {
                (NextOutcome::Bounce(_, bounce_gap), NextOutcome::Terminal(_, terminal_gap)) => if terminal_gap
                    <= bounce_gap {
                    terminal
                } else {
                    bounce
                },
                (NextOutcome::Bounce(_, _), _) => bounce,
                (_, NextOutcome::Terminal(_, _)) => terminal,
                (_, _) => NextOutcome::Nothing,
            }
        },
    }
}

/// The ticks to integrate before an outcome so many ticks on: all but the one it resolves in.
pub open spec fn steps_before(gap: u32) -> u32 {
    if gap == 0 {
        0
    } else {
        (gap - 1) as u32
    }
}

/// The ticks since a bounce: to the present, or the age given where the present is
/// not known or lies before it.
pub open spec fn age_of(since: u32, present: Option<u32>, fallback_age: u32) -> u32 {
    match present {
        Some(present) => match ticks_between(present, since) {
            Some(age) => age,
            None => fallback_age,
        },
        None => fallback_age,
    }
}

/// The interval to what comes next, and the ticks of it to integrate.
pub open spec fn stretch(next: NextOutcome, since: u32, present: Option<u32>, fallback_age: u32) -> (u32, u32) {
    match next {
        NextOutcome::Bounce(_, gap) => (gap, steps_before(gap)),
        NextOutcome::Terminal(_, gap) => (gap, steps_before(gap)),
        NextOutcome::Nothing => (age_of(since, present, fallback_age), age_of(since, present, fallback_age)),
    }
}

/// A further segment of so many steps would go past the horizon.
pub open spec fn overruns(ticks: int, segments: int, steps: u32) -> bool {
    segments >= MAX_COSMETIC_CATCH_UP_TICKS || ticks + steps > MAX_COSMETIC_CATCH_UP_TICKS
}

/// The flight from `bounce` on, so many ticks and segments being spent.
pub open spec fn flight_from(
    records: Map<ShotId, ShotRecord>,
    shot: ShotId,
    consumed: nat,
    bounce: SanctionedBounce,
    present: Option<u32>,
    fallback_age: u32,
    ticks: int,
    segments: int,
) -> Result<(Seq<SanctionedFlightSegment>, Option<SanctionedTerminal>), SanctionedCatchUpReject>
    decreases MAX_COSMETIC_CATCH_UP_TICKS - segments,
{
    let next = next_outcome(records, shot, consumed, bounce.bounce_tick, present);
    let (gap, steps) = stretch(next, bounce.bounce_tick, present, fallback_age);
    if gap > MAX_COSMETIC_CATCH_UP_TICKS {
        Err(SanctionedCatchUpReject::IntervalBeyondCosmeticHorizon)
    } else if overruns(ticks, segments, steps) {
        Err(SanctionedCatchUpReject::ChainBeyondCosmeticHorizon)
    } else {
        let segment = SanctionedFlightSegment { bounce, steps };
        match next {
            NextOutcome::Bounce(after, _) => match flight_from(
                records,
                shot,
                consumed + 1,
                after,
                present,
                fallback_age,
                ticks + steps,
                segments + 1,
            ) {
                Ok((rest, terminal)) => Ok((seq![segment] + rest, terminal)),
                Err(reject) => Err(reject),
            },
            NextOutcome::Terminal(terminal, _) => Ok((seq![segment], Some(terminal))),
            NextOutcome::Nothing => Ok((seq![segment], None)),
        }
    }
}

/// The ticks of the first `n` segments.
pub open spec fn ticks_of(segments: Seq<SanctionedFlightSegment>, n: int) -> int
    decreases n,
{
    if n <= 0 {
        0
    } else {
        ticks_of(segments, n - 1) + segments[n - 1].steps
    }
}

pub(crate) proof fn lemma_ticks_of(first: SanctionedFlightSegment, rest: Seq<SanctionedFlightSegment>, n: int)
    requires
        0 <= n <= rest.len(),
    ensures
        ticks_of(seq![first] + rest, n + 1) == first.steps + ticks_of(rest, n),
    decreases n,
{
    let all = seq![first] + rest;
    if n > 0 {
        lemma_ticks_of(first, rest, n - 1);
        assert(all[n] == rest[n - 1]);
    } else {
        assert(all[0] == first);
        assert(ticks_of(all, 1) == ticks_of(all, 0) + all[0].steps);
    }
}

/// However many outcomes a shot has, its flight has at most as many segments, and
/// integrates at most as many ticks, as the horizon allows.
pub proof fn law_flight_is_bounded(
    records: Map<ShotId, ShotRecord>,
    shot: ShotId,
    consumed: nat,
    bounce: SanctionedBounce,
    present: Option<u32>,
    fallback_age: u32,
    ticks: int,
    segments: int,
)
    requires
        0 <= ticks <= MAX_COSMETIC_CATCH_UP_TICKS,
        0 <= segments <= MAX_COSMETIC_CATCH_UP_TICKS,
    ensures
        flight_from(records, shot, consumed, bounce, present, fallback_age, ticks, segments) matches Ok((flown, _)) ==> {
            &&& 1 <= flown.len() <= MAX_COSMETIC_CATCH_UP_TICKS - segments
            &&& ticks_of(flown, flown.len() as int) <= MAX_COSMETIC_CATCH_UP_TICKS - ticks
            &&& flown[0].bounce == bounce
        },
    decreases MAX_COSMETIC_CATCH_UP_TICKS - segments,
{
    match next_outcome(records, shot, consumed, bounce.bounce_tick, present) {
        NextOutcome::Bounce(after, gap) => {
            let steps = steps_before(gap);
            if gap <= MAX_COSMETIC_CATCH_UP_TICKS && !overruns(ticks, segments, steps) {
                law_flight_is_bounded(
                    records,
                    shot,
                    consumed + 1,
                    after,
                    present,
                    fallback_age,
                    ticks + steps,
                    segments + 1,
                );
                match flight_from(
                    records,
                    shot,
                    consumed + 1,
                    after,
                    present,
                    fallback_age,
                    ticks + steps,
                    segments + 1,
                ) {
                    Ok((rest, _)) => {
                        lemma_ticks_of(SanctionedFlightSegment { bounce, steps }, rest, rest.len() as int);
                    },
                    Err(_) => {},
                }
            }
        },
        NextOutcome::Terminal(_, gap) => {
            let one = seq![SanctionedFlightSegment { bounce, steps: steps_before(gap) }];
            assert(ticks_of(one, 1) == ticks_of(one, 0) + one[0].steps);
        },
        NextOutcome::Nothing => {
            let one = seq![
                SanctionedFlightSegment { bounce, steps: age_of(bounce.bounce_tick, present, fallback_age) },
            ];
            assert(ticks_of(one, 1) == ticks_of(one, 0) + one[0].steps);
        },
    }
}

/// Reserves one segment's work before it is flown.
fn reserve_sanctioned_catch_up_work(ticks: &mut u32, segments: &mut u32, steps: u32) -> (result: Result<
    (),
    SanctionedCatchUpReject,
>)
    requires
        *old(ticks) <= MAX_COSMETIC_CATCH_UP_TICKS,
    ensures
        match result {
            Ok(_) => !overruns(*old(ticks) as int, *old(segments) as int, steps) && *final(ticks) == *old(ticks) + steps
                && *final(segments) == *old(segments) + 1,
            Err(reject) => overruns(*old(ticks) as int, *old(segments) as int, steps) && reject
                == SanctionedCatchUpReject::ChainBeyondCosmeticHorizon && *final(ticks) == *old(ticks)
                && *final(segments) == *old(segments),
        },
{
    if *segments >= MAX_COSMETIC_CATCH_UP_TICKS || steps > MAX_COSMETIC_CATCH_UP_TICKS - *ticks {
        return Err(SanctionedCatchUpReject::ChainBeyondCosmeticHorizon);
    }
    *ticks = *ticks + steps;
    *segments = *segments + 1;
    Ok(())
}

fn read_next(sanctioned: &SanctionedShots, shot: ShotId, consumed: usize, since: u32, present: Option<u32>) -> (next:
    NextOutcome)
    ensures
        next == next_outcome(sanctioned@, shot, consumed as nat, since, present),
{
    reveal(next_outcome);
    let now: u32 = match present {
        Some(now) => now,
        None => {
            return NextOutcome::Nothing;
        },
    };
    let bounce: Option<(SanctionedBounce, u32)> = match sanctioned.next(shot, consumed) {
        Some(next) => if elapsed_ticks(now, next.bounce_tick).is_some() {
            match elapsed_ticks(next.bounce_tick, since) {
                Some(gap) => Some((next, gap)),
                None => None,
            }
        } else {
            None
        },
        None => None,
    };
    let terminal: Option<(SanctionedTerminal, u32)> = match sanctioned.terminal(shot, consumed) {
        Some(terminal) => if elapsed_ticks(now, terminal.impact_tick).is_some() {
            match elapsed_ticks(terminal.impact_tick, since) {
                Some(gap) => Some((terminal, gap)),
                None => None,
            }
        } else {
            None
        },
        None => None,
    };
    match (bounce, terminal) {
        (Some((next, bounce_gap)), Some((terminal, terminal_gap))) => if terminal_gap <= bounce_gap {
            NextOutcome::Terminal(terminal, terminal_gap)
        } else {
            NextOutcome::Bounce(next, bounce_gap)
        },
        (Some((next, gap)), None) => NextOutcome::Bounce(next, gap),
        (None, Some((terminal, gap))) => NextOutcome::Terminal(terminal, gap),
        (None, None) => NextOutcome::Nothing,
    }
}

fn read_stretch(next: NextOutcome, since: u32, present: Option<u32>, fallback_age: u32) -> (read: (u32, u32))
    ensures
        read == stretch(next, since, present, fallback_age),
        next matches NextOutcome::Bounce(_, gap) ==> read.0 == gap && (gap == 0 ==> read.1 == 0) && (gap > 0 ==> read.1 + 1
            == gap),
        next matches NextOutcome::Terminal(_, gap) ==> read.0 == gap && (gap == 0 ==> read.1 == 0) && (gap > 0 ==> read.1
            + 1 == gap),
{
    match next {
        NextOutcome::Bounce(_, gap) => (gap, gap.saturating_sub(1)),
        NextOutcome::Terminal(_, gap) => (gap, gap.saturating_sub(1)),
        NextOutcome::Nothing => {
            let age: u32 = match present {
                Some(now) => match elapsed_ticks(now, since) {
                    Some(age) => age,
                    None => fallback_age,
                },
                None => fallback_age,
            };
            (age, age)
        },
    }
}

/// The flight so far, and the flight from here on.
spec fn joined(
    done: Seq<SanctionedFlightSegment>,
    rest: Result<(Seq<SanctionedFlightSegment>, Option<SanctionedTerminal>), SanctionedCatchUpReject>,
) -> Result<(Seq<SanctionedFlightSegment>, Option<SanctionedTerminal>), SanctionedCatchUpReject> {
    match rest {
        Ok((segments, terminal)) => Ok((done + segments, terminal)),
        Err(reject) => Err(reject),
    }
}

/// Plans the flight from a first bounce through every outcome known by the present.
/// Each stretch stops before the next known outcome, and the whole is refused where
/// one interval or all of them together lie past the horizon: no partial flight.
pub fn catch_up_sanctioned_chain(
    shot: ShotId,
    consumed: usize,
    first: SanctionedBounce,
    present: Option<u32>,
    fallback_age: u32,
    sanctioned: &SanctionedShots,
) -> (result: Result<SanctionedCatchUp, SanctionedCatchUpReject>)
    requires
        consumed + MAX_COSMETIC_CATCH_UP_TICKS < usize::MAX,
    ensures
        match result {
            Ok(flight) => flight_from(sanctioned@, shot, (consumed + 1) as nat, first, present, fallback_age, 0, 0) == Ok::<
                (Seq<SanctionedFlightSegment>, Option<SanctionedTerminal>),
                SanctionedCatchUpReject,
            >((flight.segments@, flight.terminal)) && 1 <= flight.segments@.len() <= MAX_COSMETIC_CATCH_UP_TICKS
                && ticks_of(flight.segments@, flight.segments@.len() as int) <= MAX_COSMETIC_CATCH_UP_TICKS
                && chain::follows_bounces(
                flight.segments@,
                chain::record_of(sanctioned@, shot),
                consumed as int,
                first,
                present,
            ) && chain::ends_rightly(
                flight.segments@,
                flight.terminal,
                chain::record_of(sanctioned@, shot),
                consumed as int,
                present,
                fallback_age,
            ) && chain::is_within(flight.segments@, flight.terminal, 0, 0),
            Err(reject) => flight_from(sanctioned@, shot, (consumed + 1) as nat, first, present, fallback_age, 0, 0) == Err::<
                (Seq<SanctionedFlightSegment>, Option<SanctionedTerminal>),
                SanctionedCatchUpReject,
            >(reject),
        },
{
    let ghost whole = flight_from(sanctioned@, shot, (consumed + 1) as nat, first, present, fallback_age, 0, 0);
    proof {
        law_flight_is_bounded(sanctioned@, shot, (consumed + 1) as nat, first, present, fallback_age, 0, 0);
        use_type_invariant(sanctioned);
        lemma_bounded(sanctioned.shots@);
        chain::law_every_tick_is_flown_once(
            sanctioned@,
            shot,
            (consumed + 1) as nat,
            first,
            present,
            fallback_age,
            0,
            0,
        );
    }
    let mut flown: Vec<SanctionedFlightSegment> = Vec::new();
    let mut bounce: SanctionedBounce = first;
    let mut following: usize = consumed + 1;
    let mut ticks: u32 = 0;
    let mut segments: u32 = 0;
    assert(joined(flown@, whole) == whole) by {
        match whole {
            Ok((s, t)) => {
                assert(flown@ + s =~= s);
            },
            Err(_) => {},
        }
    }
    loop
        invariant
            consumed + MAX_COSMETIC_CATCH_UP_TICKS < usize::MAX,
            following == consumed + 1 + segments,
            ticks <= MAX_COSMETIC_CATCH_UP_TICKS,
            segments <= MAX_COSMETIC_CATCH_UP_TICKS,
            whole matches Ok((s, _)) ==> 1 <= s.len() <= MAX_COSMETIC_CATCH_UP_TICKS && ticks_of(s, s.len() as int)
                <= MAX_COSMETIC_CATCH_UP_TICKS,
            whole matches Ok((s, t)) ==> {
                &&& chain::follows_bounces(s, chain::record_of(sanctioned@, shot), consumed as int, first, present)
                &&& chain::ends_rightly(s, t, chain::record_of(sanctioned@, shot), consumed as int, present, fallback_age)
                &&& chain::is_within(s, t, 0, 0)
            },
            whole == flight_from(sanctioned@, shot, (consumed + 1) as nat, first, present, fallback_age, 0, 0),
            whole == joined(
                flown@,
                flight_from(
                    sanctioned@,
                    shot,
                    following as nat,
                    bounce,
                    present,
                    fallback_age,
                    ticks as int,
                    segments as int,
                ),
            ),
        decreases MAX_COSMETIC_CATCH_UP_TICKS - segments,
    {
        let next: NextOutcome = read_next(sanctioned, shot, following, bounce.bounce_tick, present);
        let (gap, steps): (u32, u32) = read_stretch(next, bounce.bounce_tick, present, fallback_age);
        if gap > MAX_COSMETIC_CATCH_UP_TICKS {
            return Err(SanctionedCatchUpReject::IntervalBeyondCosmeticHorizon);
        }
        match reserve_sanctioned_catch_up_work(&mut ticks, &mut segments, steps) {
            Ok(_) => {},
            Err(reject) => {
                return Err(reject);
            },
        }
        let ghost before = flown@;
        let segment: SanctionedFlightSegment = SanctionedFlightSegment { bounce, steps };
        flown.push(segment);
        assert(flown@ =~= before + seq![segment]);
        match next {
            NextOutcome::Bounce(after, _) => {
                proof {
                    let rest = flight_from(
                        sanctioned@,
                        shot,
                        (following + 1) as nat,
                        after,
                        present,
                        fallback_age,
                        ticks as int,
                        segments as int,
                    );
                    match rest {
                        Ok((s, _)) => {
                            assert(before + (seq![segment] + s) =~= flown@ + s);
                        },
                        Err(_) => {},
                    }
                }
                bounce = after;
                following = following + 1;
            },
            NextOutcome::Terminal(terminal, _) => {
                return Ok(SanctionedCatchUp { segments: flown, terminal: Some(terminal) });
            },
            NextOutcome::Nothing => {
                return Ok(SanctionedCatchUp { segments: flown, terminal: None });
            },
        }
    }
}

/// The velocity a stretch starts with: along the bounce's direction at its speed, or
/// the velocity carried into it where the direction has no length to go by.
pub open spec fn seeded(bounce: SanctionedBounce, carried: Vec3) -> Vec3 {
    let length = bounce.direction.norm();
    if length.finite() && F32::zero().below(length) {
        bounce.direction.shared(length).scaled(bounce.speed)
    } else {
        carried
    }
}

pub fn seed_velocity(bounce: SanctionedBounce, carried: Vec3) -> (velocity: Vec3)
    ensures
        velocity == seeded(bounce, carried),
{
    let length: F32 = bounce.direction.length();
    if length.is_finite() && F32::zero().lt(length) {
        bounce.direction.over(length).times(bounce.speed)
    } else {
        carried
    }
}

impl SanctionedCatchUp {
    /// Where the flight ends: at the terminal, or where the last stretch was flown to.
    pub fn position(&self, flown: Vec3) -> (position: Vec3)
        ensures
            position == match self.terminal {
                Some(terminal) => terminal.position,
                None => flown,
            },
    {
        match self.terminal {
            Some(terminal) => terminal.position,
            None => flown,
        }
    }
}

} // verus!
