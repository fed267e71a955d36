//! The union field: which shells are open along the ray, and the largest factor
//! among their volumes.

use crate::ballistics::walk::table::VolumeTable;
use crate::ballistics::walk::topology;
use crate::ballistics::walk::topology::{Crossing, Toggle};
use crate::ballistics::walk::vocabulary::{Entity, ShellKey, WalkError};
use crate::float::{F32, F64};
use crate::vector::Vec3;
use vstd::prelude::*;

verus! {

/// Whether the shell is open after the first `i` crossings: its latest crossing
/// went in, or it has none and was declared.
pub open spec fn is_open(toggles: Seq<Toggle>, seeds: Seq<ShellKey>, i: int, key: ShellKey) -> bool
    decreases i,
{
    if i <= 0 {
        seeds.contains(key)
    } else if toggles[i - 1].key == key {
        toggles[i - 1].enters
    } else {
        is_open(toggles, seeds, i - 1, key)
    }
}

/// The distance of the shell's latest among the first `i` crossings; the origin if it has none.
pub open spec fn opened_at(toggles: Seq<Toggle>, i: int, key: ShellKey) -> F64
    decreases i,
{
    if i <= 0 {
        F64::zero()
    } else if toggles[i - 1].key == key {
        toggles[i - 1].t
    } else {
        opened_at(toggles, i - 1, key)
    }
}

/// What can be wrong with a crossing.
#[derive(Clone, Copy, Debug, PartialEq, Eq, Structural)]
pub enum Fault {
    /// Another contact of the shell lies at the same distance.
    Twin,
    /// The table does not carry the volume.
    Unknown,
    /// It enters a shell that is open.
    AlreadyInside,
    /// It leaves a shell that is not open.
    NotInside,
}

/// Two crossings of one shell at one distance.
pub open spec fn twins(a: Toggle, b: Toggle) -> bool {
    a.key == b.key && a.t == b.t
}

/// What is wrong with crossing `i`, if anything.
pub open spec fn fault_at(
    toggles: Seq<Toggle>,
    seeds: Seq<ShellKey>,
    factors: Map<Entity, F32>,
    i: int,
) -> Option<Fault> {
    let toggle = toggles[i];
    if (i > 0 && twins(toggles[i - 1], toggle)) || (i + 1 < toggles.len() && twins(toggle, toggles[i + 1])) {
        Some(Fault::Twin)
    } else if toggle.enters && !factors.contains_key(toggle.key.volume) {
        Some(Fault::Unknown)
    } else if toggle.enters && is_open(toggles, seeds, i, toggle.key) {
        Some(Fault::AlreadyInside)
    } else if !toggle.enters && !is_open(toggles, seeds, i, toggle.key) {
        Some(Fault::NotInside)
    } else {
        None
    }
}

/// Nothing is wrong with the first `i` crossings.
pub open spec fn sound(toggles: Seq<Toggle>, seeds: Seq<ShellKey>, factors: Map<Entity, F32>, i: int) -> bool {
    forall|j: int| 0 <= j < i ==> (#[trigger] fault_at(toggles, seeds, factors, j)) is None
}

/// The error that reports a fault.
pub open spec fn reports(error: WalkError, fault: Fault, sample: usize, toggle: Toggle) -> bool {
    match error {
        WalkError::UnrepresentableChord { sample: s, key, t, triangles } => fault == Fault::Twin && s == sample && key
            == toggle.key && t == toggle.t && triangles@ == toggle.triangles,
        WalkError::UnknownVolume { volume } => fault == Fault::Unknown && volume == toggle.key.volume,
        WalkError::UnexpectedEntry { sample: s, key, t, triangles } => fault == Fault::AlreadyInside && s == sample
            && key == toggle.key && t == toggle.t && triangles@ == toggle.triangles,
        WalkError::UnexpectedExit { sample: s, key, t, triangles } => fault == Fault::NotInside && s == sample && key
            == toggle.key && t == toggle.t && triangles@ == toggle.triangles,
        _ => false,
    }
}

/// A stretch of one shell's presence, half-open.
#[derive(Clone, Copy, Debug, PartialEq, Eq, Structural)]
pub struct Interval {
    pub key: ShellKey,
    pub open: F64,
    pub close: F64,
}

/// The stretches that the first `i` crossings close, in the order they close.
pub open spec fn closed_by(toggles: Seq<Toggle>, i: int) -> Seq<Interval>
    decreases i,
{
    if i <= 0 {
        Seq::empty()
    } else if toggles[i - 1].enters {
        closed_by(toggles, i - 1)
    } else {
        closed_by(toggles, i - 1).push(
            Interval {
                key: toggles[i - 1].key,
                open: opened_at(toggles, i - 1, toggles[i - 1].key),
                close: toggles[i - 1].t,
            },
        )
    }
}

/// Some shell of the volume is open after the first `i` crossings.
pub open spec fn volume_open(toggles: Seq<Toggle>, seeds: Seq<ShellKey>, i: int, volume: Entity) -> bool {
    exists|key: ShellKey| key.volume == volume && #[trigger] is_open(toggles, seeds, i, key)
}

/// The largest factor among the first `n` rows whose volume is open after `i` crossings.
pub open spec fn peak_of(
    rows: Seq<(Entity, F32)>,
    toggles: Seq<Toggle>,
    seeds: Seq<ShellKey>,
    i: int,
    n: int,
) -> F32
    decreases n,
{
    if n <= 0 {
        F32::zero()
    } else {
        let rest = peak_of(rows, toggles, seeds, i, n - 1);
        if volume_open(toggles, seeds, i, rows[n - 1].0) {
            rest.larger(rows[n - 1].1)
        } else {
            rest
        }
    }
}

/// The field after the first `i` crossings.
pub open spec fn peak(rows: Seq<(Entity, F32)>, toggles: Seq<Toggle>, seeds: Seq<ShellKey>, i: int) -> F32 {
    peak_of(rows, toggles, seeds, i, rows.len() as int)
}

/// Where the crossings at the distance of crossing `i` end.
pub open spec fn batch_end(toggles: Seq<Toggle>, i: int) -> int
    decreases toggles.len() - i,
{
    if 0 <= i && i + 1 < toggles.len() && toggles[i].t == toggles[i + 1].t {
        batch_end(toggles, i + 1)
    } else {
        i + 1
    }
}

pub proof fn lemma_batch_end(toggles: Seq<Toggle>, i: int)
    requires
        0 <= i < toggles.len(),
    ensures
        i < batch_end(toggles, i) <= toggles.len(),
        forall|x: int| i <= x < batch_end(toggles, i) ==> (#[trigger] toggles[x]).t == toggles[i].t,
        batch_end(toggles, i) < toggles.len() ==> toggles[batch_end(toggles, i)].t != toggles[i].t,
    decreases toggles.len() - i,
{
    if i + 1 < toggles.len() && toggles[i].t == toggles[i + 1].t {
        lemma_batch_end(toggles, i + 1);
    }
}

/// The sum, in order, of the normals among crossings `i..j` that go this way; none if none does.
pub open spec fn batch_normal(toggles: Seq<Toggle>, enters: bool, i: int, j: int) -> Option<Vec3>
    decreases j - i,
{
    if j <= i {
        None
    } else {
        let rest = batch_normal(toggles, enters, i, j - 1);
        if toggles[j - 1].enters == enters {
            match rest {
                Some(sum) => Some(sum.sum(toggles[j - 1].normal)),
                None => Some(Vec3::zero().sum(toggles[j - 1].normal)),
            }
        } else {
            rest
        }
    }
}

/// A change of the field.
#[derive(Clone, Copy, Debug, PartialEq, Eq, Structural)]
pub struct Transition {
    pub t: F64,
    pub before: F32,
    pub after: F32,
    pub entry_normal: Option<Vec3>,
    pub exit_normal: Option<Vec3>,
}

/// The changes that the crossings from `i` on make. Crossings at one distance
/// count as one: the field is read before all of them and after all of them.
pub open spec fn transitions_from(
    rows: Seq<(Entity, F32)>,
    toggles: Seq<Toggle>,
    seeds: Seq<ShellKey>,
    i: int,
) -> Seq<Transition>
    decreases toggles.len() - i,
    when 0 <= i
    via batch_end_decreases
{
    if i >= toggles.len() {
        Seq::empty()
    } else {
        let j = batch_end(toggles, i);
        let before = peak(rows, toggles, seeds, i);
        let after = peak(rows, toggles, seeds, j);
        let rest = transitions_from(rows, toggles, seeds, j);
        if before == after {
            rest
        } else {
            seq![
                Transition {
                    t: toggles[i].t,
                    before,
                    after,
                    entry_normal: batch_normal(toggles, true, i, j),
                    exit_normal: batch_normal(toggles, false, i, j),
                },
            ] + rest
        }
    }
}

#[via_fn]
proof fn batch_end_decreases(
    rows: Seq<(Entity, F32)>,
    toggles: Seq<Toggle>,
    seeds: Seq<ShellKey>,
    i: int,
) {
    if 0 <= i < toggles.len() {
        lemma_batch_end(toggles, i);
    }
}

/// The open shells, each once, with where each opened.
spec fn tracks(open: Seq<(ShellKey, F64)>, toggles: Seq<Toggle>, seeds: Seq<ShellKey>, i: int) -> bool {
    &&& forall|a: int, b: int| 0 <= a < b < open.len() ==> (#[trigger] open[a]).0 != (#[trigger] open[b]).0
    &&& forall|key: ShellKey| #[trigger] is_open(toggles, seeds, i, key) <==> listed(open, key)
    &&& forall|a: int| 0 <= a < open.len() ==> (#[trigger] open[a]).1 == opened_at(toggles, i, open[a].0)
}

spec fn listed(open: Seq<(ShellKey, F64)>, key: ShellKey) -> bool {
    exists|a: int| 0 <= a < open.len() && (#[trigger] open[a]).0 == key
}

fn find(open: &Vec<(ShellKey, F64)>, key: ShellKey) -> (place: Option<usize>)
    ensures
        match place {
            Some(a) => a < open@.len() && open@[a as int].0 == key,
            None => !listed(open@, key),
        },
{
    let mut a: usize = 0;
    while a < open.len()
        invariant
            a <= open.len(),
            forall|b: int| 0 <= b < a ==> (#[trigger] open@[b]).0 != key,
        decreases open.len() - a,
    {
        if open[a].0 == key {
            return Some(a);
        }
        a = a + 1;
    }
    None
}

/// The largest factor among the open shells' volumes.
fn read_peak(
    open: &Vec<(ShellKey, F64)>,
    rows: &Vec<(Entity, F32)>,
    Ghost(toggles): Ghost<Seq<Toggle>>,
    Ghost(seeds): Ghost<Seq<ShellKey>>,
    Ghost(i): Ghost<int>,
) -> (level: F32)
    requires
        tracks(open@, toggles, seeds, i),
    ensures
        level == peak(rows@, toggles, seeds, i),
{
    let mut level: F32 = F32::zero();
    let mut n: usize = 0;
    while n < rows.len()
        invariant
            n <= rows.len(),
            tracks(open@, toggles, seeds, i),
            level == peak_of(rows@, toggles, seeds, i, n as int),
        decreases rows.len() - n,
    {
        let (volume, factor) = rows[n];
        let mut present: bool = false;
        let mut a: usize = 0;
        while a < open.len() && !present
            invariant
                a <= open.len(),
                present == (exists|b: int| 0 <= b < a && (#[trigger] open@[b]).0.volume == volume),
            decreases open.len() - a,
        {
            if open[a].0.volume == volume {
                present = true;
                assert(open@[a as int].0.volume == volume);
            }
            a = a + 1;
        }
        proof {
            if present {
                let b = choose|b: int| 0 <= b < a && (#[trigger] open@[b]).0.volume == volume;
                assert(listed(open@, open@[b].0));
                assert(is_open(toggles, seeds, i, open@[b].0));
            } else if volume_open(toggles, seeds, i, volume) {
                let key = choose|key: ShellKey| key.volume == volume && #[trigger] is_open(toggles, seeds, i, key);
                let b = choose|b: int| 0 <= b < open@.len() && (#[trigger] open@[b]).0 == key;
                assert(open@[b].0.volume == volume);
            }
        }
        if present {
            level = level.max(factor);
        }
        n = n + 1;
    }
    level
}

/// Opens the declared shells. Refuses the first whose volume the table does not carry.
fn declare(seeds: &Vec<ShellKey>, volumes: &VolumeTable, Ghost(toggles): Ghost<Seq<Toggle>>) -> (result: Result<
    Vec<(ShellKey, F64)>,
    WalkError,
>)
    ensures
        match result {
            Ok(open) => tracks(open@, toggles, seeds@, 0) && forall|i: int|
                0 <= i < seeds@.len() ==> volumes@.contains_key((#[trigger] seeds@[i]).volume),
            Err(error) => undeclared(seeds@, volumes@, error),
        },
{
    let mut open: Vec<(ShellKey, F64)> = Vec::new();
    let mut next: usize = 0;
    while next < seeds.len()
        invariant
            next <= seeds.len(),
            forall|a: int, b: int| 0 <= a < b < open@.len() ==> (#[trigger] open@[a]).0 != (#[trigger] open@[b]).0,
            forall|a: int| 0 <= a < open@.len() ==> (#[trigger] open@[a]).1 == F64::zero() && seeds@.contains(open@[a].0),
            forall|i: int| 0 <= i < next ==> listed(open@, #[trigger] seeds@[i]) && volumes@.contains_key(seeds@[i].volume),
        decreases seeds.len() - next,
    {
        let key: ShellKey = seeds[next];
        match volumes.factor(key.volume) {
            Ok(_) => {},
            Err(error) => {
                return Err(error);
            },
        }
        let ghost before = open@;
        match find(&open, key) {
            Some(_) => {},
            None => {
                open.push((key, F64::zero()));
            },
        }
        proof {
            assert forall|i: int| 0 <= i < next + 1 implies listed(open@, #[trigger] seeds@[i]) by {
                if i < next {
                    let a = choose|a: int| 0 <= a < before.len() && (#[trigger] before[a]).0 == seeds@[i];
                    assert(open@[a].0 == seeds@[i]);
                } else if open@.len() > before.len() {
                    assert(open@[before.len() as int].0 == key);
                }
            }
        }
        next = next + 1;
    }
    proof {
        assert forall|key: ShellKey| #[trigger] is_open(toggles, seeds@, 0, key) <==> listed(open@, key) by {
            if seeds@.contains(key) {
                let i = choose|i: int| 0 <= i < seeds@.len() && seeds@[i] == key;
                assert(listed(open@, seeds@[i]));
            }
            if listed(open@, key) {
                let a = choose|a: int| 0 <= a < open@.len() && (#[trigger] open@[a]).0 == key;
                assert(seeds@.contains(open@[a].0));
            }
        }
    }
    Ok(open)
}

/// The error names the first declared shell whose volume is unknown.
pub open spec fn undeclared(seeds: Seq<ShellKey>, factors: Map<Entity, F32>, error: WalkError) -> bool {
    exists|i: int|
        {
            &&& 0 <= i < seeds.len()
            &&& !factors.contains_key((#[trigger] seeds[i]).volume)
            &&& forall|j: int| 0 <= j < i ==> factors.contains_key((#[trigger] seeds[j]).volume)
            &&& error == (WalkError::UnknownVolume { volume: seeds[i].volume })
        }
}

/// Copies the faces that an error names.
fn copy_faces(faces: &Vec<u32>) -> (copy: Vec<u32>)
    ensures
        copy@ == faces@,
{
    let mut copy: Vec<u32> = Vec::new();
    let mut i: usize = 0;
    while i < faces.len()
        invariant
            i <= faces.len(),
            copy@ == faces@.take(i as int),
        decreases faces.len() - i,
    {
        copy.push(faces[i]);
        assert(faces@.take(i + 1) =~= faces@.take(i as int).push(faces@[i as int]));
        i = i + 1;
    }
    assert(faces@.take(i as int) =~= faces@);
    copy
}

/// Applies one crossing to the open shells.
fn apply(
    sample: usize,
    crossings: &Vec<Crossing>,
    at: usize,
    volumes: &VolumeTable,
    open: &mut Vec<(ShellKey, F64)>,
    intervals: &mut Vec<Interval>,
    Ghost(seeds): Ghost<Seq<ShellKey>>,
) -> (result: Result<(), WalkError>)
    requires
        at < crossings@.len(),
        tracks(old(open)@, topology::toggles_of(crossings@), seeds, at as int),
        old(intervals)@ == closed_by(topology::toggles_of(crossings@), at as int),
    ensures
        ({
            let toggles = topology::toggles_of(crossings@);
            match result {
                Ok(_) => {
                    &&& fault_at(toggles, seeds, volumes@, at as int) is None
                    &&& tracks(final(open)@, toggles, seeds, at + 1)
                    &&& final(intervals)@ == closed_by(toggles, at + 1)
                },
                Err(error) => fault_at(toggles, seeds, volumes@, at as int) matches Some(fault) && reports(
                    error,
                    fault,
                    sample,
                    toggles[at as int],
                ),
            }
        }),
{
    let ghost toggles = topology::toggles_of(crossings@);
    let ghost before = open@;
    let crossing: &Crossing = &crossings[at];
    let key: ShellKey = crossing.key;
    let t: F64 = crossing.t;
    assert(toggles[at as int] == crossing@);
    let twin_behind: bool = at > 0 && crossings[at - 1].key == key && crossings[at - 1].t == t;
    let twin_ahead: bool = crossings.len() - at > 1 && crossings[at + 1].key == key && crossings[at + 1].t == t;
    assert(at > 0 ==> toggles[at - 1] == crossings@[at - 1]@);
    assert(at + 1 < crossings@.len() ==> toggles[at + 1] == crossings@[at + 1]@);
    if twin_behind || twin_ahead {
        return Err(WalkError::UnrepresentableChord { sample, key, t, triangles: copy_faces(&crossing.triangles) });
    }
    let place: Option<usize> = find(open, key);
    assert(listed(before, key) == is_open(toggles, seeds, at as int, key));
    if crossing.enters {
        match volumes.factor(key.volume) {
            Ok(_) => {},
            Err(error) => {
                return Err(error);
            },
        }
        match place {
            Some(a) => {
                assert(before[a as int].0 == key);
                return Err(WalkError::UnexpectedEntry { sample, key, t, triangles: copy_faces(&crossing.triangles) });
            },
            None => {},
        }
        open.push((key, t));
        proof {
            assert forall|k: ShellKey| #[trigger] is_open(toggles, seeds, at + 1, k) <==> listed(open@, k) by {
                if k == key {
                    assert(open@[before.len() as int].0 == key);
                } else {
                    assert(is_open(toggles, seeds, at + 1, k) == is_open(toggles, seeds, at as int, k));
                    if listed(before, k) {
                        let a = choose|a: int| 0 <= a < before.len() && (#[trigger] before[a]).0 == k;
                        assert(open@[a].0 == k);
                    }
                    if listed(open@, k) {
                        let a = choose|a: int| 0 <= a < open@.len() && (#[trigger] open@[a]).0 == k;
                        assert(before[a].0 == k);
                    }
                }
            }
            assert forall|a: int| 0 <= a < open@.len() implies (#[trigger] open@[a]).1 == opened_at(
                toggles,
                at + 1,
                open@[a].0,
            ) by {
                if a < before.len() {
                    assert(open@[a] == before[a]);
                    assert(listed(before, before[a].0));
                }
            }
        }
        Ok(())
    } else {
        match place {
            None => Err(WalkError::UnexpectedExit { sample, key, t, triangles: copy_faces(&crossing.triangles) }),
            Some(a) => {
                assert(before[a as int].0 == key);
                let opened: F64 = open[a].1;
                intervals.push(Interval { key, open: opened, close: t });
                open.remove(a);
                proof {
                    assert(open@ =~= before.remove(a as int));
                    assert forall|k: ShellKey| #[trigger] is_open(toggles, seeds, at + 1, k) <==> listed(open@, k) by {
                        if k == key {
                            if listed(open@, k) {
                                let b = choose|b: int| 0 <= b < open@.len() && (#[trigger] open@[b]).0 == k;
                                let c = if b < a { b } else { b + 1 };
                                assert(before[c].0 == key);
                            }
                        } else {
                            assert(is_open(toggles, seeds, at + 1, k) == is_open(toggles, seeds, at as int, k));
                            if listed(before, k) {
                                let c = choose|c: int| 0 <= c < before.len() && (#[trigger] before[c]).0 == k;
                                let b = if c < a { c } else { c - 1 };
                                assert(open@[b].0 == k);
                            }
                            if listed(open@, k) {
                                let b = choose|b: int| 0 <= b < open@.len() && (#[trigger] open@[b]).0 == k;
                                let c = if b < a { b } else { b + 1 };
                                assert(before[c].0 == k);
                            }
                        }
                    }
                    assert forall|b: int| 0 <= b < open@.len() implies (#[trigger] open@[b]).1 == opened_at(
                        toggles,
                        at + 1,
                        open@[b].0,
                    ) by {
                        let c = if b < a { b } else { b + 1 };
                        assert(open@[b] == before[c]);
                        assert(before[c].0 != key);
                    }
                }
                Ok(())
            },
        }
    }
}

/// Shell keys, each once, in order.
pub open spec fn in_key_order(keys: Seq<ShellKey>) -> bool {
    forall|i: int, j: int| 0 <= i < j < keys.len() ==> (#[trigger] keys[i]).precedes(#[trigger] keys[j])
}

/// The keys still open, in order.
fn open_keys(open: &Vec<(ShellKey, F64)>) -> (keys: Vec<ShellKey>)
    requires
        forall|a: int, b: int| 0 <= a < b < open@.len() ==> (#[trigger] open@[a]).0 != (#[trigger] open@[b]).0,
    ensures
        in_key_order(keys@),
        forall|key: ShellKey| keys@.contains(key) <==> listed(open@, key),
{
    let mut keys: Vec<ShellKey> = Vec::new();
    let mut next: usize = 0;
    while next < open.len()
        invariant
            next <= open.len(),
            forall|a: int, b: int| 0 <= a < b < open@.len() ==> (#[trigger] open@[a]).0 != (#[trigger] open@[b]).0,
            in_key_order(keys@),
            forall|i: int| 0 <= i < keys@.len() ==> listed(open@.take(next as int), #[trigger] keys@[i]),
            forall|a: int| 0 <= a < next ==> keys@.contains((#[trigger] open@[a]).0),
        decreases open.len() - next,
    {
        let key: ShellKey = open[next].0;
        let ghost before = keys@;
        let mut place: usize = 0;
        while place < keys.len() && keys[place].is_before(key)
            invariant
                place <= keys.len(),
                keys@ == before,
                forall|i: int| 0 <= i < place ==> (#[trigger] before[i]).precedes(key),
            decreases keys.len() - place,
        {
            place = place + 1;
        }
        keys.insert(place, key);
        proof {
            assert(keys@ =~= before.insert(place as int, key));
            assert forall|i: int| 0 <= i < before.len() implies #[trigger] before[i] != key by {
                let a = choose|a: int| 0 <= a < next && (#[trigger] open@.take(next as int)[a]).0 == before[i];
                assert(open@[a].0 == before[i]);
            }
            assert forall|i: int, j: int| 0 <= i < j < keys@.len() implies (#[trigger] keys@[i]).precedes(
                #[trigger] keys@[j],
            ) by {
                if j == place {
                    assert(keys@[i] == before[i]);
                } else if i == place {
                    assert(keys@[j] == before[j - 1]);
                    assert(before[place as int] != key);
                    if j - 1 > place {
                        assert(before[place as int].precedes(before[j - 1]));
                    }
                } else {
                    let x = if i < place { i } else { i - 1 };
                    let y = if j < place { j } else { j - 1 };
                    assert(keys@[i] == before[x] && keys@[j] == before[y]);
                }
            }
            assert forall|i: int| 0 <= i < keys@.len() implies listed(open@.take(next + 1), #[trigger] keys@[i]) by {
                if i == place {
                    assert(open@.take(next + 1)[next as int].0 == key);
                } else {
                    let x = if i < place { i } else { i - 1 };
                    let a = choose|a: int| 0 <= a < next && (#[trigger] open@.take(next as int)[a]).0 == before[x];
                    assert(open@.take(next + 1)[a].0 == keys@[i]);
                }
            }
            assert forall|a: int| 0 <= a < next + 1 implies keys@.contains((#[trigger] open@[a]).0) by {
                if a < next {
                    let x = choose|x: int| 0 <= x < before.len() && before[x] == open@[a].0;
                    let y = if x < place { x } else { x + 1 };
                    assert(keys@[y] == open@[a].0);
                } else {
                    assert(keys@[place as int] == key);
                }
            }
        }
        next = next + 1;
    }
    proof {
        assert(open@.take(next as int) =~= open@);
        assert forall|key: ShellKey| keys@.contains(key) <==> listed(open@, key) by {
            if listed(open@, key) {
                let a = choose|a: int| 0 <= a < open@.len() && (#[trigger] open@[a]).0 == key;
                assert(keys@.contains(open@[a].0));
            }
        }
    }
    keys
}

/// Every declared shell's volume is known.
pub open spec fn declared(seeds: Seq<ShellKey>, factors: Map<Entity, F32>) -> bool {
    forall|i: int| 0 <= i < seeds.len() ==> factors.contains_key((#[trigger] seeds[i]).volume)
}

/// No shell is open after the last crossing.
pub open spec fn all_closed(toggles: Seq<Toggle>, seeds: Seq<ShellKey>) -> bool {
    forall|key: ShellKey| !#[trigger] is_open(toggles, seeds, toggles.len() as int, key)
}

/// The error is the first that reading the corridor meets: an undeclared volume,
/// the first faulty crossing, or the shells the corridor ends inside.
pub open spec fn first_error(
    sample: usize,
    length: F32,
    toggles: Seq<Toggle>,
    seeds: Seq<ShellKey>,
    factors: Map<Entity, F32>,
    error: WalkError,
) -> bool {
    ||| undeclared(seeds, factors, error)
    ||| declared(seeds, factors) && exists|i: int|
        {
            &&& 0 <= i < toggles.len()
            &&& sound(toggles, seeds, factors, i)
            &&& (#[trigger] fault_at(toggles, seeds, factors, i)) matches Some(fault) && reports(
                error,
                fault,
                sample,
                toggles[i],
            )
        }
    ||| {
        &&& declared(seeds, factors)
        &&& sound(toggles, seeds, factors, toggles.len() as int)
        &&& !all_closed(toggles, seeds)
        &&& error matches WalkError::IncompleteCorridor { sample: s, open, length: l } && s == sample && l == length
            && in_key_order(open@) && forall|key: ShellKey|
            open@.contains(key) <==> is_open(toggles, seeds, toggles.len() as int, key)
    }
}

/// What reading the crossings gives.
pub struct Reading {
    /// Each stretch of a shell's presence, in the order they close.
    pub intervals: Vec<Interval>,
    /// The changes of the field.
    pub transitions: Vec<Transition>,
    /// The field at the origin.
    pub start: F32,
}

/// Pairs entries with exits and reads the field before and after each distance.
pub fn read_field(
    sample: usize,
    length: F32,
    crossings: &Vec<Crossing>,
    seeds: &Vec<ShellKey>,
    volumes: &VolumeTable,
) -> (result: Result<Reading, WalkError>)
    ensures
        ({
            let toggles = topology::toggles_of(crossings@);
            match result {
                Ok(reading) => {
                    &&& declared(seeds@, volumes@)
                    &&& sound(toggles, seeds@, volumes@, toggles.len() as int)
                    &&& all_closed(toggles, seeds@)
                    &&& reading.intervals@ == closed_by(toggles, toggles.len() as int)
                    &&& reading.transitions@ == transitions_from(volumes.spec_rows(), toggles, seeds@, 0)
                    &&& reading.start == peak(volumes.spec_rows(), toggles, seeds@, 0)
                },
                Err(error) => first_error(sample, length, toggles, seeds@, volumes@, error),
            }
        }),
{
    let ghost toggles = topology::toggles_of(crossings@);
    let rows: Vec<(Entity, F32)> = volumes.entries();
    let mut open: Vec<(ShellKey, F64)> = match declare(seeds, volumes, Ghost(toggles)) {
        Ok(open) => open,
        Err(error) => {
            return Err(error);
        },
    };
    let start: F32 = read_peak(&open, &rows, Ghost(toggles), Ghost(seeds@), Ghost(0));
    let mut intervals: Vec<Interval> = Vec::new();
    let mut transitions: Vec<Transition> = Vec::new();
    let mut level: F32 = start;
    let mut i: usize = 0;
    let ghost all = transitions_from(rows@, toggles, seeds@, 0);
    assert(transitions@ + all =~= all);
    while i < crossings.len()
        invariant
            i <= crossings.len(),
            toggles == topology::toggles_of(crossings@),
            rows@ == volumes.spec_rows(),
            declared(seeds@, volumes@),
            sound(toggles, seeds@, volumes@, i as int),
            tracks(open@, toggles, seeds@, i as int),
            intervals@ == closed_by(toggles, i as int),
            level == peak(rows@, toggles, seeds@, i as int),
            transitions@ + transitions_from(rows@, toggles, seeds@, i as int) == all,
        decreases crossings.len() - i,
    {
        let t: F64 = crossings[i].t;
        let mut j: usize = i;
        let mut entry_normal: Option<Vec3> = None;
        let mut exit_normal: Option<Vec3> = None;
        let ghost stop = batch_end(toggles, i as int);
        proof {
            lemma_batch_end(toggles, i as int);
        }
        while j < crossings.len() && crossings[j].t == t
            invariant
                i <= j <= stop <= crossings.len(),
                i < crossings.len(),
                toggles == topology::toggles_of(crossings@),
                stop == batch_end(toggles, i as int),
                t == toggles[i as int].t,
                i < stop,
                forall|x: int| i <= x < stop ==> (#[trigger] toggles[x]).t == toggles[i as int].t,
                stop < toggles.len() ==> toggles[stop].t != t,
                forall|x: int| 0 <= x < crossings@.len() ==> toggles[x].t == (#[trigger] crossings@[x]).t,
                declared(seeds@, volumes@),
                sound(toggles, seeds@, volumes@, j as int),
                tracks(open@, toggles, seeds@, j as int),
                intervals@ == closed_by(toggles, j as int),
                entry_normal == batch_normal(toggles, true, i as int, j as int),
                exit_normal == batch_normal(toggles, false, i as int, j as int),
            ensures
                j == stop,
            decreases crossings.len() - j,
        {
            assert(toggles[j as int] == crossings@[j as int]@);
            match apply(sample, crossings, j, volumes, &mut open, &mut intervals, Ghost(seeds@)) {
                Ok(_) => {},
                Err(error) => {
                    return Err(error);
                },
            }
            let normal: Vec3 = crossings[j].normal;
            if crossings[j].enters {
                entry_normal = match entry_normal {
                    Some(sum) => Some(sum.plus(normal)),
                    None => Some(Vec3::zero().plus(normal)),
                };
            } else {
                exit_normal = match exit_normal {
                    Some(sum) => Some(sum.plus(normal)),
                    None => Some(Vec3::zero().plus(normal)),
                };
            }
            j = j + 1;
        }
        let after: F32 = read_peak(&open, &rows, Ghost(toggles), Ghost(seeds@), Ghost(j as int));
        let ghost before = transitions@;
        if level != after {
            transitions.push(Transition { t, before: level, after, entry_normal, exit_normal });
        }
        proof {
            assert(toggles[i as int] == crossings@[i as int]@);
            assert(transitions@ + transitions_from(rows@, toggles, seeds@, stop) =~= before + transitions_from(
                rows@,
                toggles,
                seeds@,
                i as int,
            ));
        }
        level = after;
        i = j;
    }
    assert(transitions@ + transitions_from(rows@, toggles, seeds@, i as int) =~= transitions@);
    if open.len() > 0 {
        assert(listed(open@, open@[0].0));
        assert(is_open(toggles, seeds@, toggles.len() as int, open@[0].0));
        let keys: Vec<ShellKey> = open_keys(&open);
        return Err(WalkError::IncompleteCorridor { sample, open: keys, length });
    }
    Ok(Reading { intervals, transitions, start })
}

/// An open shell's volume is known.
pub proof fn lemma_open_known(
    toggles: Seq<Toggle>,
    seeds: Seq<ShellKey>,
    factors: Map<Entity, F32>,
    i: int,
    key: ShellKey,
)
    requires
        declared(seeds, factors),
        sound(toggles, seeds, factors, toggles.len() as int),
        0 <= i <= toggles.len(),
        is_open(toggles, seeds, i, key),
    ensures
        factors.contains_key(key.volume),
    decreases i,
{
    if i == 0 {
        let j = choose|j: int| 0 <= j < seeds.len() && seeds[j] == key;
        assert(factors.contains_key(seeds[j].volume));
    } else if toggles[i - 1].key == key {
        assert(fault_at(toggles, seeds, factors, i - 1) is None);
    } else {
        lemma_open_known(toggles, seeds, factors, i - 1, key);
    }
}

/// The stretches' volumes are known, and each stretch runs forward from the
/// origin or a crossing to a crossing.
pub proof fn lemma_closed(
    toggles: Seq<Toggle>,
    seeds: Seq<ShellKey>,
    factors: Map<Entity, F32>,
    i: int,
)
    requires
        declared(seeds, factors),
        sound(toggles, seeds, factors, toggles.len() as int),
        topology::in_toggle_order(toggles),
        forall|j: int| 0 <= j < toggles.len() ==> !(#[trigger] toggles[j]).t.is_nan() && 0 <= toggles[j].t.value(),
        0 <= i <= toggles.len(),
    ensures
        forall|a: int|
            0 <= a < closed_by(toggles, i).len() ==> {
                let interval = #[trigger] closed_by(toggles, i)[a];
                &&& factors.contains_key(interval.key.volume)
                &&& !interval.open.is_nan() && !interval.close.is_nan()
                &&& 0 <= interval.open.value() <= interval.close.value()
            },
    decreases i,
{
    if i > 0 {
        lemma_closed(toggles, seeds, factors, i - 1);
        let toggle = toggles[i - 1];
        let shorter = closed_by(toggles, i - 1);
        let longer = closed_by(toggles, i);
        if !toggle.enters {
            assert(fault_at(toggles, seeds, factors, i - 1) is None);
            lemma_open_known(toggles, seeds, factors, i - 1, toggle.key);
            lemma_opened_before(toggles, i - 1, toggle.key);
        }
        assert forall|a: int| 0 <= a < longer.len() implies {
            let interval = #[trigger] longer[a];
            &&& factors.contains_key(interval.key.volume)
            &&& !interval.open.is_nan() && !interval.close.is_nan()
            &&& 0 <= interval.open.value() <= interval.close.value()
        } by {
            if a < shorter.len() {
                assert(longer[a] == shorter[a]);
            }
        }
    }
}

proof fn lemma_opened_before(toggles: Seq<Toggle>, i: int, key: ShellKey)
    requires
        topology::in_toggle_order(toggles),
        forall|j: int| 0 <= j < toggles.len() ==> !(#[trigger] toggles[j]).t.is_nan() && 0 <= toggles[j].t.value(),
        0 <= i < toggles.len(),
    ensures
        !opened_at(toggles, i, key).is_nan(),
        0 <= opened_at(toggles, i, key).value() <= toggles[i].t.value(),
    decreases i,
{
    F64::zero().lemma_nonnegative();
    if i > 0 {
        lemma_opened_before(toggles, i - 1, key);
        assert(topology::toggle_leq(toggles[i - 1], toggles[i]));
        toggles[i - 1].t.lemma_rank(toggles[i].t);
    }
}

} // verus!
