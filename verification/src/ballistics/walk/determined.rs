//! A corridor has one walk, or one error: what a ray meets settles all that is said of it.

use crate::ballistics::walk::events;
use crate::ballistics::walk::field;
use crate::ballistics::walk::field::Interval;
use crate::ballistics::walk::laws;
use crate::ballistics::walk::presence;
use crate::ballistics::walk::presence::{EntityPresence, ShellPresence};
use crate::ballistics::walk::ray;
use crate::ballistics::walk::ray::RayWalk;
use crate::ballistics::walk::spans;
use crate::ballistics::walk::vocabulary::{Entity, PrimitiveKey, RayCorridor, ShellKey, WalkError, WalkLaws};
use crate::ballistics::walk::weld;
use crate::ballistics::walk::weld::{Scene, WeldedRun};
use crate::float::{F32, F64};
use crate::vector::Vec3;
use vstd::prelude::*;

verus! {

/// Two runs hold the same.
pub open spec fn same_run(a: WeldedRun, b: WeldedRun) -> bool {
    &&& a.start == b.start
    &&& a.end == b.end
    &&& a.cost == b.cost
    &&& a.entry_normal == b.entry_normal
    &&& a.exit_normal == b.exit_normal
    &&& a.segments@ == b.segments@
    &&& a.entry_volume == b.entry_volume
    &&& a.joints == b.joints
    &&& a.primitives@ == b.primitives@
}

/// Two presences hold the same.
pub open spec fn same_presence(a: EntityPresence, b: EntityPresence) -> bool {
    &&& a.entity == b.entity
    &&& a.factor == b.factor
    &&& a.chord == b.chord
    &&& a.cost == b.cost
    &&& a.spans@ == b.spans@
}

/// Two walks hold the same.
pub open spec fn same_walk(a: RayWalk, b: RayWalk) -> bool {
    &&& a.spans@ == b.spans@
    &&& a.cost == b.cost
    &&& a.events@ == b.events@
    &&& a.runs@.len() == b.runs@.len()
    &&& forall|i: int| 0 <= i < a.runs@.len() ==> same_run(#[trigger] a.runs@[i], b.runs@[i])
    &&& a.presence@.len() == b.presence@.len()
    &&& forall|i: int| 0 <= i < a.presence@.len() ==> same_presence(#[trigger] a.presence@[i], b.presence@[i])
    &&& a.shells@.len() == b.shells@.len()
    &&& forall|i: int|
        0 <= i < a.shells@.len() ==> (#[trigger] a.shells@[i]).key == b.shells@[i].key && a.shells@[i].spans@
            == b.shells@[i].spans@
}

/// Two errors say the same.
pub open spec fn same_error(a: WalkError, b: WalkError) -> bool {
    match (a, b) {
        (WalkError::BadCorridor { sample, reason }, WalkError::BadCorridor { sample: s, reason: r }) => sample == s
            && reason@ == r@,
        (
            WalkError::UnexpectedExit { sample, key, t, triangles },
            WalkError::UnexpectedExit { sample: s, key: k, t: d, triangles: faces },
        ) => sample == s && key == k && t == d && triangles@ == faces@,
        (
            WalkError::UnexpectedEntry { sample, key, t, triangles },
            WalkError::UnexpectedEntry { sample: s, key: k, t: d, triangles: faces },
        ) => sample == s && key == k && t == d && triangles@ == faces@,
        (
            WalkError::UnrepresentableChord { sample, key, t, triangles },
            WalkError::UnrepresentableChord { sample: s, key: k, t: d, triangles: faces },
        ) => sample == s && key == k && t == d && triangles@ == faces@,
        (
            WalkError::IncompleteCorridor { sample, open, length },
            WalkError::IncompleteCorridor { sample: s, open: keys, length: l },
        ) => sample == s && open@ == keys@ && length == l,
        (WalkError::CollectorFailed { volume, reason }, WalkError::CollectorFailed { volume: v, reason: r }) => volume
            == v && reason@ == r@,
        (WalkError::CorridorMismatch { reason }, WalkError::CorridorMismatch { reason: r }) => reason@ == r@,
        _ => a == b,
    }
}

/// Two results are one: the same walk, or the same error.
pub open spec fn same_outcome(a: Result<RayWalk, WalkError>, b: Result<RayWalk, WalkError>) -> bool {
    match (a, b) {
        (Ok(x), Ok(y)) => same_walk(x, y),
        (Err(x), Err(y)) => same_error(x, y),
        _ => false,
    }
}

/// Two rising lists of the same things are one list.
pub(crate) proof fn lemma_one_list<A>(a: Seq<A>, b: Seq<A>, less: spec_fn(A, A) -> bool)
    requires
        forall|x: A, y: A| #[trigger] less(x, y) ==> !less(y, x),
        forall|i: int, j: int| 0 <= i < j < a.len() ==> less(#[trigger] a[i], #[trigger] a[j]),
        forall|i: int, j: int| 0 <= i < j < b.len() ==> less(#[trigger] b[i], #[trigger] b[j]),
        forall|x: A| #[trigger] a.contains(x) <==> b.contains(x),
    ensures
        a == b,
    decreases a.len(),
{
    if a.len() == 0 {
        if b.len() > 0 {
            assert(b.contains(b[0]));
            assert(a.contains(b[0]));
        }
        assert(a =~= b);
    } else {
        assert(a.contains(a[0]));
        let j = choose|j: int| 0 <= j < b.len() && b[j] == a[0];
        assert(b.contains(b[0]));
        assert(a.contains(b[0]));
        let i = choose|i: int| 0 <= i < a.len() && a[i] == b[0];
        if i > 0 && j > 0 {
            assert(less(a[0], a[i]));
            assert(less(b[0], b[j]));
        }
        assert(a[0] == b[0]);
        let (c, d) = (a.drop_first(), b.drop_first());
        assert forall|x: A| #[trigger] c.contains(x) <==> d.contains(x) by {
            if c.contains(x) {
                let k = choose|k: int| 0 <= k < c.len() && c[k] == x;
                assert(a[k + 1] == x);
                assert(less(a[0], a[k + 1]));
                assert(a.contains(x));
                let m = choose|m: int| 0 <= m < b.len() && b[m] == x;
                assert(m != 0);
                assert(d[m - 1] == x);
            }
            if d.contains(x) {
                let k = choose|k: int| 0 <= k < d.len() && d[k] == x;
                assert(b[k + 1] == x);
                assert(less(b[0], b[k + 1]));
                assert(b.contains(x));
                assert(a.contains(x));
                let m = choose|m: int| 0 <= m < a.len() && a[m] == x;
                assert(m != 0);
                assert(c[m - 1] == x);
            }
        }
        lemma_one_list(c, d, less);
        assert(a =~= seq![a[0]] + c);
        assert(b =~= seq![b[0]] + d);
    }
}

/// The union of a volume's stretches is one list.
pub(crate) proof fn lemma_one_union(a: Seq<(F64, F64)>, b: Seq<(F64, F64)>, intervals: Seq<Interval>, volume: Entity)
    requires
        presence::is_union(a, intervals, volume),
        presence::is_union(b, intervals, volume),
    ensures
        a == b,
{
    let own = presence::volume_spans(intervals, volume, intervals.len() as int).to_multiset();
    let x = choose|ordered: Seq<(F64, F64)>|
        {
            &&& #[trigger] presence::in_pair_order(ordered)
            &&& ordered.to_multiset() == own
            &&& a == presence::merged(ordered, ordered.len() as int)
        };
    let y = choose|ordered: Seq<(F64, F64)>|
        {
            &&& #[trigger] presence::in_pair_order(ordered)
            &&& ordered.to_multiset() == own
            &&& b == presence::merged(ordered, ordered.len() as int)
        };
    let leq = |p: (F64, F64), q: (F64, F64)| presence::pair_leq(p, q);
    assert(vstd::relations::total_ordering(leq)) by {
        assert forall|p: (F64, F64), q: (F64, F64)| #[trigger] leq(p, q) && #[trigger] leq(q, p) implies p == q by {
            assert(p.0 == q.0 && p.1.bits == q.1.bits);
        }
        assert forall|p: (F64, F64), q: (F64, F64)| #[trigger] leq(p, q) || #[trigger] leq(q, p) by {
            if p.0.rank() == q.0.rank() {
                assert(p.0.bits == q.0.bits);
            }
        }
    }
    assert(vstd::relations::sorted_by(x, leq));
    assert(vstd::relations::sorted_by(y, leq));
    vstd::seq_lib::lemma_sorted_unique(x, y, leq);
}

proof fn lemma_one_run(a: WeldedRun, b: WeldedRun, scene: Scene, intervals: Seq<Interval>, group: (int, int))
    requires
        weld::is_welded(a, scene, intervals, group),
        weld::is_welded(b, scene, intervals, group),
    ensures
        same_run(a, b),
{
    let less = |x: PrimitiveKey, y: PrimitiveKey| weld::primitive_less(x, y);
    let (p, q) = (a.primitives@, b.primitives@);
    assert forall|x: PrimitiveKey| #[trigger] p.contains(x) <==> q.contains(x) by {}
    lemma_one_list(p, q, less);
    if exists|v: Entity| #[trigger] weld::opens_at(intervals, v, a.start) {
        assert(weld::opens_at(intervals, a.entry_volume, a.start));
        assert(weld::opens_at(intervals, b.entry_volume, a.start));
        assert(a.entry_volume.id == b.entry_volume.id);
    }
}

proof fn lemma_one_event_list(a: Seq<WeldedRun>, b: Seq<WeldedRun>, origin: Vec3, axis: Vec3, n: int)
    requires
        0 <= n <= a.len(),
        a.len() == b.len(),
        forall|i: int| 0 <= i < a.len() ==> same_run(#[trigger] a[i], b[i]),
    ensures
        events::events_upto(a, origin, axis, n) == events::events_upto(b, origin, axis, n),
    decreases n,
{
    if n > 0 {
        lemma_one_event_list(a, b, origin, axis, n - 1);
        assert(same_run(a[n - 1], b[n - 1]));
    }
}

/// The volumes that a list of presences names.
spec fn volumes_of(met: Seq<EntityPresence>) -> Seq<Entity> {
    Seq::new(met.len(), |i: int| met[i].entity)
}

/// The shells that a list of presences names.
spec fn shells_of(met: Seq<ShellPresence>) -> Seq<ShellKey> {
    Seq::new(met.len(), |i: int| met[i].key)
}

proof fn lemma_one_presence(
    a: Seq<EntityPresence>,
    b: Seq<EntityPresence>,
    intervals: Seq<Interval>,
    factors: Map<Entity, F32>,
)
    requires
        presence::is_entity_presence(a, intervals, factors),
        presence::is_entity_presence(b, intervals, factors),
    ensures
        a.len() == b.len(),
        forall|i: int| 0 <= i < a.len() ==> same_presence(#[trigger] a[i], b[i]),
{
    let (x, y) = (volumes_of(a), volumes_of(b));
    let less = |p: Entity, q: Entity| p.id < q.id;
    assert forall|i: int, j: int| 0 <= i < j < x.len() implies less(#[trigger] x[i], #[trigger] x[j]) by {
        assert(a[i].entity.id < a[j].entity.id);
    }
    assert forall|i: int, j: int| 0 <= i < j < y.len() implies less(#[trigger] y[i], #[trigger] y[j]) by {
        assert(b[i].entity.id < b[j].entity.id);
    }
    assert forall|volume: Entity| #[trigger] x.contains(volume) <==> y.contains(volume) by {
        lemma_met(a, intervals, factors, volume);
        lemma_met(b, intervals, factors, volume);
    }
    lemma_one_list(x, y, less);
    assert(a.len() == x.len() && b.len() == y.len());
    assert forall|i: int| 0 <= i < a.len() implies same_presence(#[trigger] a[i], b[i]) by {
        assert(x[i] == y[i]);
        assert(presence::is_presence(b[i], intervals, factors));
        lemma_one_union(a[i].spans@, b[i].spans@, intervals, a[i].entity);
    }
}

proof fn lemma_met(met: Seq<EntityPresence>, intervals: Seq<Interval>, factors: Map<Entity, F32>, volume: Entity)
    requires
        presence::is_entity_presence(met, intervals, factors),
    ensures
        volumes_of(met).contains(volume) <==> presence::volume_met(intervals, volume),
{
    let x = volumes_of(met);
    if x.contains(volume) {
        let i = choose|i: int| 0 <= i < x.len() && x[i] == volume;
        assert(met[i].entity == volume);
    }
    if presence::volume_met(intervals, volume) {
        let i = choose|i: int| 0 <= i < met.len() && (#[trigger] met[i]).entity == volume;
        assert(x[i] == volume);
    }
}

proof fn lemma_one_shell_list(a: Seq<ShellPresence>, b: Seq<ShellPresence>, intervals: Seq<Interval>)
    requires
        presence::is_shell_presence(a, intervals),
        presence::is_shell_presence(b, intervals),
    ensures
        a.len() == b.len(),
        forall|i: int| 0 <= i < a.len() ==> (#[trigger] a[i]).key == b[i].key && a[i].spans@ == b[i].spans@,
{
    let (x, y) = (shells_of(a), shells_of(b));
    let less = |p: ShellKey, q: ShellKey| p.precedes(q);
    assert forall|i: int, j: int| 0 <= i < j < x.len() implies less(#[trigger] x[i], #[trigger] x[j]) by {
        assert(a[i].key.precedes(a[j].key));
    }
    assert forall|i: int, j: int| 0 <= i < j < y.len() implies less(#[trigger] y[i], #[trigger] y[j]) by {
        assert(b[i].key.precedes(b[j].key));
    }
    assert forall|key: ShellKey| #[trigger] x.contains(key) <==> y.contains(key) by {
        lemma_shell_met(a, intervals, key);
        lemma_shell_met(b, intervals, key);
    }
    lemma_one_list(x, y, less);
    assert(a.len() == x.len() && b.len() == y.len());
    assert forall|i: int| 0 <= i < a.len() implies (#[trigger] a[i]).key == b[i].key && a[i].spans@
        == b[i].spans@ by {
        assert(x[i] == y[i]);
        assert(presence::shell_met(intervals, b[i].key));
    }
}

proof fn lemma_shell_met(met: Seq<ShellPresence>, intervals: Seq<Interval>, key: ShellKey)
    requires
        presence::is_shell_presence(met, intervals),
    ensures
        shells_of(met).contains(key) <==> presence::shell_met(intervals, key),
{
    let x = shells_of(met);
    if x.contains(key) {
        let i = choose|i: int| 0 <= i < x.len() && x[i] == key;
        assert(met[i].key == key);
    }
    if presence::shell_met(intervals, key) {
        let i = choose|i: int| 0 <= i < met.len() && (#[trigger] met[i]).key == key;
        assert(x[i] == key);
    }
}

proof fn lemma_one_walk(
    a: RayWalk,
    b: RayWalk,
    corridor: RayCorridor,
    laws: WalkLaws,
    rows: Seq<(Entity, F32)>,
    factors: Map<Entity, F32>,
)
    requires
        ray::is_walk(a, corridor, laws, rows, factors),
        ray::is_walk(b, corridor, laws, rows, factors),
    ensures
        same_walk(a, b),
{
    let intervals = ray::intervals_of(corridor, laws);
    let scene = Scene {
        spans: a.spans@,
        runs: weld::runs_from(a.spans@, 0),
        transitions: field::transitions_from(
            rows,
            ray::crossings_of(corridor, laws),
            corridor.initial_presence@,
            0,
        ),
        axis: corridor.axis,
        laws,
    };
    assert forall|i: int| 0 <= i < a.runs@.len() implies same_run(#[trigger] a.runs@[i], b.runs@[i]) by {
        assert(weld::is_welded(b.runs@[i], scene, intervals, scene.groups()[i]));
        lemma_one_run(a.runs@[i], b.runs@[i], scene, intervals, scene.groups()[i]);
    }
    lemma_one_event_list(a.runs@, b.runs@, corridor.origin, corridor.axis, a.runs@.len() as int);
    lemma_one_presence(a.presence@, b.presence@, intervals, factors);
    lemma_one_shell_list(a.shells@, b.shells@, intervals);
}

/// A faulty crossing is met once: whatever precedes it is sound.
proof fn lemma_one_error(
    a: WalkError,
    b: WalkError,
    sample: usize,
    corridor: RayCorridor,
    laws: WalkLaws,
    factors: Map<Entity, F32>,
)
    requires
        field::first_error(
            sample,
            corridor.length,
            ray::crossings_of(corridor, laws),
            corridor.initial_presence@,
            factors,
            a,
        ),
        field::first_error(
            sample,
            corridor.length,
            ray::crossings_of(corridor, laws),
            corridor.initial_presence@,
            factors,
            b,
        ),
    ensures
        same_error(a, b),
{
    let toggles = ray::crossings_of(corridor, laws);
    let seeds = corridor.initial_presence@;
    if field::declared(seeds, factors) {
        if field::sound(toggles, seeds, factors, toggles.len() as int) {
            if let (WalkError::IncompleteCorridor { open, .. }, WalkError::IncompleteCorridor { open: keys, .. }) = (a, b) {
                let less = |x: ShellKey, y: ShellKey| x.precedes(y);
                assert forall|x: ShellKey| #[trigger] open@.contains(x) <==> keys@.contains(x) by {}
                lemma_one_list(open@, keys@, less);
            }
        } else {
            let i = choose|i: int|
                {
                    &&& 0 <= i < toggles.len()
                    &&& field::sound(toggles, seeds, factors, i)
                    &&& (#[trigger] field::fault_at(toggles, seeds, factors, i)) matches Some(fault) && field::reports(
                        a,
                        fault,
                        sample,
                        toggles[i],
                    )
                };
            let j = choose|j: int|
                {
                    &&& 0 <= j < toggles.len()
                    &&& field::sound(toggles, seeds, factors, j)
                    &&& (#[trigger] field::fault_at(toggles, seeds, factors, j)) matches Some(fault) && field::reports(
                        b,
                        fault,
                        sample,
                        toggles[j],
                    )
                };
            assert(i == j);
        }
    } else {
        let i = choose|i: int|
            {
                &&& 0 <= i < seeds.len()
                &&& !factors.contains_key((#[trigger] seeds[i]).volume)
                &&& forall|j: int| 0 <= j < i ==> factors.contains_key((#[trigger] seeds[j]).volume)
                &&& a == (WalkError::UnknownVolume { volume: seeds[i].volume })
            };
        let j = choose|i: int|
            {
                &&& 0 <= i < seeds.len()
                &&& !factors.contains_key((#[trigger] seeds[i]).volume)
                &&& forall|j: int| 0 <= j < i ==> factors.contains_key((#[trigger] seeds[j]).volume)
                &&& b == (WalkError::UnknownVolume { volume: seeds[i].volume })
            };
        assert(i == j);
    }
}

/// A corridor is walked in one way: two walks of it are the same walk, or end in the
/// same error.
pub proof fn law_one_outcome(
    a: Result<RayWalk, WalkError>,
    b: Result<RayWalk, WalkError>,
    sample: usize,
    corridor: RayCorridor,
    laws: WalkLaws,
    rows: Seq<(Entity, F32)>,
    factors: Map<Entity, F32>,
)
    requires
        ray::is_outcome(a, sample, corridor, laws, rows, factors),
        ray::is_outcome(b, sample, corridor, laws, rows, factors),
    ensures
        same_outcome(a, b),
{
    match (a, b) {
        (Ok(x), Ok(y)) => {
            lemma_one_walk(x, y, corridor, laws, rows, factors);
        },
        (Err(x), Err(y)) => {
            if ray::has_form(corridor) {
                lemma_one_error(x, y, sample, corridor, laws, factors);
            }
        },
        _ => {},
    }
}

/// The order the hits came in plays no part: walks of two corridors that differ in it
/// alone are the same walk, or end in the same error.
pub proof fn law_hits_in_any_order(
    a: Result<RayWalk, WalkError>,
    b: Result<RayWalk, WalkError>,
    sample: usize,
    one: RayCorridor,
    other: RayCorridor,
    laws: WalkLaws,
    rows: Seq<(Entity, F32)>,
    factors: Map<Entity, F32>,
)
    requires
        one.hits@.to_multiset() == other.hits@.to_multiset(),
        one.origin == other.origin,
        one.axis == other.axis,
        one.length == other.length,
        one.initial_presence@ == other.initial_presence@,
        ray::is_outcome(a, sample, one, laws, rows, factors),
        ray::is_outcome(b, sample, other, laws, rows, factors),
    ensures
        same_outcome(a, b),
{
    laws::law_crossings_in_any_order(one, other, laws);
    assert(ray::is_outcome(b, sample, one, laws, rows, factors));
    law_one_outcome(a, b, sample, one, laws, rows, factors);
}

} // verus!
