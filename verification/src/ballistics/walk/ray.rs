//! One sample ray, walked.

use crate::ballistics::walk::events;
use crate::ballistics::walk::events::{boundary_events, BoundaryEvent};
use crate::ballistics::walk::field;
use crate::ballistics::walk::field::{read_field, Interval, Reading};
use crate::ballistics::walk::presence;
use crate::ballistics::walk::presence::{entity_presence, shell_presence, EntityPresence, ShellPresence};
use crate::ballistics::walk::spans;
use crate::ballistics::walk::spans::{cut_spans, total_cost, Span};
use crate::ballistics::walk::table;
use crate::ballistics::walk::table::VolumeTable;
use crate::ballistics::walk::topology;
use crate::ballistics::walk::topology::{order_hits, read_crossings, Crossing, Toggle};
use crate::ballistics::walk::vocabulary::{Entity, FaceHit, RayCorridor, ShellKey, WalkError, WalkLaws};
use crate::ballistics::walk::weld;
use crate::ballistics::walk::weld::{find_runs, weld_runs, Scene, WeldedRun};
use crate::float::{F32, F64};
use vstd::prelude::*;

verus! {

/// One sample ray's walk.
#[derive(Clone, Debug, PartialEq)]
pub struct RayWalk {
    /// The canonical spans of the corridor, air included.
    pub spans: Vec<Span>,
    pub runs: Vec<WeldedRun>,
    /// The integral of the largest factor, accumulated in double precision and rounded once.
    pub cost: F32,
    pub presence: Vec<EntityPresence>,
    pub shells: Vec<ShellPresence>,
    pub events: Vec<BoundaryEvent>,
}

/// Whether two distances name one boundary, to within what rounding can part.
pub open spec fn coincides(anchor: F64, t: F64, laws: WalkLaws) -> bool {
    t.difference(anchor).absolute().at_most(
        laws.topology_abs.doubled().sum(laws.topology_rel.doubled().product(anchor.absolute().larger(t.absolute()))),
    )
}

pub fn coincident(anchor: F64, t: F64, laws: &WalkLaws) -> (yes: bool)
    ensures
        yes == coincides(anchor, t, *laws),
{
    let reach: F64 = laws.topology_rel.to_double().times(anchor.abs().max(t.abs()));
    t.minus(anchor).abs().le(laws.topology_abs.to_double().plus(reach))
}

/// The length is a number that is not negative.
pub open spec fn has_length(corridor: RayCorridor) -> bool {
    corridor.length.finite() && !corridor.length.below(F32::zero())
}

/// The axis is a unit vector, to a thousandth of its square.
pub open spec fn has_axis(corridor: RayCorridor) -> bool {
    !(F32 { bits: 0x3a83_126f }).below(corridor.axis.inner(corridor.axis).difference(F32::one()).absolute())
}

/// A hit at a finite distance, not behind the origin.
pub open spec fn is_ahead(hit: FaceHit) -> bool {
    hit.t.finite() && !hit.t.below(F64::zero())
}

/// Every hit of the corridor's own is ahead of its origin.
pub open spec fn has_hits_ahead(corridor: RayCorridor) -> bool {
    forall|i: int|
        0 <= i < corridor.hits@.len() && (#[trigger] corridor.hits@[i]).t.below(corridor.length.doubled())
            ==> is_ahead(corridor.hits@[i])
}

/// The corridor is well formed.
pub open spec fn has_form(corridor: RayCorridor) -> bool {
    has_length(corridor) && has_axis(corridor) && has_hits_ahead(corridor)
}

/// The error says what is malformed, the first thing that is.
pub open spec fn malformed(corridor: RayCorridor, sample: usize, error: WalkError) -> bool {
    error matches WalkError::BadCorridor { sample: s, reason } && s == sample && if !has_length(corridor) {
        reason@ == "corridor length must be finite and non-negative"@
    } else if !has_axis(corridor) {
        reason@ == "corridor axis must be unit length"@
    } else {
        !has_hits_ahead(corridor) && reason@ == "a face hit is behind the corridor origin or non-finite"@
    }
}

/// The corridor's own hits in their one order.
pub open spec fn ordered_hits(corridor: RayCorridor) -> Seq<FaceHit> {
    topology::kept(corridor.hits@, corridor.length.doubled()).sort_by(
        |a: FaceHit, b: FaceHit| topology::hit_leq(a, b),
    )
}

/// The corridor's crossings.
pub open spec fn crossings_of(corridor: RayCorridor, laws: WalkLaws) -> Seq<Toggle> {
    topology::crossings_from(ordered_hits(corridor), corridor.axis, laws.tangent_cos, 0)
}

/// The stretches of each shell's presence along the corridor.
pub open spec fn intervals_of(corridor: RayCorridor, laws: WalkLaws) -> Seq<Interval> {
    field::closed_by(crossings_of(corridor, laws), crossings_of(corridor, laws).len() as int)
}

/// The corridor pairs: every declared volume is known, nothing is wrong with any
/// crossing, and no shell is left open.
pub open spec fn pairs(corridor: RayCorridor, laws: WalkLaws, factors: Map<Entity, F32>) -> bool {
    let toggles = crossings_of(corridor, laws);
    let seeds = corridor.initial_presence@;
    &&& field::declared(seeds, factors)
    &&& field::sound(toggles, seeds, factors, toggles.len() as int)
    &&& field::all_closed(toggles, seeds)
}

/// The walk of a corridor that pairs.
pub open spec fn is_walk(
    walk: RayWalk,
    corridor: RayCorridor,
    laws: WalkLaws,
    rows: Seq<(Entity, F32)>,
    factors: Map<Entity, F32>,
) -> bool {
    let toggles = crossings_of(corridor, laws);
    let seeds = corridor.initial_presence@;
    let intervals = intervals_of(corridor, laws);
    let transitions = field::transitions_from(rows, toggles, seeds, 0);
    let charted = walk.spans@;
    let scene = Scene {
        spans: charted,
        runs: weld::runs_from(charted, 0),
        transitions,
        axis: corridor.axis,
        laws,
    };
    // the spans are the canonical chart of the union field
    &&& charted == spans::spans_from(
        transitions,
        F64::zero(),
        field::peak(rows, toggles, seeds, 0),
        corridor.length.doubled(),
    )
    &&& spans::tiles(charted, 0, corridor.length.doubled().value())
    &&& spans::stepping(charted)
    &&& spans::charts(charted, rows, intervals)
    &&& walk.cost == spans::cost_of(charted, charted.len() as int).halved()
    // the runs are its material, welded
    &&& walk.runs@.len() == scene.groups().len()
    &&& forall|i: int|
        0 <= i < walk.runs@.len() ==> weld::is_welded(#[trigger] walk.runs@[i], scene, intervals, scene.groups()[i])
    &&& walk.events@ == events::events_upto(walk.runs@, corridor.origin, corridor.axis, walk.runs@.len() as int)
    &&& presence::is_entity_presence(walk.presence@, intervals, factors)
    &&& presence::is_shell_presence(walk.shells@, intervals)
}

/// Sorting by the hit order is the one ordered list of the same hits.
pub proof fn lemma_ordered_hits(corridor: RayCorridor)
    ensures
        topology::in_hit_order(ordered_hits(corridor)),
        ordered_hits(corridor).to_multiset() == topology::kept(corridor.hits@, corridor.length.doubled()).to_multiset(),
{
    let leq = |a: FaceHit, b: FaceHit| topology::hit_leq(a, b);
    topology::lemma_hit_order_total();
    let kept = topology::kept(corridor.hits@, corridor.length.doubled());
    kept.lemma_sort_by_ensures(leq);
    assert forall|i: int, j: int| 0 <= i < j < kept.sort_by(leq).len() implies topology::hit_leq(
        #[trigger] kept.sort_by(leq)[i],
        #[trigger] kept.sort_by(leq)[j],
    ) by {
        assert(leq(kept.sort_by(leq)[i], kept.sort_by(leq)[j]));
    }
}

fn has_unit_axis(corridor: &RayCorridor) -> (yes: bool)
    ensures
        yes == has_axis(*corridor),
{
    !(F32 { bits: 0x3a83_126f }).lt(corridor.axis.dot(corridor.axis).minus(F32::one()).abs())
}

/// What walking a ray gives: the walk of a corridor that is well formed and pairs, or
/// the first thing that is wrong with it.
pub open spec fn is_outcome(
    result: Result<RayWalk, WalkError>,
    sample: usize,
    corridor: RayCorridor,
    laws: WalkLaws,
    rows: Seq<(Entity, F32)>,
    factors: Map<Entity, F32>,
) -> bool {
    match result {
        Ok(walk) => has_form(corridor) && pairs(corridor, laws, factors) && is_walk(
            walk,
            corridor,
            laws,
            rows,
            factors,
        ),
        Err(error) => malformed(corridor, sample, error) || (has_form(corridor) && !pairs(corridor, laws, factors)
            && field::first_error(
            sample,
            corridor.length,
            crossings_of(corridor, laws),
            corridor.initial_presence@,
            factors,
            error,
        )),
    }
}

/// Walks one sample ray: reads the crossings, pairs them, charts the union field,
/// welds the runs and lists the steps.
pub fn walk_ray(sample: usize, corridor: &RayCorridor, volumes: &VolumeTable, laws: &WalkLaws) -> (result: Result<
    RayWalk,
    WalkError,
>)
    ensures
        is_outcome(result, sample, *corridor, *laws, volumes.spec_rows(), volumes@),
{
    if !corridor.length.is_finite() || corridor.length.lt(F32::zero()) {
        return Err(
            WalkError::BadCorridor { sample, reason: "corridor length must be finite and non-negative" },
        );
    }
    if !has_unit_axis(corridor) {
        return Err(WalkError::BadCorridor { sample, reason: "corridor axis must be unit length" });
    }
    let length: F64 = corridor.length.to_double();
    let mut next: usize = 0;
    while next < corridor.hits.len()
        invariant
            next <= corridor.hits.len(),
            has_length(*corridor),
            has_axis(*corridor),
            length == corridor.length.doubled(),
            forall|i: int|
                0 <= i < next && (#[trigger] corridor.hits@[i]).t.below(length) ==> is_ahead(corridor.hits@[i]),
        decreases corridor.hits.len() - next,
    {
        let t: F64 = corridor.hits[next].t;
        if t.lt(length) && (!t.is_finite() || t.lt(F64::zero())) {
            assert(!is_ahead(corridor.hits@[next as int]));
            return Err(
                WalkError::BadCorridor { sample, reason: "a face hit is behind the corridor origin or non-finite" },
            );
        }
        next = next + 1;
    }
    assert(has_form(*corridor));
    let hits: Vec<FaceHit> = order_hits(&corridor.hits, length);
    let crossings: Vec<Crossing> = read_crossings(&hits, corridor.axis, laws.tangent_cos);
    let ghost toggles = topology::toggles_of(crossings@);
    let ghost seeds = corridor.initial_presence@;
    proof {
        lemma_ordered_hits(*corridor);
        topology::lemma_hit_order_unique(hits@, ordered_hits(*corridor));
        topology::lemma_crossings_order(hits@, corridor.axis, laws.tangent_cos, 0);
        corridor.length.lemma_doubled();
        length.lemma_nonnegative();
        corridor.length.lemma_nonnegative();
        vstd::arithmetic::power2::lemma_pow2_pos(925);
        assert(length.value() >= 0) by (nonlinear_arith)
            requires
                length.value() == corridor.length.value() * vstd::arithmetic::power2::pow2(925),
                corridor.length.value() >= 0;
        assert forall|i: int| 0 <= i < toggles.len() implies !(#[trigger] toggles[i]).t.is_nan() && 0
            <= toggles[i].t.value() < length.value() by {
            let y = choose|y: int| 0 <= y < hits@.len() && (#[trigger] hits@[y]).t == toggles[i].t && hits@[y].spec_key() == toggles[i].key;
            assert(corridor.hits@.contains(hits@[y]));
            let z = choose|z: int| 0 <= z < corridor.hits@.len() && corridor.hits@[z] == hits@[y];
            assert(corridor.hits@[z].t.below(length));
            F64::zero().lemma_nonnegative();
        }
        assert(spans::within(toggles, length));
    }
    let reading: Reading = match read_field(sample, corridor.length, &crossings, &corridor.initial_presence, volumes) {
        Ok(reading) => reading,
        Err(error) => {
            return Err(error);
        },
    };
    let intervals: Vec<Interval> = reading.intervals;
    proof {
        spans::lemma_canonical(volumes.spec_rows(), toggles, seeds, volumes@, length);
        field::lemma_closed(toggles, seeds, volumes@, toggles.len() as int);
    }
    let charted: Vec<Span> = cut_spans(&reading.transitions, reading.start, length);
    let cost: F32 = total_cost(&charted).to_single();
    let raw: Vec<(usize, usize)> = find_runs(&charted);
    let runs: Vec<WeldedRun> = weld_runs(corridor.axis, &charted, &raw, &intervals, &reading.transitions, laws);
    let events: Vec<BoundaryEvent> = boundary_events(corridor.origin, corridor.axis, &runs);
    let presence: Vec<EntityPresence> = entity_presence(&intervals, volumes);
    let shells: Vec<ShellPresence> = shell_presence(&intervals);
    Ok(RayWalk { spans: charted, runs, cost, presence, shells, events })
}

/// A corridor restarted at `t` starts inside the shell: it was entered strictly
/// before, and is left no earlier; a face on the restart belongs to the new corridor.
pub open spec fn holds_at(spans: Seq<(F64, F64)>, t: F64, laws: WalkLaws) -> bool {
    exists|i: int|
        {
            &&& 0 <= i < spans.len()
            &&& (#[trigger] spans[i]).0.below(t) && !coincides(spans[i].0, t, laws)
            &&& t.at_most(spans[i].1) || coincides(spans[i].1, t, laws)
        }
}

/// The shells among the first `n` that a corridor restarted at `t` starts inside.
pub open spec fn inside_upto(shells: Seq<ShellPresence>, t: F64, laws: WalkLaws, n: int) -> Seq<ShellKey>
    decreases n,
{
    if n <= 0 {
        Seq::empty()
    } else if holds_at(shells[n - 1].spans@, t, laws) {
        inside_upto(shells, t, laws, n - 1).push(shells[n - 1].key)
    } else {
        inside_upto(shells, t, laws, n - 1)
    }
}

impl RayWalk {
    /// The shells that a corridor restarted at `t` must declare.
    pub fn inside_at(&self, t: F64, laws: &WalkLaws) -> (keys: Vec<ShellKey>)
        ensures
            keys@ == inside_upto(self.shells@, t, *laws, self.shells@.len() as int),
    {
        let mut keys: Vec<ShellKey> = Vec::new();
        let mut n: usize = 0;
        while n < self.shells.len()
            invariant
                n <= self.shells.len(),
                keys@ == inside_upto(self.shells@, t, *laws, n as int),
            decreases self.shells.len() - n,
        {
            let spans: &Vec<(F64, F64)> = &self.shells[n].spans;
            let mut inside: bool = false;
            let mut i: usize = 0;
            while i < spans.len()
                invariant
                    i <= spans.len(),
                    inside == holds_at(spans@.take(i as int), t, *laws),
                decreases spans.len() - i,
            {
                let (open, close) = spans[i];
                let entered: bool = open.lt(t) && !coincident(open, t, laws);
                let still_inside: bool = t.le(close) || coincident(close, t, laws);
                let ghost shorter = spans@.take(i as int);
                let ghost longer = spans@.take(i + 1);
                proof {
                    assert(longer[i as int] == spans@[i as int]);
                    if holds_at(shorter, t, *laws) {
                        let j = choose|j: int|
                            {
                                &&& 0 <= j < shorter.len()
                                &&& (#[trigger] shorter[j]).0.below(t) && !coincides(shorter[j].0, t, *laws)
                                &&& t.at_most(shorter[j].1) || coincides(shorter[j].1, t, *laws)
                            };
                        assert(longer[j] == shorter[j]);
                    }
                    if holds_at(longer, t, *laws) {
                        let j = choose|j: int|
                            {
                                &&& 0 <= j < longer.len()
                                &&& (#[trigger] longer[j]).0.below(t) && !coincides(longer[j].0, t, *laws)
                                &&& t.at_most(longer[j].1) || coincides(longer[j].1, t, *laws)
                            };
                        if j < i {
                            assert(shorter[j] == longer[j]);
                        }
                    }
                }
                if entered && still_inside {
                    inside = true;
                }
                i = i + 1;
            }
            assert(spans@.take(i as int) =~= spans@);
            if inside {
                keys.push(self.shells[n].key);
            }
            n = n + 1;
        }
        keys
    }
}


/// A corridor restarted at a distance starts inside exactly the shells that hold it.
pub proof fn law_a_restart_is_inside_what_holds_it(shells: Seq<ShellPresence>, t: F64, laws: WalkLaws, n: int, key: ShellKey)
    requires
        0 <= n <= shells.len(),
    ensures
        inside_upto(shells, t, laws, n).contains(key) <==> exists|i: int|
            0 <= i < n && (#[trigger] shells[i]).key == key && holds_at(shells[i].spans@, t, laws),
    decreases n,
{
    if n > 0 {
        law_a_restart_is_inside_what_holds_it(shells, t, laws, n - 1, key);
        let before = inside_upto(shells, t, laws, n - 1);
        let last = shells[n - 1];
        if holds_at(last.spans@, t, laws) {
            let more = before.push(last.key);
            assert(more[before.len() as int] == last.key);
            if before.contains(key) {
                let k = before.index_of(key);
                assert(more[k] == key);
            }
            if more.contains(key) {
                let k = more.index_of(key);
                if k < before.len() {
                    assert(before[k] == key);
                }
            }
        }
    }
}

} // verus!
