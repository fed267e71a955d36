//! What adding volumes to a corridor does to its walk.

use crate::ballistics::walk::determined;
use crate::ballistics::walk::field::Interval;
use crate::ballistics::walk::integral;
use crate::ballistics::walk::laws;
use crate::ballistics::walk::locality;
use crate::ballistics::walk::pairing;
use crate::ballistics::walk::presence;
use crate::ballistics::walk::ray;
use crate::ballistics::walk::ray::RayWalk;
use crate::ballistics::walk::spans;
use crate::ballistics::walk::table;
use crate::ballistics::walk::vocabulary::{Entity, RayCorridor, ShellKey, WalkError, WalkLaws};
use crate::float::{F32, F64};
use vstd::prelude::*;

verus! {

proof fn lemma_extends(whole: RayCorridor, a: RayCorridor, added: RayCorridor)
    requires
        pairing::joins(whole, a, added),
    ensures
        locality::extends(a, whole, added.hits@),
{
    assert forall|i: int| 0 <= i < added.hits@.len() implies !locality::has_hit(a, (#[trigger] added.hits@[i]).spec_key()) by {
        let key = added.hits@[i].spec_key();
        assert(locality::has_hit(added, key));
        assert(!(pairing::has_shell(a, key) && pairing::has_shell(added, key)));
    }
}

/// Adding volumes never lowers protection anywhere: where what is added can be walked by
/// itself, the ray is walked with it, at no position is the field lower, the exact integral
/// over the corridor is no smaller, and the reported cost is no lower but for rounding.
pub proof fn law_adding_never_lowers(
    walk: RayWalk,
    again: Result<RayWalk, WalkError>,
    sample: usize,
    whole: RayCorridor,
    a: RayCorridor,
    added: RayCorridor,
    laws: WalkLaws,
    rows: Seq<(Entity, F32)>,
    factors: Map<Entity, F32>,
)
    requires
        table::ordered(rows),
        pairing::joins(whole, a, added),
        ray::is_outcome(Ok(walk), sample, a, laws, rows, factors),
        ray::has_form(added),
        ray::pairs(added, laws, factors),
        ray::is_outcome(again, sample, whole, laws, rows, factors),
    ensures
        forall|x: int|
            (#[trigger] spans::union_factor(rows, ray::intervals_of(a, laws), x)).value() <= spans::union_factor(
                rows,
                ray::intervals_of(whole, laws),
                x,
            ).value(),
        again matches Ok(more) && laws::integral_of(walk.spans@, walk.spans@.len() as int) <= laws::integral_of(
            more.spans@,
            more.spans@.len() as int,
        ),
        again matches Ok(more) && (integral::is_measured(walk) && integral::is_measured(more) ==> integral::is_no_lower(
            walk,
            more,
        )),
{
    pairing::law_what_pairs_apart_pairs_together(whole, a, added, laws, factors);
    lemma_extends(whole, a, added);
    locality::lemma_adding_never_lowers(walk, again->Ok_0, a, whole, added.hits@, laws, rows, factors);
    if integral::is_measured(walk) && integral::is_measured(again->Ok_0) {
        integral::lemma_no_lower(walk, again->Ok_0, a, whole, laws, rows, factors, rows, factors);
    }
}

/// Material claimed twice is charged once: where what is added can be walked by itself and is
/// nowhere stronger than what was there already, the ray is walked with it, and the spans and
/// the cost are as they were, to the bit.
pub proof fn law_dominated_addition_is_free(
    walk: RayWalk,
    again: Result<RayWalk, WalkError>,
    sample: usize,
    whole: RayCorridor,
    a: RayCorridor,
    added: RayCorridor,
    laws: WalkLaws,
    rows: Seq<(Entity, F32)>,
    factors: Map<Entity, F32>,
)
    requires
        table::ordered(rows),
        pairing::joins(whole, a, added),
        ray::is_outcome(Ok(walk), sample, a, laws, rows, factors),
        ray::has_form(added),
        ray::pairs(added, laws, factors),
        ray::is_outcome(again, sample, whole, laws, rows, factors),
        forall|x: int, i: int|
            0 <= i < rows.len() && spans::volume_covered(ray::intervals_of(whole, laws), rows[i].0, x)
                ==> #[trigger] laws::outmatched(rows, ray::intervals_of(a, laws), x, i),
    ensures
        again matches Ok(more) && more.spans@ == walk.spans@ && more.cost == walk.cost,
{
    pairing::law_what_pairs_apart_pairs_together(whole, a, added, laws, factors);
    lemma_extends(whole, a, added);
    locality::lemma_dominated_addition_is_free(walk, again->Ok_0, a, whole, added.hits@, laws, rows, factors);
}

/// A volume's stretches are those that stand among its own.
pub(crate) proof fn lemma_own_spans(intervals: Seq<Interval>, volume: Entity)
    ensures
        ({
            let own = intervals.filter(locality::own_interval(|key: ShellKey| key.volume == volume));
            presence::volume_spans(intervals, volume, intervals.len() as int) == presence::volume_spans(
                own,
                volume,
                own.len() as int,
            )
        }),
    decreases intervals.len(),
{
    reveal(Seq::filter);
    let mi = locality::own_interval(|key: ShellKey| key.volume == volume);
    let own = intervals.filter(mi);
    if intervals.len() > 0 {
        let rest = intervals.drop_last();
        lemma_own_spans(rest, volume);
        let kept = rest.filter(mi);
        lemma_spans_prefix(rest, intervals, volume, rest.len() as int);
        if mi(intervals.last()) {
            assert(own =~= kept.push(intervals.last()));
            lemma_spans_prefix(kept, own, volume, kept.len() as int);
        } else {
            assert(own =~= kept);
        }
    } else {
        assert(own =~= intervals);
    }
}

proof fn lemma_spans_prefix(shorter: Seq<Interval>, longer: Seq<Interval>, volume: Entity, n: int)
    requires
        0 <= n <= shorter.len() <= longer.len(),
        forall|i: int| 0 <= i < shorter.len() ==> #[trigger] shorter[i] == longer[i],
    ensures
        presence::volume_spans(shorter, volume, n) == presence::volume_spans(longer, volume, n),
    decreases n,
{
    if n > 0 {
        lemma_spans_prefix(shorter, longer, volume, n - 1);
        assert(shorter[n - 1] == longer[n - 1]);
    }
}

/// A volume is met where one of its own stretches is.
pub(crate) proof fn lemma_met_by_own(intervals: Seq<Interval>, volume: Entity)
    ensures
        presence::volume_met(intervals, volume) <==> intervals.filter(
            locality::own_interval(|key: ShellKey| key.volume == volume),
        ).len() > 0,
{
    let mi = locality::own_interval(|key: ShellKey| key.volume == volume);
    let own = intervals.filter(mi);
    if presence::volume_met(intervals, volume) {
        let a = choose|a: int| 0 <= a < intervals.len() && (#[trigger] intervals[a]).key.volume == volume;
        assert(mi(intervals[a]));
        intervals.lemma_filter_contains(mi, a);
        assert(own.contains(intervals[a]));
    }
    if own.len() > 0 {
        let z = locality::lemma_filter_sub(intervals, mi, 0);
        intervals.lemma_filter_pred(mi, 0);
        assert(intervals[z].key.volume == volume);
    }
}

/// A volume presents what is its own, whatever stands around it: two rays of one length and
/// axis that meet the same faces of it, at the same factor, report the same stretches of it,
/// the same chord and the same cost.
pub proof fn law_presence_is_the_volumes_own(
    wa: RayWalk,
    wb: RayWalk,
    a: RayCorridor,
    b: RayCorridor,
    laws: WalkLaws,
    rows: Seq<(Entity, F32)>,
    factors: Map<Entity, F32>,
    other_rows: Seq<(Entity, F32)>,
    other_factors: Map<Entity, F32>,
    i: int,
)
    requires
        ray::is_walk(wa, a, laws, rows, factors),
        ray::is_walk(wb, b, laws, other_rows, other_factors),
        a.length == b.length,
        a.axis == b.axis,
        0 <= i < wa.presence@.len(),
        factors[wa.presence@[i].entity] == other_factors[wa.presence@[i].entity],
        ({
            let own = locality::own_hit(|key: ShellKey| key.volume == wa.presence@[i].entity);
            a.hits@.filter(own).to_multiset() == b.hits@.filter(own).to_multiset()
        }),
    ensures
        exists|j: int|
            0 <= j < wb.presence@.len() && determined::same_presence(wa.presence@[i], #[trigger] wb.presence@[j]),
{
    let met = wa.presence@[i];
    let volume = met.entity;
    let mine = |key: ShellKey| key.volume == volume;
    let (ia, ib) = (ray::intervals_of(a, laws), ray::intervals_of(b, laws));
    assert(locality::own_hit(|key: ShellKey| key.volume == wa.presence@[i].entity) == locality::own_hit(mine));
    locality::law_shells_are_read_alone(a, b, laws, mine);
    lemma_own_spans(ia, volume);
    lemma_own_spans(ib, volume);
    lemma_met_by_own(ia, volume);
    lemma_met_by_own(ib, volume);
    assert(presence::volume_met(ib, volume));
    let j = choose|j: int| 0 <= j < wb.presence@.len() && (#[trigger] wb.presence@[j]).entity == volume;
    let there = wb.presence@[j];
    assert(presence::is_presence(there, ib, other_factors));
    assert(presence::is_presence(met, ia, factors));
    assert(presence::is_union(there.spans@, ia, volume)) by {
        let ordered = choose|ordered: Seq<(F64, F64)>|
            {
                &&& #[trigger] presence::in_pair_order(ordered)
                &&& ordered.to_multiset() == presence::volume_spans(ib, volume, ib.len() as int).to_multiset()
                &&& there.spans@ == presence::merged(ordered, ordered.len() as int)
            };
        assert(presence::in_pair_order(ordered));
    }
    determined::lemma_one_union(met.spans@, there.spans@, ia, volume);
}

} // verus!
