//! A plate, entered once and left once, and what it does inside another.

use crate::ballistics::walk::adding;
use crate::ballistics::walk::field;
use crate::ballistics::walk::field::Interval;
use crate::ballistics::walk::fragment;
use crate::ballistics::walk::integral;
use crate::ballistics::walk::laws;
use crate::ballistics::walk::locality;
use crate::ballistics::walk::pairing;
use crate::ballistics::walk::presence;
use crate::ballistics::walk::presence::EntityPresence;
use crate::ballistics::walk::ray;
use crate::ballistics::walk::ray::RayWalk;
use crate::ballistics::walk::spans;
use crate::ballistics::walk::table;
use crate::ballistics::walk::topology;
use crate::ballistics::walk::topology::{Lean, Toggle};
use crate::ballistics::walk::vocabulary::{Entity, FaceHit, RayCorridor, ShellKey, WalkError, WalkLaws};
use crate::float::{F32, F64};
use vstd::prelude::*;

verus! {

/// The corridor holds one plate and nothing else: a face of the shell that leans in at `from`, and
/// one that leans out at `to`.
pub open spec fn is_plate(corridor: RayCorridor, key: ShellKey, from: F64, to: F64, laws: WalkLaws) -> bool {
    let hits = corridor.hits@;
    &&& hits.len() == 2
    &&& hits[0].spec_key() == key && hits[1].spec_key() == key
    &&& hits[0].t == from && hits[1].t == to
    &&& topology::leaning(hits[0], corridor.axis, laws.tangent_cos) == Lean::Entry
    &&& topology::leaning(hits[1], corridor.axis, laws.tangent_cos) == Lean::Exit
    &&& corridor.initial_presence@.len() == 0
    &&& from.finite() && to.finite()
    &&& !from.below(F64::zero())
    &&& from.below(to)
    &&& to.below(corridor.length.doubled())
}

/// The plate's hits stand in their order as they are.
proof fn lemma_ordered(corridor: RayCorridor, key: ShellKey, from: F64, to: F64, laws: WalkLaws)
    requires
        is_plate(corridor, key, from, to, laws),
    ensures
        ray::ordered_hits(corridor) == corridor.hits@,
{
    reveal(Seq::filter);
    let hits = corridor.hits@;
    let length = corridor.length.doubled();
    let kept = topology::kept(hits, length);
    let within = |hit: FaceHit| hit.t.below(length);
    assert(hits =~= seq![hits[0], hits[1]]);
    assert(within(hits[0]) && within(hits[1]));
    assert(hits.drop_last() =~= seq![hits[0]]);
    assert(hits.drop_last().drop_last() =~= Seq::<FaceHit>::empty());
    assert(hits.drop_last().filter(within) =~= seq![hits[0]]);
    assert(kept =~= hits);
    ray::lemma_ordered_hits(corridor);
    from.lemma_rank(to);
    let (a, b) = (topology::hit_row(hits[0]), topology::hit_row(hits[1]));
    assert(a[0] == from.rank() as u64 && b[0] == to.rank() as u64);
    assert(from.rank() < to.rank());
    assert(topology::hit_leq(hits[0], hits[1]));
    assert(topology::in_hit_order(hits));
    topology::lemma_hit_order_unique(ray::ordered_hits(corridor), hits);
}

/// The plate's two crossings.
proof fn lemma_crossings(corridor: RayCorridor, key: ShellKey, from: F64, to: F64, laws: WalkLaws)
    requires
        is_plate(corridor, key, from, to, laws),
    ensures
        ({
            let toggles = ray::crossings_of(corridor, laws);
            &&& toggles.len() == 2
            &&& toggles[0].key == key && toggles[0].t == from && toggles[0].enters
            &&& toggles[1].key == key && toggles[1].t == to && !toggles[1].enters
        }),
{
    lemma_ordered(corridor, key, from, to, laws);
    let hits = corridor.hits@;
    let (axis, tangent) = (corridor.axis, laws.tangent_cos);
    assert(!topology::one_contact(hits[0], hits[1]));
    assert(topology::contact_end(hits, 0) == 1);
    assert(topology::contact_end(hits, 1) == 2);
    assert(topology::any_leans(hits, axis, tangent, Lean::Entry, 0, 1)) by {
        assert(topology::leaning(hits[0], axis, tangent) == Lean::Entry);
    }
    assert(!topology::any_leans(hits, axis, tangent, Lean::Exit, 0, 1));
    assert(topology::any_leans(hits, axis, tangent, Lean::Exit, 1, 2)) by {
        assert(topology::leaning(hits[1], axis, tangent) == Lean::Exit);
    }
    assert(!topology::any_leans(hits, axis, tangent, Lean::Entry, 1, 2));
    let (first, second) = (
        topology::contact_toggle(hits, axis, tangent, 0, 1)->Some_0,
        topology::contact_toggle(hits, axis, tangent, 1, 2)->Some_0,
    );
    let none = topology::crossings_from(hits, axis, tangent, 2);
    let rest = topology::crossings_from(hits, axis, tangent, 1);
    assert(none == Seq::<Toggle>::empty());
    assert(rest == seq![second] + none);
    assert(topology::crossings_from(hits, axis, tangent, 0) == seq![first] + rest);
    assert(seq![first] + rest =~= seq![first, second]);
}

/// A plate is present from where it is entered to where it is left, and nowhere else; it can be
/// walked wherever its volume is known.
pub proof fn law_a_plate_is_one_stretch(
    corridor: RayCorridor,
    key: ShellKey,
    from: F64,
    to: F64,
    laws: WalkLaws,
    factors: Map<Entity, F32>,
)
    requires
        is_plate(corridor, key, from, to, laws),
    ensures
        ray::intervals_of(corridor, laws) == seq![Interval { key, open: from, close: to }],
        ray::has_hits_ahead(corridor),
        factors.contains_key(key.volume) ==> ray::pairs(corridor, laws, factors),
{
    lemma_crossings(corridor, key, from, to, laws);
    let toggles = ray::crossings_of(corridor, laws);
    let seeds = corridor.initial_presence@;
    assert(field::closed_by(toggles, 0) == Seq::<Interval>::empty());
    assert(field::closed_by(toggles, 1) == Seq::<Interval>::empty());
    assert(field::opened_at(toggles, 1, key) == from);
    assert(field::closed_by(toggles, 2) =~= seq![Interval { key, open: from, close: to }]);
    if factors.contains_key(key.volume) {
        assert(!field::is_open(toggles, seeds, 0, key));
        assert(field::is_open(toggles, seeds, 1, key));
        assert forall|j: int| 0 <= j < 2 implies (#[trigger] field::fault_at(toggles, seeds, factors, j)) is None by {
            if j == 0 {
                assert(field::fault_at(toggles, seeds, factors, 0) is None);
            } else {
                assert(field::fault_at(toggles, seeds, factors, 1) is None);
            }
        }
        assert forall|other: ShellKey| !field::is_open(toggles, seeds, 2, other) by {
            assert(!field::is_open(toggles, seeds, 0, other));
            if other != key {
                assert(!field::is_open(toggles, seeds, 1, other));
            }
        }
    }
}

/// A stretch of a corridor that was put together is one of its parts'.
proof fn lemma_from_a_part(
    whole: RayCorridor,
    bare: RayCorridor,
    added: RayCorridor,
    key: ShellKey,
    from: F64,
    to: F64,
    laws: WalkLaws,
    a: int,
)
    requires
        pairing::joins(whole, bare, added),
        is_plate(added, key, from, to, laws),
        0 <= a < ray::intervals_of(whole, laws).len(),
    ensures
        ({
            let interval = ray::intervals_of(whole, laws)[a];
            interval == (Interval { key, open: from, close: to }) || ray::intervals_of(bare, laws).contains(interval)
        }),
{
    let interval = ray::intervals_of(whole, laws)[a];
    let mine = |k: ShellKey| k == interval.key;
    let mh = locality::own_hit(mine);
    let own = locality::own_interval(mine);
    let all = ray::intervals_of(whole, laws);
    law_a_plate_is_one_stretch(added, key, from, to, laws, Map::empty());
    Seq::filter_distributes_over_add(bare.hits@, added.hits@, mh);
    let (fb, fa) = (bare.hits@.filter(mh), added.hits@.filter(mh));
    assert(own(all[a]));
    all.lemma_filter_contains(own, a);
    assert(all.filter(own).contains(interval));
    let i = choose|i: int| 0 <= i < all.filter(own).len() && all.filter(own)[i] == interval;
    if interval.key == key {
        assert(locality::has_hit(added, key)) by {
            assert(added.hits@[0].spec_key() == key);
        }
        assert(fb =~= Seq::empty()) by {
            if fb.len() > 0 {
                let z = locality::lemma_filter_sub(bare.hits@, mh, 0);
                bare.hits@.lemma_filter_pred(mh, 0);
                assert(bare.hits@[z].spec_key() == key);
                assert(pairing::has_shell(bare, key) && pairing::has_shell(added, key));
            }
        }
        assert(fb + fa =~= fa);
        locality::law_shells_are_read_alone(whole, added, laws, mine);
        let z = locality::lemma_filter_sub(ray::intervals_of(added, laws), own, i);
    } else {
        assert(fa =~= Seq::empty()) by {
            if fa.len() > 0 {
                let z = locality::lemma_filter_sub(added.hits@, mh, 0);
                added.hits@.lemma_filter_pred(mh, 0);
                assert(added.hits@[z].spec_key() == key);
            }
        }
        assert(fb + fa =~= fb);
        locality::law_shells_are_read_alone(whole, bare, laws, mine);
        let z = locality::lemma_filter_sub(ray::intervals_of(bare, laws), own, i);
        assert(ray::intervals_of(bare, laws)[z] == interval);
    }
}

/// What a volume presents that is one plate.
pub open spec fn presents_plate(met: EntityPresence, volume: Entity, from: F64, to: F64, factor: F32) -> bool {
    &&& met.entity == volume
    &&& met.spans@ == seq![(from, to)]
    &&& met.factor == factor
    &&& met.chord == to.difference(from).halved()
    &&& met.cost == to.difference(from).product(factor.doubled()).halved()
}

/// Some volume of the list presents the plate.
pub open spec fn lists_plate(list: Seq<EntityPresence>, volume: Entity, from: F64, to: F64, factor: F32) -> bool {
    exists|j: int| 0 <= j < list.len() && presents_plate(#[trigger] list[j], volume, from, to, factor)
}

/// A volume that is one plate presents its chord at its own factor, whatever else is there.
proof fn lemma_presents(
    more: RayWalk,
    whole: RayCorridor,
    bare: RayCorridor,
    added: RayCorridor,
    key: ShellKey,
    from: F64,
    to: F64,
    laws: WalkLaws,
    rows: Seq<(Entity, F32)>,
    factors: Map<Entity, F32>,
)
    requires
        pairing::joins(whole, bare, added),
        is_plate(added, key, from, to, laws),
        ray::is_walk(more, whole, laws, rows, factors),
        forall|i: int| 0 <= i < bare.hits@.len() ==> (#[trigger] bare.hits@[i]).volume != key.volume,
    ensures
        lists_plate(more.presence@, key.volume, from, to, factors[key.volume]),
{
    let volume = key.volume;
    let mine = |k: ShellKey| k.volume == volume;
    let mh = locality::own_hit(mine);
    let all = ray::intervals_of(whole, laws);
    let one = seq![Interval { key, open: from, close: to }];
    law_a_plate_is_one_stretch(added, key, from, to, laws, factors);
    Seq::filter_distributes_over_add(bare.hits@, added.hits@, mh);
    let (fb, fa) = (bare.hits@.filter(mh), added.hits@.filter(mh));
    assert(fb =~= Seq::empty()) by {
        if fb.len() > 0 {
            let z = locality::lemma_filter_sub(bare.hits@, mh, 0);
            bare.hits@.lemma_filter_pred(mh, 0);
            assert(bare.hits@[z].volume == volume);
        }
    }
    assert(fb + fa =~= fa);
    locality::law_shells_are_read_alone(whole, added, laws, mine);
    assert(locality::own_interval(mine) == locality::own_interval(|key: ShellKey| key.volume == volume));
    let own = all.filter(locality::own_interval(mine));
    assert(one.filter(locality::own_interval(mine)) =~= one) by {
        reveal(Seq::filter);
        assert(one.drop_last() =~= Seq::<Interval>::empty());
        assert(locality::own_interval(mine)(one[0]));
    }
    assert(own == one);
    adding::lemma_met_by_own(all, volume);
    adding::lemma_own_spans(all, volume);
    assert(presence::volume_spans(one, volume, 0) == Seq::<(F64, F64)>::empty());
    assert(presence::volume_spans(one, volume, 1) =~= seq![(from, to)]);
    let j = choose|j: int| 0 <= j < more.presence@.len() && (#[trigger] more.presence@[j]).entity == volume;
    let met = more.presence@[j];
    assert(presence::is_presence(met, all, factors));
    let ordered = choose|ordered: Seq<(F64, F64)>|
        {
            &&& #[trigger] presence::in_pair_order(ordered)
            &&& ordered.to_multiset() == presence::volume_spans(all, volume, all.len() as int).to_multiset()
            &&& met.spans@ == presence::merged(ordered, ordered.len() as int)
        };
    lemma_single(ordered, (from, to));
    assert(presence::merged(ordered, 0) == Seq::<(F64, F64)>::empty());
    assert(presence::merged(ordered, 1) =~= seq![(from, to)]);
    assert(presence::chord_of(met.spans@, 0) == F64::zero());
    let length = to.difference(from);
    lemma_chord(from, to);
    assert(presence::chord_of(met.spans@, 1) == length);
    assert(presents_plate(met, volume, from, to, factors[volume]));
}

/// A list with one pair's multiset is that pair.
proof fn lemma_single(ordered: Seq<(F64, F64)>, pair: (F64, F64))
    requires
        ordered.to_multiset() == seq![pair].to_multiset(),
    ensures
        ordered == seq![pair],
{
    broadcast use vstd::seq_lib::group_to_multiset_ensures;

    assert(ordered.len() == ordered.to_multiset().len());
    assert(seq![pair].len() == seq![pair].to_multiset().len());
    assert(ordered.to_multiset().count(ordered[0]) > 0) by {
        assert(ordered.contains(ordered[0]));
    }
    assert(seq![pair].contains(ordered[0]));
    assert(ordered =~= seq![pair]);
}

/// Nothing and a chord is the chord.
proof fn lemma_chord(from: F64, to: F64)
    requires
        from.finite(),
        to.finite(),
        !from.below(F64::zero()),
        from.below(to),
    ensures
        F64::zero().sum(to.difference(from)) == to.difference(from),
{
    let zero = F64::zero();
    zero.lemma_nonnegative();
    from.lemma_nonnegative();
    to.lemma_gap(from);
    to.lemma_difference_sign(from);
    let length = to.difference(from);
    length.lemma_nonnegative();
    fragment::lemma_nothing_and(length);
}

/// A plate of a new volume that lies where a volume at least as strong is present changes neither
/// the spans nor the cost, to the bit, whatever the two are called; and it is still presented: its
/// own chord, at its own factor.
pub proof fn law_a_weaker_plate_is_free(
    walk: RayWalk,
    again: Result<RayWalk, WalkError>,
    sample: usize,
    whole: RayCorridor,
    bare: RayCorridor,
    added: RayCorridor,
    strong: Entity,
    key: ShellKey,
    from: F64,
    to: F64,
    laws: WalkLaws,
    rows: Seq<(Entity, F32)>,
)
    requires
        table::ordered(rows),
        pairing::joins(whole, bare, added),
        is_plate(added, key, from, to, laws),
        table::tabled(rows).contains_key(key.volume),
        table::tabled(rows).contains_key(strong),
        table::tabled(rows)[key.volume].value() <= table::tabled(rows)[strong].value(),
        forall|i: int| 0 <= i < bare.hits@.len() ==> (#[trigger] bare.hits@[i]).volume != key.volume,
        forall|x: int|
            from.value() <= x < to.value() ==> #[trigger] spans::volume_covered(ray::intervals_of(bare, laws), strong, x),
        ray::is_outcome(Ok(walk), sample, bare, laws, rows, table::tabled(rows)),
        ray::is_outcome(again, sample, whole, laws, rows, table::tabled(rows)),
    ensures
        again matches Ok(more) && more.spans@ == walk.spans@ && more.cost == walk.cost && lists_plate(
            more.presence@,
            key.volume,
            from,
            to,
            table::tabled(rows)[key.volume],
        ),
{
    let factors = table::tabled(rows);
    let (all, own) = (ray::intervals_of(whole, laws), ray::intervals_of(bare, laws));
    law_a_plate_is_one_stretch(added, key, from, to, laws, factors);
    assert(ray::has_form(added));
    table::lemma_tabled(rows);
    assert(table::row_of(rows, strong));
    let s = choose|s: int| 0 <= s < rows.len() && (#[trigger] rows[s]).0 == strong;
    assert forall|x: int, i: int| 0 <= i < rows.len() && spans::volume_covered(all, rows[i].0, x) implies #[trigger] laws::outmatched(
        rows,
        own,
        x,
        i,
    ) by {
        let a = choose|a: int|
            0 <= a < all.len() && (#[trigger] all[a]).key.volume == rows[i].0 && all[a].open.value() <= x
                < all[a].close.value();
        lemma_from_a_part(whole, bare, added, key, from, to, laws, a);
        if own.contains(all[a]) {
            let z = choose|z: int| 0 <= z < own.len() && own[z] == all[a];
            assert(spans::volume_covered(own, rows[i].0, x));
        } else {
            assert(spans::volume_covered(own, rows[s].0, x));
            assert(factors[rows[i].0] == rows[i].1 && factors[rows[s].0] == rows[s].1);
        }
    }
    adding::law_dominated_addition_is_free(walk, again, sample, whole, bare, added, laws, rows, factors);
    lemma_presents(again->Ok_0, whole, bare, added, key, from, to, laws, rows, factors);
}

/// A weaker plate inside a stronger one cannot dilute it: both are walked, the spans and the cost are
/// those of the stronger alone, to the bit, whichever of the two is listed first; and the weaker is
/// still presented: its own chord, at its own factor.
pub proof fn law_a_weaker_plate_cannot_dilute(
    alone: Result<RayWalk, WalkError>,
    both: Result<RayWalk, WalkError>,
    sample: usize,
    whole: RayCorridor,
    outer: RayCorridor,
    inner: RayCorridor,
    strong: ShellKey,
    weak: ShellKey,
    a: F64,
    b: F64,
    p: F64,
    q: F64,
    laws: WalkLaws,
    rows: Seq<(Entity, F32)>,
)
    requires
        table::ordered(rows),
        pairing::joins(whole, outer, inner),
        is_plate(outer, strong, a, b, laws),
        is_plate(inner, weak, p, q, laws),
        strong.volume != weak.volume,
        a.at_most(p),
        q.at_most(b),
        table::tabled(rows).contains_key(strong.volume),
        table::tabled(rows).contains_key(weak.volume),
        table::tabled(rows)[weak.volume].value() <= table::tabled(rows)[strong.volume].value(),
        ray::has_length(whole),
        ray::has_axis(whole),
        ray::is_outcome(alone, sample, outer, laws, rows, table::tabled(rows)),
        ray::is_outcome(both, sample, whole, laws, rows, table::tabled(rows)),
    ensures
        alone matches Ok(walk) && both matches Ok(more) && more.spans@ == walk.spans@ && more.cost == walk.cost
            && lists_plate(more.presence@, weak.volume, p, q, table::tabled(rows)[weak.volume]),
{
    let factors = table::tabled(rows);
    law_a_plate_is_one_stretch(outer, strong, a, b, laws, factors);
    assert(ray::has_form(outer));
    let own = ray::intervals_of(outer, laws);
    assert forall|x: int| p.value() <= x < q.value() implies #[trigger] spans::volume_covered(own, strong.volume, x) by {
        assert(own[0].key.volume == strong.volume);
    }
    assert forall|i: int| 0 <= i < outer.hits@.len() implies (#[trigger] outer.hits@[i]).volume != weak.volume by {
        assert(outer.hits@[i].spec_key() == strong);
    }
    law_a_weaker_plate_is_free(
        alone->Ok_0,
        both,
        sample,
        whole,
        outer,
        inner,
        strong.volume,
        weak,
        p,
        q,
        laws,
        rows,
    );
}

/// A plate of a new volume never lowers protection, whatever its factor: a ray that can be walked is
/// walked with it, the exact integral over the corridor is no smaller, and the reported cost is no
/// lower but for rounding.
pub proof fn law_a_plate_never_lowers(
    walk: RayWalk,
    again: Result<RayWalk, WalkError>,
    sample: usize,
    whole: RayCorridor,
    bare: RayCorridor,
    added: RayCorridor,
    key: ShellKey,
    from: F64,
    to: F64,
    laws: WalkLaws,
    rows: Seq<(Entity, F32)>,
    factors: Map<Entity, F32>,
)
    requires
        table::ordered(rows),
        pairing::joins(whole, bare, added),
        is_plate(added, key, from, to, laws),
        factors.contains_key(key.volume),
        ray::is_outcome(Ok(walk), sample, bare, laws, rows, factors),
        ray::is_outcome(again, sample, whole, laws, rows, factors),
    ensures
        again matches Ok(more) && laws::integral_of(walk.spans@, walk.spans@.len() as int) <= laws::integral_of(
            more.spans@,
            more.spans@.len() as int,
        ) && (integral::is_measured(walk) && integral::is_measured(more) ==> integral::is_no_lower(walk, more)),
{
    law_a_plate_is_one_stretch(added, key, from, to, laws, factors);
    assert(ray::has_form(added));
    adding::law_adding_never_lowers(walk, again, sample, whole, bare, added, laws, rows, factors);
}

} // verus!
