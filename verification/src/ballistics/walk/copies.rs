//! A primitive that is there twice: what its copy, on entities of its own, does to a walk.

use crate::ballistics::walk::field;
use crate::ballistics::walk::field::Interval;
use crate::ballistics::walk::integral;
use crate::ballistics::walk::laws;
use crate::ballistics::walk::locality;
use crate::ballistics::walk::pairing;
use crate::ballistics::walk::ray;
use crate::ballistics::walk::ray::RayWalk;
use crate::ballistics::walk::spans;
use crate::ballistics::walk::table;
use crate::ballistics::walk::topology;
use crate::ballistics::walk::topology::{Lean, Toggle};
use crate::ballistics::walk::vocabulary::{Entity, FaceHit, PrimitiveKey, RayCorridor, ShellKey, WalkError, WalkLaws};
use crate::float::F32;
use crate::sorting;
use crate::vector::Vec3;
use vstd::prelude::*;

verus! {

/// A shell of the primitive.
pub open spec fn shell_of(of: PrimitiveKey) -> spec_fn(ShellKey) -> bool {
    |key: ShellKey| key.volume == of.volume && key.primitive == of.primitive
}

/// The hit on another primitive.
pub open spec fn on_hit(onto: PrimitiveKey) -> spec_fn(FaceHit) -> FaceHit {
    |hit: FaceHit| FaceHit { volume: onto.volume, primitive: onto.primitive, ..hit }
}

pub open spec fn on_key(key: ShellKey, onto: PrimitiveKey) -> ShellKey {
    ShellKey { volume: onto.volume, primitive: onto.primitive, shell: key.shell }
}

pub open spec fn on_toggle(onto: PrimitiveKey) -> spec_fn(Toggle) -> Toggle {
    |toggle: Toggle| Toggle { key: on_key(toggle.key, onto), ..toggle }
}

pub open spec fn on_interval(onto: PrimitiveKey) -> spec_fn(Interval) -> Interval {
    |interval: Interval| Interval { key: on_key(interval.key, onto), ..interval }
}

/// The hits of the primitive, on the other one.
pub open spec fn copies(hits: Seq<FaceHit>, of: PrimitiveKey, onto: PrimitiveKey) -> Seq<FaceHit> {
    hits.filter(locality::own_hit(shell_of(of))).map_values(on_hit(onto))
}

/// Every hit is one of the primitive.
spec fn all_of(hits: Seq<FaceHit>, of: PrimitiveKey) -> bool {
    forall|i: int| 0 <= i < hits.len() ==> (#[trigger] hits[i]).volume == of.volume && hits[i].primitive == of.primitive
}

proof fn lemma_order_moves(a: FaceHit, b: FaceHit, of: PrimitiveKey, onto: PrimitiveKey)
    requires
        a.volume == of.volume && a.primitive == of.primitive,
        b.volume == of.volume && b.primitive == of.primitive,
        topology::hit_leq(a, b),
    ensures
        topology::hit_leq(on_hit(onto)(a), on_hit(onto)(b)),
{
    reveal_with_fuel(sorting::row_less, 5);
    let (ra, rb) = (topology::hit_row(a), topology::hit_row(b));
    let (ma, mb) = (topology::hit_row(on_hit(onto)(a)), topology::hit_row(on_hit(onto)(b)));
    assert(ra.drop_first().drop_first().drop_first() =~= ma.drop_first().drop_first().drop_first());
    assert(rb.drop_first().drop_first().drop_first() =~= mb.drop_first().drop_first().drop_first());
    assert(ra.drop_first()[0] == rb.drop_first()[0] && ra.drop_first().drop_first()[0] == rb.drop_first().drop_first()[0]);
    assert(ma.drop_first()[0] == mb.drop_first()[0] && ma.drop_first().drop_first()[0] == mb.drop_first().drop_first()[0]);
}

proof fn lemma_contact_end_moves(hits: Seq<FaceHit>, of: PrimitiveKey, onto: PrimitiveKey, i: int)
    requires
        all_of(hits, of),
        0 <= i,
    ensures
        topology::contact_end(hits.map_values(on_hit(onto)), i) == topology::contact_end(hits, i),
    decreases hits.len() - i,
{
    let moved = hits.map_values(on_hit(onto));
    if i + 1 < hits.len() {
        assert(moved[i] == on_hit(onto)(hits[i]) && moved[i + 1] == on_hit(onto)(hits[i + 1]));
        assert(topology::one_contact(moved[i], moved[i + 1]) == topology::one_contact(hits[i], hits[i + 1]));
        lemma_contact_end_moves(hits, of, onto, i + 1);
    }
}

proof fn lemma_leans_move(
    hits: Seq<FaceHit>,
    onto: PrimitiveKey,
    axis: Vec3,
    tangent: F32,
    lean: Lean,
    i: int,
    j: int,
)
    requires
        0 <= i <= j <= hits.len(),
    ensures
        topology::any_leans(hits.map_values(on_hit(onto)), axis, tangent, lean, i, j) == topology::any_leans(
            hits,
            axis,
            tangent,
            lean,
            i,
            j,
        ),
        topology::lean_sum(hits.map_values(on_hit(onto)), axis, tangent, lean, i, j) == topology::lean_sum(
            hits,
            axis,
            tangent,
            lean,
            i,
            j,
        ),
    decreases j - i,
{
    let moved = hits.map_values(on_hit(onto));
    assert forall|x: int| i <= x < j implies topology::leaning(#[trigger] moved[x], axis, tangent)
        == topology::leaning(hits[x], axis, tangent) by {}
    if topology::any_leans(hits, axis, tangent, lean, i, j) {
        let x = choose|x: int| i <= x < j && topology::leaning(#[trigger] hits[x], axis, tangent) == lean;
        assert(topology::leaning(moved[x], axis, tangent) == lean);
    }
    if topology::any_leans(moved, axis, tangent, lean, i, j) {
        let x = choose|x: int| i <= x < j && topology::leaning(#[trigger] moved[x], axis, tangent) == lean;
        assert(topology::leaning(hits[x], axis, tangent) == lean);
    }
    if i < j {
        lemma_leans_move(hits, onto, axis, tangent, lean, i, j - 1);
        assert(moved[j - 1].true_normal == hits[j - 1].true_normal);
    }
}

proof fn lemma_crossings_move(
    hits: Seq<FaceHit>,
    of: PrimitiveKey,
    onto: PrimitiveKey,
    axis: Vec3,
    tangent: F32,
    i: int,
)
    requires
        all_of(hits, of),
        0 <= i <= hits.len(),
    ensures
        topology::crossings_from(hits.map_values(on_hit(onto)), axis, tangent, i) == topology::crossings_from(
            hits,
            axis,
            tangent,
            i,
        ).map_values(on_toggle(onto)),
    decreases hits.len() - i,
{
    let moved = hits.map_values(on_hit(onto));
    let there = topology::crossings_from(moved, axis, tangent, i);
    let here = topology::crossings_from(hits, axis, tangent, i);
    if i < hits.len() {
        topology::lemma_contact_end(hits, i);
        lemma_contact_end_moves(hits, of, onto, i);
        let j = topology::contact_end(hits, i);
        lemma_leans_move(hits, onto, axis, tangent, Lean::Entry, i, j);
        lemma_leans_move(hits, onto, axis, tangent, Lean::Exit, i, j);
        lemma_crossings_move(hits, of, onto, axis, tangent, j);
        let first = topology::contact_toggle(hits, axis, tangent, i, j);
        let second = topology::contact_toggle(moved, axis, tangent, i, j);
        let triangle = |hit: FaceHit| hit.triangle;
        assert(moved.subrange(i, j).map_values(triangle) =~= hits.subrange(i, j).map_values(triangle));
        assert(moved[i] == on_hit(onto)(hits[i]));
        match first {
            Some(toggle) => {
                assert(second == Some(on_toggle(onto)(toggle)));
                let rest = topology::crossings_from(hits, axis, tangent, j);
                assert(here == seq![toggle] + rest);
                assert(there =~= here.map_values(on_toggle(onto)));
            },
            None => {
                assert(second is None);
            },
        }
    } else {
        assert(there =~= here.map_values(on_toggle(onto)));
    }
}

proof fn lemma_closed_moves(toggles: Seq<Toggle>, of: PrimitiveKey, onto: PrimitiveKey, i: int, key: ShellKey)
    requires
        0 <= i <= toggles.len(),
        forall|j: int| 0 <= j < toggles.len() ==> shell_of(of)((#[trigger] toggles[j]).key),
        shell_of(of)(key),
    ensures
        field::opened_at(toggles.map_values(on_toggle(onto)), i, on_key(key, onto)) == field::opened_at(toggles, i, key),
        field::closed_by(toggles.map_values(on_toggle(onto)), i) == field::closed_by(toggles, i).map_values(
            on_interval(onto),
        ),
    decreases i,
{
    let moved = toggles.map_values(on_toggle(onto));
    if i > 0 {
        lemma_closed_moves(toggles, of, onto, i - 1, key);
        let last = toggles[i - 1];
        assert(moved[i - 1] == on_toggle(onto)(last));
        assert(shell_of(of)(last.key));
        lemma_closed_moves(toggles, of, onto, i - 1, last.key);
        assert((on_key(last.key, onto) == on_key(key, onto)) == (last.key == key));
        assert(field::closed_by(moved, i) =~= field::closed_by(toggles, i).map_values(on_interval(onto)));
    } else {
        assert(field::closed_by(moved, i) =~= field::closed_by(toggles, i).map_values(on_interval(onto)));
    }
}

/// Two lists of the same items stay so when every item is mapped.
proof fn lemma_mapped_multiset<A, B>(a: Seq<A>, b: Seq<A>, f: spec_fn(A) -> B)
    requires
        a.to_multiset() == b.to_multiset(),
    ensures
        a.map_values(f).to_multiset() == b.map_values(f).to_multiset(),
    decreases a.len(),
{
    broadcast use vstd::seq_lib::group_to_multiset_ensures;

    if a.len() == 0 {
        assert(a.to_multiset().len() == 0 && b.to_multiset().len() == b.len());
        assert(a.map_values(f) =~= b.map_values(f));
    } else {
        let last = a.last();
        assert(a.to_multiset().count(last) > 0) by {
            assert(a.contains(last));
        }
        assert(b.contains(last));
        let k = choose|k: int| 0 <= k < b.len() && b[k] == last;
        let rest = a.drop_last();
        let others = b.remove(k);
        assert(a =~= rest.push(last));
        assert(rest.to_multiset() =~= a.to_multiset().remove(last));
        assert(others.to_multiset() =~= b.to_multiset().remove(last));
        lemma_mapped_multiset(rest, others, f);
        assert(a.map_values(f) =~= rest.map_values(f).push(f(last)));
        assert(b.map_values(f).remove(k) =~= others.map_values(f));
        assert(b.map_values(f)[k] == f(last));
        assert(others.map_values(f).to_multiset() =~= b.map_values(f).to_multiset().remove(f(last)));
        assert(b.map_values(f).contains(f(last)));
        assert(b.map_values(f).to_multiset() =~= others.map_values(f).to_multiset().insert(f(last)));
        assert(a.map_values(f).to_multiset() =~= rest.map_values(f).to_multiset().insert(f(last)));
    }
}

/// Items that are kept by what a mapping does not change.
proof fn lemma_mapped_filter<A>(s: Seq<A>, f: spec_fn(A) -> A, keep: spec_fn(A) -> bool)
    requires
        forall|x: A| #[trigger] keep(f(x)) == keep(x),
    ensures
        s.map_values(f).filter(keep) == s.filter(keep).map_values(f),
    decreases s.len(),
{
    reveal(Seq::filter);
    if s.len() > 0 {
        let rest = s.drop_last();
        lemma_mapped_filter(rest, f, keep);
        assert(s.map_values(f).drop_last() =~= rest.map_values(f));
        assert(s.map_values(f).last() == f(s.last()));
        assert(keep(f(s.last())) == keep(s.last()));
        assert(s.map_values(f).filter(keep) =~= s.filter(keep).map_values(f));
    } else {
        assert(s.map_values(f).filter(keep) =~= s.filter(keep).map_values(f));
    }
}

/// `b` is `a` with a copy of the primitive on entities that nothing else is on.
pub open spec fn is_copied(a: RayCorridor, b: RayCorridor, of: PrimitiveKey, onto: PrimitiveKey) -> bool {
    &&& b.hits@ == a.hits@ + copies(a.hits@, of, onto)
    &&& forall|i: int| 0 <= i < a.hits@.len() ==> (#[trigger] a.hits@[i]).volume != onto.volume
    &&& b.length == a.length
    &&& b.axis == a.axis
}

/// The copy's hits in order are the primitive's hits in order, on the other entities.
proof fn lemma_ordered_copies(a: RayCorridor, b: RayCorridor, of: PrimitiveKey, onto: PrimitiveKey)
    requires
        is_copied(a, b, of, onto),
    ensures
        ray::ordered_hits(b).filter(locality::own_hit(shell_of(onto))) == ray::ordered_hits(a).filter(
            locality::own_hit(shell_of(of)),
        ).map_values(on_hit(onto)),
        all_of(ray::ordered_hits(a).filter(locality::own_hit(shell_of(of))), of),
{
    let f = on_hit(onto);
    let (mine, theirs) = (locality::own_hit(shell_of(of)), locality::own_hit(shell_of(onto)));
    let length = a.length.doubled();
    let within = |hit: FaceHit| hit.t.below(length);
    let (oa, ob) = (ray::ordered_hits(a), ray::ordered_hits(b));
    ray::lemma_ordered_hits(a);
    ray::lemma_ordered_hits(b);
    let p = oa.filter(mine);
    let own = a.hits@.filter(mine);
    assert forall|i: int| 0 <= i < p.len() implies (#[trigger] p[i]).volume == of.volume && p[i].primitive == of.primitive by {
        let z = locality::lemma_filter_sub(oa, mine, i);
        assert(p.contains(p[i]));
        oa.lemma_filter_pred(mine, i);
    }
    // the copies are all that stands on the other entities
    locality::lemma_filter_none(a.hits@, theirs);
    let extra = copies(a.hits@, of, onto);
    assert forall|i: int| 0 <= i < extra.len() implies theirs(#[trigger] extra[i]) by {
        assert(extra[i] == f(own[i]));
    }
    locality::lemma_filter_all(extra, theirs);
    Seq::filter_distributes_over_add(a.hits@, extra, theirs);
    assert(b.hits@.filter(theirs) =~= extra);
    // the same items
    let q = own.filter(within);
    assert forall|x: FaceHit| p.to_multiset().count(x) == q.to_multiset().count(x) by {
        locality::lemma_own_count(a, shell_of(of), x);
        laws::lemma_filter_count(own, within, x);
    }
    assert(p.to_multiset() =~= q.to_multiset());
    lemma_mapped_multiset(p, q, f);
    lemma_mapped_filter(own, f, within);
    let r = ob.filter(theirs);
    assert forall|x: FaceHit| r.to_multiset().count(x) == p.map_values(f).to_multiset().count(x) by {
        locality::lemma_own_count(b, shell_of(onto), x);
        laws::lemma_filter_count(extra, within, x);
        assert(extra.filter(within) == q.map_values(f));
    }
    assert(r.to_multiset() =~= p.map_values(f).to_multiset());
    // in the one order
    locality::lemma_filter_ordered(oa, mine);
    locality::lemma_filter_ordered(ob, theirs);
    let m = p.map_values(f);
    assert forall|i: int, j: int| 0 <= i < j < m.len() implies topology::hit_leq(#[trigger] m[i], #[trigger] m[j]) by {
        assert(topology::hit_leq(p[i], p[j]));
        lemma_order_moves(p[i], p[j], of, onto);
    }
    topology::lemma_hit_order_unique(r, m);
}

/// The copy's crossings are the primitive's.
proof fn lemma_copied_crossings(a: RayCorridor, b: RayCorridor, of: PrimitiveKey, onto: PrimitiveKey, laws: WalkLaws)
    requires
        is_copied(a, b, of, onto),
    ensures
        ray::crossings_of(b, laws).filter(locality::own_toggle(shell_of(onto))) == ray::crossings_of(a, laws).filter(
            locality::own_toggle(shell_of(of)),
        ).map_values(on_toggle(onto)),
{
    let tangent = laws.tangent_cos;
    let (oa, ob) = (ray::ordered_hits(a), ray::ordered_hits(b));
    ray::lemma_ordered_hits(a);
    ray::lemma_ordered_hits(b);
    lemma_ordered_copies(a, b, of, onto);
    locality::lemma_crossings_filter(oa, a.axis, tangent, shell_of(of));
    locality::lemma_crossings_filter(ob, b.axis, tangent, shell_of(onto));
    lemma_crossings_move(oa.filter(locality::own_hit(shell_of(of))), of, onto, a.axis, tangent, 0);
}

/// The copy's stretches are the primitive's.
proof fn lemma_copied_intervals(a: RayCorridor, b: RayCorridor, of: PrimitiveKey, onto: PrimitiveKey, laws: WalkLaws)
    requires
        is_copied(a, b, of, onto),
    ensures
        ray::intervals_of(b, laws).filter(locality::own_interval(shell_of(onto))) == ray::intervals_of(a, laws).filter(
            locality::own_interval(shell_of(of)),
        ).map_values(on_interval(onto)),
{
    lemma_copied_crossings(a, b, of, onto, laws);
    let toggles = ray::crossings_of(a, laws).filter(locality::own_toggle(shell_of(of)));
    locality::lemma_closed_filter(ray::crossings_of(a, laws), shell_of(of));
    locality::lemma_closed_filter(ray::crossings_of(b, laws), shell_of(onto));
    assert forall|j: int| 0 <= j < toggles.len() implies shell_of(of)((#[trigger] toggles[j]).key) by {
        ray::crossings_of(a, laws).lemma_filter_pred(locality::own_toggle(shell_of(of)), j);
    }
    let some = ShellKey { volume: of.volume, primitive: of.primitive, shell: 0 };
    lemma_closed_moves(toggles, of, onto, toggles.len() as int, some);
}

proof fn lemma_copied_presence(
    a: RayCorridor,
    b: RayCorridor,
    of: PrimitiveKey,
    onto: PrimitiveKey,
    laws: WalkLaws,
    volume: Entity,
    x: int,
)
    requires
        is_copied(a, b, of, onto),
    ensures
        volume != onto.volume ==> spans::volume_covered(ray::intervals_of(b, laws), volume, x)
            == spans::volume_covered(ray::intervals_of(a, laws), volume, x),
        spans::volume_covered(ray::intervals_of(b, laws), onto.volume, x) ==> spans::volume_covered(
            ray::intervals_of(a, laws),
            of.volume,
            x,
        ),
        !spans::volume_covered(ray::intervals_of(a, laws), onto.volume, x),
{
    let (ia, ib) = (ray::intervals_of(a, laws), ray::intervals_of(b, laws));
    let old_ones = |key: ShellKey| key.volume != onto.volume;
    let mh = locality::own_hit(old_ones);
    let mi = locality::own_interval(old_ones);
    let extra = copies(a.hits@, of, onto);
    locality::lemma_filter_all(a.hits@, mh);
    assert forall|i: int| 0 <= i < extra.len() implies !mh(#[trigger] extra[i]) by {
        assert(extra[i] == on_hit(onto)(a.hits@.filter(locality::own_hit(shell_of(of)))[i]));
    }
    locality::lemma_filter_none(extra, mh);
    Seq::filter_distributes_over_add(a.hits@, extra, mh);
    assert(b.hits@.filter(mh) =~= a.hits@.filter(mh));
    locality::law_shells_are_read_alone(a, b, laws, old_ones);
    assert forall|k: int| 0 <= k < ia.len() implies mi(#[trigger] ia[k]) by {
        locality::lemma_interval_key(a, laws, k);
    }
    locality::lemma_filter_all(ia, mi);
    if spans::volume_covered(ia, volume, x) && volume != onto.volume {
        let k = choose|k: int|
            0 <= k < ia.len() && (#[trigger] ia[k]).key.volume == volume && ia[k].open.value() <= x < ia[k].close.value();
        let m = locality::lemma_filter_sub(ib, mi, k);
        assert(ib[m] == ia[k]);
    }
    if spans::volume_covered(ib, volume, x) && volume != onto.volume {
        let k = choose|k: int|
            0 <= k < ib.len() && (#[trigger] ib[k]).key.volume == volume && ib[k].open.value() <= x < ib[k].close.value();
        assert(mi(ib[k]));
        ib.lemma_filter_contains(mi, k);
        assert(ia.contains(ib[k]));
        let m = choose|m: int| 0 <= m < ia.len() && ia[m] == ib[k];
        assert(ia[m].key.volume == volume);
    }
    if spans::volume_covered(ib, onto.volume, x) {
        let k = choose|k: int|
            0 <= k < ib.len() && (#[trigger] ib[k]).key.volume == onto.volume && ib[k].open.value() <= x
                < ib[k].close.value();
        locality::lemma_interval_key(b, laws, k);
        let h = choose|h: int| 0 <= h < b.hits@.len() && (#[trigger] b.hits@[h]).spec_key() == ib[k].key;
        if h < a.hits@.len() {
            assert(b.hits@[h] == a.hits@[h]);
        } else {
            assert(b.hits@[h] == extra[h - a.hits@.len()]);
        }
        let theirs = locality::own_interval(shell_of(onto));
        let mine = locality::own_interval(shell_of(of));
        assert(theirs(ib[k]));
        ib.lemma_filter_contains(theirs, k);
        lemma_copied_intervals(a, b, of, onto, laws);
        let moved = ia.filter(mine).map_values(on_interval(onto));
        assert(moved.contains(ib[k]));
        let m = choose|m: int| 0 <= m < moved.len() && moved[m] == ib[k];
        let z = locality::lemma_filter_sub(ia, mine, m);
        ia.lemma_filter_pred(mine, m);
        assert(ia[z].key.volume == of.volume && ia[z].open == ib[k].open && ia[z].close == ib[k].close);
    }
    if spans::volume_covered(ia, onto.volume, x) {
        let k = choose|k: int|
            0 <= k < ia.len() && (#[trigger] ia[k]).key.volume == onto.volume && ia[k].open.value() <= x
                < ia[k].close.value();
        assert(mi(ia[k]));
    }
}

/// The table with a row more.
pub open spec fn is_table_with(
    rows: Seq<(Entity, F32)>,
    factors: Map<Entity, F32>,
    more_rows: Seq<(Entity, F32)>,
    more_factors: Map<Entity, F32>,
    volume: Entity,
    factor: F32,
) -> bool {
    &&& table::ordered(rows) && table::tabled(rows) == factors
    &&& table::ordered(more_rows) && table::tabled(more_rows) == more_factors
    &&& more_factors == factors.insert(volume, factor)
}

proof fn lemma_field_grows(
    rows: Seq<(Entity, F32)>,
    factors: Map<Entity, F32>,
    more_rows: Seq<(Entity, F32)>,
    more_factors: Map<Entity, F32>,
    volume: Entity,
    factor: F32,
    ia: Seq<Interval>,
    ib: Seq<Interval>,
    x: int,
)
    requires
        is_table_with(rows, factors, more_rows, more_factors, volume, factor),
        forall|v: Entity|
            v != volume ==> #[trigger] spans::volume_covered(ia, v, x) == spans::volume_covered(ib, v, x),
        !spans::volume_covered(ia, volume, x),
    ensures
        spans::union_factor(rows, ia, x).value() <= spans::union_factor(more_rows, ib, x).value(),
{
    table::lemma_tabled(rows);
    table::lemma_tabled(more_rows);
    laws::lemma_union_bounds(rows, ia, x, rows.len() as int);
    laws::lemma_union_bounds(more_rows, ib, x, more_rows.len() as int);
    F32::zero().lemma_nonnegative();
    let level = spans::union_factor(rows, ia, x);
    if level != F32::zero() {
        let i = choose|i: int|
            0 <= i < rows.len() && spans::volume_covered(ia, (#[trigger] rows[i]).0, x) && rows[i].1 == level;
        let v = rows[i].0;
        assert(more_factors.contains_key(v) && more_factors[v] == level);
        assert(table::row_of(more_rows, v));
        let j = choose|j: int| 0 <= j < more_rows.len() && (#[trigger] more_rows[j]).0 == v;
        assert(more_rows[j].1 == level);
        assert(spans::volume_covered(ib, more_rows[j].0, x));
    }
}

/// A copy at the factor of its volume, where both corridors were walked.
pub(crate) proof fn lemma_copy_is_free(
    wa: RayWalk,
    wb: RayWalk,
    a: RayCorridor,
    b: RayCorridor,
    of: PrimitiveKey,
    onto: PrimitiveKey,
    laws: WalkLaws,
    rows: Seq<(Entity, F32)>,
    factors: Map<Entity, F32>,
    more_rows: Seq<(Entity, F32)>,
    more_factors: Map<Entity, F32>,
)
    requires
        is_copied(a, b, of, onto),
        ray::has_form(a),
        factors.contains_key(of.volume),
        is_table_with(rows, factors, more_rows, more_factors, onto.volume, factors[of.volume]),
        ray::is_walk(wa, a, laws, rows, factors),
        ray::is_walk(wb, b, laws, more_rows, more_factors),
    ensures
        wa.spans@ == wb.spans@,
        wa.cost == wb.cost,
{
    let (ia, ib) = (ray::intervals_of(a, laws), ray::intervals_of(b, laws));
    assert forall|x: int| 0 <= x < a.length.doubled().value() implies spans::union_factor(rows, ia, x)
        == #[trigger] spans::union_factor(more_rows, ib, x) by {
        assert forall|v: Entity| v != onto.volume implies #[trigger] spans::volume_covered(ia, v, x)
            == spans::volume_covered(ib, v, x) by {
            lemma_copied_presence(a, b, of, onto, laws, v, x);
        }
        lemma_copied_presence(a, b, of, onto, laws, of.volume, x);
        lemma_field_grows(rows, factors, more_rows, more_factors, onto.volume, factors[of.volume], ia, ib, x);
        table::lemma_tabled(rows);
        table::lemma_tabled(more_rows);
        laws::lemma_union_bounds(rows, ia, x, rows.len() as int);
        laws::lemma_union_bounds(more_rows, ib, x, more_rows.len() as int);
        F32::zero().lemma_nonnegative();
        let (la, lb) = (spans::union_factor(rows, ia, x), spans::union_factor(more_rows, ib, x));
        if lb != F32::zero() {
            let j = choose|j: int|
                0 <= j < more_rows.len() && spans::volume_covered(ib, (#[trigger] more_rows[j]).0, x) && more_rows[j].1
                    == lb;
            let v = if more_rows[j].0 == onto.volume {
                of.volume
            } else {
                more_rows[j].0
            };
            assert(more_factors[more_rows[j].0] == lb);
            assert(factors.contains_key(v) && factors[v] == lb);
            assert(table::row_of(rows, v));
            let i = choose|i: int| 0 <= i < rows.len() && (#[trigger] rows[i]).0 == v;
            assert(rows[i].1 == lb);
            assert(spans::volume_covered(ia, rows[i].0, x));
            assert(la.value() == lb.value());
            if la.value() != 0 {
                la.lemma_same_bits(lb);
            }
        }
    }
    laws::lemma_same_field(wa, wb, a, b, laws, rows, factors, more_rows, more_factors);
}

/// A copy at any factor, where both corridors were walked.
proof fn lemma_copy_never_lowers(
    wa: RayWalk,
    wb: RayWalk,
    a: RayCorridor,
    b: RayCorridor,
    of: PrimitiveKey,
    onto: PrimitiveKey,
    factor: F32,
    laws: WalkLaws,
    rows: Seq<(Entity, F32)>,
    factors: Map<Entity, F32>,
    more_rows: Seq<(Entity, F32)>,
    more_factors: Map<Entity, F32>,
)
    requires
        is_copied(a, b, of, onto),
        ray::has_form(a),
        ray::has_form(b),
        is_table_with(rows, factors, more_rows, more_factors, onto.volume, factor),
        ray::is_walk(wa, a, laws, rows, factors),
        ray::is_walk(wb, b, laws, more_rows, more_factors),
    ensures
        forall|x: int|
            (#[trigger] spans::union_factor(rows, ray::intervals_of(a, laws), x)).value() <= spans::union_factor(
                more_rows,
                ray::intervals_of(b, laws),
                x,
            ).value(),
        laws::integral_of(wa.spans@, wa.spans@.len() as int) <= laws::integral_of(wb.spans@, wb.spans@.len() as int),
{
    let (ia, ib) = (ray::intervals_of(a, laws), ray::intervals_of(b, laws));
    assert forall|x: int| (#[trigger] spans::union_factor(rows, ia, x)).value() <= spans::union_factor(
        more_rows,
        ib,
        x,
    ).value() by {
        assert forall|v: Entity| v != onto.volume implies #[trigger] spans::volume_covered(ia, v, x)
            == spans::volume_covered(ib, v, x) by {
            lemma_copied_presence(a, b, of, onto, laws, v, x);
        }
        lemma_copied_presence(a, b, of, onto, laws, of.volume, x);
        lemma_field_grows(rows, factors, more_rows, more_factors, onto.volume, factor, ia, ib, x);
    }
    laws::law_spans_integrate_the_field(wa, a, laws, rows, factors);
    laws::law_spans_integrate_the_field(wb, b, laws, more_rows, more_factors);
    laws::lemma_swept_monotone(rows, ia, more_rows, ib, a.length.doubled().value());
}

proof fn lemma_own_moves(toggles: Seq<Toggle>, of: PrimitiveKey, onto: PrimitiveKey, key: ShellKey, n: int)
    requires
        0 <= n <= toggles.len(),
        forall|j: int| 0 <= j < toggles.len() ==> shell_of(of)((#[trigger] toggles[j]).key),
        shell_of(of)(key),
    ensures
        pairing::own_upto(toggles.map_values(on_toggle(onto)), on_key(key, onto), n) == pairing::own_upto(
            toggles,
            key,
            n,
        ).map_values(on_toggle(onto)),
    decreases n,
{
    let moved = toggles.map_values(on_toggle(onto));
    let (here, there) = (pairing::own_upto(toggles, key, n), pairing::own_upto(moved, on_key(key, onto), n));
    if n > 0 {
        lemma_own_moves(toggles, of, onto, key, n - 1);
        assert(shell_of(of)(toggles[n - 1].key));
        assert(moved[n - 1] == on_toggle(onto)(toggles[n - 1]));
        assert((on_key(toggles[n - 1].key, onto) == on_key(key, onto)) == (toggles[n - 1].key == key));
    }
    assert(there =~= here.map_values(on_toggle(onto)));
}

/// A shell of the copy crosses as the shell it copies.
proof fn lemma_copied_own(
    a: RayCorridor,
    b: RayCorridor,
    of: PrimitiveKey,
    onto: PrimitiveKey,
    laws: WalkLaws,
    key: ShellKey,
)
    requires
        is_copied(a, b, of, onto),
        shell_of(of)(key),
    ensures
        pairing::own_of(b, laws, on_key(key, onto)) == pairing::own_of(a, laws, key).map_values(on_toggle(onto)),
{
    let (ta, tb) = (ray::crossings_of(a, laws), ray::crossings_of(b, laws));
    let own = ta.filter(locality::own_toggle(shell_of(of)));
    lemma_copied_crossings(a, b, of, onto, laws);
    pairing::lemma_own_of_some(ta, shell_of(of), key);
    pairing::lemma_own_of_some(tb, shell_of(onto), on_key(key, onto));
    assert forall|j: int| 0 <= j < own.len() implies shell_of(of)((#[trigger] own[j]).key) by {
        ta.lemma_filter_pred(locality::own_toggle(shell_of(of)), j);
    }
    lemma_own_moves(own, of, onto, key, own.len() as int);
}

/// A shell that is not of the copy crosses as it did.
proof fn lemma_others_own(
    a: RayCorridor,
    b: RayCorridor,
    of: PrimitiveKey,
    onto: PrimitiveKey,
    laws: WalkLaws,
    key: ShellKey,
)
    requires
        is_copied(a, b, of, onto),
        !shell_of(onto)(key),
    ensures
        pairing::own_of(b, laws, key) == pairing::own_of(a, laws, key),
{
    let mine = |k: ShellKey| k == key;
    let mh = locality::own_hit(mine);
    let extra = copies(a.hits@, of, onto);
    assert forall|i: int| 0 <= i < extra.len() implies !mh(#[trigger] extra[i]) by {
        assert(extra[i] == on_hit(onto)(a.hits@.filter(locality::own_hit(shell_of(of)))[i]));
    }
    locality::lemma_filter_none(extra, mh);
    Seq::filter_distributes_over_add(a.hits@, extra, mh);
    assert(b.hits@.filter(mh) =~= a.hits@.filter(mh));
    pairing::lemma_same_own(b, a, laws, mine, key);
}

/// A shell without hits does not cross.
proof fn lemma_never_met(a: RayCorridor, laws: WalkLaws, key: ShellKey, n: int)
    requires
        0 <= n <= ray::crossings_of(a, laws).len(),
        !locality::has_hit(a, key),
    ensures
        pairing::own_upto(ray::crossings_of(a, laws), key, n).len() == 0,
    decreases n,
{
    if n > 0 {
        lemma_never_met(a, laws, key, n - 1);
        locality::lemma_crossing_key(a, laws, n - 1);
    }
}

/// Where a ray can be walked, so can the ray with a copy of a primitive that the ray does
/// not start inside.
pub proof fn law_a_copy_pairs(
    a: RayCorridor,
    b: RayCorridor,
    of: PrimitiveKey,
    onto: PrimitiveKey,
    factor: F32,
    laws: WalkLaws,
    factors: Map<Entity, F32>,
)
    requires
        is_copied(a, b, of, onto),
        b.initial_presence@ == a.initial_presence@,
        forall|i: int| 0 <= i < a.initial_presence@.len() ==> !shell_of(of)(#[trigger] a.initial_presence@[i]),
        ray::has_form(a),
        ray::pairs(a, laws, factors),
    ensures
        ray::has_form(b),
        ray::pairs(b, laws, factors.insert(onto.volume, factor)),
{
    let more = factors.insert(onto.volume, factor);
    let seeds = a.initial_presence@;
    pairing::law_pairing_is_shell_by_shell(a, laws, factors);
    pairing::law_pairing_is_shell_by_shell(b, laws, more);
    assert forall|key: ShellKey|
        pairing::shell_pairs(
            #[trigger] pairing::own_of(b, laws, key),
            seeds.contains(key),
            more.contains_key(key.volume),
        ) by {
        let own = pairing::own_of(b, laws, key);
        let known = more.contains_key(key.volume);
        assert(pairing::shell_pairs(pairing::own_of(a, laws, key), seeds.contains(key), factors.contains_key(key.volume)));
        if shell_of(onto)(key) {
            let from = ShellKey { volume: of.volume, primitive: of.primitive, shell: key.shell };
            assert(on_key(from, onto) == key);
            lemma_copied_own(a, b, of, onto, laws, from);
            let old_own = pairing::own_of(a, laws, from);
            assert(pairing::shell_pairs(old_own, seeds.contains(from), factors.contains_key(from.volume)));
            assert(!seeds.contains(from)) by {
                if seeds.contains(from) {
                    let i = choose|i: int| 0 <= i < seeds.len() && seeds[i] == from;
                    assert(!shell_of(of)(seeds[i]));
                }
            }
            assert(!locality::has_hit(a, key));
            lemma_never_met(a, laws, key, ray::crossings_of(a, laws).len() as int);
            assert(!seeds.contains(key));
            assert forall|i: int| 0 <= i < own.len() implies #[trigger] pairing::fits(own, false, known, i) by {
                assert(pairing::fits(old_own, false, factors.contains_key(from.volume), i));
                assert(own[i] == on_toggle(onto)(old_own[i]));
                if i > 0 {
                    assert(own[i - 1] == on_toggle(onto)(old_own[i - 1]));
                }
            }
            if own.len() > 0 {
                let last = own.len() - 1;
                assert(own[last] == on_toggle(onto)(old_own[last]));
            }
        } else {
            lemma_others_own(a, b, of, onto, laws, key);
            assert forall|i: int| 0 <= i < own.len() implies #[trigger] pairing::fits(
                own,
                seeds.contains(key),
                known,
                i,
            ) by {
                assert(pairing::fits(own, seeds.contains(key), factors.contains_key(key.volume), i));
            }
        }
    }
    let extra = copies(a.hits@, of, onto);
    let mine = locality::own_hit(shell_of(of));
    assert forall|i: int|
        0 <= i < b.hits@.len() && (#[trigger] b.hits@[i]).t.below(b.length.doubled()) implies ray::is_ahead(b.hits@[i]) by {
        let n = a.hits@.len() as int;
        if i < n {
            assert(b.hits@[i] == a.hits@[i]);
        } else {
            assert(b.hits@[i] == extra[i - n]);
            let z = locality::lemma_filter_sub(a.hits@, mine, i - n);
            assert(extra[i - n] == on_hit(onto)(a.hits@[z]));
            assert(a.hits@[z].t.below(a.length.doubled()));
        }
    }
}

/// What is there twice is charged once: a ray that can be walked is walked with a copy of a
/// primitive, too, and at the factor of the primitive's volume the copy leaves the spans and
/// the cost as they were, to the bit.
pub proof fn law_a_copy_is_free(
    walk: RayWalk,
    again: Result<RayWalk, WalkError>,
    sample: usize,
    a: RayCorridor,
    b: RayCorridor,
    of: PrimitiveKey,
    onto: PrimitiveKey,
    laws: WalkLaws,
    rows: Seq<(Entity, F32)>,
    factors: Map<Entity, F32>,
    more_rows: Seq<(Entity, F32)>,
    more_factors: Map<Entity, F32>,
)
    requires
        is_copied(a, b, of, onto),
        b.initial_presence@ == a.initial_presence@,
        forall|i: int| 0 <= i < a.initial_presence@.len() ==> !shell_of(of)(#[trigger] a.initial_presence@[i]),
        factors.contains_key(of.volume),
        is_table_with(rows, factors, more_rows, more_factors, onto.volume, factors[of.volume]),
        ray::is_outcome(Ok(walk), sample, a, laws, rows, factors),
        ray::is_outcome(again, sample, b, laws, more_rows, more_factors),
    ensures
        again matches Ok(twice) && twice.spans@ == walk.spans@ && twice.cost == walk.cost,
{
    law_a_copy_pairs(a, b, of, onto, factors[of.volume], laws, factors);
    lemma_copy_is_free(walk, again->Ok_0, a, b, of, onto, laws, rows, factors, more_rows, more_factors);
}

/// A copy of a primitive never lowers protection, whatever its factor: a ray that can be walked
/// is walked with it, too, at no position is the field lower, the exact integral over the
/// corridor is no smaller, and the reported cost is no lower but for rounding.
pub proof fn law_a_copy_never_lowers(
    walk: RayWalk,
    again: Result<RayWalk, WalkError>,
    sample: usize,
    a: RayCorridor,
    b: RayCorridor,
    of: PrimitiveKey,
    onto: PrimitiveKey,
    factor: F32,
    laws: WalkLaws,
    rows: Seq<(Entity, F32)>,
    factors: Map<Entity, F32>,
    more_rows: Seq<(Entity, F32)>,
    more_factors: Map<Entity, F32>,
)
    requires
        is_copied(a, b, of, onto),
        b.initial_presence@ == a.initial_presence@,
        forall|i: int| 0 <= i < a.initial_presence@.len() ==> !shell_of(of)(#[trigger] a.initial_presence@[i]),
        is_table_with(rows, factors, more_rows, more_factors, onto.volume, factor),
        ray::is_outcome(Ok(walk), sample, a, laws, rows, factors),
        ray::is_outcome(again, sample, b, laws, more_rows, more_factors),
    ensures
        forall|x: int|
            (#[trigger] spans::union_factor(rows, ray::intervals_of(a, laws), x)).value() <= spans::union_factor(
                more_rows,
                ray::intervals_of(b, laws),
                x,
            ).value(),
        again matches Ok(twice) && laws::integral_of(walk.spans@, walk.spans@.len() as int) <= laws::integral_of(
            twice.spans@,
            twice.spans@.len() as int,
        ),
        again matches Ok(twice) && (integral::is_measured(walk) && integral::is_measured(twice)
            ==> integral::is_no_lower(walk, twice)),
{
    law_a_copy_pairs(a, b, of, onto, factor, laws, factors);
    lemma_copy_never_lowers(
        walk,
        again->Ok_0,
        a,
        b,
        of,
        onto,
        factor,
        laws,
        rows,
        factors,
        more_rows,
        more_factors,
    );
    if integral::is_measured(walk) && integral::is_measured(again->Ok_0) {
        integral::lemma_no_lower(walk, again->Ok_0, a, b, laws, rows, factors, more_rows, more_factors);
    }
}

} // verus!
