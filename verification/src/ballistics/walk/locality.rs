//! Each shell is read on its own: the hits of other shells change nothing of its
//! presence. From that, what adding a volume to a corridor can do.

use crate::ballistics::walk::field;
use crate::ballistics::walk::field::Interval;
use crate::ballistics::walk::laws;
use crate::ballistics::walk::ray;
use crate::ballistics::walk::ray::RayWalk;
use crate::ballistics::walk::spans;
use crate::ballistics::walk::table;
use crate::ballistics::walk::topology;
use crate::ballistics::walk::topology::{Lean, Toggle};
use crate::ballistics::walk::vocabulary::{Entity, FaceHit, RayCorridor, ShellKey, WalkLaws};
use crate::float::F32;
use crate::sorting;
use crate::vector::Vec3;
use vstd::prelude::*;

verus! {

pub open spec fn own_hit(mine: spec_fn(ShellKey) -> bool) -> spec_fn(FaceHit) -> bool {
    |hit: FaceHit| mine(hit.spec_key())
}

pub open spec fn own_toggle(mine: spec_fn(ShellKey) -> bool) -> spec_fn(Toggle) -> bool {
    |toggle: Toggle| mine(toggle.key)
}

pub open spec fn own_interval(mine: spec_fn(ShellKey) -> bool) -> spec_fn(Interval) -> bool {
    |interval: Interval| mine(interval.key)
}

proof fn lemma_same_leans(a: Seq<FaceHit>, b: Seq<FaceHit>, shift: int, axis: Vec3, tangent: F32, i: int, j: int)
    requires
        0 <= i <= j <= b.len(),
        0 <= shift,
        shift + j <= a.len(),
        forall|x: int| i <= x < j ==> #[trigger] b[x] == a[shift + x],
    ensures
        forall|lean: Lean| #[trigger]
            topology::lean_sum(b, axis, tangent, lean, i, j) == topology::lean_sum(
                a,
                axis,
                tangent,
                lean,
                shift + i,
                shift + j,
            ),
        forall|lean: Lean| #[trigger]
            topology::any_leans(b, axis, tangent, lean, i, j) == topology::any_leans(
                a,
                axis,
                tangent,
                lean,
                shift + i,
                shift + j,
            ),
    decreases j - i,
{
    if i < j {
        lemma_same_leans(a, b, shift, axis, tangent, i, j - 1);
        assert(b[j - 1] == a[shift + (j - 1)]);
    }
    assert forall|lean: Lean| #[trigger]
        topology::lean_sum(b, axis, tangent, lean, i, j) == topology::lean_sum(
            a,
            axis,
            tangent,
            lean,
            shift + i,
            shift + j,
        ) by {
        if i < j {
            assert(topology::lean_sum(b, axis, tangent, lean, i, j - 1) == topology::lean_sum(
                a,
                axis,
                tangent,
                lean,
                shift + i,
                shift + (j - 1),
            ));
        }
    }
    assert forall|lean: Lean| #[trigger]
        topology::any_leans(b, axis, tangent, lean, i, j) == topology::any_leans(
            a,
            axis,
            tangent,
            lean,
            shift + i,
            shift + j,
        ) by {
        if topology::any_leans(b, axis, tangent, lean, i, j) {
            let x = choose|x: int| i <= x < j && topology::leaning(#[trigger] b[x], axis, tangent) == lean;
            assert(topology::leaning(a[shift + x], axis, tangent) == lean);
        }
        if topology::any_leans(a, axis, tangent, lean, shift + i, shift + j) {
            let x = choose|x: int|
                shift + i <= x < shift + j && topology::leaning(#[trigger] a[x], axis, tangent) == lean;
            assert(b[x - shift] == a[shift + (x - shift)]);
            assert(topology::leaning(b[x - shift], axis, tangent) == lean);
        }
    }
}

proof fn lemma_same_toggle(a: Seq<FaceHit>, b: Seq<FaceHit>, shift: int, axis: Vec3, tangent: F32, i: int, j: int)
    requires
        0 <= i < j <= b.len(),
        0 <= shift,
        shift + j <= a.len(),
        forall|x: int| i <= x < j ==> #[trigger] b[x] == a[shift + x],
    ensures
        topology::contact_toggle(b, axis, tangent, i, j) == topology::contact_toggle(
            a,
            axis,
            tangent,
            shift + i,
            shift + j,
        ),
{
    lemma_same_leans(a, b, shift, axis, tangent, i, j);
    assert(b[i] == a[shift + i]);
    assert(b.subrange(i, j) =~= a.subrange(shift + i, shift + j));
    assert(topology::lean_sum(b, axis, tangent, Lean::Entry, i, j) == topology::lean_sum(
        a,
        axis,
        tangent,
        Lean::Entry,
        shift + i,
        shift + j,
    ));
    assert(topology::lean_sum(b, axis, tangent, Lean::Exit, i, j) == topology::lean_sum(
        a,
        axis,
        tangent,
        Lean::Exit,
        shift + i,
        shift + j,
    ));
    assert(topology::any_leans(b, axis, tangent, Lean::Entry, i, j) == topology::any_leans(
        a,
        axis,
        tangent,
        Lean::Entry,
        shift + i,
        shift + j,
    ));
    assert(topology::any_leans(b, axis, tangent, Lean::Exit, i, j) == topology::any_leans(
        a,
        axis,
        tangent,
        Lean::Exit,
        shift + i,
        shift + j,
    ));
}

proof fn lemma_contact_end_shift(a: Seq<FaceHit>, shift: int, i: int)
    requires
        0 <= shift,
        0 <= i,
        shift + i < a.len(),
    ensures
        topology::contact_end(a, shift + i) == shift + topology::contact_end(a.skip(shift), i),
    decreases a.len() - shift - i,
{
    let b = a.skip(shift);
    assert(b[i] == a[shift + i]);
    if i + 1 < b.len() {
        assert(b[i + 1] == a[shift + i + 1]);
        if topology::one_contact(b[i], b[i + 1]) {
            lemma_contact_end_shift(a, shift, i + 1);
        }
    }
}

/// Crossings depend on the hits from their place on.
proof fn lemma_crossings_shift(a: Seq<FaceHit>, axis: Vec3, tangent: F32, shift: int, i: int)
    requires
        0 <= shift,
        0 <= i,
        shift + i <= a.len(),
    ensures
        topology::crossings_from(a, axis, tangent, shift + i) == topology::crossings_from(
            a.skip(shift),
            axis,
            tangent,
            i,
        ),
    decreases a.len() - shift - i,
{
    let b = a.skip(shift);
    if shift + i < a.len() {
        lemma_contact_end_shift(a, shift, i);
        topology::lemma_contact_end(b, i);
        let j = topology::contact_end(b, i);
        lemma_same_toggle(a, b, shift, axis, tangent, i, j);
        lemma_crossings_shift(a, axis, tangent, shift, j);
    }
}

/// What stands between two hits of one contact is of that contact.
proof fn lemma_contact_convex(x: FaceHit, y: FaceHit, z: FaceHit)
    requires
        topology::hit_leq(x, y),
        topology::hit_leq(y, z),
        topology::one_contact(x, z),
    ensures
        topology::one_contact(x, y),
{
    let (rx, ry, rz) = (topology::hit_row(x), topology::hit_row(y), topology::hit_row(z));
    assert(ry.skip(0) =~= ry && rx.skip(0) =~= rx && rz.skip(0) =~= rz);
    lemma_prefix(ry, rx, 0);
    lemma_prefix(rz, ry, 0);
    assert(rx[0] == rz[0] && rx[1] == rz[1] && rx[2] == rz[2] && rx[3] == rz[3]);
    assert(rx[4] == rz[4] && rx[5] == rz[5] && rx[6] == rz[6]);
    assert(rx[0] == ry[0]);
    lemma_prefix(ry, rx, 1);
    lemma_prefix(rz, ry, 1);
    assert(rx[1] == ry[1]);
    lemma_prefix(ry, rx, 2);
    lemma_prefix(rz, ry, 2);
    assert(rx[2] == ry[2]);
    lemma_prefix(ry, rx, 3);
    lemma_prefix(rz, ry, 3);
    assert(rx[3] == ry[3]);
    lemma_prefix(ry, rx, 4);
    lemma_prefix(rz, ry, 4);
    assert(rx[4] == ry[4]);
    lemma_prefix(ry, rx, 5);
    lemma_prefix(rz, ry, 5);
    assert(rx[5] == ry[5]);
    lemma_prefix(ry, rx, 6);
    lemma_prefix(rz, ry, 6);
    assert(rx[6] == ry[6]);
}

/// A row that is not less is not less at the first place either, nor past equal places.
proof fn lemma_prefix(a: Seq<u64>, b: Seq<u64>, n: int)
    requires
        0 <= n < a.len(),
        a.len() == b.len(),
        !sorting::row_less(a.skip(n), b.skip(n)),
    ensures
        a[n] >= b[n],
        a[n] == b[n] ==> !sorting::row_less(a.skip(n + 1), b.skip(n + 1)),
{
    let ra = a.skip(n);
    let rb = b.skip(n);
    assert(ra[0] == a[n] && rb[0] == b[n]);
    assert(ra.drop_first() =~= a.skip(n + 1));
    assert(rb.drop_first() =~= b.skip(n + 1));
}

pub(crate) proof fn lemma_filter_all<A>(s: Seq<A>, keep: spec_fn(A) -> bool)
    requires
        forall|i: int| 0 <= i < s.len() ==> keep(#[trigger] s[i]),
    ensures
        s.filter(keep) == s,
    decreases s.len(),
{
    reveal(Seq::filter);
    if s.len() > 0 {
        let rest = s.drop_last();
        assert forall|i: int| 0 <= i < rest.len() implies keep(#[trigger] rest[i]) by {
            assert(rest[i] == s[i]);
        }
        lemma_filter_all(rest, keep);
        assert(keep(s[s.len() - 1]));
        assert(s =~= rest.push(s.last()));
    }
}

pub(crate) proof fn lemma_filter_none<A>(s: Seq<A>, keep: spec_fn(A) -> bool)
    requires
        forall|i: int| 0 <= i < s.len() ==> !keep(#[trigger] s[i]),
    ensures
        s.filter(keep) == Seq::<A>::empty(),
    decreases s.len(),
{
    reveal(Seq::filter);
    if s.len() > 0 {
        let rest = s.drop_last();
        assert forall|i: int| 0 <= i < rest.len() implies !keep(#[trigger] rest[i]) by {
            assert(rest[i] == s[i]);
        }
        lemma_filter_none(rest, keep);
        assert(!keep(s[s.len() - 1]));
    }
}

/// What a filter keeps stood in the list.
pub(crate) proof fn lemma_filter_sub<A>(s: Seq<A>, keep: spec_fn(A) -> bool, i: int) -> (z: int)
    requires
        0 <= i < s.filter(keep).len(),
    ensures
        0 <= z < s.len(),
        s[z] == s.filter(keep)[i],
{
    let kept = s.filter(keep);
    assert(kept.contains(kept[i]));
    s.lemma_filter_contains_rev(keep, kept[i]);
    choose|z: int| 0 <= z < s.len() && s[z] == s.filter(keep)[i]
}

proof fn lemma_filter_first<A>(first: A, rest: Seq<A>, keep: spec_fn(A) -> bool)
    ensures
        (seq![first] + rest).filter(keep) == if keep(first) {
            seq![first] + rest.filter(keep)
        } else {
            rest.filter(keep)
        },
{
    Seq::filter_distributes_over_add(seq![first], rest, keep);
    if keep(first) {
        lemma_filter_all(seq![first], keep);
    } else {
        lemma_filter_none(seq![first], keep);
        assert(Seq::<A>::empty() + rest.filter(keep) =~= rest.filter(keep));
    }
}

/// The crossings of a list that starts with one contact of its own.
proof fn lemma_crossings_split(hits: Seq<FaceHit>, axis: Vec3, tangent: F32, j: int)
    requires
        hits.len() > 0,
        j == topology::contact_end(hits, 0),
    ensures
        0 < j <= hits.len(),
        topology::crossings_from(hits, axis, tangent, 0) == match topology::contact_toggle(hits, axis, tangent, 0, j) {
            Some(toggle) => seq![toggle] + topology::crossings_from(hits.skip(j), axis, tangent, 0),
            None => topology::crossings_from(hits.skip(j), axis, tangent, 0),
        },
        topology::contact_toggle(hits, axis, tangent, 0, j) matches Some(toggle) ==> toggle.key == hits[0].spec_key(),
{
    topology::lemma_contact_end(hits, 0);
    lemma_crossings_shift(hits, axis, tangent, j, 0);
}

/// Reading the hits of some shells alone gives those shells' crossings.
pub(crate) proof fn lemma_crossings_filter(
    hits: Seq<FaceHit>,
    axis: Vec3,
    tangent: F32,
    mine: spec_fn(ShellKey) -> bool,
)
    requires
        topology::in_hit_order(hits),
    ensures
        topology::crossings_from(hits, axis, tangent, 0).filter(own_toggle(mine)) == topology::crossings_from(
            hits.filter(own_hit(mine)),
            axis,
            tangent,
            0,
        ),
    decreases hits.len(),
{
    let mh = own_hit(mine);
    let mt = own_toggle(mine);
    if hits.len() == 0 {
        lemma_filter_all(hits, mh);
        assert(topology::crossings_from(hits, axis, tangent, 0) =~= Seq::<Toggle>::empty());
        lemma_filter_all(Seq::<Toggle>::empty(), mt);
    } else {
        let j = topology::contact_end(hits, 0);
        lemma_crossings_split(hits, axis, tangent, j);
        topology::lemma_contact_end(hits, 0);
        let head = hits.take(j);
        let tail = hits.skip(j);
        assert(hits =~= head + tail);
        Seq::filter_distributes_over_add(head, tail, mh);
        assert forall|a: int, b: int| 0 <= a < b < tail.len() implies topology::hit_leq(#[trigger] tail[a], #[trigger] tail[b]) by {
            assert(tail[a] == hits[j + a] && tail[b] == hits[j + b]);
        }
        lemma_crossings_filter(tail, axis, tangent, mine);
        let rest = topology::crossings_from(tail, axis, tangent, 0);
        let toggle = topology::contact_toggle(hits, axis, tangent, 0, j);
        let key = hits[0].spec_key();
        assert forall|x: int| 0 <= x < head.len() implies mh(#[trigger] head[x]) == mine(key) by {
            assert(head[x] == hits[x]);
        }
        match toggle {
            Some(t) => {
                lemma_filter_first(t, rest, mt);
            },
            None => {},
        }
        if mine(key) {
            lemma_filter_all(head, mh);
            let own = tail.filter(mh);
            let joined = hits.filter(mh);
            assert(joined =~= head + own);
            lemma_contact_kept(hits, joined, j, own, mh);
            assert forall|x: int| 0 <= x < j implies #[trigger] hits[x] == joined[0 + x] by {
                assert(joined[x] == head[x]);
            }
            lemma_same_toggle(joined, hits, 0, axis, tangent, 0, j);
            lemma_crossings_split(joined, axis, tangent, j);
            assert(joined.skip(j) =~= own);
        } else {
            lemma_filter_none(head, mh);
            assert(hits.filter(mh) =~= tail.filter(mh));
        }
    }
}

/// The first contact ends where it did once other shells' hits are gone.
proof fn lemma_contact_kept(
    hits: Seq<FaceHit>,
    joined: Seq<FaceHit>,
    j: int,
    own: Seq<FaceHit>,
    keep: spec_fn(FaceHit) -> bool,
)
    requires
        topology::in_hit_order(hits),
        hits.len() > 0,
        j == topology::contact_end(hits, 0),
        own == hits.skip(j).filter(keep),
        joined == hits.take(j) + own,
    ensures
        topology::contact_end(joined, 0) == j,
        joined.len() >= j,
{
    topology::lemma_contact_end(hits, 0);
    topology::lemma_contact_end(joined, 0);
    let e = topology::contact_end(joined, 0);
    if e < j {
        assert(joined[e - 1] == hits[e - 1] && joined[e] == hits[e]);
        assert(topology::one_contact(hits[0], hits[e - 1]));
        assert(topology::one_contact(hits[0], hits[e]));
    } else if e > j {
        assert(topology::one_contact(joined[0], joined[j]));
        assert(joined[j] == own[0]);
        let z = lemma_filter_sub(hits.skip(j), keep, 0);
        assert(hits[j + z] == own[0]);
        assert(topology::one_contact(hits[0], hits[j - 1]));
        if z > 0 {
            assert(topology::hit_leq(hits[j - 1], hits[j]));
            assert(topology::hit_leq(hits[j], hits[j + z]));
            lemma_contact_convex(hits[j - 1], hits[j], hits[j + z]);
        }
    }
}

proof fn lemma_prefix_only(toggles: Seq<Toggle>, longer: Seq<Toggle>, i: int, key: ShellKey)
    requires
        0 <= i <= toggles.len() <= longer.len(),
        forall|j: int| 0 <= j < toggles.len() ==> #[trigger] toggles[j] == longer[j],
    ensures
        field::opened_at(toggles, i, key) == field::opened_at(longer, i, key),
        field::closed_by(toggles, i) == field::closed_by(longer, i),
    decreases i,
{
    if i > 0 {
        lemma_prefix_only(toggles, longer, i - 1, key);
        lemma_prefix_only(toggles, longer, i - 1, toggles[i - 1].key);
        assert(toggles[i - 1] == longer[i - 1]);
    }
}

/// The crossings of some shells alone open and close those shells' stretches.
pub(crate) proof fn lemma_closed_filter(toggles: Seq<Toggle>, mine: spec_fn(ShellKey) -> bool)
    ensures
        field::closed_by(toggles, toggles.len() as int).filter(own_interval(mine)) == field::closed_by(
            toggles.filter(own_toggle(mine)),
            toggles.filter(own_toggle(mine)).len() as int,
        ),
        forall|key: ShellKey| #[trigger]
            mine(key) ==> field::opened_at(toggles, toggles.len() as int, key) == field::opened_at(
                toggles.filter(own_toggle(mine)),
                toggles.filter(own_toggle(mine)).len() as int,
                key,
            ),
    decreases toggles.len(),
{
    reveal(Seq::filter);
    let mt = own_toggle(mine);
    let mi = own_interval(mine);
    let own = toggles.filter(mt);
    let n = toggles.len() as int;
    if n > 0 {
        let rest = toggles.drop_last();
        let last = toggles.last();
        lemma_closed_filter(rest, mine);
        let kept = rest.filter(mt);
        lemma_prefix_only(rest, toggles, n - 1, last.key);
        let before = field::closed_by(rest, n - 1);
        if mine(last.key) {
            assert(own =~= kept.push(last));
            lemma_prefix_only(kept, own, kept.len() as int, last.key);
            if !last.enters {
                let interval = Interval {
                    key: last.key,
                    open: field::opened_at(toggles, n - 1, last.key),
                    close: last.t,
                };
                assert(field::closed_by(toggles, n) == before.push(interval));
                before.lemma_filter_push(interval, mi);
                assert(before.push(interval).filter(mi) =~= before.filter(mi).push(interval));
            }
        } else {
            assert(own =~= kept);
            if !last.enters {
                let interval = Interval {
                    key: last.key,
                    open: field::opened_at(toggles, n - 1, last.key),
                    close: last.t,
                };
                before.lemma_filter_push(interval, mi);
                assert(before.push(interval).filter(mi) =~= before.filter(mi));
            }
        }
        assert forall|key: ShellKey| #[trigger] mine(key) implies field::opened_at(toggles, n, key) == field::opened_at(
            own,
            own.len() as int,
            key,
        ) by {
            lemma_prefix_only(rest, toggles, n - 1, key);
            lemma_prefix_only(kept, own, kept.len() as int, key);
            assert(field::opened_at(rest, n - 1, key) == field::opened_at(kept, kept.len() as int, key));
        }
    } else {
        assert(own =~= toggles);
        assert(field::closed_by(toggles, 0).filter(mi) =~= Seq::<Interval>::empty());
    }
}

/// Shells with the same hits in two corridors have the same crossings.
pub(crate) proof fn lemma_same_crossings(
    a: RayCorridor,
    b: RayCorridor,
    laws: WalkLaws,
    mine: spec_fn(ShellKey) -> bool,
)
    requires
        a.length == b.length,
        a.axis == b.axis,
        a.hits@.filter(own_hit(mine)).to_multiset() == b.hits@.filter(own_hit(mine)).to_multiset(),
    ensures
        ray::crossings_of(a, laws).filter(own_toggle(mine)) == ray::crossings_of(b, laws).filter(own_toggle(mine)),
{
    let mh = own_hit(mine);
    ray::lemma_ordered_hits(a);
    ray::lemma_ordered_hits(b);
    let oa = ray::ordered_hits(a);
    let ob = ray::ordered_hits(b);
    lemma_crossings_filter(oa, a.axis, laws.tangent_cos, mine);
    lemma_crossings_filter(ob, b.axis, laws.tangent_cos, mine);
    assert forall|x: FaceHit| oa.filter(mh).to_multiset().count(x) == ob.filter(mh).to_multiset().count(x) by {
        lemma_own_count(a, mine, x);
        lemma_own_count(b, mine, x);
    }
    assert(oa.filter(mh).to_multiset() =~= ob.filter(mh).to_multiset());
    lemma_filter_ordered(oa, mh);
    lemma_filter_ordered(ob, mh);
    topology::lemma_hit_order_unique(oa.filter(mh), ob.filter(mh));
}

/// A shell's presence rests on its own hits alone: two corridors of one length and
/// axis that hold the same hits of some shells give those shells the same stretches.
pub proof fn law_shells_are_read_alone(
    a: RayCorridor,
    b: RayCorridor,
    laws: WalkLaws,
    mine: spec_fn(ShellKey) -> bool,
)
    requires
        a.length == b.length,
        a.axis == b.axis,
        a.hits@.filter(own_hit(mine)).to_multiset() == b.hits@.filter(own_hit(mine)).to_multiset(),
    ensures
        ray::intervals_of(a, laws).filter(own_interval(mine)) == ray::intervals_of(b, laws).filter(own_interval(mine)),
{
    lemma_same_crossings(a, b, laws, mine);
    lemma_closed_filter(ray::crossings_of(a, laws), mine);
    lemma_closed_filter(ray::crossings_of(b, laws), mine);
}

pub(crate) proof fn lemma_own_count(a: RayCorridor, mine: spec_fn(ShellKey) -> bool, x: FaceHit)
    ensures
        ray::ordered_hits(a).filter(own_hit(mine)).to_multiset().count(x) == if x.t.below(a.length.doubled()) {
            a.hits@.filter(own_hit(mine)).to_multiset().count(x)
        } else {
            0
        },
{
    let mh = own_hit(mine);
    let length = a.length.doubled();
    let within = |hit: FaceHit| hit.t.below(length);
    ray::lemma_ordered_hits(a);
    laws::lemma_filter_count(ray::ordered_hits(a), mh, x);
    laws::lemma_filter_count(a.hits@, within, x);
    laws::lemma_filter_count(a.hits@, mh, x);
}

pub(crate) proof fn lemma_filter_ordered(s: Seq<FaceHit>, keep: spec_fn(FaceHit) -> bool)
    requires
        topology::in_hit_order(s),
    ensures
        topology::in_hit_order(s.filter(keep)),
    decreases s.len(),
{
    reveal(Seq::filter);
    if s.len() > 0 {
        let rest = s.drop_last();
        assert forall|i: int, j: int| 0 <= i < j < rest.len() implies topology::hit_leq(#[trigger] rest[i], #[trigger] rest[j]) by {
            assert(rest[i] == s[i] && rest[j] == s[j]);
        }
        lemma_filter_ordered(rest, keep);
        let kept = rest.filter(keep);
        let all = s.filter(keep);
        if keep(s.last()) {
            assert(all =~= kept.push(s.last()));
            assert forall|i: int, j: int| 0 <= i < j < all.len() implies topology::hit_leq(#[trigger] all[i], #[trigger] all[j]) by {
                if j < kept.len() {
                    assert(all[i] == kept[i] && all[j] == kept[j]);
                } else {
                    assert(all[i] == kept[i]);
                    let z = lemma_filter_sub(rest, keep, i);
                    assert(s[z] == kept[i]);
                    assert(topology::hit_leq(s[z], s[s.len() - 1]));
                }
            }
        }
    }
}

/// The shell has a hit in the corridor.
pub open spec fn has_hit(corridor: RayCorridor, key: ShellKey) -> bool {
    exists|i: int| 0 <= i < corridor.hits@.len() && (#[trigger] corridor.hits@[i]).spec_key() == key
}

/// `b` is `a` with the hits of further shells.
pub open spec fn extends(a: RayCorridor, b: RayCorridor, extra: Seq<FaceHit>) -> bool {
    &&& b.hits@ == a.hits@ + extra
    &&& forall|i: int| 0 <= i < extra.len() ==> !has_hit(a, (#[trigger] extra[i]).spec_key())
    &&& b.length == a.length
    &&& b.axis == a.axis
}

/// Adding shells leaves every stretch that was there.
proof fn lemma_extension_keeps(a: RayCorridor, b: RayCorridor, extra: Seq<FaceHit>, laws: WalkLaws, volume: Entity, x: int)
    requires
        extends(a, b, extra),
        spans::volume_covered(ray::intervals_of(a, laws), volume, x),
    ensures
        spans::volume_covered(ray::intervals_of(b, laws), volume, x),
{
    let mine = |key: ShellKey| has_hit(a, key);
    let mh = own_hit(mine);
    let mi = own_interval(mine);
    assert forall|i: int| 0 <= i < a.hits@.len() implies mh(#[trigger] a.hits@[i]) by {
        assert(has_hit(a, a.hits@[i].spec_key()));
    }
    lemma_filter_all(a.hits@, mh);
    lemma_filter_none(extra, mh);
    Seq::filter_distributes_over_add(a.hits@, extra, mh);
    assert(b.hits@.filter(mh) =~= a.hits@.filter(mh));
    law_shells_are_read_alone(a, b, laws, mine);
    let ia = ray::intervals_of(a, laws);
    let ib = ray::intervals_of(b, laws);
    let k = choose|k: int|
        0 <= k < ia.len() && (#[trigger] ia[k]).key.volume == volume && ia[k].open.value() <= x < ia[k].close.value();
    lemma_interval_key(a, laws, k);
    ia.lemma_filter_contains(mi, k);
    assert(mi(ia[k]));
    assert(ia.filter(mi).contains(ia[k]));
    assert(ib.filter(mi).contains(ia[k]));
    let f = choose|f: int| 0 <= f < ib.filter(mi).len() && ib.filter(mi)[f] == ia[k];
    let m = lemma_filter_sub(ib, mi, f);
    assert(ib[m].key.volume == volume);
}

/// A crossing's shell has a hit.
pub(crate) proof fn lemma_crossing_key(a: RayCorridor, laws: WalkLaws, j: int)
    requires
        0 <= j < ray::crossings_of(a, laws).len(),
    ensures
        has_hit(a, ray::crossings_of(a, laws)[j].key),
{
    let toggles = ray::crossings_of(a, laws);
    ray::lemma_ordered_hits(a);
    let hits = ray::ordered_hits(a);
    topology::lemma_crossings_order(hits, a.axis, laws.tangent_cos, 0);
    let y = choose|y: int|
        0 <= y < hits.len() && (#[trigger] hits[y]).t == toggles[j].t && hits[y].spec_key() == toggles[j].key;
    let kept = topology::kept(a.hits@, a.length.doubled());
    hits.to_multiset_ensures();
    kept.to_multiset_ensures();
    assert(hits.contains(hits[y]));
    assert(kept.to_multiset().count(hits[y]) > 0);
    assert(kept.contains(hits[y]));
    let length = a.length.doubled();
    let within = |hit: FaceHit| hit.t.below(length);
    let i = choose|i: int| 0 <= i < kept.len() && kept[i] == hits[y];
    let z = lemma_filter_sub(a.hits@, within, i);
    assert(a.hits@[z].spec_key() == toggles[j].key);
}

/// A stretch's shell has a hit.
pub(crate) proof fn lemma_interval_key(a: RayCorridor, laws: WalkLaws, k: int)
    requires
        0 <= k < ray::intervals_of(a, laws).len(),
    ensures
        has_hit(a, ray::intervals_of(a, laws)[k].key),
{
    let toggles = ray::crossings_of(a, laws);
    let j = lemma_closed_key(toggles, toggles.len() as int, k);
    lemma_crossing_key(a, laws, j);
}

proof fn lemma_closed_key(toggles: Seq<Toggle>, i: int, k: int) -> (j: int)
    requires
        0 <= i <= toggles.len(),
        0 <= k < field::closed_by(toggles, i).len(),
    ensures
        0 <= j < i,
        toggles[j].key == field::closed_by(toggles, i)[k].key,
    decreases i,
{
    let shorter = field::closed_by(toggles, i - 1);
    if k < shorter.len() {
        let j = lemma_closed_key(toggles, i - 1, k);
        j
    } else {
        i - 1
    }
}

/// Added shells, where both corridors were walked: at no position is the field lower,
/// and the exact integral over the corridor is no smaller.
pub(crate) proof fn lemma_adding_never_lowers(
    wa: RayWalk,
    wb: RayWalk,
    a: RayCorridor,
    b: RayCorridor,
    extra: Seq<FaceHit>,
    laws: WalkLaws,
    rows: Seq<(Entity, F32)>,
    factors: Map<Entity, F32>,
)
    requires
        table::ordered(rows),
        extends(a, b, extra),
        ray::has_form(a),
        ray::has_form(b),
        ray::is_walk(wa, a, laws, rows, factors),
        ray::is_walk(wb, b, laws, rows, factors),
    ensures
        forall|x: int|
            (#[trigger] spans::union_factor(rows, ray::intervals_of(a, laws), x)).value() <= spans::union_factor(
                rows,
                ray::intervals_of(b, laws),
                x,
            ).value(),
        laws::integral_of(wa.spans@, wa.spans@.len() as int) <= laws::integral_of(wb.spans@, wb.spans@.len() as int),
{
    let ia = ray::intervals_of(a, laws);
    let ib = ray::intervals_of(b, laws);
    assert forall|x: int| (#[trigger] spans::union_factor(rows, ia, x)).value() <= spans::union_factor(
        rows,
        ib,
        x,
    ).value() by {
        assert forall|volume: Entity| #[trigger] spans::volume_covered(ia, volume, x) implies spans::volume_covered(
            ib,
            volume,
            x,
        ) by {
            lemma_extension_keeps(a, b, extra, laws, volume, x);
        }
        laws::law_presence_never_lowers(rows, ia, ib, x);
    }
    laws::law_spans_integrate_the_field(wa, a, laws, rows, factors);
    laws::law_spans_integrate_the_field(wb, b, laws, rows, factors);
    laws::lemma_swept_monotone(rows, ia, rows, ib, a.length.doubled().value());
}

/// Added shells that are nowhere stronger than what was there already, where both
/// corridors were walked: the spans and the cost are as they were, to the bit.
pub(crate) proof fn lemma_dominated_addition_is_free(
    wa: RayWalk,
    wb: RayWalk,
    a: RayCorridor,
    b: RayCorridor,
    extra: Seq<FaceHit>,
    laws: WalkLaws,
    rows: Seq<(Entity, F32)>,
    factors: Map<Entity, F32>,
)
    requires
        table::ordered(rows),
        extends(a, b, extra),
        ray::has_form(a),
        ray::is_walk(wa, a, laws, rows, factors),
        ray::is_walk(wb, b, laws, rows, factors),
        forall|x: int, i: int|
            0 <= i < rows.len() && spans::volume_covered(ray::intervals_of(b, laws), rows[i].0, x)
                ==> #[trigger] laws::outmatched(rows, ray::intervals_of(a, laws), x, i),
    ensures
        wa.spans@ == wb.spans@,
        wa.cost == wb.cost,
{
    let ia = ray::intervals_of(a, laws);
    let ib = ray::intervals_of(b, laws);
    assert forall|x: int| 0 <= x < a.length.doubled().value() implies spans::union_factor(rows, ia, x)
        == #[trigger] spans::union_factor(rows, ib, x) by {
        assert forall|volume: Entity| #[trigger] spans::volume_covered(ia, volume, x) implies spans::volume_covered(
            ib,
            volume,
            x,
        ) by {
            lemma_extension_keeps(a, b, extra, laws, volume, x);
        }
        laws::law_dominated_presence_is_free(rows, ia, ib, x);
    }
    laws::law_seams_are_invisible(wa, wb, a, b, laws, rows, factors);
}

} // verus!
