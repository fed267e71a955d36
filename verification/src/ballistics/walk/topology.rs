//! From face hits to crossings: the hits in their one order, the faces of one
//! contact read together.

use crate::ballistics::walk::vocabulary::{Contact, FaceHit, ShellKey};
use crate::float::{F32, F64};
use crate::sorting;
use crate::sorting::row_before;
use crate::vector::Vec3;
use vstd::prelude::*;

verus! {

/// The words by which hits are ordered: distance, shell, contact, face, normal.
pub open spec fn hit_row(hit: FaceHit) -> Seq<u64> {
    seq![
        hit.t.rank() as u64,
        hit.volume.id,
        hit.primitive.id,
        hit.shell as u64,
        contact_words(hit.contact).0,
        contact_words(hit.contact).1,
        contact_words(hit.contact).2,
        hit.triangle as u64,
        hit.true_normal.x.bits as u64,
        hit.true_normal.y.bits as u64,
        hit.true_normal.z.bits as u64,
    ]
}

pub open spec fn contact_words(contact: Contact) -> (u64, u64, u64) {
    match contact {
        Contact::Face(face) => (0, face as u64, 0),
        Contact::Edge(low, high) => (1, low as u64, high as u64),
        Contact::Vertex(vertex) => (2, vertex as u64, 0),
    }
}

/// `a` stands no later than `b`.
pub open spec fn hit_leq(a: FaceHit, b: FaceHit) -> bool {
    !sorting::row_less(hit_row(b), hit_row(a))
}

pub open spec fn in_hit_order(hits: Seq<FaceHit>) -> bool {
    forall|i: int, j: int| 0 <= i < j < hits.len() ==> hit_leq(#[trigger] hits[i], #[trigger] hits[j])
}

/// The hits that belong to a corridor of this length.
pub open spec fn kept(hits: Seq<FaceHit>, length: F64) -> Seq<FaceHit> {
    hits.filter(|hit: FaceHit| hit.t.below(length))
}

/// A crossing as the contracts read it: at distance `t` the ray goes into the
/// shell or comes out of it. `normal` sums the normals of the faces that say so.
pub struct Toggle {
    pub key: ShellKey,
    pub t: F64,
    pub enters: bool,
    pub triangles: Seq<u32>,
    pub normal: Vec3,
}

/// A crossing: the faces of one contact that agree on a direction.
#[derive(Clone, Debug, PartialEq)]
pub struct Crossing {
    pub key: ShellKey,
    pub t: F64,
    pub enters: bool,
    pub triangles: Vec<u32>,
    pub normal: Vec3,
}

impl View for Crossing {
    type V = Toggle;

    open spec fn view(&self) -> Toggle {
        Toggle {
            key: self.key,
            t: self.t,
            enters: self.enters,
            triangles: self.triangles@,
            normal: self.normal,
        }
    }
}

pub open spec fn toggles_of(crossings: Seq<Crossing>) -> Seq<Toggle> {
    crossings.map_values(|crossing: Crossing| crossing@)
}

/// Which way a face says the ray goes.
#[derive(Clone, Copy, Debug, PartialEq, Eq, Structural)]
pub enum Lean {
    Entry,
    Exit,
    Tangent,
}

pub open spec fn leaning(hit: FaceHit, axis: Vec3, tangent: F32) -> Lean {
    let share = axis.inner(hit.true_normal);
    if share.below(tangent.negation()) {
        Lean::Entry
    } else if tangent.below(share) {
        Lean::Exit
    } else {
        Lean::Tangent
    }
}

/// Two hits report one contact of one shell at one distance.
pub open spec fn one_contact(a: FaceHit, b: FaceHit) -> bool {
    a.spec_key() == b.spec_key() && a.contact == b.contact && a.t == b.t
}

/// Where the contact that starts at `i` ends.
pub open spec fn contact_end(hits: Seq<FaceHit>, i: int) -> int
    decreases hits.len() - i,
{
    if 0 <= i && i + 1 < hits.len() && one_contact(hits[i], hits[i + 1]) {
        contact_end(hits, i + 1)
    } else {
        i + 1
    }
}

/// Some face among `hits[i..j]` leans this way.
pub open spec fn any_leans(hits: Seq<FaceHit>, axis: Vec3, tangent: F32, lean: Lean, i: int, j: int) -> bool {
    exists|x: int| i <= x < j && leaning(#[trigger] hits[x], axis, tangent) == lean
}

/// The sum, in order, of the normals among `hits[i..j]` that lean this way.
pub open spec fn lean_sum(hits: Seq<FaceHit>, axis: Vec3, tangent: F32, lean: Lean, i: int, j: int) -> Vec3
    decreases j - i,
{
    if j <= i {
        Vec3::zero()
    } else {
        let rest = lean_sum(hits, axis, tangent, lean, i, j - 1);
        if leaning(hits[j - 1], axis, tangent) == lean {
            rest.sum(hits[j - 1].true_normal)
        } else {
            rest
        }
    }
}

/// The crossing that one contact amounts to; none where its faces disagree or
/// are all tangent to the ray.
pub open spec fn contact_toggle(hits: Seq<FaceHit>, axis: Vec3, tangent: F32, i: int, j: int) -> Option<Toggle> {
    let enters = any_leans(hits, axis, tangent, Lean::Entry, i, j);
    let exits = any_leans(hits, axis, tangent, Lean::Exit, i, j);
    if enters == exits {
        None
    } else {
        Some(
            Toggle {
                key: hits[i].spec_key(),
                t: hits[i].t,
                enters,
                triangles: hits.subrange(i, j).map_values(|hit: FaceHit| hit.triangle),
                normal: lean_sum(hits, axis, tangent, if enters { Lean::Entry } else { Lean::Exit }, i, j),
            },
        )
    }
}

/// The crossings that `hits[i..]` amount to, in order.
pub open spec fn crossings_from(hits: Seq<FaceHit>, axis: Vec3, tangent: F32, i: int) -> Seq<Toggle>
    decreases hits.len() - i,
    when 0 <= i
    via contact_end_decreases
{
    if i >= hits.len() {
        Seq::empty()
    } else {
        let j = contact_end(hits, i);
        match contact_toggle(hits, axis, tangent, i, j) {
            Some(toggle) => seq![toggle] + crossings_from(hits, axis, tangent, j),
            None => crossings_from(hits, axis, tangent, j),
        }
    }
}

#[via_fn]
proof fn contact_end_decreases(hits: Seq<FaceHit>, axis: Vec3, tangent: F32, i: int) {
    if 0 <= i < hits.len() {
        lemma_contact_end(hits, i);
    }
}

pub proof fn lemma_contact_end(hits: Seq<FaceHit>, i: int)
    requires
        0 <= i < hits.len(),
    ensures
        i < contact_end(hits, i) <= hits.len(),
        forall|x: int| i <= x < contact_end(hits, i) ==> one_contact(hits[i], #[trigger] hits[x]),
        contact_end(hits, i) < hits.len() ==> !one_contact(
            hits[contact_end(hits, i) - 1],
            hits[contact_end(hits, i)],
        ),
    decreases hits.len() - i,
{
    if i + 1 < hits.len() && one_contact(hits[i], hits[i + 1]) {
        lemma_contact_end(hits, i + 1);
    }
}

/// Crossings by distance, then by shell.
pub open spec fn toggle_leq(a: Toggle, b: Toggle) -> bool {
    ||| a.t.rank() < b.t.rank()
    ||| a.t == b.t && (a.key == b.key || a.key.precedes(b.key))
}

pub open spec fn in_toggle_order(toggles: Seq<Toggle>) -> bool {
    forall|i: int, j: int| 0 <= i < j < toggles.len() ==> toggle_leq(#[trigger] toggles[i], #[trigger] toggles[j])
}

proof fn lemma_rows_order(a: FaceHit, b: FaceHit)
    requires
        hit_leq(a, b),
    ensures
        a.t.rank() < b.t.rank() || (a.t == b.t && (a.spec_key() == b.spec_key() || a.spec_key().precedes(b.spec_key()))),
{
    reveal_with_fuel(sorting::row_less, 5);
    let ra = hit_row(a);
    let rb = hit_row(b);
    assert(rb.drop_first() =~= rb.skip(1) && ra.drop_first() =~= ra.skip(1));
    assert(rb.skip(1).drop_first() =~= rb.skip(2) && ra.skip(1).drop_first() =~= ra.skip(2));
    assert(rb.skip(2).drop_first() =~= rb.skip(3) && ra.skip(2).drop_first() =~= ra.skip(3));
    assert(rb.skip(3).drop_first() =~= rb.skip(4) && ra.skip(3).drop_first() =~= ra.skip(4));
}

/// Ordered hits amount to ordered crossings, each at a hit's distance.
pub proof fn lemma_crossings_order(hits: Seq<FaceHit>, axis: Vec3, tangent: F32, i: int)
    requires
        in_hit_order(hits),
        0 <= i <= hits.len(),
    ensures
        in_toggle_order(crossings_from(hits, axis, tangent, i)),
        forall|x: int|
            0 <= x < crossings_from(hits, axis, tangent, i).len() ==> exists|y: int|
                i <= y < hits.len() && (#[trigger] hits[y]).t == (#[trigger] crossings_from(hits, axis, tangent, i)[x]).t
                    && hits[y].spec_key() == crossings_from(hits, axis, tangent, i)[x].key,
    decreases hits.len() - i,
{
    if i < hits.len() {
        lemma_contact_end(hits, i);
        let j = contact_end(hits, i);
        lemma_crossings_order(hits, axis, tangent, j);
        let rest = crossings_from(hits, axis, tangent, j);
        let all = crossings_from(hits, axis, tangent, i);
        match contact_toggle(hits, axis, tangent, i, j) {
            Some(toggle) => {
                assert(all =~= seq![toggle] + rest);
                assert forall|x: int, y: int| 0 <= x < y < all.len() implies toggle_leq(
                    #[trigger] all[x],
                    #[trigger] all[y],
                ) by {
                    assert(all[y] == rest[y - 1]);
                    if x > 0 {
                        assert(all[x] == rest[x - 1]);
                    } else {
                        let z = choose|z: int|
                            j <= z < hits.len() && (#[trigger] hits[z]).t == rest[y - 1].t && hits[z].spec_key() == rest[y - 1].key;
                        lemma_rows_order(hits[i], hits[z]);
                    }
                }
                assert forall|x: int| 0 <= x < all.len() implies exists|y: int|
                    i <= y < hits.len() && (#[trigger] hits[y]).t == (#[trigger] all[x]).t && hits[y].spec_key() == all[x].key by {
                    if x == 0 {
                        assert(hits[i].t == all[x].t);
                    } else {
                        let z = choose|z: int|
                            j <= z < hits.len() && (#[trigger] hits[z]).t == rest[x - 1].t && hits[z].spec_key() == rest[x - 1].key;
                        assert(all[x] == rest[x - 1]);
                        assert(hits[z].t == all[x].t);
                    }
                }
            },
            None => {
                assert(all == rest);
            },
        }
    }
}

fn row_of(hit: &FaceHit) -> (row: Vec<u64>)
    ensures
        row@ == hit_row(*hit),
{
    let words: (u64, u64, u64) = match hit.contact {
        Contact::Face(face) => (0, face as u64, 0),
        Contact::Edge(low, high) => (1, low as u64, high as u64),
        Contact::Vertex(vertex) => (2, vertex as u64, 0),
    };
    let row: Vec<u64> = vec![
        hit.t.order_key(),
        hit.volume.id,
        hit.primitive.id,
        hit.shell as u64,
        words.0,
        words.1,
        words.2,
        hit.triangle as u64,
        hit.true_normal.x.bits as u64,
        hit.true_normal.y.bits as u64,
        hit.true_normal.z.bits as u64,
    ];
    assert(row@ =~= hit_row(*hit));
    row
}

/// The corridor's own hits in their one order. The order they came in plays no part.
pub fn order_hits(hits: &Vec<FaceHit>, length: F64) -> (ordered: Vec<FaceHit>)
    ensures
        in_hit_order(ordered@),
        ordered@.to_multiset() == kept(hits@, length).to_multiset(),
        forall|i: int| 0 <= i < ordered@.len() ==> hits@.contains(#[trigger] ordered@[i]) && ordered@[i].t.below(length),
{
    let mut ordered: Vec<FaceHit> = Vec::new();
    let mut next: usize = 0;
    let ghost belongs = |hit: FaceHit| hit.t.below(length);
    proof {
        reveal(Seq::filter);
        assert(hits@.take(0) =~= Seq::empty());
        assert(kept(hits@.take(0), length) =~= Seq::empty());
    }
    while next < hits.len()
        invariant
            next <= hits.len(),
            belongs == (|hit: FaceHit| hit.t.below(length)),
            in_hit_order(ordered@),
            ordered@.to_multiset() == kept(hits@.take(next as int), length).to_multiset(),
            forall|i: int|
                0 <= i < ordered@.len() ==> hits@.contains(#[trigger] ordered@[i]) && ordered@[i].t.below(length),
        decreases hits.len() - next,
    {
        let hit: FaceHit = hits[next];
        proof {
            assert(hits@.take(next + 1) =~= hits@.take(next as int).push(hit));
            hits@.take(next as int).lemma_filter_push(hit, belongs);
        }
        if hit.t.lt(length) {
            let row: Vec<u64> = row_of(&hit);
            let mut place: usize = ordered.len();
            while place > 0 && row_before(&row, &row_of(&ordered[place - 1]))
                invariant
                    place <= ordered.len(),
                    row@ == hit_row(hit),
                    in_hit_order(ordered@),
                    forall|i: int| place <= i < ordered@.len() ==> sorting::row_less(row@, hit_row(#[trigger] ordered@[i])),
                decreases place,
            {
                place = place - 1;
            }
            let ghost before = ordered@;
            ordered.insert(place, hit);
            proof {
                vstd::seq_lib::to_multiset_insert(before, place as int, hit);
                kept(hits@.take(next as int), length).to_multiset_ensures();
                assert(ordered@ =~= before.insert(place as int, hit));
                assert forall|i: int, j: int| 0 <= i < j < ordered@.len() implies hit_leq(
                    #[trigger] ordered@[i],
                    #[trigger] ordered@[j],
                ) by {
                    if j == place {
                        assert(ordered@[i] == before[i]);
                        if i < place - 1 {
                            lemma_leq_transitive(before[i], before[place - 1], hit);
                        }
                    } else if i == place {
                        assert(ordered@[j] == before[j - 1]);
                        sorting::lemma_row_total(hit_row(hit), hit_row(before[j - 1]));
                    } else {
                        let x = if i < place { i } else { i - 1 };
                        let y = if j < place { j } else { j - 1 };
                        assert(ordered@[i] == before[x] && ordered@[j] == before[y]);
                    }
                }
                assert(hits@.contains(hit));
                assert forall|i: int| 0 <= i < ordered@.len() implies hits@.contains(#[trigger] ordered@[i])
                    && ordered@[i].t.below(length) by {
                    if i != place {
                        let x = if i < place { i } else { i - 1 };
                        assert(ordered@[i] == before[x]);
                    }
                }
            }
        }
        next = next + 1;
    }
    assert(hits@.take(next as int) =~= hits@);
    ordered
}

proof fn lemma_leq_transitive(a: FaceHit, b: FaceHit, c: FaceHit)
    requires
        hit_leq(a, b),
        hit_leq(b, c),
    ensures
        hit_leq(a, c),
{
    let (ra, rb, rc) = (hit_row(a), hit_row(b), hit_row(c));
    sorting::lemma_row_total(ra, rb);
    sorting::lemma_row_total(rb, rc);
    if sorting::row_less(rc, ra) {
        if ra != rb {
            sorting::lemma_row_transitive(rc, ra, rb);
        }
    }
}

proof fn lemma_row_injective(a: FaceHit, b: FaceHit)
    requires
        hit_row(a) == hit_row(b),
    ensures
        a == b,
{
    let (ra, rb) = (hit_row(a), hit_row(b));
    assert(ra[0] == rb[0] && ra[1] == rb[1] && ra[2] == rb[2] && ra[3] == rb[3] && ra[4] == rb[4]);
    assert(ra[5] == rb[5] && ra[6] == rb[6] && ra[7] == rb[7] && ra[8] == rb[8] && ra[9] == rb[9] && ra[10] == rb[10]);
}

/// The hit order is total.
pub proof fn lemma_hit_order_total()
    ensures
        vstd::relations::total_ordering(|x: FaceHit, y: FaceHit| hit_leq(x, y)),
{
    let leq = |x: FaceHit, y: FaceHit| hit_leq(x, y);
    assert forall|x: FaceHit, y: FaceHit| #![trigger leq(x, y)] leq(x, y) && leq(y, x) implies x == y by {
        sorting::lemma_row_total(hit_row(x), hit_row(y));
        lemma_row_injective(x, y);
    }
    assert forall|x: FaceHit, y: FaceHit| #![trigger leq(x, y)] leq(x, y) || leq(y, x) by {
        sorting::lemma_row_total(hit_row(x), hit_row(y));
    }
    assert forall|x: FaceHit, y: FaceHit, z: FaceHit| #![trigger leq(x, y), leq(y, z)] leq(x, y) && leq(
        y,
        z,
    ) implies leq(x, z) by {
        lemma_leq_transitive(x, y, z);
    }
    assert forall|x: FaceHit| #![trigger leq(x, x)] leq(x, x) by {
        sorting::lemma_row_total(hit_row(x), hit_row(x));
    }
}

/// Hits have one order: two ordered lists of the same hits are the same list.
pub proof fn lemma_hit_order_unique(a: Seq<FaceHit>, b: Seq<FaceHit>)
    requires
        in_hit_order(a),
        in_hit_order(b),
        a.to_multiset() == b.to_multiset(),
    ensures
        a == b,
{
    let leq = |x: FaceHit, y: FaceHit| hit_leq(x, y);
    lemma_hit_order_total();
    assert(vstd::relations::sorted_by(a, leq));
    assert(vstd::relations::sorted_by(b, leq));
    vstd::seq_lib::lemma_sorted_unique(a, b, leq);
}

/// Reads ordered hits contact by contact.
pub fn read_crossings(hits: &Vec<FaceHit>, axis: Vec3, tangent: F32) -> (crossings: Vec<Crossing>)
    ensures
        toggles_of(crossings@) == crossings_from(hits@, axis, tangent, 0),
{
    let mut crossings: Vec<Crossing> = Vec::new();
    let mut start: usize = 0;
    let against: F32 = tangent.negated();
    while start < hits.len()
        invariant
            start <= hits.len(),
            against == tangent.negation(),
            toggles_of(crossings@) + crossings_from(hits@, axis, tangent, start as int) == crossings_from(
                hits@,
                axis,
                tangent,
                0,
            ),
        decreases hits.len() - start,
    {
        let first: FaceHit = hits[start];
        let mut end: usize = start;
        let mut enters: bool = false;
        let mut exits: bool = false;
        let mut entry_sum: Vec3 = Vec3::zero();
        let mut exit_sum: Vec3 = Vec3::zero();
        let mut triangles: Vec<u32> = Vec::new();
        proof {
            lemma_contact_end(hits@, start as int);
        }
        let ghost stop = contact_end(hits@, start as int);
        while end < hits.len() && (end == start || (hits[end].key() == first.key() && hits[end].contact == first.contact
            && hits[end].t == first.t))
            invariant
                start <= end <= stop <= hits.len(),
                stop == contact_end(hits@, start as int),
                first == hits@[start as int],
                start < hits.len(),
                against == tangent.negation(),
                forall|x: int| start <= x < stop ==> one_contact(hits@[start as int], #[trigger] hits@[x]),
                stop < hits.len() ==> !one_contact(hits@[stop - 1], hits@[stop]),
                stop > start,
                enters == any_leans(hits@, axis, tangent, Lean::Entry, start as int, end as int),
                exits == any_leans(hits@, axis, tangent, Lean::Exit, start as int, end as int),
                entry_sum == lean_sum(hits@, axis, tangent, Lean::Entry, start as int, end as int),
                exit_sum == lean_sum(hits@, axis, tangent, Lean::Exit, start as int, end as int),
                triangles@ == hits@.subrange(start as int, end as int).map_values(|hit: FaceHit| hit.triangle),
            ensures
                end == stop,
            decreases hits.len() - end,
        {
            assert(end < stop) by {
                if end == stop {
                    assert(one_contact(hits@[start as int], hits@[stop - 1]));
                }
            }
            let hit: FaceHit = hits[end];
            let share: F32 = axis.dot(hit.true_normal);
            triangles.push(hit.triangle);
            if share.lt(against) {
                enters = true;
                entry_sum = entry_sum.plus(hit.true_normal);
                assert(leaning(hits@[end as int], axis, tangent) == Lean::Entry);
            } else if tangent.lt(share) {
                exits = true;
                exit_sum = exit_sum.plus(hit.true_normal);
                assert(leaning(hits@[end as int], axis, tangent) == Lean::Exit);
            }
            proof {
                assert(triangles@ =~= hits@.subrange(start as int, end + 1).map_values(|hit: FaceHit| hit.triangle));
                let e = end as int;
                let s = start as int;
                assert forall|lean: Lean| #[trigger]
                    any_leans(hits@, axis, tangent, lean, s, e + 1) == (any_leans(hits@, axis, tangent, lean, s, e)
                        || leaning(hits@[e], axis, tangent) == lean) by {
                    if any_leans(hits@, axis, tangent, lean, s, e) {
                        let x = choose|x: int| s <= x < e && leaning(#[trigger] hits@[x], axis, tangent) == lean;
                        assert(s <= x < e + 1 && leaning(hits@[x], axis, tangent) == lean);
                    }
                }
            }
            end = end + 1;
        }
        let ghost before = crossings@;
        proof {
            let rest = crossings_from(hits@, axis, tangent, stop);
            let all = crossings_from(hits@, axis, tangent, start as int);
        }
        if enters != exits {
            let normal: Vec3 = if enters { entry_sum } else { exit_sum };
            crossings.push(Crossing { key: first.key(), t: first.t, enters, triangles, normal });
            proof {
                let toggle = crossings@.last()@;
                assert(contact_toggle(hits@, axis, tangent, start as int, stop) == Some(toggle));
                assert(toggles_of(crossings@) =~= toggles_of(before).push(toggle));
                assert(toggles_of(crossings@) + crossings_from(hits@, axis, tangent, stop) =~= toggles_of(before)
                    + crossings_from(hits@, axis, tangent, start as int));
            }
        }
        start = end;
    }
    assert(toggles_of(crossings@) + crossings_from(hits@, axis, tangent, start as int) =~= toggles_of(crossings@));
    crossings
}

} // verus!
