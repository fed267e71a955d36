//! Where a crossing starts and ends, which volume it enters, and how much of the disc it covers.

use crate::ballistics::collect::crossing;
use crate::ballistics::walk::charges;
use crate::ballistics::walk::disc::{DiscCorridor, DiscEvent};
use crate::ballistics::walk::event;
use crate::ballistics::walk::events::BoundaryKind;
use crate::ballistics::walk::extent;
use crate::ballistics::walk::extent::Touch;
use crate::ballistics::walk::places;
use crate::ballistics::walk::ray::RayWalk;
use crate::ballistics::walk::spall;
use crate::float::{F32, F64};
use crate::folding;
use crate::folding_single;
use crate::format::Format;
use crate::rounding;
use crate::rounding_double;
use crate::vector::Vec3;
use vstd::arithmetic::power2::*;
use vstd::prelude::*;

verus! {

/// The covered samples, each entering and leaving at a finite distance.
pub open spec fn are_bounded(walks: Seq<RayWalk>, touches: Seq<Touch>) -> bool {
    forall|i: int|
        0 <= i < touches.len() ==> (#[trigger] touches[i]).runs@.len() > 0 && places::enters_at(walks, touches[i]).finite()
            && places::leaves_at(walks, touches[i]).finite()
}

/// The sample enters before every one that is listed before it, and no sample before it.
pub open spec fn is_first(walks: Seq<RayWalk>, touches: Seq<Touch>, n: int, i: int) -> bool {
    &&& 0 <= i < n
    &&& forall|j: int|
        0 <= j < n ==> places::enters_at(walks, touches[i]).value() <= places::enters_at(
            walks,
            #[trigger] touches[j],
        ).value()
    &&& forall|j: int|
        0 <= j < i ==> places::enters_at(walks, touches[i]).value() < places::enters_at(
            walks,
            #[trigger] touches[j],
        ).value()
}

/// No sample leaves later.
pub open spec fn is_last(walks: Seq<RayWalk>, touches: Seq<Touch>, n: int, i: int) -> bool {
    &&& 0 <= i < n
    &&& forall|j: int|
        0 <= j < n ==> places::leaves_at(walks, #[trigger] touches[j]).value() <= places::leaves_at(
            walks,
            touches[i],
        ).value()
}

proof fn lemma_bounds(walks: Seq<RayWalk>, touches: Seq<Touch>, n: int) -> (ends: (int, int))
    requires
        are_bounded(walks, touches),
        0 < n <= touches.len(),
    ensures
        is_first(walks, touches, n, ends.0),
        extent::start_of(walks, touches, n) == places::enters_at(walks, touches[ends.0]),
        extent::volume_of(walks, touches, n) == Some(
            walks[touches[ends.0].sample as int].runs@[touches[ends.0].runs@[0] as int].entry_volume,
        ),
        is_last(walks, touches, n, ends.1),
        extent::end_of(walks, touches, n).value() == places::leaves_at(walks, touches[ends.1]).value(),
        !extent::end_of(walks, touches, n).is_nan(),
    decreases n,
{
    let touch = touches[n - 1];
    let (start, end) = (places::enters_at(walks, touch), places::leaves_at(walks, touch));
    assert(start.finite() && end.finite());
    assert(extent::first_run(walks, touch).start == start);
    assert(extent::last_run(walks, touch).end == end);
    start.lemma_within_bounds();
    end.lemma_within_bounds();
    if n == 1 {
        assert(extent::start_of(walks, touches, 0) == (F64 { bits: 0x7ff0_0000_0000_0000 }));
        assert(extent::end_of(walks, touches, 0) == (F64 { bits: 0xfff0_0000_0000_0000 }));
        (0, 0)
    } else {
        let (i, j) = lemma_bounds(walks, touches, n - 1);
        assert(touches[i].runs@.len() > 0);
        let first = if start.below(extent::start_of(walks, touches, n - 1)) {
            n - 1
        } else {
            i
        };
        let last = if extent::end_of(walks, touches, n - 1).below(end) {
            n - 1
        } else {
            j
        };
        (first, last)
    }
}

/// A crossing starts where the first of its samples enters and ends where the last one leaves, and
/// the volume it enters is the one that this first sample enters; the earliest listed where several
/// enter together.
pub proof fn law_a_crossing_starts_with_its_first_sample(
    event: DiscEvent,
    corridor: DiscCorridor,
    walks: Seq<RayWalk>,
    touches: Seq<Touch>,
) -> (ends: (int, int))
    requires
        event::is_event(event, corridor, walks, touches),
        are_bounded(walks, touches),
        touches.len() > 0,
    ensures
        is_first(walks, touches, touches.len() as int, ends.0),
        event.start == places::enters_at(walks, touches[ends.0]),
        event.entrance_volume == walks[touches[ends.0].sample as int].runs@[touches[ends.0].runs@[0] as int].entry_volume,
        is_last(walks, touches, touches.len() as int, ends.1),
        event.end.value() == places::leaves_at(walks, touches[ends.1]).value(),
{
    lemma_bounds(walks, touches, touches.len() as int)
}

/// A share of the disc is a count of samples over that of all, but for rounding.
pub open spec fn is_portion(share: F32, count: real, k: nat) -> bool {
    let exact = count / k as real;
    &&& share.finite()
    &&& rounding::size(share.number() - exact) <= 2real * rounding::unit() * exact + 2real * rounding::grain()
}

pub proof fn lemma_share(count: nat, k: nat)
    requires
        0 < k < 0x1_0000_0000,
        count <= k,
    ensures
        is_portion(extent::share_of(count, k), count as real, k),
{
    folding::lemma_small();
    charges::lemma_grains();
    F64::lemma_count_error(count);
    F64::lemma_count_error(k);
    let (y, c) = (F64::whole(count).number(), F64::whole(k).number());
    let (x, m) = (count as real, k as real);
    let (u, g) = (rounding_double::unit(), rounding_double::grain());
    assert(1real * u * x == u * x);
    folding::lemma_near_quotient(y, x, 1real, 0real, c, m);
    let share = x / m;
    assert(0real <= share <= 1real) by (nonlinear_arith)
        requires share == x / m, 0real <= x <= m, m >= 1real;
    let five = 5real * u;
    assert(five * share <= 1real) by (nonlinear_arith)
        requires five <= 1real, 0real <= share <= 1real;
    F64::whole(count).lemma_quotient_error(F64::whole(k));
    let q = F64::whole(count).quotient(F64::whole(k));
    folding::lemma_near_rounded(q.number(), y / c, share, 5real, 0real, g);
    charges::lemma_single(q, share, 7real, g);
}

/// One for a sample that left material in the crossing, and nothing for another.
pub open spec fn left(walks: Seq<RayWalk>, touch: Touch) -> real {
    if exists|i: int|
        0 <= i < spall::downs_of(walks, touch).len() && (#[trigger] spall::downs_of(walks, touch)[i]).kind
            == BoundaryKind::Exit {
        1real
    } else {
        0real
    }
}

proof fn lemma_exits(walks: Seq<RayWalk>, touches: Seq<Touch>, n: int)
    requires
        0 <= n <= touches.len(),
    ensures
        spall::exits_of(spall::all_downs(walks, touches), n) as real == folding_single::total(
            |i: int| left(walks, touches[i]),
            n,
        ),
        spall::exits_of(spall::all_downs(walks, touches), n) <= n,
    decreases n,
{
    let f = |i: int| left(walks, touches[i]);
    if n > 0 {
        lemma_exits(walks, touches, n - 1);
        let downs = spall::all_downs(walks, touches)[n - 1];
        assert(downs == spall::downs_of(walks, touches[n - 1]));
        assert(f(n - 1) == if spall::has_exit(downs) {
            1real
        } else {
            0real
        });
    }
}

/// A crossing covers the share of the disc that its samples are of all, and its exit the share that
/// those are which left material in it, but for rounding.
pub proof fn law_a_crossing_covers_its_samples(
    event: DiscEvent,
    corridor: DiscCorridor,
    walks: Seq<RayWalk>,
    touches: Seq<Touch>,
)
    requires
        event::is_event(event, corridor, walks, touches),
        0 < corridor.samples@.len() < 0x1_0000_0000,
        touches.len() <= corridor.samples@.len(),
    ensures
        is_portion(event.coverage, touches.len() as real, corridor.samples@.len()),
        is_portion(
            event.exit_coverage,
            folding_single::total(|i: int| left(walks, touches[i]), touches.len() as int),
            corridor.samples@.len(),
        ),
{
    let k = corridor.samples@.len();
    lemma_share(touches.len(), k);
    lemma_exits(walks, touches, touches.len() as int);
    lemma_share(spall::exits_of(spall::all_downs(walks, touches), touches.len() as int), k);
}

/// The outward normal of the face that a covered sample enters through, or leaves through: a
/// component of it.
pub open spec fn normal_of(walks: Seq<RayWalk>, touch: Touch, leaving: bool, c: int) -> F32 {
    let runs = walks[touch.sample as int].runs@;
    if leaving {
        places::part(runs[touch.runs@[touch.runs@.len() - 1] as int].exit_normal, c)
    } else {
        places::part(runs[touch.runs@[0] as int].entry_normal, c)
    }
}

/// The sums of the normals, component by component.
proof fn lemma_sums(walks: Seq<RayWalk>, touches: Seq<Touch>, c: int, n: int)
    requires
        0 <= n <= touches.len(),
        0 <= c < 3,
        forall|i: int| 0 <= i < touches.len() ==> (#[trigger] touches[i]).runs@.len() > 0,
    ensures
        places::part(extent::entry_sum(walks, touches, n), c) == folding_single::fold(
            |i: int| normal_of(walks, touches[i], false, c),
            n,
        ),
        places::part(extent::exit_sum(walks, touches, n), c) == folding_single::fold(
            |i: int| normal_of(walks, touches[i], true, c),
            n,
        ),
    decreases n,
{
    if n > 0 {
        lemma_sums(walks, touches, c, n - 1);
        assert(touches[n - 1].runs@.len() > 0);
        assert(touches[n - 1].runs@.last() == touches[n - 1].runs@[touches[n - 1].runs@.len() - 1]);
    }
}

/// A vector over its length points along it.
proof fn lemma_directed(sum: Vec3, c: int, most: real)
    requires
        0 <= c < 3,
        places::part(sum, c).finite(),
        rounding::size(places::part(sum, c).number()) <= most,
        0x100_0000_0000real * most < rounding::ceiling(),
        sum.norm().finite(),
        (F32 { bits: 0x3586_37bd }).below(sum.norm()),
    ensures
        sum.norm().number() > 0real,
        rounding::size(
            places::part(sum.direction(), c).number() * sum.norm().number() - places::part(sum, c).number(),
        ) <= rounding::unit() * most + rounding::grain() * sum.norm().number(),
{
    folding_single::lemma_small();
    let (x, y) = (places::part(sum, c), sum.norm());
    let eps = F32 { bits: 0x3586_37bd };
    lemma_eps();
    eps.lemma_order(y);
    let (xn, yn) = (x.number(), y.number());
    crossing::lemma_quotient_size(xn, yn, most);
    x.lemma_quotient_error(y);
    let d = x.quotient(y);
    let (u, g) = (rounding::unit(), rounding::grain());
    crossing::lemma_divided(d.number(), xn, yn, u, g);
    let sx = rounding::size(xn);
    assert(u * sx <= u * most) by (nonlinear_arith)
        requires sx <= most, u > 0real;
}

/// The least length that has a direction.
proof fn lemma_eps()
    ensures
        (F32 { bits: 0x3586_37bd }).number() >= 1real / 0x100_0000_0000real,
{
    reveal(F32::value);
    let f = Format::Single;
    lemma2_to64();
    lemma2_to64_rest();
    f.lemma_magnitude(106, 0x86_37bd);
    assert(106 * pow2(23) + 0x86_37bd == 0x3586_37bd);
    lemma_pow2_adds(3, 106);
    lemma_pow2_adds(40, 109);
    lemma_pow2_pos(106);
    lemma_pow2_pos(109);
    let p = pow2(106);
    assert(0x86_37bd * p >= 8 * p) by (nonlinear_arith)
        requires p > 0;
    let (v, b, g) = ((F32 { bits: 0x3586_37bd }).value() as real, pow2(109) as real, pow2(149) as real);
    let k = 0x100_0000_0000real;
    assert(v >= b && b > 0real && g == k * b);
    let r = v / g;
    assert(r >= 1real / k) by (nonlinear_arith)
        requires r == v / g, v >= b, b > 0real, g == k * b, k == 0x100_0000_0000real;
}

/// The mean normal of several covered samples points along the exact sum of theirs: times the length
/// of the sum, each component is the sum of the samples', but for rounding. One sample's is its own.
pub open spec fn is_mean_normal(
    normal: Vec3,
    walks: Seq<RayWalk>,
    touches: Seq<Touch>,
    leaving: bool,
    c: int,
    length: real,
) -> bool {
    let n = touches.len() as real;
    let exact = folding_single::total(|i: int| normal_of(walks, touches[i], leaving, c).number(), touches.len() as int);
    &&& length > 0real
    &&& touches.len() == 1 ==> length == 1real
    &&& rounding::size(places::part(normal, c).number() * length - exact) <= (2real * n + 4real) * rounding::unit() * (
    n * 2real) + rounding::grain() * length
}

/// Each covered sample's normals are vectors of numbers no larger than two.
pub open spec fn are_normal(walks: Seq<RayWalk>, touches: Seq<Touch>, c: int) -> bool {
    forall|i: int|
        0 <= i < touches.len() ==> (#[trigger] touches[i]).runs@.len() > 0 && normal_of(walks, touches[i], false, c).finite()
            && rounding::size(normal_of(walks, touches[i], false, c).number()) <= 2real && normal_of(
            walks,
            touches[i],
            true,
            c,
        ).finite() && rounding::size(normal_of(walks, touches[i], true, c).number()) <= 2real
}

proof fn lemma_mean_normal(walks: Seq<RayWalk>, touches: Seq<Touch>, leaving: bool, c: int, sum: Vec3)
    requires
        0 <= c < 3,
        0 < touches.len() < 0x10_0000,
        are_normal(walks, touches, c),
        sum == if leaving {
            extent::exit_sum(walks, touches, touches.len() as int)
        } else {
            extent::entry_sum(walks, touches, touches.len() as int)
        },
        touches.len() != 1 ==> sum.norm().finite() && (F32 { bits: 0x3586_37bd }).below(sum.norm()),
    ensures
        is_mean_normal(
            event::mean_normal(sum, touches.len()),
            walks,
            touches,
            leaving,
            c,
            if touches.len() == 1 {
                1real
            } else {
                sum.norm().number()
            },
        ),
{
    folding_single::lemma_small();
    let n = touches.len() as int;
    let k = n as real;
    lemma_sums(walks, touches, c, n);
    let f = |i: int| normal_of(walks, touches[i], leaving, c);
    let x = |i: int| normal_of(walks, touches[i], leaving, c).number();
    let u = rounding::unit();
    let nothing = 0real;
    assert(nothing * u * 2real + nothing == 0real) by (nonlinear_arith)
        requires nothing == 0real;
    assert forall|i: int| 0 <= i < n implies (#[trigger] f(i)).finite() && rounding::size(x(i)) <= 2real
        && rounding::size(f(i).number() - x(i)) <= nothing * u * 2real + nothing by {
        assert(touches[i].runs@.len() > 0);
    }
    lemma_ceiling();
    folding_single::lemma_fold(f, x, n, 0real, 2real, 0real);
    let total = folding_single::total(x, n);
    assert(places::part(sum, c) == folding_single::fold(f, n));
    let s = places::part(sum, c).number();
    let m = k * 2real;
    let um = u * m;
    assert((2real * k + nothing) * u * m + 2real * k * nothing == (2real * k) * um) by (nonlinear_arith)
        requires um == u * m, nothing == 0real;
    let j = 2real * k + 4real;
    assert(j * u * m == (2real * k) * um + 4real * um) by (nonlinear_arith)
        requires j == 2real * k + 4real, um == u * m;
    assert(um > 0real) by (nonlinear_arith)
        requires um == u * m, u > 0real, m >= 2real;
    let ku = 2real * k * u;
    assert(ku <= 1real) by (nonlinear_arith)
        requires ku == 2real * k * u, k <= 1048576real, u == 1real / 0x100_0000real;
    assert((2real * k) * um <= m) by (nonlinear_arith)
        requires ku <= 1real, ku == 2real * k * u, um == u * m, m >= 2real;
    assert(rounding::size(s) <= 2real * m);
    if n == 1 {
        let d = places::part(event::mean_normal(sum, touches.len()), c).number();
        assert(d * 1real == s);
    } else {
        lemma_directed(sum, c, 2real * m);
        assert(u * (2real * m) == 2real * um) by (nonlinear_arith)
            requires um == u * m;
    }
}

proof fn lemma_ceiling()
    ensures
        rounding::ceiling() > 0x100_0000_0000_0000_0000real,
{
    lemma2_to64();
    lemma2_to64_rest();
    lemma_pow2_adds(16, 64);
    lemma_pow2_strictly_increases(80, 120);
}

/// A crossing's entry normal is the mean direction of those of the faces that its samples enter
/// through, and its exit normal, where it has one, of those that they leave through.
pub proof fn law_a_crossing_faces_the_mean_way(
    event: DiscEvent,
    corridor: DiscCorridor,
    walks: Seq<RayWalk>,
    touches: Seq<Touch>,
) -> (lengths: (real, real))
    requires
        event::is_event(event, corridor, walks, touches),
        0 < touches.len() < 0x10_0000,
        are_normal(walks, touches, 0) && are_normal(walks, touches, 1) && are_normal(walks, touches, 2),
        extent::entry_sum(walks, touches, touches.len() as int).norm().finite(),
        extent::exit_sum(walks, touches, touches.len() as int).norm().finite(),
    ensures
        forall|c: int| 0 <= c < 3 ==> is_mean_normal(event.entry_normal, walks, touches, false, c, lengths.0),
        touches.len() == 1 || !event.exit_normal.equals(Vec3::zero()) ==> forall|c: int|
            0 <= c < 3 ==> is_mean_normal(event.exit_normal, walks, touches, true, c, lengths.1),
{
    let n = touches.len() as int;
    Vec3::zero().x.lemma_nonnegative();
    assert(Vec3::zero().equals(Vec3::zero()));
    let (entry, exit) = (extent::entry_sum(walks, touches, n), extent::exit_sum(walks, touches, n));
    assert forall|c: int| 0 <= c < 3 implies are_normal(walks, touches, c) by {
        assert(c == 0 || c == 1 || c == 2);
    }
    let lengths = if n == 1 {
        (1real, 1real)
    } else {
        (entry.norm().number(), exit.norm().number())
    };
    assert forall|c: int| 0 <= c < 3 implies is_mean_normal(event.entry_normal, walks, touches, false, c, lengths.0) by {
        lemma_mean_normal(walks, touches, false, c, entry);
    }
    if touches.len() == 1 || !event.exit_normal.equals(Vec3::zero()) {
        assert forall|c: int| 0 <= c < 3 implies is_mean_normal(event.exit_normal, walks, touches, true, c, lengths.1) by {
            lemma_mean_normal(walks, touches, true, c, exit);
        }
    }
    lengths
}

} // verus!
