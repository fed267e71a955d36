//! Which runs of different samples belong to one crossing.

use crate::ballistics::walk::disc::DiscCorridor;
use crate::ballistics::walk::events;
use crate::ballistics::walk::events::position_at;
use crate::ballistics::walk::extent;
use crate::ballistics::walk::ray::RayWalk;
use crate::ballistics::walk::vocabulary::{PrimitiveKey, WalkLaws};
use crate::ballistics::walk::weld::WeldedRun;
use crate::float::{F32, F64};
use crate::vector::{unit_or_zero, Vec3};
use vstd::prelude::*;

verus! {

/// The two runs overlap along the ray.
pub open spec fn overlap(a: WeldedRun, b: WeldedRun) -> bool {
    a.start.below(b.end) && b.start.below(a.end)
}

/// The gap between the two runs along the ray; none where they overlap.
pub open spec fn gap_between(a: WeldedRun, b: WeldedRun) -> F64 {
    b.start.difference(a.end).larger(a.start.difference(b.end)).larger(F64::zero())
}

/// The mean direction of the two entry normals.
pub open spec fn facing_of(a: WeldedRun, b: WeldedRun) -> Vec3 {
    a.entry_normal.sum(b.entry_normal).direction()
}

/// How far sample `b`'s run starts from where one shared surface would put it,
/// seen from sample `a`'s: rays apart by `d` meet a plane of normal `n` at distances
/// that differ by `-(d . n) / (axis . n)`, the secant capped.
pub open spec fn residual_of(
    lateral: Vec3,
    axis: Vec3,
    a: WeldedRun,
    b: WeldedRun,
    facing: Vec3,
    laws: WalkLaws,
) -> F64 {
    let denominator = axis.inner(facing);
    let secant = if denominator.equals(F32::zero()) {
        laws.event_secant_cap
    } else {
        F32::one().quotient(denominator.absolute()).smaller(laws.event_secant_cap)
    };
    let sign = if denominator.below(F32::zero()) {
        F32::one().negation()
    } else {
        F32::one()
    };
    let predicted = lateral.inner(facing).negation().product(secant).product(sign);
    b.start.difference(a.start).difference(predicted.doubled())
}

/// See [`residual_of`].
pub fn separation_residual(
    lateral: Vec3,
    axis: Vec3,
    a: &WeldedRun,
    b: &WeldedRun,
    facing: Vec3,
    laws: &WalkLaws,
) -> (residual: F64)
    ensures
        residual == residual_of(lateral, axis, *a, *b, facing, *laws),
{
    let denominator: F32 = axis.dot(facing);
    let secant: F32 = if denominator.same(F32::zero()) {
        laws.event_secant_cap
    } else {
        F32::one().over(denominator.abs()).min(laws.event_secant_cap)
    };
    let sign: F32 = if denominator.lt(F32::zero()) { F32::one().negated() } else { F32::one() };
    let predicted: F32 = lateral.dot(facing).negated().times(secant).times(sign);
    b.start.minus(a.start).minus(predicted.to_double())
}

/// The two runs touch a common primitive.
pub open spec fn share_primitive(a: WeldedRun, b: WeldedRun) -> bool {
    exists|key: PrimitiveKey| #[trigger] a.primitives@.contains(key) && b.primitives@.contains(key)
}

/// The gap between the runs, across the faces, is one that a weld would delete.
pub open spec fn weld_class(axis: Vec3, a: WeldedRun, b: WeldedRun, laws: WalkLaws) -> bool {
    gap_between(a, b).product(axis.inner(facing_of(a, b)).absolute().doubled()).at_most(laws.weld_perp.doubled())
}

/// The entry patches lie on one plane.
pub open spec fn coplanar(axis: Vec3, base_a: Vec3, base_b: Vec3, a: WeldedRun, b: WeldedRun, laws: WalkLaws) -> bool {
    let facing = facing_of(a, b);
    let pa = events::point_at(base_a, axis, a.start);
    let pb = events::point_at(base_b, axis, b.start);
    &&& laws.event_plane_cos.at_most(a.entry_normal.inner(b.entry_normal))
    &&& !facing.equals(Vec3::zero())
    &&& pa.difference(pb).inner(facing).absolute().at_most(laws.event_plane_tolerance)
}

/// Two samples' runs belong to one crossing: they touch a common primitive and meet
/// along the ray, or they lie on one surface where that surface puts both.
pub open spec fn related(
    corridor: DiscCorridor,
    laws: WalkLaws,
    sa: int,
    a: WeldedRun,
    sb: int,
    b: WeldedRun,
) -> bool {
    let lateral = corridor.samples@[sb].offset.difference(corridor.samples@[sa].offset);
    ||| share_primitive(a, b) && (overlap(a, b) || weld_class(corridor.axis, a, b, laws))
    ||| coplanar(
        corridor.axis,
        extent::sample_base(corridor, sa),
        extent::sample_base(corridor, sb),
        a,
        b,
        laws,
    ) && residual_of(lateral, corridor.axis, a, b, facing_of(a, b), laws).absolute().at_most(
        laws.event_residual_tolerance.doubled(),
    )
}

fn has_common(a: &Vec<PrimitiveKey>, b: &Vec<PrimitiveKey>) -> (yes: bool)
    ensures
        yes == exists|key: PrimitiveKey| #[trigger] a@.contains(key) && b@.contains(key),
{
    let mut i: usize = 0;
    while i < a.len()
        invariant
            i <= a.len(),
            forall|x: int| 0 <= x < i ==> !b@.contains(#[trigger] a@[x]),
        decreases a.len() - i,
    {
        let mut j: usize = 0;
        while j < b.len()
            invariant
                j <= b.len(),
                i < a.len(),
                forall|y: int| 0 <= y < j ==> #[trigger] b@[y] != a@[i as int],
            decreases b.len() - j,
        {
            if a[i] == b[j] {
                assert(a@.contains(a@[i as int]) && b@.contains(a@[i as int])) by {
                    assert(b@[j as int] == a@[i as int]);
                }
                return true;
            }
            j = j + 1;
        }
        i = i + 1;
    }
    assert forall|key: PrimitiveKey| #[trigger] a@.contains(key) implies !b@.contains(key) by {
        let x = choose|x: int| 0 <= x < a@.len() && a@[x] == key;
        assert(!b@.contains(a@[x]));
    }
    false
}

/// Whether two samples' runs belong to one crossing.
pub fn is_related(
    corridor: &DiscCorridor,
    laws: &WalkLaws,
    sa: usize,
    a: &WeldedRun,
    sb: usize,
    b: &WeldedRun,
) -> (yes: bool)
    requires
        sa < corridor.samples@.len(),
        sb < corridor.samples@.len(),
    ensures
        yes == related(*corridor, *laws, sa as int, *a, sb as int, *b),
{
    let axis: Vec3 = corridor.axis;
    let over: bool = a.start.lt(b.end) && b.start.lt(a.end);
    let gap: F64 = b.start.minus(a.end).max(a.start.minus(b.end)).max(F64::zero());
    let facing: Vec3 = unit_or_zero(a.entry_normal.plus(b.entry_normal));
    let offset_a: Vec3 = corridor.samples[sa].offset;
    let offset_b: Vec3 = corridor.samples[sb].offset;
    let residual: F64 = separation_residual(offset_b.minus(offset_a), axis, a, b, facing, laws);
    let one_surface: bool = residual.abs().le(laws.event_residual_tolerance.to_double());
    let common: bool = has_common(&a.primitives, &b.primitives);
    let weldable: bool = gap.times(axis.dot(facing).abs().to_double()).le(laws.weld_perp.to_double());
    let pa: Vec3 = position_at(corridor.origin.plus(offset_a), axis, a.start);
    let pb: Vec3 = position_at(corridor.origin.plus(offset_b), axis, b.start);
    let on_plane: bool = laws.event_plane_cos.le(a.entry_normal.dot(b.entry_normal)) && !facing.same(Vec3::zero())
        && pa.minus(pb).dot(facing).abs().le(laws.event_plane_tolerance);
    (common && (over || weldable)) || (on_plane && one_surface)
}

/// Every run of the first `n` samples, as pairs of sample and run.
pub open spec fn nodes_upto(walks: Seq<RayWalk>, n: int) -> Seq<(usize, usize)>
    decreases n,
{
    if n <= 0 {
        Seq::empty()
    } else {
        nodes_upto(walks, n - 1) + Seq::new(walks[n - 1].runs@.len(), |r: int| ((n - 1) as usize, r as usize))
    }
}

/// The links between the disc's runs.
pub open spec fn linked(
    corridor: DiscCorridor,
    laws: WalkLaws,
    walks: Seq<RayWalk>,
    nodes: Seq<(usize, usize)>,
    a: int,
    b: int,
) -> bool {
    let (sa, ra) = nodes[a];
    let (sb, rb) = nodes[b];
    sa != sb && related(
        corridor,
        laws,
        sa as int,
        walks[sa as int].runs@[ra as int],
        sb as int,
        walks[sb as int].runs@[rb as int],
    )
}

/// Runs `x` and `y` are linked; a link is read from the earlier run to the later one.
pub open spec fn adjacent(link: spec_fn(int, int) -> bool, x: int, y: int) -> bool {
    (x < y && link(x, y)) || (y < x && link(y, x))
}

/// Place `i` of the path and the next are linked.
pub open spec fn steps_on(link: spec_fn(int, int) -> bool, path: Seq<int>, i: int) -> bool {
    adjacent(link, path[i], path[i + 1])
}

/// A chain of links.
pub open spec fn is_chain(link: spec_fn(int, int) -> bool, n: int, path: Seq<int>) -> bool {
    &&& path.len() > 0
    &&& forall|i: int| 0 <= i < path.len() ==> 0 <= #[trigger] path[i] < n
    &&& forall|i: int| 0 <= i < path.len() - 1 ==> #[trigger] steps_on(link, path, i)
}

/// The two runs are joined by a chain of links.
pub open spec fn chained(link: spec_fn(int, int) -> bool, n: int, a: int, b: int) -> bool {
    exists|path: Seq<int>| #[trigger] is_chain(link, n, path) && path[0] == a && path.last() == b
}

proof fn lemma_chain_self(link: spec_fn(int, int) -> bool, n: int, a: int)
    requires
        0 <= a < n,
    ensures
        chained(link, n, a, a),
{
    assert(is_chain(link, n, seq![a]));
    assert(seq![a].last() == a);
}

proof fn lemma_chain_link(link: spec_fn(int, int) -> bool, n: int, a: int, b: int)
    requires
        0 <= a < b < n,
        link(a, b),
    ensures
        chained(link, n, a, b),
{
    let path = seq![a, b];
    assert forall|i: int| 0 <= i < path.len() - 1 implies #[trigger] steps_on(link, path, i) by {
        assert(path[0] == a && path[1] == b);
    }
    assert(is_chain(link, n, path));
    assert(path[0] == a && path.last() == b);
}

proof fn lemma_chain_join(link: spec_fn(int, int) -> bool, n: int, a: int, b: int, c: int)
    requires
        chained(link, n, a, b),
        chained(link, n, b, c),
    ensures
        chained(link, n, a, c),
{
    let p = choose|path: Seq<int>| #[trigger] is_chain(link, n, path) && path[0] == a && path.last() == b;
    let q = choose|path: Seq<int>| #[trigger] is_chain(link, n, path) && path[0] == b && path.last() == c;
    let r = p + q.drop_first();
    assert forall|i: int| 0 <= i < r.len() implies 0 <= #[trigger] r[i] < n by {
        if i < p.len() {
            assert(r[i] == p[i]);
        } else {
            assert(r[i] == q[i - p.len() + 1]);
        }
    }
    assert forall|i: int| 0 <= i < r.len() - 1 implies #[trigger] steps_on(link, r, i) by {
        if i + 1 < p.len() {
            assert(r[i] == p[i] && r[i + 1] == p[i + 1]);
            assert(steps_on(link, p, i));
        } else {
            let j = i - p.len() + 1;
            assert(r[i + 1] == q[j + 1]);
            assert(r[i] == q[j]) by {
                if i < p.len() {
                    assert(p.last() == p[i]);
                }
            }
            assert(steps_on(link, q, j));
        }
    }
    assert(r[0] == a);
    assert(r.last() == c) by {
        if q.len() > 1 {
            assert(r.last() == q.last());
        } else {
            assert(q.last() == q[0]);
            assert(r.last() == p.last());
        }
    }
    assert(is_chain(link, n, r));
}

proof fn lemma_chain_back(link: spec_fn(int, int) -> bool, n: int, a: int, b: int)
    requires
        chained(link, n, a, b),
    ensures
        chained(link, n, b, a),
{
    let p = choose|path: Seq<int>| #[trigger] is_chain(link, n, path) && path[0] == a && path.last() == b;
    let r = p.reverse();
    assert forall|i: int| 0 <= i < r.len() implies 0 <= #[trigger] r[i] < n by {
        assert(r[i] == p[p.len() - 1 - i]);
    }
    assert forall|i: int| 0 <= i < r.len() - 1 implies #[trigger] steps_on(link, r, i) by {
        let j = p.len() - 2 - i;
        assert(r[i] == p[j + 1] && r[i + 1] == p[j]);
        assert(steps_on(link, p, j));
    }
    assert(r[0] == b && r.last() == a);
    assert(is_chain(link, n, r));
}

/// The two runs bear one label.
pub open spec fn alike(labels: Seq<usize>, a: int, b: int) -> bool {
    labels[a] == labels[b]
}

/// The run's label names a run no later than itself, which bears that label.
pub open spec fn rooted(labels: Seq<usize>, i: int) -> bool {
    labels[i] <= i && labels[labels[i] as int] == labels[i]
}

/// Runs bear one label exactly where a chain joins them; the label is the first of them.
pub open spec fn labels_chains(link: spec_fn(int, int) -> bool, labels: Seq<usize>) -> bool {
    let n = labels.len() as int;
    &&& forall|i: int| 0 <= i < n ==> #[trigger] rooted(labels, i)
    &&& forall|a: int, b: int| 0 <= a < b < n && #[trigger] link(a, b) ==> alike(labels, a, b)
    &&& forall|a: int, b: int| 0 <= a < n && 0 <= b < n && #[trigger] alike(labels, a, b) ==> chained(link, n, a, b)
}

/// Chained runs bear one label.
pub proof fn lemma_chained_alike(link: spec_fn(int, int) -> bool, labels: Seq<usize>, path: Seq<int>, i: int)
    requires
        labels_chains(link, labels),
        is_chain(link, labels.len() as int, path),
        0 <= i < path.len(),
    ensures
        alike(labels, path[0], path[i]),
    decreases i,
{
    if i > 0 {
        lemma_chained_alike(link, labels, path, i - 1);
        assert(steps_on(link, path, i - 1));
        let (x, y) = (path[i - 1], path[i]);
        assert(0 <= x < labels.len() && 0 <= y < labels.len());
        if x < y {
            assert(link(x, y));
            assert(alike(labels, x, y));
        } else {
            assert(link(y, x));
            assert(alike(labels, y, x));
        }
    }
}

/// Gives one label to all that bear either.
fn merge(labels: &mut Vec<usize>, low: usize, high: usize)
    requires
        low < high,
    ensures
        final(labels)@.len() == old(labels)@.len(),
        forall|i: int|
            0 <= i < old(labels)@.len() ==> #[trigger] final(labels)@[i] == if old(labels)@[i] == high {
                low
            } else {
                old(labels)@[i]
            },
{
    let ghost before = labels@;
    let mut i: usize = 0;
    while i < labels.len()
        invariant
            i <= labels.len(),
            labels@.len() == before.len(),
            forall|j: int|
                0 <= j < i ==> #[trigger] labels@[j] == if before[j] == high {
                    low
                } else {
                    before[j]
                },
            forall|j: int| i <= j < before.len() ==> labels@[j] == before[j],
        decreases labels.len() - i,
    {
        if labels[i] == high {
            labels.set(i, low);
        }
        i = i + 1;
    }
}

proof fn lemma_merge_keeps(
    link: spec_fn(int, int) -> bool,
    before: Seq<usize>,
    after: Seq<usize>,
    a: int,
    b: int,
    low: usize,
    high: usize,
)
    requires
        0 <= a < b < before.len(),
        link(a, b),
        before.len() == after.len(),
        low < high,
        (before[a] == low && before[b] == high) || (before[a] == high && before[b] == low),
        forall|i: int| 0 <= i < before.len() ==> #[trigger] rooted(before, i),
        forall|x: int, y: int|
            0 <= x < before.len() && 0 <= y < before.len() && #[trigger] alike(before, x, y) ==> chained(
                link,
                before.len() as int,
                x,
                y,
            ),
        forall|i: int|
            0 <= i < before.len() ==> #[trigger] after[i] == if before[i] == high {
                low
            } else {
                before[i]
            },
    ensures
        forall|i: int| 0 <= i < after.len() ==> #[trigger] rooted(after, i),
        forall|x: int, y: int| 0 <= x < after.len() && 0 <= y < after.len() && alike(before, x, y) ==> #[trigger] alike(after, x, y),
        forall|x: int, y: int|
            0 <= x < after.len() && 0 <= y < after.len() && #[trigger] alike(after, x, y) ==> chained(
                link,
                after.len() as int,
                x,
                y,
            ),
{
    let n = before.len() as int;
    assert(rooted(before, a) && rooted(before, b));
    assert forall|i: int| 0 <= i < after.len() implies #[trigger] rooted(after, i) by {
        assert(rooted(before, i));
        let l = after[i] as int;
        assert(after[l] == if before[l] == high { low } else { before[l] });
    }
    lemma_chain_link(link, n, a, b);
    lemma_chain_back(link, n, a, b);
    let (l, h) = if before[a] == low { (a, b) } else { (b, a) };
    assert forall|x: int, y: int| 0 <= x < after.len() && 0 <= y < after.len() && #[trigger] alike(after, x, y) implies chained(
        link,
        n,
        x,
        y,
    ) by {
        assert(after[x] == after[y]);
        if before[x] == before[y] {
            assert(alike(before, x, y));
        } else if before[x] == high {
            assert(alike(before, x, h));
            assert(alike(before, l, y));
            lemma_chain_join(link, n, x, h, l);
            lemma_chain_join(link, n, x, l, y);
        } else {
            assert(alike(before, x, l));
            assert(alike(before, h, y));
            lemma_chain_join(link, n, x, l, h);
            lemma_chain_join(link, n, x, h, y);
        }
    }
}

/// The disc's nodes name runs that exist.
pub open spec fn nodes_fit(nodes: Seq<(usize, usize)>, corridor: DiscCorridor, walks: Seq<RayWalk>) -> bool {
    &&& walks.len() == corridor.samples@.len()
    &&& forall|i: int|
        0 <= i < nodes.len() ==> (#[trigger] nodes[i]).0 < walks.len() && nodes[i].1 < walks[nodes[i].0 as int].runs@.len()
}

/// Labels the disc's runs by the crossings they belong to.
pub fn label_runs(
    corridor: &DiscCorridor,
    laws: &WalkLaws,
    walks: &Vec<RayWalk>,
    nodes: &Vec<(usize, usize)>,
) -> (labels: Vec<usize>)
    requires
        nodes_fit(nodes@, *corridor, walks@),
    ensures
        labels@.len() == nodes@.len(),
        labels_chains(|a: int, b: int| linked(*corridor, *laws, walks@, nodes@, a, b), labels@),
{
    let ghost link = |a: int, b: int| linked(*corridor, *laws, walks@, nodes@, a, b);
    let n: usize = nodes.len();
    let mut labels: Vec<usize> = Vec::new();
    let mut i: usize = 0;
    while i < n
        invariant
            i <= n,
            labels@.len() == i,
            forall|j: int| 0 <= j < i ==> #[trigger] labels@[j] == j,
        decreases n - i,
    {
        labels.push(i);
        i = i + 1;
    }
    proof {
        assert forall|x: int, y: int| 0 <= x < n && 0 <= y < n && #[trigger] alike(labels@, x, y) implies chained(
            link,
            n as int,
            x,
            y,
        ) by {
            assert(labels@[x] == x && labels@[y] == y);
            lemma_chain_self(link, n as int, x);
        }
    }
    let mut a: usize = 0;
    while a < n
        invariant
            a <= n,
            n == nodes@.len(),
            nodes_fit(nodes@, *corridor, walks@),
            link == (|a: int, b: int| linked(*corridor, *laws, walks@, nodes@, a, b)),
            labels@.len() == n,
            forall|i: int| 0 <= i < n ==> #[trigger] rooted(labels@, i),
            forall|x: int, y: int| 0 <= x < y < n && x < a && #[trigger] link(x, y) ==> alike(labels@, x, y),
            forall|x: int, y: int|
                0 <= x < n && 0 <= y < n && #[trigger] alike(labels@, x, y) ==> chained(link, n as int, x, y),
        decreases n - a,
    {
        let mut b: usize = a + 1;
        while b < n
            invariant
                a < b <= n,
                n == nodes@.len(),
                nodes_fit(nodes@, *corridor, walks@),
                link == (|a: int, b: int| linked(*corridor, *laws, walks@, nodes@, a, b)),
                labels@.len() == n,
                forall|i: int| 0 <= i < n ==> #[trigger] rooted(labels@, i),
                forall|x: int, y: int|
                    0 <= x < y < n && (x < a || (x == a && y < b)) && #[trigger] link(x, y) ==> alike(labels@, x, y),
                forall|x: int, y: int|
                    0 <= x < n && 0 <= y < n && #[trigger] alike(labels@, x, y) ==> chained(link, n as int, x, y),
            decreases n - b,
        {
            let (sa, ra) = nodes[a];
            let (sb, rb) = nodes[b];
            assert(nodes@[a as int].0 < walks@.len() && nodes@[b as int].0 < walks@.len());
            let mut joined: bool = false;
            if sa != sb {
                joined = is_related(corridor, laws, sa, &walks[sa].runs[ra], sb, &walks[sb].runs[rb]);
            }
            assert(joined == link(a as int, b as int));
            let la: usize = labels[a];
            let lb: usize = labels[b];
            if joined && la != lb {
                let (low, high) = if la < lb { (la, lb) } else { (lb, la) };
                let ghost before = labels@;
                merge(&mut labels, low, high);
                proof {
                    lemma_merge_keeps(link, before, labels@, a as int, b as int, low, high);
                    assert forall|x: int, y: int|
                        0 <= x < y < n && (x < a || (x == a && y < b + 1)) && #[trigger] link(x, y) implies alike(
                        labels@,
                        x,
                        y,
                    ) by {
                        if x == a && y == b {
                            assert(labels@[a as int] == low && labels@[b as int] == low);
                        } else {
                            assert(alike(before, x, y));
                        }
                    }
                }
            }
            b = b + 1;
        }
        a = a + 1;
    }
    labels
}

/// Lists every run of the disc.
pub fn list_nodes(walks: &Vec<RayWalk>, Ghost(corridor): Ghost<DiscCorridor>) -> (nodes: Vec<(usize, usize)>)
    requires
        walks@.len() == corridor.samples@.len(),
    ensures
        nodes@ == nodes_upto(walks@, walks@.len() as int),
        nodes_fit(nodes@, corridor, walks@),
{
    let mut nodes: Vec<(usize, usize)> = Vec::new();
    let mut sample: usize = 0;
    while sample < walks.len()
        invariant
            sample <= walks.len(),
            nodes@ == nodes_upto(walks@, sample as int),
            walks@.len() == corridor.samples@.len(),
            forall|i: int|
                0 <= i < nodes@.len() ==> (#[trigger] nodes@[i]).0 < walks@.len() && nodes@[i].1
                    < walks@[nodes@[i].0 as int].runs@.len(),
        decreases walks.len() - sample,
    {
        let ghost before = nodes@;
        let count: usize = walks[sample].runs.len();
        let mut run: usize = 0;
        while run < count
            invariant
                run <= count,
                sample < walks.len(),
                count == walks@[sample as int].runs@.len(),
                nodes@ == before + Seq::new(run as nat, |r: int| (sample, r as usize)),
                forall|i: int|
                    0 <= i < nodes@.len() ==> (#[trigger] nodes@[i]).0 < walks@.len() && nodes@[i].1
                        < walks@[nodes@[i].0 as int].runs@.len(),
            decreases count - run,
        {
            nodes.push((sample, run));
            assert(nodes@ =~= before + Seq::new((run + 1) as nat, |r: int| (sample, r as usize)));
            run = run + 1;
        }
        assert(nodes@ =~= nodes_upto(walks@, sample + 1));
        sample = sample + 1;
    }
    nodes
}

} // verus!
