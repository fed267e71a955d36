//! A disc is walked in one way: what its samples meet settles its crossings, or the error.

use crate::ballistics::walk::association;
use crate::ballistics::walk::crossings;
use crate::ballistics::walk::determined;
use crate::ballistics::walk::disc::{DiscCorridor, DiscEvent, DiscWalk, SampleCorridor};
use crate::ballistics::walk::disc_walk;
use crate::ballistics::walk::event;
use crate::ballistics::walk::extent;
use crate::ballistics::walk::extent::Touch;
use crate::ballistics::walk::ray;
use crate::ballistics::walk::ray::RayWalk;
use crate::ballistics::walk::vocabulary::{Entity, WalkError, WalkLaws};
use crate::float::F32;
use crate::vector::Vec3;
use vstd::prelude::*;

verus! {

/// Two samples hold the same.
pub open spec fn same_sample(a: SampleCorridor, b: SampleCorridor) -> bool {
    a.offset == b.offset && a.initial_presence@ == b.initial_presence@ && a.hits@ == b.hits@
}

/// Two discs hold the same.
pub open spec fn same_disc(a: DiscCorridor, b: DiscCorridor) -> bool {
    &&& a.anchor == b.anchor
    &&& a.origin == b.origin
    &&& a.axis == b.axis
    &&& a.length == b.length
    &&& a.radius == b.radius
    &&& a.frame == b.frame
    &&& a.samples@.len() == b.samples@.len()
    &&& forall|i: int| 0 <= i < a.samples@.len() ==> same_sample(#[trigger] a.samples@[i], b.samples@[i])
}

/// The samples' walks hold the same.
pub open spec fn same_walks(a: Seq<RayWalk>, b: Seq<RayWalk>) -> bool {
    &&& a.len() == b.len()
    &&& forall|i: int| 0 <= i < a.len() ==> determined::same_walk(#[trigger] a[i], b[i])
}

/// Two crossings lie alike: from the same start to the same end, over as much of the disc.
pub open spec fn same_place(a: DiscEvent, b: DiscEvent) -> bool {
    a.start == b.start && a.end == b.end && a.coverage == b.coverage
}

/// Two disc walks hold the same walks and the same crossings, in the same order.
pub open spec fn same_disc_walk(a: DiscWalk, b: DiscWalk) -> bool {
    &&& same_walks(a.walks@, b.walks@)
    &&& a.events@.len() == b.events@.len()
    &&& forall|i: int| 0 <= i < a.events@.len() ==> same_place(#[trigger] a.events@[i], b.events@[i])
}

spec fn same_touch(a: Touch, b: Touch) -> bool {
    a.sample == b.sample && a.runs@ == b.runs@
}

spec fn same_touches(a: Seq<Touch>, b: Seq<Touch>) -> bool {
    &&& a.len() == b.len()
    &&& forall|i: int| 0 <= i < a.len() ==> same_touch(#[trigger] a[i], b[i])
}

proof fn lemma_same_nodes(a: Seq<RayWalk>, b: Seq<RayWalk>, n: int)
    requires
        same_walks(a, b),
        0 <= n <= a.len(),
    ensures
        association::nodes_upto(a, n) == association::nodes_upto(b, n),
    decreases n,
{
    if n > 0 {
        lemma_same_nodes(a, b, n - 1);
        assert(determined::same_walk(a[n - 1], b[n - 1]));
        assert(Seq::new(a[n - 1].runs@.len(), |r: int| ((n - 1) as usize, r as usize)) =~= Seq::new(
            b[n - 1].runs@.len(),
            |r: int| ((n - 1) as usize, r as usize),
        ));
    }
}

/// A link between runs rests on what the runs hold.
proof fn lemma_same_link(
    c: DiscCorridor,
    d: DiscCorridor,
    laws: WalkLaws,
    a: Seq<RayWalk>,
    b: Seq<RayWalk>,
    x: int,
    y: int,
)
    requires
        same_disc(c, d),
        same_walks(a, b),
        a.len() == c.samples@.len(),
        a.len() <= usize::MAX,
        0 <= x < association::nodes_upto(a, a.len() as int).len(),
        0 <= y < association::nodes_upto(a, a.len() as int).len(),
    ensures
        association::linked(c, laws, a, association::nodes_upto(a, a.len() as int), x, y) == association::linked(
            d,
            laws,
            b,
            association::nodes_upto(a, a.len() as int),
            x,
            y,
        ),
{
    let nodes = association::nodes_upto(a, a.len() as int);
    crossings::lemma_nodes(a, a.len() as int);
    let (p, q) = (nodes[x], nodes[y]);
    assert(p.0 < a.len() && q.0 < a.len());
    assert(determined::same_walk(a[p.0 as int], b[p.0 as int]));
    assert(determined::same_walk(a[q.0 as int], b[q.0 as int]));
    let (r, s) = (a[p.0 as int].runs@[p.1 as int], a[q.0 as int].runs@[q.1 as int]);
    let (t, u) = (b[p.0 as int].runs@[p.1 as int], b[q.0 as int].runs@[q.1 as int]);
    assert(determined::same_run(r, t));
    assert(determined::same_run(s, u));
    assert(same_sample(c.samples@[p.0 as int], d.samples@[p.0 as int]));
    assert(same_sample(c.samples@[q.0 as int], d.samples@[q.0 as int]));
    assert(association::share_primitive(r, s) == association::share_primitive(t, u)) by {
        if association::share_primitive(r, s) {
            let key = choose|key: crate::ballistics::walk::vocabulary::PrimitiveKey| #[trigger]
                r.primitives@.contains(key) && s.primitives@.contains(key);
            assert(t.primitives@.contains(key) && u.primitives@.contains(key));
        }
        if association::share_primitive(t, u) {
            let key = choose|key: crate::ballistics::walk::vocabulary::PrimitiveKey| #[trigger]
                t.primitives@.contains(key) && u.primitives@.contains(key);
            assert(r.primitives@.contains(key) && s.primitives@.contains(key));
        }
    }
}

/// Labels of the same links: none is later than the other's.
proof fn lemma_no_later(
    link: spec_fn(int, int) -> bool,
    other: spec_fn(int, int) -> bool,
    a: Seq<usize>,
    b: Seq<usize>,
    i: int,
)
    requires
        a.len() == b.len(),
        forall|x: int, y: int| 0 <= x < a.len() && 0 <= y < a.len() ==> #[trigger] link(x, y) == other(x, y),
        association::labels_chains(link, a),
        association::labels_chains(other, b),
        0 <= i < a.len(),
    ensures
        b[i] <= a[i],
{
    let n = a.len() as int;
    assert(association::rooted(a, i));
    let r = a[i] as int;
    assert(association::alike(a, i, r));
    let path = choose|path: Seq<int>| #[trigger] association::is_chain(link, n, path) && path[0] == i && path.last() == r;
    assert(association::is_chain(other, n, path)) by {
        assert forall|k: int| 0 <= k < path.len() - 1 implies #[trigger] association::steps_on(other, path, k) by {
            assert(association::steps_on(link, path, k));
            let (x, y) = (path[k], path[k + 1]);
            assert(link(x, y) == other(x, y));
            assert(link(y, x) == other(y, x));
        }
    }
    association::lemma_chained_alike(other, b, path, path.len() - 1);
    assert(association::rooted(b, r));
}

proof fn lemma_same_labels(
    link: spec_fn(int, int) -> bool,
    other: spec_fn(int, int) -> bool,
    a: Seq<usize>,
    b: Seq<usize>,
)
    requires
        a.len() == b.len(),
        forall|x: int, y: int| 0 <= x < a.len() && 0 <= y < a.len() ==> #[trigger] link(x, y) == other(x, y),
        association::labels_chains(link, a),
        association::labels_chains(other, b),
    ensures
        a == b,
{
    assert forall|x: int, y: int| 0 <= x < a.len() && 0 <= y < a.len() implies #[trigger] other(x, y) == link(x, y) by {
        assert(link(x, y) == other(x, y));
    }
    assert forall|i: int| 0 <= i < a.len() implies a[i] == b[i] by {
        lemma_no_later(link, other, a, b, i);
        lemma_no_later(other, link, b, a, i);
    }
    assert(a =~= b);
}

/// The touches so far name samples below a bound.
proof fn lemma_below(touches: Seq<Touch>, n: int, bound: int)
    requires
        0 <= n <= touches.len(),
        forall|t: int| 0 <= t < n ==> (#[trigger] touches[t]).sample < bound,
    ensures
        forall|m: int|
            0 <= m < disc_walk::flattened(touches, n).len() ==> (#[trigger] disc_walk::flattened(touches, n)[m]).0 < bound,
    decreases n,
{
    if n > 0 {
        lemma_below(touches, n - 1, bound);
        let rest = disc_walk::flattened(touches, n - 1);
        let own = touches[n - 1].runs@.map_values(|run: usize| (touches[n - 1].sample, run));
        let all = disc_walk::flattened(touches, n);
        assert(all == rest + own);
        assert(touches[n - 1].sample < bound);
        assert forall|m: int| 0 <= m < all.len() implies (#[trigger] all[m]).0 < bound by {
            if m < rest.len() {
                assert(all[m] == rest[m]);
            } else {
                assert(all[m] == own[m - rest.len()]);
            }
        }
    }
}

/// Samples rise from touch to touch, each with a run.
spec fn is_spread(touches: Seq<Touch>) -> bool {
    &&& forall|i: int, j: int| 0 <= i < j < touches.len() ==> (#[trigger] touches[i]).sample < (#[trigger] touches[j]).sample
    &&& forall|i: int| 0 <= i < touches.len() ==> (#[trigger] touches[i]).runs@.len() > 0
}

/// One list of runs is told sample by sample in one way.
proof fn lemma_same_touches(a: Seq<Touch>, b: Seq<Touch>, m: int, n: int)
    requires
        is_spread(a),
        is_spread(b),
        0 <= m <= a.len(),
        0 <= n <= b.len(),
        disc_walk::flattened(a, m) == disc_walk::flattened(b, n),
    ensures
        m == n,
        forall|i: int| 0 <= i < m ==> same_touch(#[trigger] a[i], b[i]),
    decreases m,
{
    let all = disc_walk::flattened(a, m);
    if m == 0 || n == 0 {
        if m > 0 {
            assert(a[m - 1].runs@.len() > 0);
            let own = a[m - 1].runs@.map_values(|run: usize| (a[m - 1].sample, run));
            assert(all == disc_walk::flattened(a, m - 1) + own);
        }
        if n > 0 {
            assert(b[n - 1].runs@.len() > 0);
            let own = b[n - 1].runs@.map_values(|run: usize| (b[n - 1].sample, run));
            assert(all == disc_walk::flattened(b, n - 1) + own);
        }
    } else {
        let (p, q) = (disc_walk::flattened(a, m - 1), disc_walk::flattened(b, n - 1));
        let x = a[m - 1].runs@.map_values(|run: usize| (a[m - 1].sample, run));
        let y = b[n - 1].runs@.map_values(|run: usize| (b[n - 1].sample, run));
        assert(all == p + x && all == q + y);
        assert(a[m - 1].runs@.len() > 0 && b[n - 1].runs@.len() > 0);
        let last = all.len() - 1;
        assert(all[last] == x[x.len() - 1]);
        assert(all[last] == y[y.len() - 1]);
        let sample = a[m - 1].sample;
        assert(b[n - 1].sample == sample);
        assert forall|t: int| 0 <= t < m - 1 implies (#[trigger] a[t]).sample < sample by {
            assert(a[t].sample < a[m - 1].sample);
        }
        assert forall|t: int| 0 <= t < n - 1 implies (#[trigger] b[t]).sample < sample by {
            assert(b[t].sample < b[n - 1].sample);
        }
        lemma_below(a, m - 1, sample as int);
        lemma_below(b, n - 1, sample as int);
        assert(p.len() == q.len()) by {
            if p.len() < q.len() {
                let k = p.len() as int;
                assert(all[k] == x[0]);
                assert(all[k] == q[k]);
            }
            if q.len() < p.len() {
                let k = q.len() as int;
                assert(all[k] == y[0]);
                assert(all[k] == p[k]);
            }
        }
        assert(p =~= q) by {
            assert forall|i: int| 0 <= i < p.len() implies p[i] == q[i] by {
                assert(all[i] == p[i] && all[i] == q[i]);
            }
        }
        let (mine, theirs) = (a[m - 1].runs@, b[n - 1].runs@);
        assert(mine =~= theirs) by {
            assert forall|i: int| 0 <= i < x.len() implies #[trigger] mine[i] == theirs[i] by {
                assert(all[p.len() + i] == x[i]);
                assert(all[q.len() + i] == y[i]);
            }
        }
        lemma_same_touches(a, b, m - 1, n - 1);
    }
}

proof fn lemma_one_cluster(
    a: Seq<Touch>,
    b: Seq<Touch>,
    nodes: Seq<(usize, usize)>,
    labels: Seq<usize>,
    root: usize,
)
    requires
        disc_walk::is_cluster(a, nodes, labels, root),
        disc_walk::is_cluster(b, nodes, labels, root),
    ensures
        same_touches(a, b),
{
    lemma_same_touches(a, b, a.len() as int, b.len() as int);
}

/// Where a crossing lies, and which way it faces, rests on what its runs hold.
proof fn lemma_same_extent(a: Seq<RayWalk>, b: Seq<RayWalk>, s: Seq<Touch>, t: Seq<Touch>, corridor: DiscCorridor, n: int)
    requires
        same_walks(a, b),
        same_touches(s, t),
        extent::touches_fit(s, corridor, a),
        0 <= n <= s.len(),
    ensures
        extent::start_of(a, s, n) == extent::start_of(b, t, n),
        extent::end_of(a, s, n) == extent::end_of(b, t, n),
        extent::entry_sum(a, s, n) == extent::entry_sum(b, t, n),
    decreases n,
{
    if n > 0 {
        lemma_same_extent(a, b, s, t, corridor, n - 1);
        let touch = s[n - 1];
        assert(same_touch(s[n - 1], t[n - 1]));
        assert(touch.sample < a.len() && touch.runs@.len() > 0);
        assert(s[n - 1].runs@[0] < a[touch.sample as int].runs@.len());
        assert(s[n - 1].runs@[touch.runs@.len() - 1] < a[touch.sample as int].runs@.len());
        assert(determined::same_walk(a[touch.sample as int], b[touch.sample as int]));
        assert(determined::same_run(extent::first_run(a, s[n - 1]), extent::first_run(b, t[n - 1])));
        assert(determined::same_run(extent::last_run(a, s[n - 1]), extent::last_run(b, t[n - 1])));
    }
}

/// The crossing of a label in two walks of one disc.
proof fn lemma_one_crossing(
    x: DiscEvent,
    y: DiscEvent,
    c: DiscCorridor,
    d: DiscCorridor,
    a: Seq<RayWalk>,
    b: Seq<RayWalk>,
    labels: Seq<usize>,
    root: usize,
)
    requires
        same_disc(c, d),
        same_walks(a, b),
        a.len() == c.samples@.len(),
        a.len() <= usize::MAX,
        labels.len() == association::nodes_upto(a, a.len() as int).len(),
        root < labels.len(),
        labels[root as int] == root,
        disc_walk::is_crossing(x, c, a, association::nodes_upto(a, a.len() as int), labels, root),
        disc_walk::is_crossing(y, d, b, association::nodes_upto(a, a.len() as int), labels, root),
    ensures
        same_place(x, y),
{
    reveal(disc_walk::is_crossing);
    let nodes = association::nodes_upto(a, a.len() as int);
    let s = choose|touches: Seq<Touch>| #[trigger]
        disc_walk::is_cluster(touches, nodes, labels, root) && event::is_event(x, c, a, touches);
    let t = choose|touches: Seq<Touch>| #[trigger]
        disc_walk::is_cluster(touches, nodes, labels, root) && event::is_event(y, d, b, touches);
    lemma_one_cluster(s, t, nodes, labels, root);
    crossings::lemma_cluster(s, c, a, labels, root);
    lemma_same_extent(a, b, s, t, c, s.len() as int);
}

/// A crossing that was built is not one that has no entry normal.
proof fn lemma_not_degenerate(
    x: DiscEvent,
    error: WalkError,
    c: DiscCorridor,
    a: Seq<RayWalk>,
    b: Seq<RayWalk>,
    labels: Seq<usize>,
    root: usize,
    k: nat,
)
    requires
        same_walks(a, b),
        a.len() == c.samples@.len(),
        a.len() <= usize::MAX,
        labels.len() == association::nodes_upto(a, a.len() as int).len(),
        root < labels.len(),
        labels[root as int] == root,
        disc_walk::is_crossing(x, c, a, association::nodes_upto(a, a.len() as int), labels, root),
    ensures
        !disc_walk::is_degenerate_crossing(b, association::nodes_upto(a, a.len() as int), labels, root, k, error),
{
    reveal(disc_walk::is_crossing);
    let nodes = association::nodes_upto(a, a.len() as int);
    if disc_walk::is_degenerate_crossing(b, nodes, labels, root, k, error) {
        let s = choose|touches: Seq<Touch>| #[trigger]
            disc_walk::is_cluster(touches, nodes, labels, root) && event::is_event(x, c, a, touches);
        let t = choose|touches: Seq<Touch>|
            {
                &&& #[trigger] disc_walk::is_cluster(touches, nodes, labels, root)
                &&& event::is_degenerate(b, touches)
                &&& error == (WalkError::DegenerateEntryNormal { coverage: extent::share_of(touches.len(), k) })
            };
        lemma_one_cluster(s, t, nodes, labels, root);
        crossings::lemma_cluster(s, c, a, labels, root);
        lemma_same_extent(a, b, s, t, c, s.len() as int);
    }
}

/// Where a crossing stands among the others.
spec fn place_of(event: DiscEvent, rank: int) -> (int, int, int) {
    (event.start.rank(), event.end.rank(), rank)
}

spec fn place_before(a: (int, int, int), b: (int, int, int)) -> bool {
    ||| a.0 < b.0
    ||| a.0 == b.0 && (a.1 < b.1 || (a.1 == b.1 && a.2 < b.2))
}

/// What is known of one walk of a disc: its samples' walks, and the crossings that could be built.
spec fn is_labelled(
    c: DiscCorridor,
    laws: WalkLaws,
    walks: Seq<RayWalk>,
    labels: Seq<usize>,
    ranks: Seq<int>,
    events: Seq<DiscEvent>,
    n: int,
) -> bool {
    let nodes = association::nodes_upto(walks, walks.len() as int);
    &&& walks.len() == c.samples@.len()
    &&& walks.len() <= usize::MAX
    &&& labels.len() == nodes.len()
    &&& association::labels_chains(|a: int, b: int| association::linked(c, laws, walks, nodes, a, b), labels)
    &&& 0 <= n <= disc_walk::roots_of(labels, labels.len() as int).len()
    &&& disc_walk::are_crossings(events, ranks, c, walks, nodes, labels, n)
}

proof fn lemma_shared_labels(
    c: DiscCorridor,
    d: DiscCorridor,
    laws: WalkLaws,
    a: Seq<RayWalk>,
    b: Seq<RayWalk>,
    la: Seq<usize>,
    lb: Seq<usize>,
    ra: Seq<int>,
    rb: Seq<int>,
    ea: Seq<DiscEvent>,
    eb: Seq<DiscEvent>,
    m: int,
    n: int,
)
    requires
        same_disc(c, d),
        same_walks(a, b),
        is_labelled(c, laws, a, la, ra, ea, m),
        is_labelled(d, laws, b, lb, rb, eb, n),
    ensures
        association::nodes_upto(a, a.len() as int) == association::nodes_upto(b, b.len() as int),
        la == lb,
{
    lemma_same_nodes(a, b, a.len() as int);
    let nodes = association::nodes_upto(a, a.len() as int);
    let link = |x: int, y: int| association::linked(c, laws, a, nodes, x, y);
    let other = |x: int, y: int| association::linked(d, laws, b, nodes, x, y);
    assert forall|x: int, y: int| 0 <= x < la.len() && 0 <= y < la.len() implies #[trigger] link(x, y) == other(x, y) by {
        lemma_same_link(c, d, laws, a, b, x, y);
    }
    assert(association::labels_chains(link, la));
    assert(association::labels_chains(other, lb));
    lemma_same_labels(link, other, la, lb);
}

/// The crossing of a rank is built where every rank below some count is.
proof fn lemma_built(
    c: DiscCorridor,
    laws: WalkLaws,
    walks: Seq<RayWalk>,
    labels: Seq<usize>,
    ranks: Seq<int>,
    events: Seq<DiscEvent>,
    n: int,
    r: int,
) -> (e: int)
    requires
        is_labelled(c, laws, walks, labels, ranks, events, n),
        0 <= r < n,
    ensures
        0 <= e < n,
        ranks[e] == r,
        disc_walk::is_crossing(
            events[e],
            c,
            walks,
            association::nodes_upto(walks, walks.len() as int),
            labels,
            disc_walk::roots_of(labels, labels.len() as int)[r],
        ),
{
    assert forall|i: int, j: int| 0 <= i < j < ranks.len() implies #[trigger] ranks[i] != #[trigger] ranks[j] by {
        assert(disc_walk::event_before(events[i], ranks[i], events[j], ranks[j]));
    }
    crossings::lemma_onto(ranks, r);
    let e = choose|e: int| 0 <= e < ranks.len() && ranks[e] == r;
    assert(0 <= ranks[e] < n);
    e
}

/// What stands among one walk's crossings stands among the other's.
proof fn lemma_place_shared(
    c: DiscCorridor,
    d: DiscCorridor,
    laws: WalkLaws,
    a: Seq<RayWalk>,
    b: Seq<RayWalk>,
    labels: Seq<usize>,
    ra: Seq<int>,
    rb: Seq<int>,
    ea: Seq<DiscEvent>,
    eb: Seq<DiscEvent>,
    n: int,
    i: int,
) -> (j: int)
    requires
        same_disc(c, d),
        same_walks(a, b),
        is_labelled(c, laws, a, labels, ra, ea, n),
        is_labelled(d, laws, b, labels, rb, eb, n),
        0 <= i < n,
    ensures
        0 <= j < n,
        ra[i] == rb[j],
        same_place(ea[i], eb[j]),
{
    lemma_same_nodes(a, b, a.len() as int);
    let roots = disc_walk::roots_of(labels, labels.len() as int);
    crossings::lemma_roots(labels, labels.len() as int);
    let r = ra[i];
    assert(0 <= r < n);
    let j = lemma_built(d, laws, b, labels, rb, eb, n, r);
    lemma_one_crossing(ea[i], eb[j], c, d, a, b, labels, roots[r]);
    j
}

proof fn lemma_same_events(
    c: DiscCorridor,
    d: DiscCorridor,
    laws: WalkLaws,
    a: Seq<RayWalk>,
    b: Seq<RayWalk>,
    labels: Seq<usize>,
    ra: Seq<int>,
    rb: Seq<int>,
    ea: Seq<DiscEvent>,
    eb: Seq<DiscEvent>,
    n: int,
)
    requires
        same_disc(c, d),
        same_walks(a, b),
        is_labelled(c, laws, a, labels, ra, ea, n),
        is_labelled(d, laws, b, labels, rb, eb, n),
    ensures
        ea.len() == eb.len(),
        forall|i: int| 0 <= i < ea.len() ==> same_place(#[trigger] ea[i], eb[i]),
{
    let x = Seq::new(n as nat, |i: int| place_of(ea[i], ra[i]));
    let y = Seq::new(n as nat, |i: int| place_of(eb[i], rb[i]));
    let less = |p: (int, int, int), q: (int, int, int)| place_before(p, q);
    assert forall|i: int, j: int| 0 <= i < j < x.len() implies less(#[trigger] x[i], #[trigger] x[j]) by {
        assert(disc_walk::event_before(ea[i], ra[i], ea[j], ra[j]));
    }
    assert forall|i: int, j: int| 0 <= i < j < y.len() implies less(#[trigger] y[i], #[trigger] y[j]) by {
        assert(disc_walk::event_before(eb[i], rb[i], eb[j], rb[j]));
    }
    assert(same_disc(d, c)) by {
        assert forall|i: int| 0 <= i < d.samples@.len() implies same_sample(#[trigger] d.samples@[i], c.samples@[i]) by {
            assert(same_sample(c.samples@[i], d.samples@[i]));
        }
    }
    assert(same_walks(b, a)) by {
        assert forall|i: int| 0 <= i < b.len() implies determined::same_walk(#[trigger] b[i], a[i]) by {
            assert(determined::same_walk(a[i], b[i]));
            lemma_same_walk_back(a[i], b[i]);
        }
    }
    assert forall|p: (int, int, int)| #[trigger] x.contains(p) <==> y.contains(p) by {
        if x.contains(p) {
            let i = choose|i: int| 0 <= i < x.len() && x[i] == p;
            let j = lemma_place_shared(c, d, laws, a, b, labels, ra, rb, ea, eb, n, i);
            assert(y[j] == p);
        }
        if y.contains(p) {
            let i = choose|i: int| 0 <= i < y.len() && y[i] == p;
            let j = lemma_place_shared(d, c, laws, b, a, labels, rb, ra, eb, ea, n, i);
            assert(x[j] == p);
        }
    }
    determined::lemma_one_list(x, y, less);
    assert forall|i: int| 0 <= i < ea.len() implies same_place(#[trigger] ea[i], eb[i]) by {
        assert(x[i] == y[i]);
        assert(ra[i] == rb[i]);
        let j = lemma_place_shared(c, d, laws, a, b, labels, ra, rb, ea, eb, n, i);
        if j < i {
            assert(disc_walk::event_before(eb[j], rb[j], eb[i], rb[i]));
            assert(rb[j] != rb[i]);
        } else if i < j {
            assert(disc_walk::event_before(eb[i], rb[i], eb[j], rb[j]));
            assert(rb[i] != rb[j]);
        }
    }
}

proof fn lemma_same_walk_back(a: RayWalk, b: RayWalk)
    requires
        determined::same_walk(a, b),
    ensures
        determined::same_walk(b, a),
{
    assert forall|i: int| 0 <= i < b.runs@.len() implies determined::same_run(#[trigger] b.runs@[i], a.runs@[i]) by {
        assert(determined::same_run(a.runs@[i], b.runs@[i]));
    }
    assert forall|i: int| 0 <= i < b.presence@.len() implies determined::same_presence(
        #[trigger] b.presence@[i],
        a.presence@[i],
    ) by {
        assert(determined::same_presence(a.presence@[i], b.presence@[i]));
    }
    assert forall|i: int| 0 <= i < b.shells@.len() implies (#[trigger] b.shells@[i]).key == a.shells@[i].key
        && b.shells@[i].spans@ == a.shells@[i].spans@ by {
        assert(a.shells@[i].key == b.shells@[i].key);
    }
}

/// A sample's ray in two discs that hold the same.
proof fn lemma_same_sample_ray(c: DiscCorridor, d: DiscCorridor, laws: WalkLaws, factors: Map<Entity, F32>, i: int)
    requires
        same_disc(c, d),
        0 <= i < c.samples@.len(),
    ensures
        ({
            let (x, y) = (disc_walk::sample_corridor(c, i), disc_walk::sample_corridor(d, i));
            &&& x.origin == y.origin && x.axis == y.axis && x.length == y.length
            &&& x.hits@ == y.hits@ && x.initial_presence@ == y.initial_presence@
            &&& ray::crossings_of(x, laws) == ray::crossings_of(y, laws)
            &&& ray::has_form(x) == ray::has_form(y)
        }),
        disc_walk::walkable(c, laws, factors, i) == disc_walk::walkable(d, laws, factors, i),
{
    assert(same_sample(c.samples@[i], d.samples@[i]));
}

proof fn lemma_same_walks(
    c: DiscCorridor,
    d: DiscCorridor,
    laws: WalkLaws,
    rows: Seq<(Entity, F32)>,
    factors: Map<Entity, F32>,
    a: Seq<RayWalk>,
    b: Seq<RayWalk>,
)
    requires
        same_disc(c, d),
        a.len() == c.samples@.len(),
        b.len() == d.samples@.len(),
        forall|i: int| 0 <= i < c.samples@.len() ==> #[trigger] disc_walk::walkable(c, laws, factors, i),
        forall|i: int|
            0 <= i < a.len() ==> ray::is_walk(#[trigger] a[i], disc_walk::sample_corridor(c, i), laws, rows, factors),
        forall|i: int|
            0 <= i < b.len() ==> ray::is_walk(#[trigger] b[i], disc_walk::sample_corridor(d, i), laws, rows, factors),
    ensures
        same_walks(a, b),
{
    assert forall|i: int| 0 <= i < a.len() implies determined::same_walk(#[trigger] a[i], b[i]) by {
        let (x, y) = (disc_walk::sample_corridor(c, i), disc_walk::sample_corridor(d, i));
        lemma_same_sample_ray(c, d, laws, factors, i);
        assert(disc_walk::walkable(c, laws, factors, i));
        assert(ray::is_walk(b[i], y, laws, rows, factors));
        determined::law_hits_in_any_order(Ok(a[i]), Ok(b[i]), 0, x, y, laws, rows, factors);
    }
}

/// What the walk of a disc gives.
pub open spec fn is_disc_outcome(
    result: Result<DiscWalk, WalkError>,
    corridor: DiscCorridor,
    laws: WalkLaws,
    rows: Seq<(Entity, F32)>,
    factors: Map<Entity, F32>,
) -> bool {
    match result {
        Ok(walk) => disc_walk::is_disc_walk(walk, corridor, laws, rows, factors),
        Err(error) => disc_walk::disc_error(corridor, laws, rows, factors, error),
    }
}

/// Two results are one: disc walks that hold the same, or the same error.
pub open spec fn same_disc_outcome(a: Result<DiscWalk, WalkError>, b: Result<DiscWalk, WalkError>) -> bool {
    match (a, b) {
        (Ok(x), Ok(y)) => same_disc_walk(x, y),
        (Err(x), Err(y)) => determined::same_error(x, y),
        _ => false,
    }
}

/// The labels, ranks and crossings of a disc walk.
proof fn lemma_unfold(
    walk: DiscWalk,
    corridor: DiscCorridor,
    laws: WalkLaws,
    rows: Seq<(Entity, F32)>,
    factors: Map<Entity, F32>,
) -> (told: (Seq<usize>, Seq<int>))
    requires
        disc_walk::is_disc_walk(walk, corridor, laws, rows, factors),
    ensures
        is_labelled(
            corridor,
            laws,
            walk.walks@,
            told.0,
            told.1,
            walk.events@,
            disc_walk::roots_of(told.0, told.0.len() as int).len() as int,
        ),
{
    let walks = walk.walks@;
    assert(walk.walks.len() == walks.len());
    let nodes = association::nodes_upto(walks, walks.len() as int);
    choose|labels: Seq<usize>, ranks: Seq<int>|
        {
            &&& labels.len() == nodes.len()
            &&& association::labels_chains(
                |a: int, b: int| association::linked(corridor, laws, walks, nodes, a, b),
                labels,
            )
            &&& #[trigger] disc_walk::are_crossings(
                walk.events@,
                ranks,
                corridor,
                walks,
                nodes,
                labels,
                disc_walk::roots_of(labels, labels.len() as int).len() as int,
            )
        }
}

/// A disc that was walked has no crossing without an entry normal.
proof fn lemma_walked_or_degenerate(
    walk: DiscWalk,
    error: WalkError,
    c: DiscCorridor,
    d: DiscCorridor,
    laws: WalkLaws,
    rows: Seq<(Entity, F32)>,
    factors: Map<Entity, F32>,
)
    requires
        same_disc(c, d),
        disc_walk::is_disc_walk(walk, c, laws, rows, factors),
    ensures
        !disc_walk::disc_degenerates(d, laws, rows, factors, error),
{
    if disc_walk::disc_degenerates(d, laws, rows, factors, error) {
        let a = walk.walks@;
        let (la, ra) = lemma_unfold(walk, c, laws, rows, factors);
        let (b, lb, rb, eb, i) = choose|
            walks: Seq<RayWalk>,
            labels: Seq<usize>,
            ranks: Seq<int>,
            events: Seq<DiscEvent>,
            i: int,
        | #[trigger]
            disc_walk::degenerates_at(d, laws, rows, factors, walks, labels, ranks, events, i, error);
        assert forall|j: int| 0 <= j < c.samples@.len() implies #[trigger] disc_walk::walkable(c, laws, factors, j) by {
            assert(ray::is_walk(a[j], disc_walk::sample_corridor(c, j), laws, rows, factors));
        }
        lemma_same_walks(c, d, laws, rows, factors, a, b);
        let m = disc_walk::roots_of(la, la.len() as int).len() as int;
        lemma_shared_labels(c, d, laws, a, b, la, lb, ra, rb, walk.events@, eb, m, i);
        crossings::lemma_roots(la, la.len() as int);
        let root = disc_walk::roots_of(la, la.len() as int)[i];
        let e = lemma_built(c, laws, a, la, ra, walk.events@, m, i);
        lemma_not_degenerate(walk.events@[e], error, c, a, b, la, root, d.samples@.len());
    }
}

/// Of two discs that hold the same, the first crossing without an entry normal is one.
proof fn lemma_one_degenerate(
    x: WalkError,
    y: WalkError,
    c: DiscCorridor,
    d: DiscCorridor,
    laws: WalkLaws,
    rows: Seq<(Entity, F32)>,
    factors: Map<Entity, F32>,
)
    requires
        same_disc(c, d),
        c.samples@.len() <= usize::MAX,
        disc_walk::disc_degenerates(c, laws, rows, factors, x),
        disc_walk::disc_degenerates(d, laws, rows, factors, y),
    ensures
        x == y,
{
    let (a, la, ra, ea, i) = choose|
        walks: Seq<RayWalk>,
        labels: Seq<usize>,
        ranks: Seq<int>,
        events: Seq<DiscEvent>,
        i: int,
    | #[trigger]
        disc_walk::degenerates_at(c, laws, rows, factors, walks, labels, ranks, events, i, x);
    let (b, lb, rb, eb, j) = choose|
        walks: Seq<RayWalk>,
        labels: Seq<usize>,
        ranks: Seq<int>,
        events: Seq<DiscEvent>,
        i: int,
    | #[trigger]
        disc_walk::degenerates_at(d, laws, rows, factors, walks, labels, ranks, events, i, y);
    lemma_same_walks(c, d, laws, rows, factors, a, b);
    lemma_shared_labels(c, d, laws, a, b, la, lb, ra, rb, ea, eb, i, j);
    crossings::lemma_roots(la, la.len() as int);
    let roots = disc_walk::roots_of(la, la.len() as int);
    let nodes = association::nodes_upto(a, a.len() as int);
    if i < j {
        let e = lemma_built(d, laws, b, lb, rb, eb, j, i);
        lemma_walks_back(a, b);
        lemma_not_degenerate(eb[e], x, d, b, a, lb, roots[i], c.samples@.len());
    } else if j < i {
        let e = lemma_built(c, laws, a, la, ra, ea, i, j);
        lemma_not_degenerate(ea[e], y, c, a, b, la, roots[j], d.samples@.len());
    } else {
        let k = c.samples@.len();
        let s = choose|touches: Seq<Touch>|
            {
                &&& #[trigger] disc_walk::is_cluster(touches, nodes, la, roots[i])
                &&& event::is_degenerate(a, touches)
                &&& x == (WalkError::DegenerateEntryNormal { coverage: extent::share_of(touches.len(), k) })
            };
        let t = choose|touches: Seq<Touch>|
            {
                &&& #[trigger] disc_walk::is_cluster(touches, nodes, la, roots[i])
                &&& event::is_degenerate(b, touches)
                &&& y == (WalkError::DegenerateEntryNormal { coverage: extent::share_of(touches.len(), k) })
            };
        lemma_one_cluster(s, t, nodes, la, roots[i]);
    }
}

proof fn lemma_walks_back(a: Seq<RayWalk>, b: Seq<RayWalk>)
    requires
        same_walks(a, b),
    ensures
        same_walks(b, a),
{
    assert forall|i: int| 0 <= i < b.len() implies determined::same_walk(#[trigger] b[i], a[i]) by {
        assert(determined::same_walk(a[i], b[i]));
        lemma_same_walk_back(a[i], b[i]);
    }
}

/// The error of the first sample that cannot be walked.
spec fn sample_fails(
    corridor: DiscCorridor,
    laws: WalkLaws,
    factors: Map<Entity, F32>,
    error: WalkError,
    i: int,
) -> bool {
    &&& 0 <= i < corridor.samples@.len()
    &&& !disc_walk::walkable(corridor, laws, factors, i)
    &&& disc_walk::sample_error(corridor, laws, factors, i, error)
    &&& forall|j: int| 0 <= j < i ==> #[trigger] disc_walk::walkable(corridor, laws, factors, j)
}

proof fn lemma_one_sample_error(
    x: WalkError,
    y: WalkError,
    c: DiscCorridor,
    d: DiscCorridor,
    laws: WalkLaws,
    rows: Seq<(Entity, F32)>,
    factors: Map<Entity, F32>,
    i: int,
    j: int,
)
    requires
        same_disc(c, d),
        sample_fails(c, laws, factors, x, i),
        sample_fails(d, laws, factors, y, j),
    ensures
        determined::same_error(x, y),
{
    if i < j {
        lemma_same_sample_ray(c, d, laws, factors, i);
        assert(disc_walk::walkable(d, laws, factors, i));
    }
    if j < i {
        lemma_same_sample_ray(c, d, laws, factors, j);
        assert(disc_walk::walkable(c, laws, factors, j));
    }
    lemma_same_sample_ray(c, d, laws, factors, i);
    let (p, q) = (disc_walk::sample_corridor(c, i), disc_walk::sample_corridor(d, i));
    determined::law_hits_in_any_order(Err(x), Err(y), i as usize, p, q, laws, rows, factors);
}

/// A disc is walked in one way: walks of two discs that hold the same have the same walks and
/// the same crossings, or end in the same error.
pub proof fn law_one_disc_outcome(
    a: Result<DiscWalk, WalkError>,
    b: Result<DiscWalk, WalkError>,
    c: DiscCorridor,
    d: DiscCorridor,
    laws: WalkLaws,
    rows: Seq<(Entity, F32)>,
    factors: Map<Entity, F32>,
)
    requires
        same_disc(c, d),
        c.samples@.len() > 0,
        c.samples@[0].offset.equals(Vec3::zero()),
        is_disc_outcome(a, c, laws, rows, factors),
        is_disc_outcome(b, d, laws, rows, factors),
    ensures
        same_disc_outcome(a, b),
{
    assert(c.samples.len() == c.samples@.len());
    assert(same_sample(c.samples@[0], d.samples@[0]));
    assert(same_disc(d, c)) by {
        assert forall|i: int| 0 <= i < d.samples@.len() implies same_sample(#[trigger] d.samples@[i], c.samples@[i]) by {
            assert(same_sample(c.samples@[i], d.samples@[i]));
        }
    }
    match (a, b) {
        (Ok(x), Ok(y)) => {
            lemma_one_disc_walk(x, y, c, d, laws, rows, factors);
        },
        (Ok(x), Err(y)) => {
            lemma_walked_or_degenerate(x, y, c, d, laws, rows, factors);
            lemma_walked_or_failed(x, y, c, d, laws, rows, factors);
        },
        (Err(x), Ok(y)) => {
            lemma_walked_or_degenerate(y, x, d, c, laws, rows, factors);
            lemma_walked_or_failed(y, x, d, c, laws, rows, factors);
        },
        (Err(x), Err(y)) => {
            if disc_walk::disc_degenerates(c, laws, rows, factors, x) {
                if disc_walk::disc_degenerates(d, laws, rows, factors, y) {
                    lemma_one_degenerate(x, y, c, d, laws, rows, factors);
                } else {
                    let j = choose|j: int| sample_fails(d, laws, factors, y, j);
                    lemma_fails_somewhere(d, laws, rows, factors, y);
                    lemma_same_sample_ray(c, d, laws, factors, j);
                    assert(disc_walk::walkable(c, laws, factors, j));
                }
            } else {
                lemma_fails_somewhere(c, laws, rows, factors, x);
                let i = choose|i: int| sample_fails(c, laws, factors, x, i);
                if disc_walk::disc_degenerates(d, laws, rows, factors, y) {
                    lemma_same_sample_ray(c, d, laws, factors, i);
                    assert(disc_walk::walkable(d, laws, factors, i));
                } else {
                    lemma_fails_somewhere(d, laws, rows, factors, y);
                    let j = choose|j: int| sample_fails(d, laws, factors, y, j);
                    lemma_one_sample_error(x, y, c, d, laws, rows, factors, i, j);
                }
            }
        },
    }
}

proof fn lemma_fails_somewhere(
    c: DiscCorridor,
    laws: WalkLaws,
    rows: Seq<(Entity, F32)>,
    factors: Map<Entity, F32>,
    error: WalkError,
)
    requires
        c.samples@.len() > 0,
        c.samples@[0].offset.equals(Vec3::zero()),
        disc_walk::disc_error(c, laws, rows, factors, error),
        !disc_walk::disc_degenerates(c, laws, rows, factors, error),
    ensures
        exists|i: int| sample_fails(c, laws, factors, error, i),
{
    let i = choose|i: int|
        {
            &&& 0 <= i < c.samples@.len()
            &&& !#[trigger] disc_walk::walkable(c, laws, factors, i)
            &&& disc_walk::sample_error(c, laws, factors, i, error)
            &&& forall|j: int| 0 <= j < i ==> #[trigger] disc_walk::walkable(c, laws, factors, j)
        };
    assert(sample_fails(c, laws, factors, error, i));
}

/// A disc that was walked has no sample that cannot be.
proof fn lemma_walked_or_failed(
    walk: DiscWalk,
    error: WalkError,
    c: DiscCorridor,
    d: DiscCorridor,
    laws: WalkLaws,
    rows: Seq<(Entity, F32)>,
    factors: Map<Entity, F32>,
)
    requires
        same_disc(c, d),
        disc_walk::is_disc_walk(walk, c, laws, rows, factors),
    ensures
        forall|i: int| !#[trigger] sample_fails(d, laws, factors, error, i),
        forall|i: int| 0 <= i < d.samples@.len() ==> #[trigger] disc_walk::walkable(d, laws, factors, i),
{
    assert forall|i: int| 0 <= i < d.samples@.len() implies #[trigger] disc_walk::walkable(d, laws, factors, i) by {
        assert(ray::is_walk(walk.walks@[i], disc_walk::sample_corridor(c, i), laws, rows, factors));
        lemma_same_sample_ray(c, d, laws, factors, i);
    }
}

proof fn lemma_one_disc_walk(
    x: DiscWalk,
    y: DiscWalk,
    c: DiscCorridor,
    d: DiscCorridor,
    laws: WalkLaws,
    rows: Seq<(Entity, F32)>,
    factors: Map<Entity, F32>,
)
    requires
        same_disc(c, d),
        disc_walk::is_disc_walk(x, c, laws, rows, factors),
        disc_walk::is_disc_walk(y, d, laws, rows, factors),
    ensures
        same_disc_walk(x, y),
{
    let (a, b) = (x.walks@, y.walks@);
    assert forall|j: int| 0 <= j < c.samples@.len() implies #[trigger] disc_walk::walkable(c, laws, factors, j) by {
        assert(ray::is_walk(a[j], disc_walk::sample_corridor(c, j), laws, rows, factors));
    }
    lemma_same_walks(c, d, laws, rows, factors, a, b);
    let (la, ra) = lemma_unfold(x, c, laws, rows, factors);
    let (lb, rb) = lemma_unfold(y, d, laws, rows, factors);
    let m = disc_walk::roots_of(la, la.len() as int).len() as int;
    let n = disc_walk::roots_of(lb, lb.len() as int).len() as int;
    lemma_shared_labels(c, d, laws, a, b, la, lb, ra, rb, x.events@, y.events@, m, n);
    lemma_same_events(c, d, laws, a, b, la, ra, rb, x.events@, y.events@, m);
}

} // verus!
