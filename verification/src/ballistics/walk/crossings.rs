//! The crossings of a disc share out its rays' runs: each run belongs to one of them.

use crate::ballistics::walk::association;
use crate::ballistics::walk::disc::{DiscCorridor, DiscEvent, DiscWalk};
use crate::ballistics::walk::disc_walk;
use crate::ballistics::walk::event;
use crate::ballistics::walk::extent;
use crate::ballistics::walk::extent::Touch;
use crate::ballistics::walk::ray::RayWalk;
use crate::ballistics::walk::vocabulary::{Entity, WalkLaws};
use crate::float::F32;
use vstd::prelude::*;

verus! {

/// The run of the sample is one of the crossing's.
pub open spec fn has_run(touches: Seq<Touch>, sample: int, run: int) -> bool {
    exists|t: int, k: int| #[trigger] is_touched(touches, sample, run, t, k)
}

/// The crossing names the run, at place `k` of touch `t`.
pub open spec fn is_touched(touches: Seq<Touch>, sample: int, run: int, t: int, k: int) -> bool {
    &&& 0 <= t < touches.len()
    &&& touches[t].sample == sample
    &&& 0 <= k < touches[t].runs@.len()
    &&& touches[t].runs@[k] == run
}

/// The runs of each touch rise.
pub open spec fn runs_rise(touches: Seq<Touch>) -> bool {
    forall|t: int, i: int, j: int|
        0 <= t < touches.len() && 0 <= i < j < touches[t].runs@.len() ==> (#[trigger] touches[t].runs@[i]) < (
        #[trigger] touches[t].runs@[j])
}

/// The samples of the touches rise.
pub open spec fn samples_rise(touches: Seq<Touch>) -> bool {
    forall|i: int, j: int| 0 <= i < j < touches.len() ==> (#[trigger] touches[i]).sample < (#[trigger] touches[j]).sample
}

/// `groups` says which runs make up each of the crossings: every run of every sample
/// belongs to one crossing and to no other, and the crossings stand in the order in
/// which they start, then in that in which they end.
pub open spec fn shares_out(walk: DiscWalk, corridor: DiscCorridor, groups: Seq<Seq<Touch>>) -> bool {
    let (walks, events) = (walk.walks@, walk.events@);
    &&& groups.len() == events.len()
    &&& forall|i: int|
        0 <= i < events.len() ==> (#[trigger] groups[i]).len() > 0 && extent::touches_fit(groups[i], corridor, walks)
            && runs_rise(groups[i]) && samples_rise(groups[i]) && event::is_event(events[i], corridor, walks, groups[i])
    &&& forall|s: int, r: int|
        0 <= s < walks.len() && 0 <= r < walks[s].runs@.len() ==> #[trigger] is_shared(groups, s, r)
    &&& forall|i: int, j: int, s: int, r: int|
        0 <= i < j < groups.len() && #[trigger] has_run(groups[i], s, r) ==> !#[trigger] has_run(groups[j], s, r)
    &&& forall|i: int, j: int|
        0 <= i < j < events.len() ==> stands_before(#[trigger] events[i], #[trigger] events[j])
}

/// The one crossing starts earlier, or starts where the other does and ends no later.
pub open spec fn stands_before(a: DiscEvent, b: DiscEvent) -> bool {
    a.start.rank() < b.start.rank() || (a.start.rank() == b.start.rank() && a.end.rank() <= b.end.rank())
}

/// Some crossing has the run.
pub open spec fn is_shared(groups: Seq<Seq<Touch>>, sample: int, run: int) -> bool {
    exists|i: int| 0 <= i < groups.len() && #[trigger] has_run(groups[i], sample, run)
}

/// Nodes by sample, then by run.
pub open spec fn node_less(a: (usize, usize), b: (usize, usize)) -> bool {
    a.0 < b.0 || (a.0 == b.0 && a.1 < b.1)
}

pub open spec fn nodes_rise(nodes: Seq<(usize, usize)>) -> bool {
    forall|i: int, j: int| 0 <= i < j < nodes.len() ==> node_less(#[trigger] nodes[i], #[trigger] nodes[j])
}

/// The nodes are the runs, each once, in order.
pub(crate) proof fn lemma_nodes(walks: Seq<RayWalk>, n: int)
    requires
        0 <= n <= walks.len() <= usize::MAX,
    ensures
        nodes_rise(association::nodes_upto(walks, n)),
        forall|i: int|
            0 <= i < association::nodes_upto(walks, n).len() ==> (#[trigger] association::nodes_upto(walks, n)[i]).0 < n
                && association::nodes_upto(walks, n)[i].1 < walks[association::nodes_upto(walks, n)[i].0 as int].runs@.len(),
        forall|s: int, r: int|
            0 <= s < n && 0 <= r < (#[trigger] walks[s]).runs@.len() ==> association::nodes_upto(walks, n).contains(
                (s as usize, #[trigger] (r as usize)),
            ),
    decreases n,
{
    if n > 0 {
        lemma_nodes(walks, n - 1);
        let rest = association::nodes_upto(walks, n - 1);
        assert(walks[n - 1].runs.len() == walks[n - 1].runs@.len());
        let own = Seq::new(walks[n - 1].runs@.len(), |r: int| ((n - 1) as usize, r as usize));
        let all = association::nodes_upto(walks, n);
        assert(all == rest + own);
        assert forall|i: int| 0 <= i < all.len() implies (#[trigger] all[i]).0 < n && all[i].1
            < walks[all[i].0 as int].runs@.len() by {
            if i < rest.len() {
                assert(all[i] == rest[i]);
            } else {
                assert(all[i] == own[i - rest.len()]);
            }
        }
        assert forall|i: int, j: int| 0 <= i < j < all.len() implies node_less(#[trigger] all[i], #[trigger] all[j]) by {
            if j < rest.len() {
                assert(all[i] == rest[i] && all[j] == rest[j]);
            } else {
                assert(all[j] == own[j - rest.len()]);
                if i < rest.len() {
                    assert(all[i] == rest[i]);
                } else {
                    assert(all[i] == own[i - rest.len()]);
                }
            }
        }
        assert forall|s: int, r: int| 0 <= s < n && 0 <= r < (#[trigger] walks[s]).runs@.len() implies all.contains(
            (s as usize, #[trigger] (r as usize)),
        ) by {
            if s < n - 1 {
                assert(rest.contains((s as usize, r as usize)));
                let i = choose|i: int| 0 <= i < rest.len() && rest[i] == (s as usize, r as usize);
                assert(all[i] == rest[i]);
            } else {
                assert(own[r] == (s as usize, r as usize));
                assert(all[rest.len() + r] == own[r]);
            }
        }
    }
}

/// One of the first `n` nodes bears the label, and is this one.
spec fn bears(nodes: Seq<(usize, usize)>, labels: Seq<usize>, root: usize, n: int, node: (usize, usize)) -> bool {
    exists|i: int| 0 <= i < n && nodes[i] == node && #[trigger] labels[i] == root
}

/// One of the first `n` touches names the run.
spec fn names(touches: Seq<Touch>, n: int, node: (usize, usize)) -> bool {
    exists|t: int, k: int| t < n && #[trigger] is_touched(touches, node.0 as int, node.1 as int, t, k)
}

/// The bearers of a label, in the order of the nodes.
proof fn lemma_members(nodes: Seq<(usize, usize)>, labels: Seq<usize>, root: usize, n: int)
    requires
        0 <= n <= nodes.len(),
        nodes.len() == labels.len(),
        nodes_rise(nodes),
    ensures
        nodes_rise(disc_walk::members_of(nodes, labels, root, n)),
        forall|k: int|
            0 <= k < disc_walk::members_of(nodes, labels, root, n).len() ==> bears(
                nodes,
                labels,
                root,
                n,
                #[trigger] disc_walk::members_of(nodes, labels, root, n)[k],
            ),
        forall|i: int|
            0 <= i < n && #[trigger] labels[i] == root ==> disc_walk::members_of(nodes, labels, root, n).contains(nodes[i]),
    decreases n,
{
    if n > 0 {
        lemma_members(nodes, labels, root, n - 1);
        let rest = disc_walk::members_of(nodes, labels, root, n - 1);
        let all = disc_walk::members_of(nodes, labels, root, n);
        assert forall|k: int| 0 <= k < all.len() implies bears(nodes, labels, root, n, #[trigger] all[k]) by {
            if k < rest.len() {
                assert(all[k] == rest[k]);
                assert(bears(nodes, labels, root, n - 1, rest[k]));
                let i = choose|i: int| 0 <= i < n - 1 && nodes[i] == rest[k] && #[trigger] labels[i] == root;
                assert(nodes[i] == all[k] && labels[i] == root);
            } else {
                assert(nodes[n - 1] == all[k] && labels[n - 1] == root);
            }
        }
        assert forall|k: int, l: int| 0 <= k < l < all.len() implies node_less(#[trigger] all[k], #[trigger] all[l]) by {
            assert(all[k] == rest[k]);
            if l < rest.len() {
                assert(all[l] == rest[l]);
            } else {
                assert(bears(nodes, labels, root, n - 1, rest[k]));
                let i = choose|i: int| 0 <= i < n - 1 && nodes[i] == rest[k] && #[trigger] labels[i] == root;
                assert(node_less(nodes[i], nodes[n - 1]));
            }
        }
        assert forall|i: int| 0 <= i < n && #[trigger] labels[i] == root implies all.contains(nodes[i]) by {
            if i < n - 1 {
                assert(rest.contains(nodes[i]));
                let k = choose|k: int| 0 <= k < rest.len() && rest[k] == nodes[i];
                assert(all[k] == nodes[i]);
            } else {
                assert(all[rest.len() as int] == nodes[i]);
            }
        }
    }
}

/// The listing of a crossing's runs holds what the crossing has.
proof fn lemma_flattened(touches: Seq<Touch>, n: int)
    requires
        0 <= n <= touches.len(),
        nodes_rise(disc_walk::flattened(touches, n)),
    ensures
        forall|t: int, i: int, j: int|
            0 <= t < n && 0 <= i < j < touches[t].runs@.len() ==> (#[trigger] touches[t].runs@[i]) < (
            #[trigger] touches[t].runs@[j]),
        forall|t: int, k: int|
            0 <= t < n && 0 <= k < touches[t].runs@.len() ==> disc_walk::flattened(touches, n).contains(
                (touches[t].sample, #[trigger] touches[t].runs@[k]),
            ),
        forall|m: int|
            0 <= m < disc_walk::flattened(touches, n).len() ==> names(
                touches,
                n,
                #[trigger] disc_walk::flattened(touches, n)[m],
            ),
    decreases n,
{
    if n > 0 {
        let rest = disc_walk::flattened(touches, n - 1);
        let touch = touches[n - 1];
        let own = touch.runs@.map_values(|run: usize| (touches[n - 1].sample, run));
        let all = disc_walk::flattened(touches, n);
        assert(all == rest + own);
        assert(nodes_rise(rest)) by {
            assert forall|i: int, j: int| 0 <= i < j < rest.len() implies node_less(#[trigger] rest[i], #[trigger] rest[j]) by {
                assert(all[i] == rest[i] && all[j] == rest[j]);
            }
        }
        lemma_flattened(touches, n - 1);
        assert forall|t: int, i: int, j: int| 0 <= t < n && 0 <= i < j < touches[t].runs@.len() implies (
        #[trigger] touches[t].runs@[i]) < (#[trigger] touches[t].runs@[j]) by {
            if t == n - 1 {
                assert(all[rest.len() + i] == own[i]);
                assert(all[rest.len() + j] == own[j]);
                assert(node_less(all[rest.len() + i], all[rest.len() + j]));
            }
        }
        assert forall|t: int, k: int| 0 <= t < n && 0 <= k < touches[t].runs@.len() implies all.contains(
            (touches[t].sample, #[trigger] touches[t].runs@[k]),
        ) by {
            let node = (touches[t].sample, touches[t].runs@[k]);
            if t < n - 1 {
                assert(rest.contains(node));
                let m = choose|m: int| 0 <= m < rest.len() && rest[m] == node;
                assert(all[m] == node);
            } else {
                assert(all[rest.len() + k] == own[k]);
            }
        }
        assert forall|m: int| 0 <= m < all.len() implies names(touches, n, #[trigger] all[m]) by {
            let node = all[m];
            if m < rest.len() {
                assert(rest[m] == node);
                assert(names(touches, n - 1, node));
                let (t, k) = choose|t: int, k: int|
                    t < n - 1 && #[trigger] is_touched(touches, node.0 as int, node.1 as int, t, k);
                assert(is_touched(touches, node.0 as int, node.1 as int, t, k));
            } else {
                assert(all[m] == own[m - rest.len()]);
                assert(is_touched(touches, node.0 as int, node.1 as int, n - 1, m - rest.len()));
            }
        }
    }
}

/// The crossing of a label has the runs that bear it.
pub(crate) proof fn lemma_cluster(
    touches: Seq<Touch>,
    corridor: DiscCorridor,
    walks: Seq<RayWalk>,
    labels: Seq<usize>,
    root: usize,
)
    requires
        walks.len() == corridor.samples@.len(),
        walks.len() <= usize::MAX,
        labels.len() == association::nodes_upto(walks, walks.len() as int).len(),
        disc_walk::is_cluster(touches, association::nodes_upto(walks, walks.len() as int), labels, root),
        root < labels.len(),
        labels[root as int] == root,
    ensures
        touches.len() > 0,
        extent::touches_fit(touches, corridor, walks),
        runs_rise(touches),
        samples_rise(touches),
        forall|i: int|
            0 <= i < labels.len() ==> (#[trigger] labels[i] == root <==> has_run(
                touches,
                association::nodes_upto(walks, walks.len() as int)[i].0 as int,
                association::nodes_upto(walks, walks.len() as int)[i].1 as int,
            )),
{
    let nodes = association::nodes_upto(walks, walks.len() as int);
    let n = touches.len() as int;
    lemma_nodes(walks, walks.len() as int);
    lemma_members(nodes, labels, root, nodes.len() as int);
    let members = disc_walk::members_of(nodes, labels, root, nodes.len() as int);
    lemma_flattened(touches, n);
    assert forall|i: int| 0 <= i < labels.len() implies (#[trigger] labels[i] == root <==> has_run(
        touches,
        nodes[i].0 as int,
        nodes[i].1 as int,
    )) by {
        let node = nodes[i];
        if labels[i] == root {
            assert(members.contains(node));
            let m = choose|m: int| 0 <= m < members.len() && members[m] == node;
            assert(disc_walk::flattened(touches, n)[m] == node);
            assert(names(touches, n, node));
            let (t, k) = choose|t: int, k: int|
                t < n && #[trigger] is_touched(touches, node.0 as int, node.1 as int, t, k);
            assert(is_touched(touches, node.0 as int, node.1 as int, t, k));
        }
        if has_run(touches, node.0 as int, node.1 as int) {
            let (t, k) = choose|t: int, k: int| #[trigger] is_touched(touches, node.0 as int, node.1 as int, t, k);
            assert(members.contains((touches[t].sample, touches[t].runs@[k])));
            assert(members.contains(node));
            let m = choose|m: int| 0 <= m < members.len() && members[m] == node;
            assert(bears(nodes, labels, root, nodes.len() as int, members[m]));
        let j = choose|j: int| 0 <= j < nodes.len() && nodes[j] == members[m] && #[trigger] labels[j] == root;
            if j < i {
                assert(node_less(nodes[j], nodes[i]));
            } else if i < j {
                assert(node_less(nodes[i], nodes[j]));
            }
        }
    }
    assert(labels[root as int] == root);
    assert(has_run(touches, nodes[root as int].0 as int, nodes[root as int].1 as int));
    assert forall|t: int, k: int| 0 <= t < n && 0 <= k < touches[t].runs@.len() implies touches[t].sample < walks.len() && (
    #[trigger] touches[t].runs@[k]) < walks[touches[t].sample as int].runs@.len() by {
        let node = (touches[t].sample, touches[t].runs@[k]);
        assert(members.contains(node));
        let m = choose|m: int| 0 <= m < members.len() && members[m] == node;
        assert(bears(nodes, labels, root, nodes.len() as int, members[m]));
        let j = choose|j: int| 0 <= j < nodes.len() && nodes[j] == members[m] && #[trigger] labels[j] == root;
        assert(nodes[j] == node);
    }
    assert forall|t: int| 0 <= t < n implies (#[trigger] touches[t]).sample < walks.len() && touches[t].runs@.len() > 0 by {
        assert(touches[t].runs@[0] < walks[touches[t].sample as int].runs@.len());
    }
}

/// The labels in use, each once, rising.
pub(crate) proof fn lemma_roots(labels: Seq<usize>, n: int)
    requires
        0 <= n <= labels.len(),
    ensures
        forall|i: int, j: int|
            0 <= i < j < disc_walk::roots_of(labels, n).len() ==> (#[trigger] disc_walk::roots_of(labels, n)[i]) < (
            #[trigger] disc_walk::roots_of(labels, n)[j]),
        forall|i: int|
            0 <= i < disc_walk::roots_of(labels, n).len() ==> (#[trigger] disc_walk::roots_of(labels, n)[i]) < n
                && labels[disc_walk::roots_of(labels, n)[i] as int] == disc_walk::roots_of(labels, n)[i],
        forall|l: int|
            0 <= l < n && #[trigger] labels[l] == l ==> disc_walk::roots_of(labels, n).contains(labels[l]),
    decreases n,
{
    if n > 0 {
        lemma_roots(labels, n - 1);
        let rest = disc_walk::roots_of(labels, n - 1);
        let all = disc_walk::roots_of(labels, n);
        assert forall|l: int| 0 <= l < n && #[trigger] labels[l] == l implies all.contains(labels[l]) by {
            if l < n - 1 {
                assert(rest.contains(labels[l]));
                let k = choose|k: int| 0 <= k < rest.len() && rest[k] == labels[l];
                assert(all[k] == labels[l]);
            } else {
                assert(all[rest.len() as int] == labels[l]);
            }
        }
    }
}

/// As many places as there are, no two the same, are every place.
pub(crate) proof fn lemma_onto(ranks: Seq<int>, p: int)
    requires
        forall|i: int| 0 <= i < ranks.len() ==> 0 <= #[trigger] ranks[i] < ranks.len(),
        forall|i: int, j: int| 0 <= i < j < ranks.len() ==> #[trigger] ranks[i] != #[trigger] ranks[j],
        0 <= p < ranks.len(),
    ensures
        ranks.contains(p),
{
    let n = ranks.len() as int;
    assert(ranks.no_duplicates());
    ranks.unique_seq_to_set();
    vstd::set_lib::lemma_int_range(0, n);
    let all = vstd::set_lib::set_int_range(0, n);
    assert forall|x: int| #[trigger] ranks.to_set().contains(x) implies all.contains(x) by {
        assert(ranks.contains(x));
    }
    vstd::set_lib::lemma_len_subset(ranks.to_set(), all);
    vstd::set_lib::lemma_subset_equality(ranks.to_set(), all);
    assert(all.contains(p));
    assert(ranks.to_set().contains(p));
}

/// The touches that an event was built from.
spec fn touches_of(
    event: DiscEvent,
    corridor: DiscCorridor,
    walks: Seq<RayWalk>,
    nodes: Seq<(usize, usize)>,
    labels: Seq<usize>,
    root: usize,
) -> Seq<Touch> {
    choose|touches: Seq<Touch>| #[trigger]
        disc_walk::is_cluster(touches, nodes, labels, root) && event::is_event(event, corridor, walks, touches)
}

/// Every run that a sample of the disc meets belongs to exactly one crossing, and the
/// crossings stand in the order in which they start, then in that in which they end.
pub proof fn law_every_run_crosses_once(
    walk: DiscWalk,
    corridor: DiscCorridor,
    laws: WalkLaws,
    rows: Seq<(Entity, F32)>,
    factors: Map<Entity, F32>,
)
    requires
        disc_walk::is_disc_walk(walk, corridor, laws, rows, factors),
    ensures
        exists|groups: Seq<Seq<Touch>>| #[trigger] shares_out(walk, corridor, groups),
{
    let (walks, events) = (walk.walks@, walk.events@);
    assert(walk.walks.len() == walks.len());
    let nodes = association::nodes_upto(walks, walks.len() as int);
    let (labels, ranks) = choose|labels: Seq<usize>, ranks: Seq<int>|
        {
            &&& labels.len() == nodes.len()
            &&& association::labels_chains(
                |a: int, b: int| association::linked(corridor, laws, walks, nodes, a, b),
                labels,
            )
            &&& #[trigger] disc_walk::are_crossings(
                events,
                ranks,
                corridor,
                walks,
                nodes,
                labels,
                disc_walk::roots_of(labels, labels.len() as int).len() as int,
            )
        };
    let roots = disc_walk::roots_of(labels, labels.len() as int);
    lemma_roots(labels, labels.len() as int);
    lemma_nodes(walks, walks.len() as int);
    let groups = Seq::new(
        events.len(),
        |i: int| touches_of(events[i], corridor, walks, nodes, labels, roots[ranks[i]]),
    );
    assert forall|i: int| 0 <= i < events.len() implies is_group(
        #[trigger] groups[i],
        events[i],
        corridor,
        walks,
        labels,
        roots[ranks[i]],
    ) by {
        let root = roots[ranks[i]];
        assert(disc_walk::is_crossing(events[i], corridor, walks, nodes, labels, root));
        reveal(disc_walk::is_crossing);
        let touches = groups[i];
        assert(disc_walk::is_cluster(touches, nodes, labels, root) && event::is_event(
            events[i],
            corridor,
            walks,
            touches,
        ));
        lemma_cluster(touches, corridor, walks, labels, root);
    }
    assert forall|i: int, j: int| 0 <= i < j < ranks.len() implies #[trigger] ranks[i] != #[trigger] ranks[j] by {
        assert(disc_walk::event_before(events[i], ranks[i], events[j], ranks[j]));
    }
    assert forall|s: int, r: int| 0 <= s < walks.len() && 0 <= r < walks[s].runs@.len() implies #[trigger] is_shared(
        groups,
        s,
        r,
    ) by {
        assert(walks[s].runs.len() == walks[s].runs@.len());
        let node = (s as usize, r as usize);
        assert(nodes.contains(node));
        let m = choose|m: int| 0 <= m < nodes.len() && nodes[m] == node;
        assert(association::rooted(labels, m));
        let root = labels[m];
        assert(labels[root as int] == root);
        assert(roots.contains(root));
        let p = choose|p: int| 0 <= p < roots.len() && roots[p] == root;
        lemma_onto(ranks, p);
        let i = choose|i: int| 0 <= i < ranks.len() && ranks[i] == p;
        assert(is_group(groups[i], events[i], corridor, walks, labels, roots[ranks[i]]));
        assert(has_run(groups[i], s, r));
    }
    assert forall|i: int, j: int, s: int, r: int|
        0 <= i < j < groups.len() && #[trigger] has_run(groups[i], s, r) implies !#[trigger] has_run(groups[j], s, r) by {
        if has_run(groups[j], s, r) {
            lemma_apart(groups[i], groups[j], events[i], events[j], corridor, walks, labels, roots[ranks[i]], roots[ranks[j]], s, r);
            assert(ranks[i] != ranks[j]);
            if ranks[i] < ranks[j] {
                assert(roots[ranks[i]] < roots[ranks[j]]);
            } else {
                assert(roots[ranks[j]] < roots[ranks[i]]);
            }
        }
    }
    assert forall|i: int| 0 <= i < events.len() implies (#[trigger] groups[i]).len() > 0 && extent::touches_fit(
        groups[i],
        corridor,
        walks,
    ) && runs_rise(groups[i]) && samples_rise(groups[i]) && event::is_event(events[i], corridor, walks, groups[i]) by {
        assert(is_group(groups[i], events[i], corridor, walks, labels, roots[ranks[i]]));
    }
    assert forall|i: int, j: int| 0 <= i < j < events.len() implies stands_before(
        #[trigger] events[i],
        #[trigger] events[j],
    ) by {
        assert(disc_walk::event_before(events[i], ranks[i], events[j], ranks[j]));
    }
    assert(shares_out(walk, corridor, groups));
}

/// The runs that bear a label, and the event built from them.
spec fn is_group(
    touches: Seq<Touch>,
    event: DiscEvent,
    corridor: DiscCorridor,
    walks: Seq<RayWalk>,
    labels: Seq<usize>,
    root: usize,
) -> bool {
    let nodes = association::nodes_upto(walks, walks.len() as int);
    &&& touches.len() > 0
    &&& extent::touches_fit(touches, corridor, walks)
    &&& runs_rise(touches)
    &&& samples_rise(touches)
    &&& event::is_event(event, corridor, walks, touches)
    &&& forall|i: int|
        0 <= i < labels.len() ==> (#[trigger] labels[i] == root <==> has_run(
            touches,
            nodes[i].0 as int,
            nodes[i].1 as int,
        ))
}

/// A run that two groups have bears both labels.
proof fn lemma_apart(
    a: Seq<Touch>,
    b: Seq<Touch>,
    x: DiscEvent,
    y: DiscEvent,
    corridor: DiscCorridor,
    walks: Seq<RayWalk>,
    labels: Seq<usize>,
    p: usize,
    q: usize,
    s: int,
    r: int,
)
    requires
        walks.len() <= usize::MAX,
        labels.len() == association::nodes_upto(walks, walks.len() as int).len(),
        is_group(a, x, corridor, walks, labels, p),
        is_group(b, y, corridor, walks, labels, q),
        has_run(a, s, r),
        has_run(b, s, r),
    ensures
        p == q,
{
    let nodes = association::nodes_upto(walks, walks.len() as int);
    lemma_nodes(walks, walks.len() as int);
    let (t, k) = choose|t: int, k: int| #[trigger] is_touched(a, s, r, t, k);
    assert(a[t].runs@[k] < walks[a[t].sample as int].runs@.len());
    assert(r < walks[s].runs@.len());
    let node = (s as usize, r as usize);
    assert(nodes.contains(node));
    let m = choose|m: int| 0 <= m < nodes.len() && nodes[m] == node;
    assert(labels[m] == p);
    assert(labels[m] == q);
}

} // verus!
