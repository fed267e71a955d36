//! Downward steps aggregated over a disc crossing: its sources of spall.

use crate::ballistics::walk::disc::{DiscCorridor, DiscSpall};
use crate::ballistics::walk::events::{BoundaryEvent, BoundaryKind};
use crate::ballistics::walk::extent;
use crate::ballistics::walk::extent::Touch;
use crate::ballistics::walk::ray::RayWalk;
use crate::float::{F32, F64};
use crate::sorting;
use crate::sorting::sort_rows;
use crate::vector::{unit_or_zero, Vec3};
use vstd::prelude::*;

verus! {

/// The field falls.
pub open spec fn is_downward(event: BoundaryEvent) -> bool {
    !event.factor_before.at_most(event.factor_after)
}

/// The downward steps of one run among the first `n` events.
pub open spec fn run_downs(events: Seq<BoundaryEvent>, run: usize, n: int) -> Seq<BoundaryEvent>
    decreases n,
{
    if n <= 0 {
        Seq::empty()
    } else {
        let rest = run_downs(events, run, n - 1);
        if events[n - 1].run == run && is_downward(events[n - 1]) {
            rest.push(events[n - 1])
        } else {
            rest
        }
    }
}

/// The downward steps of a sample's first `n` runs.
pub open spec fn sample_downs(walk: RayWalk, runs: Seq<usize>, n: int) -> Seq<BoundaryEvent>
    decreases n,
{
    if n <= 0 {
        Seq::empty()
    } else {
        sample_downs(walk, runs, n - 1) + run_downs(walk.events@, runs[n - 1], walk.events@.len() as int)
    }
}

/// The downward steps of one covered sample, in order.
pub open spec fn downs_of(walks: Seq<RayWalk>, touch: Touch) -> Seq<BoundaryEvent> {
    sample_downs(walks[touch.sample as int], touch.runs@, touch.runs@.len() as int)
}

/// The steps between two factors among the first `n`.
pub open spec fn steps_between(downs: Seq<BoundaryEvent>, from: u32, to: u32, n: int) -> Seq<BoundaryEvent>
    decreases n,
{
    if n <= 0 {
        Seq::empty()
    } else {
        let rest = steps_between(downs, from, to, n - 1);
        if downs[n - 1].factor_before.bits == from && downs[n - 1].factor_after.bits == to {
            rest.push(downs[n - 1])
        } else {
            rest
        }
    }
}

/// The sample's step of this key, if it met one. A key is the factors on either
/// side and how many steps between those factors came before; progress cannot tell
/// steps apart, since on an oblique slab the exits of one face lie far apart.
pub open spec fn step_of(downs: Seq<BoundaryEvent>, key: (u32, u32, usize)) -> Option<BoundaryEvent> {
    let steps = steps_between(downs, key.0, key.1, downs.len() as int);
    if key.2 < steps.len() {
        Some(steps[key.2 as int])
    } else {
        None
    }
}

/// The sums over the first `n` samples' steps of one key.
pub struct StepSums {
    pub count: nat,
    pub t: F64,
    pub position: Vec3,
    pub normal: Vec3,
    pub budget: F64,
}

pub open spec fn sums_of(downs: Seq<Seq<BoundaryEvent>>, key: (u32, u32, usize), n: int) -> StepSums
    decreases n,
{
    if n <= 0 {
        StepSums {
            count: 0,
            t: F64::zero(),
            position: Vec3::zero(),
            normal: Vec3::zero(),
            budget: F64::zero(),
        }
    } else {
        let rest = sums_of(downs, key, n - 1);
        match step_of(downs[n - 1], key) {
            Some(step) => StepSums {
                count: rest.count + 1,
                t: rest.t.sum(step.t),
                position: rest.position.sum(step.position),
                normal: rest.normal.sum(step.normal),
                budget: rest.budget.sum(step.spall_budget.doubled()),
            },
            None => rest,
        }
    }
}

/// The source of spall that one key's steps make up.
pub open spec fn spall_of(downs: Seq<Seq<BoundaryEvent>>, key: (u32, u32, usize), k: nat) -> DiscSpall {
    let sums = sums_of(downs, key, downs.len() as int);
    DiscSpall {
        t: sums.t.quotient(F64::whole(sums.count)),
        position: sums.position.shared(F32::whole(sums.count)),
        normal: if sums.count == 1 {
            sums.normal
        } else {
            sums.normal.direction()
        },
        from_factor: F32 { bits: key.0 },
        to_factor: F32 { bits: key.1 },
        budget: sums.budget.quotient(F64::whole(k)).halved(),
        coverage: extent::share_of(sums.count, k),
    }
}

/// Some sample met a step of this key.
pub open spec fn key_met(downs: Seq<Seq<BoundaryEvent>>, key: (u32, u32, usize)) -> bool {
    exists|i: int| 0 <= i < downs.len() && step_of(#[trigger] downs[i], key) is Some
}

pub open spec fn key_less(a: (u32, u32, usize), b: (u32, u32, usize)) -> bool {
    a.0 < b.0 || (a.0 == b.0 && (a.1 < b.1 || (a.1 == b.1 && a.2 < b.2)))
}

pub open spec fn in_step_order(keys: Seq<(u32, u32, usize)>) -> bool {
    forall|i: int, j: int| 0 <= i < j < keys.len() ==> key_less(#[trigger] keys[i], #[trigger] keys[j])
}

/// The row a source of spall is ordered by.
pub open spec fn spall_row(spall: DiscSpall) -> Seq<u64> {
    seq![spall.t.rank() as u64]
}

/// The crossing's sources of spall: one for each key met, by progress and then by key.
pub open spec fn are_spall(spall: Seq<DiscSpall>, downs: Seq<Seq<BoundaryEvent>>, k: nat) -> bool {
    exists|keys: Seq<(u32, u32, usize)>, order: Seq<usize>|
        {
            &&& #[trigger] in_step_order(keys)
            &&& forall|key: (u32, u32, usize)| #[trigger] keys.contains(key) <==> key_met(downs, key)
            &&& #[trigger] orders_spall(spall, downs, keys, order, k)
        }
}

/// `spall` lists the keys' sources in `order`, which is by progress and then by key.
pub open spec fn orders_spall(
    spall: Seq<DiscSpall>,
    downs: Seq<Seq<BoundaryEvent>>,
    keys: Seq<(u32, u32, usize)>,
    order: Seq<usize>,
    k: nat,
) -> bool {
    &&& spall.len() == keys.len()
    &&& order.len() == keys.len()
    &&& forall|i: int|
        0 <= i < order.len() ==> (#[trigger] order[i]) < keys.len() && spall[i] == spall_of(
            downs,
            keys[order[i] as int],
            k,
        )
    &&& forall|i: int, j: int|
        0 <= i < j < order.len() ==> {
            ||| (#[trigger] spall[i]).t.rank() < (#[trigger] spall[j]).t.rank()
            ||| spall[i].t.rank() == spall[j].t.rank() && order[i] < order[j]
        }
}

pub open spec fn downs_view(downs: Seq<Vec<BoundaryEvent>>) -> Seq<Seq<BoundaryEvent>> {
    downs.map_values(|d: Vec<BoundaryEvent>| d@)
}

/// The downward steps of the covered samples, in order.
pub open spec fn all_downs(walks: Seq<RayWalk>, touches: Seq<Touch>) -> Seq<Seq<BoundaryEvent>> {
    touches.map_values(|touch: Touch| downs_of(walks, touch))
}

fn collect_downs(walk: &RayWalk, runs: &Vec<usize>) -> (downs: Vec<BoundaryEvent>)
    ensures
        downs@ == sample_downs(*walk, runs@, runs@.len() as int),
{
    let mut downs: Vec<BoundaryEvent> = Vec::new();
    let mut r: usize = 0;
    while r < runs.len()
        invariant
            r <= runs.len(),
            downs@ == sample_downs(*walk, runs@, r as int),
        decreases runs.len() - r,
    {
        let run: usize = runs[r];
        let ghost before = downs@;
        let mut n: usize = 0;
        assert(before + Seq::<BoundaryEvent>::empty() =~= before);
        while n < walk.events.len()
            invariant
                n <= walk.events@.len(),
                downs@ == before + run_downs(walk.events@, run, n as int),
            decreases walk.events.len() - n,
        {
            let event: BoundaryEvent = walk.events[n];
            if event.run == run && !event.factor_before.le(event.factor_after) {
                downs.push(event);
            }
            assert(downs@ =~= before + run_downs(walk.events@, run, n + 1));
            n = n + 1;
        }
        r = r + 1;
    }
    downs
}

/// The sample's step of a key.
fn find_step(downs: &Vec<BoundaryEvent>, key: (u32, u32, usize)) -> (step: Option<BoundaryEvent>)
    ensures
        step == step_of(downs@, key),
{
    let mut steps: Vec<BoundaryEvent> = Vec::new();
    let mut n: usize = 0;
    while n < downs.len()
        invariant
            n <= downs.len(),
            steps@ == steps_between(downs@, key.0, key.1, n as int),
        decreases downs.len() - n,
    {
        if downs[n].factor_before.bits == key.0 && downs[n].factor_after.bits == key.1 {
            steps.push(downs[n]);
        }
        n = n + 1;
    }
    if key.2 < steps.len() {
        Some(steps[key.2])
    } else {
        None
    }
}

/// Adds a key to an ordered list, if it is not there.
fn insert_key(keys: &mut Vec<(u32, u32, usize)>, key: (u32, u32, usize))
    requires
        in_step_order(old(keys)@),
    ensures
        in_step_order(final(keys)@),
        forall|e: (u32, u32, usize)| #[trigger] final(keys)@.contains(e) <==> old(keys)@.contains(e) || e == key,
{
    let ghost before = keys@;
    let mut place: usize = 0;
    while place < keys.len() && (keys[place].0 < key.0 || (keys[place].0 == key.0 && (keys[place].1 < key.1 || (
    keys[place].1 == key.1 && keys[place].2 < key.2))))
        invariant
            place <= keys.len(),
            keys@ == before,
            forall|i: int| 0 <= i < place ==> key_less(#[trigger] before[i], key),
        decreases keys.len() - place,
    {
        place = place + 1;
    }
    if place < keys.len() && keys[place].0 == key.0 && keys[place].1 == key.1 && keys[place].2 == key.2 {
        assert(before[place as int] == key);
        return ;
    }
    keys.insert(place, key);
    proof {
        let after = keys@;
        assert(after =~= before.insert(place as int, key));
        assert forall|i: int, j: int| 0 <= i < j < after.len() implies key_less(#[trigger] after[i], #[trigger] after[j]) by {
            if j == place {
                assert(after[i] == before[i]);
            } else if i == place {
                assert(after[j] == before[j - 1]);
                if j - 1 > place {
                    assert(key_less(before[place as int], before[j - 1]));
                }
            } else {
                let x = if i < place { i } else { i - 1 };
                let y = if j < place { j } else { j - 1 };
                assert(after[i] == before[x] && after[j] == before[y]);
            }
        }
        assert forall|e: (u32, u32, usize)| #[trigger] after.contains(e) <==> before.contains(e) || e == key by {
            if before.contains(e) {
                let x = choose|x: int| 0 <= x < before.len() && before[x] == e;
                let y = if x < place { x } else { x + 1 };
                assert(after[y] == e);
            }
            assert(after[place as int] == key);
            if after.contains(e) && e != key {
                let y = choose|y: int| 0 <= y < after.len() && after[y] == e;
                let x = if y < place { y } else { y - 1 };
                assert(before[x] == e);
            }
        }
    }
}

proof fn lemma_steps_grow(downs: Seq<BoundaryEvent>, from: u32, to: u32, n: int, m: int)
    requires
        0 <= n <= m <= downs.len(),
    ensures
        steps_between(downs, from, to, n).len() <= steps_between(downs, from, to, m).len(),
    decreases m - n,
{
    if n < m {
        lemma_steps_grow(downs, from, to, n, m - 1);
    }
}

/// Of each ordinal below the count there is a step at which it was reached.
proof fn lemma_ordinal_reached(downs: Seq<BoundaryEvent>, key: (u32, u32, usize), n: int) -> (d: int)
    requires
        0 <= n <= downs.len(),
        key.2 < steps_between(downs, key.0, key.1, n).len(),
    ensures
        0 <= d < n,
        downs[d].factor_before.bits == key.0,
        downs[d].factor_after.bits == key.1,
        steps_between(downs, key.0, key.1, d).len() == key.2,
    decreases n,
{
    if key.2 < steps_between(downs, key.0, key.1, n - 1).len() {
        lemma_ordinal_reached(downs, key, n - 1)
    } else {
        n - 1
    }
}

/// The keys that one sample's steps have.
fn add_keys(keys: &mut Vec<(u32, u32, usize)>, downs: &Vec<BoundaryEvent>)
    requires
        in_step_order(old(keys)@),
    ensures
        in_step_order(final(keys)@),
        forall|key: (u32, u32, usize)| #[trigger]
            final(keys)@.contains(key) <==> old(keys)@.contains(key) || step_of(downs@, key) is Some,
{
    let ghost before = keys@;
    let mut d: usize = 0;
    while d < downs.len()
        invariant
            d <= downs.len(),
            in_step_order(keys@),
            forall|key: (u32, u32, usize)| before.contains(key) ==> #[trigger] keys@.contains(key),
            forall|key: (u32, u32, usize)| #[trigger]
                keys@.contains(key) ==> before.contains(key) || step_of(downs@, key) is Some,
            forall|c: int, key: (u32, u32, usize)|
                0 <= c < d && (#[trigger] downs@[c]).factor_before.bits == key.0 && downs@[c].factor_after.bits == key.1
                    && steps_between(downs@, key.0, key.1, c).len() == key.2 ==> #[trigger] keys@.contains(key),
        decreases downs.len() - d,
    {
        let from: u32 = downs[d].factor_before.bits;
        let to: u32 = downs[d].factor_after.bits;
        let mut ordinal: usize = 0;
        let mut c: usize = 0;
        while c < d
            invariant
                c <= d < downs.len(),
                ordinal <= c,
                ordinal == steps_between(downs@, from, to, c as int).len(),
            decreases d - c,
        {
            if downs[c].factor_before.bits == from && downs[c].factor_after.bits == to {
                ordinal = ordinal + 1;
            }
            c = c + 1;
        }
        let ghost now = keys@;
        insert_key(keys, (from, to, ordinal));
        proof {
            assert(steps_between(downs@, from, to, d + 1).len() == ordinal + 1);
            lemma_steps_grow(downs@, from, to, d + 1, downs@.len() as int);
            assert(step_of(downs@, (from, to, ordinal)) is Some);
            assert forall|key: (u32, u32, usize)| before.contains(key) implies #[trigger] keys@.contains(key) by {
                assert(now.contains(key));
            }
            assert forall|key: (u32, u32, usize)| #[trigger] keys@.contains(key) implies before.contains(key)
                || step_of(downs@, key) is Some by {
                if key != (from, to, ordinal) {
                    assert(now.contains(key));
                }
            }
            assert forall|e: int, key: (u32, u32, usize)|
                0 <= e < d + 1 && (#[trigger] downs@[e]).factor_before.bits == key.0 && downs@[e].factor_after.bits
                    == key.1 && steps_between(downs@, key.0, key.1, e).len() == key.2 implies #[trigger] keys@.contains(
                key,
            ) by {
                if e < d {
                    assert(now.contains(key));
                } else {
                    assert(key == (from, to, ordinal));
                }
            }
        }
        d = d + 1;
    }
    proof {
        assert forall|key: (u32, u32, usize)| step_of(downs@, key) is Some implies #[trigger] keys@.contains(key) by {
            let e = lemma_ordinal_reached(downs@, key, downs@.len() as int);
            assert(downs@[e].factor_before.bits == key.0);
        }
    }
}

/// The source of spall of one key.
fn read_key(downs: &Vec<Vec<BoundaryEvent>>, key: (u32, u32, usize), k: usize) -> (spall: DiscSpall)
    ensures
        spall == spall_of(downs_view(downs@), key, k as nat),
{
    let ghost view = downs_view(downs@);
    let mut count: usize = 0;
    let mut t: F64 = F64::zero();
    let mut position: Vec3 = Vec3::zero();
    let mut normal: Vec3 = Vec3::zero();
    let mut budget: F64 = F64::zero();
    let mut n: usize = 0;
    while n < downs.len()
        invariant
            n <= downs.len(),
            view == downs_view(downs@),
            count <= n,
            sums_of(view, key, n as int) == (StepSums { count: count as nat, t, position, normal, budget }),
        decreases downs.len() - n,
    {
        assert(view[n as int] == downs@[n as int]@);
        match find_step(&downs[n], key) {
            Some(step) => {
                count = count + 1;
                t = t.plus(step.t);
                position = position.plus(step.position);
                normal = normal.plus(step.normal);
                budget = budget.plus(step.spall_budget.to_double());
            },
            None => {},
        }
        n = n + 1;
    }
    let kf: F64 = F64::from_whole(k as u64);
    DiscSpall {
        t: t.over(F64::from_whole(count as u64)),
        position: position.over(F32::from_whole(count as u64)),
        normal: if count == 1 {
            normal
        } else {
            unit_or_zero(normal)
        },
        from_factor: F32 { bits: key.0 },
        to_factor: F32 { bits: key.1 },
        budget: budget.over(kf).to_single(),
        coverage: F64::from_whole(count as u64).over(kf).to_single(),
    }
}

/// How many of the first `n` samples left material.
pub open spec fn exits_of(downs: Seq<Seq<BoundaryEvent>>, n: int) -> nat
    decreases n,
{
    if n <= 0 {
        0
    } else {
        exits_of(downs, n - 1) + if has_exit(downs[n - 1]) {
            1nat
        } else {
            0nat
        }
    }
}

pub open spec fn has_exit(downs: Seq<BoundaryEvent>) -> bool {
    exists|i: int| 0 <= i < downs.len() && (#[trigger] downs[i]).kind == BoundaryKind::Exit
}

/// Builds the crossing's sources of spall, and counts the samples that left material.
pub fn read_spall(
    walks: &Vec<RayWalk>,
    touches: &Vec<Touch>,
    k: usize,
    Ghost(corridor): Ghost<DiscCorridor>,
) -> (result: (Vec<DiscSpall>, usize))
    requires
        extent::touches_fit(touches@, corridor, walks@),
    ensures
        are_spall(result.0@, all_downs(walks@, touches@), k as nat),
        result.1 == exits_of(all_downs(walks@, touches@), touches@.len() as int),
{
    let ghost view = all_downs(walks@, touches@);
    let mut downs: Vec<Vec<BoundaryEvent>> = Vec::new();
    let mut keys: Vec<(u32, u32, usize)> = Vec::new();
    let mut exits: usize = 0;
    let mut i: usize = 0;
    while i < touches.len()
        invariant
            i <= touches.len(),
            extent::touches_fit(touches@, corridor, walks@),
            view == all_downs(walks@, touches@),
            downs@.len() == i,
            forall|d: int| 0 <= d < i ==> (#[trigger] downs@[d])@ == view[d],
            in_step_order(keys@),
            forall|key: (u32, u32, usize)| #[trigger] keys@.contains(key) <==> key_met(view.take(i as int), key),
            exits <= i,
            exits == exits_of(view, i as int),
        decreases touches.len() - i,
    {
        let touch: &Touch = &touches[i];
        assert(touches@[i as int].sample < walks@.len());
        let own: Vec<BoundaryEvent> = collect_downs(&walks[touch.sample], &touch.runs);
        assert(own@ == view[i as int]);
        let ghost before = keys@;
        add_keys(&mut keys, &own);
        let mut exit: bool = false;
        let mut d: usize = 0;
        while d < own.len()
            invariant
                d <= own.len(),
                exit == exists|e: int| 0 <= e < d && (#[trigger] own@[e]).kind == BoundaryKind::Exit,
            decreases own.len() - d,
        {
            if own[d].kind == BoundaryKind::Exit {
                exit = true;
                assert(own@[d as int].kind == BoundaryKind::Exit);
            }
            d = d + 1;
        }
        if exit {
            exits = exits + 1;
        }
        proof {
            let shorter = view.take(i as int);
            let longer = view.take(i + 1);
            assert(longer[i as int] == view[i as int]);
            assert forall|key: (u32, u32, usize)| #[trigger] keys@.contains(key) <==> key_met(longer, key) by {
                assert(before.contains(key) <==> key_met(shorter, key));
                if key_met(shorter, key) {
                    let x = choose|x: int| 0 <= x < shorter.len() && step_of(#[trigger] shorter[x], key) is Some;
                    assert(longer[x] == shorter[x]);
                }
                if key_met(longer, key) {
                    let x = choose|x: int| 0 <= x < longer.len() && step_of(#[trigger] longer[x], key) is Some;
                    if x < i {
                        assert(shorter[x] == longer[x]);
                    }
                }
            }
        }
        downs.push(own);
        i = i + 1;
    }
    assert(view.take(i as int) =~= view);
    assert(downs_view(downs@) =~= view);
    let mut unordered: Vec<DiscSpall> = Vec::new();
    let mut rows: Vec<Vec<u64>> = Vec::new();
    let mut n: usize = 0;
    while n < keys.len()
        invariant
            n <= keys.len(),
            downs_view(downs@) == view,
            unordered@.len() == n,
            rows@.len() == n,
            forall|j: int| 0 <= j < n ==> #[trigger] unordered@[j] == spall_of(view, keys@[j], k as nat),
            forall|j: int| 0 <= j < n ==> (#[trigger] rows@[j])@ == spall_row(unordered@[j]),
        decreases keys.len() - n,
    {
        let spall: DiscSpall = read_key(&downs, keys[n], k);
        let row: Vec<u64> = vec![spall.t.order_key()];
        assert(row@ =~= spall_row(spall));
        rows.push(row);
        unordered.push(spall);
        n = n + 1;
    }
    let order: Vec<usize> = sort_rows(&rows);
    let mut spall: Vec<DiscSpall> = Vec::new();
    let mut p: usize = 0;
    while p < order.len()
        invariant
            p <= order.len(),
            spall@.len() == p,
            unordered@.len() == rows@.len(),
            sorting::sorts(rows@, order@),
            forall|j: int| 0 <= j < p ==> #[trigger] spall@[j] == unordered@[order@[j] as int],
        decreases order.len() - p,
    {
        assert(order@[p as int] < rows@.len());
        spall.push(unordered[order[p]]);
        p = p + 1;
    }
    proof {
        assert forall|a: int, b: int| 0 <= a < b < order@.len() implies {
            ||| (#[trigger] spall@[a]).t.rank() < (#[trigger] spall@[b]).t.rank()
            ||| spall@[a].t.rank() == spall@[b].t.rank() && order@[a] < order@[b]
        } by {
            let x = order@[a] as int;
            let y = order@[b] as int;
            assert(sorting::stands_before(rows@, x, y));
            assert(rows@[x]@ == spall_row(unordered@[x]));
            assert(rows@[y]@ == spall_row(unordered@[y]));
            reveal_with_fuel(sorting::row_less, 3);
            assert(rows@[x]@[0] == spall@[a].t.rank());
            assert(rows@[y]@[0] == spall@[b].t.rank());
        }
        assert(orders_spall(spall@, view, keys@, order@, k as nat));
        assert(in_step_order(keys@));
    }
    (spall, exits)
}

} // verus!
