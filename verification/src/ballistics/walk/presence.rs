//! What each shell and each volume presented to a ray.

use crate::ballistics::walk::field::Interval;
use crate::ballistics::walk::spans;
use crate::ballistics::walk::table::VolumeTable;
use crate::ballistics::walk::vocabulary::{Entity, ShellKey};
use crate::float::{F32, F64};
use vstd::prelude::*;

verus! {

/// What one volume presented. Presence is the union of its shells' stretches,
/// never their sum: two shells in one place are one body of material.
#[derive(Clone, Debug, PartialEq)]
pub struct EntityPresence {
    pub entity: Entity,
    pub factor: F32,
    pub chord: F32,
    pub cost: F32,
    pub spans: Vec<(F64, F64)>,
}

/// One shell's stretches, in order, each half-open.
#[derive(Clone, Debug, PartialEq)]
pub struct ShellPresence {
    pub key: ShellKey,
    pub spans: Vec<(F64, F64)>,
}

/// The shell's own among the first `n` stretches.
pub open spec fn shell_spans(intervals: Seq<Interval>, key: ShellKey, n: int) -> Seq<(F64, F64)>
    decreases n,
{
    if n <= 0 {
        Seq::empty()
    } else if intervals[n - 1].key == key {
        shell_spans(intervals, key, n - 1).push((intervals[n - 1].open, intervals[n - 1].close))
    } else {
        shell_spans(intervals, key, n - 1)
    }
}

/// The volume's own among the first `n` stretches.
pub open spec fn volume_spans(intervals: Seq<Interval>, volume: Entity, n: int) -> Seq<(F64, F64)>
    decreases n,
{
    if n <= 0 {
        Seq::empty()
    } else if intervals[n - 1].key.volume == volume {
        volume_spans(intervals, volume, n - 1).push((intervals[n - 1].open, intervals[n - 1].close))
    } else {
        volume_spans(intervals, volume, n - 1)
    }
}

/// Some stretch is the shell's.
pub open spec fn shell_met(intervals: Seq<Interval>, key: ShellKey) -> bool {
    exists|a: int| 0 <= a < intervals.len() && (#[trigger] intervals[a]).key == key
}

/// Some stretch is the volume's.
pub open spec fn volume_met(intervals: Seq<Interval>, volume: Entity) -> bool {
    exists|a: int| 0 <= a < intervals.len() && (#[trigger] intervals[a]).key.volume == volume
}

/// The presence of every shell met, in key order.
pub open spec fn is_shell_presence(shells: Seq<ShellPresence>, intervals: Seq<Interval>) -> bool {
    &&& forall|i: int, j: int| 0 <= i < j < shells.len() ==> (#[trigger] shells[i]).key.precedes((#[trigger] shells[j]).key)
    &&& forall|i: int|
        0 <= i < shells.len() ==> shell_met(intervals, (#[trigger] shells[i]).key) && shells[i].spans@ == shell_spans(
            intervals,
            shells[i].key,
            intervals.len() as int,
        )
    &&& forall|key: ShellKey| #[trigger] shell_met(intervals, key) ==> exists|i: int|
        0 <= i < shells.len() && (#[trigger] shells[i]).key == key
}

/// Stretches by where they open, then by where they close.
pub open spec fn pair_leq(a: (F64, F64), b: (F64, F64)) -> bool {
    a.0.rank() < b.0.rank() || (a.0 == b.0 && a.1.rank() <= b.1.rank())
}

pub open spec fn in_pair_order(pairs: Seq<(F64, F64)>) -> bool {
    forall|i: int, j: int| 0 <= i < j < pairs.len() ==> pair_leq(#[trigger] pairs[i], #[trigger] pairs[j])
}

/// The union of the first `n` ordered stretches: one that starts no later than
/// the union so far ends lengthens it.
pub open spec fn merged(pairs: Seq<(F64, F64)>, n: int) -> Seq<(F64, F64)>
    decreases n,
{
    if n <= 0 {
        Seq::empty()
    } else {
        let rest = merged(pairs, n - 1);
        let pair = pairs[n - 1];
        if rest.len() > 0 && pair.0.at_most(rest.last().1) {
            rest.drop_last().push((rest.last().0, rest.last().1.larger(pair.1)))
        } else {
            rest.push(pair)
        }
    }
}

/// The lengths of the first `n` stretches, added in order.
pub open spec fn chord_of(pairs: Seq<(F64, F64)>, n: int) -> F64
    decreases n,
{
    if n <= 0 {
        F64::zero()
    } else {
        chord_of(pairs, n - 1).sum(pairs[n - 1].1.difference(pairs[n - 1].0))
    }
}

/// The stretches are the union of the volume's own.
pub open spec fn is_union(pairs: Seq<(F64, F64)>, intervals: Seq<Interval>, volume: Entity) -> bool {
    exists|ordered: Seq<(F64, F64)>|
        {
            &&& #[trigger] in_pair_order(ordered)
            &&& ordered.to_multiset() == volume_spans(intervals, volume, intervals.len() as int).to_multiset()
            &&& pairs == merged(ordered, ordered.len() as int)
        }
}

/// What one volume presents: the union of its stretches, their whole length, and
/// that length charged at its own factor.
pub open spec fn is_presence(
    presence: EntityPresence,
    intervals: Seq<Interval>,
    factors: Map<Entity, F32>,
) -> bool {
    let pairs = presence.spans@;
    let chord = chord_of(pairs, pairs.len() as int);
    &&& is_union(pairs, intervals, presence.entity)
    &&& factors.contains_key(presence.entity)
    &&& presence.factor == factors[presence.entity]
    &&& presence.chord == chord.halved()
    &&& presence.cost == chord.product(presence.factor.doubled()).halved()
}

/// The presence of every volume met, in entity order.
pub open spec fn is_entity_presence(
    presence: Seq<EntityPresence>,
    intervals: Seq<Interval>,
    factors: Map<Entity, F32>,
) -> bool {
    &&& forall|i: int, j: int|
        0 <= i < j < presence.len() ==> (#[trigger] presence[i]).entity.id < (#[trigger] presence[j]).entity.id
    &&& forall|i: int|
        0 <= i < presence.len() ==> volume_met(intervals, (#[trigger] presence[i]).entity) && is_presence(
            presence[i],
            intervals,
            factors,
        )
    &&& forall|volume: Entity| #[trigger] volume_met(intervals, volume) ==> exists|i: int|
        0 <= i < presence.len() && (#[trigger] presence[i]).entity == volume
}

/// The distinct shells of the stretches, in order.
fn shells_met(intervals: &Vec<Interval>) -> (keys: Vec<ShellKey>)
    ensures
        forall|i: int, j: int| 0 <= i < j < keys@.len() ==> (#[trigger] keys@[i]).precedes(#[trigger] keys@[j]),
        forall|key: ShellKey| keys@.contains(key) <==> shell_met(intervals@, key),
{
    let mut keys: Vec<ShellKey> = Vec::new();
    let mut next: usize = 0;
    while next < intervals.len()
        invariant
            next <= intervals.len(),
            forall|i: int, j: int| 0 <= i < j < keys@.len() ==> (#[trigger] keys@[i]).precedes(#[trigger] keys@[j]),
            forall|i: int| 0 <= i < keys@.len() ==> shell_met(intervals@, #[trigger] keys@[i]),
            forall|a: int| 0 <= a < next ==> keys@.contains((#[trigger] intervals@[a]).key),
        decreases intervals.len() - next,
    {
        let key: ShellKey = intervals[next].key;
        let ghost before = keys@;
        let mut place: usize = 0;
        while place < keys.len() && keys[place].is_before(key)
            invariant
                place <= keys.len(),
                keys@ == before,
                forall|i: int| 0 <= i < place ==> (#[trigger] before[i]).precedes(key),
            decreases keys.len() - place,
        {
            place = place + 1;
        }
        if place < keys.len() && keys[place] == key {
            assert(keys@[place as int] == key);
        } else {
            keys.insert(place, key);
            proof {
                let after = keys@;
                assert(after =~= before.insert(place as int, key));
                assert(intervals@[next as int].key == key);
                assert forall|i: int, j: int| 0 <= i < j < after.len() implies (#[trigger] after[i]).precedes(
                    #[trigger] after[j],
                ) by {
                    if j == place {
                        assert(after[i] == before[i]);
                    } else if i == place {
                        assert(after[j] == before[j - 1]);
                        if j - 1 > place {
                            assert(before[place as int].precedes(before[j - 1]));
                        }
                    } else {
                        let x = if i < place { i } else { i - 1 };
                        let y = if j < place { j } else { j - 1 };
                        assert(after[i] == before[x] && after[j] == before[y]);
                    }
                }
                assert forall|i: int| 0 <= i < after.len() implies shell_met(intervals@, #[trigger] after[i]) by {
                    if i != place {
                        let x = if i < place { i } else { i - 1 };
                        assert(after[i] == before[x]);
                    }
                }
                assert forall|a: int| 0 <= a < next + 1 implies after.contains((#[trigger] intervals@[a]).key) by {
                    if a < next {
                        let x = choose|x: int| 0 <= x < before.len() && before[x] == intervals@[a].key;
                        let y = if x < place { x } else { x + 1 };
                        assert(after[y] == intervals@[a].key);
                    } else {
                        assert(after[place as int] == key);
                    }
                }
            }
        }
        next = next + 1;
    }
    proof {
        assert forall|key: ShellKey| keys@.contains(key) <==> shell_met(intervals@, key) by {
            if shell_met(intervals@, key) {
                let a = choose|a: int| 0 <= a < intervals@.len() && (#[trigger] intervals@[a]).key == key;
                assert(keys@.contains(intervals@[a].key));
            }
        }
    }
    keys
}

/// Each shell's own stretches.
pub fn shell_presence(intervals: &Vec<Interval>) -> (shells: Vec<ShellPresence>)
    ensures
        is_shell_presence(shells@, intervals@),
{
    let keys: Vec<ShellKey> = shells_met(intervals);
    let mut shells: Vec<ShellPresence> = Vec::new();
    let mut next: usize = 0;
    while next < keys.len()
        invariant
            next <= keys.len(),
            shells@.len() == next,
            forall|i: int|
                0 <= i < next ==> (#[trigger] shells@[i]).key == keys@[i] && shells@[i].spans@ == shell_spans(
                    intervals@,
                    keys@[i],
                    intervals@.len() as int,
                ),
        decreases keys.len() - next,
    {
        let key: ShellKey = keys[next];
        let mut own: Vec<(F64, F64)> = Vec::new();
        let mut n: usize = 0;
        while n < intervals.len()
            invariant
                n <= intervals.len(),
                own@ == shell_spans(intervals@, key, n as int),
            decreases intervals.len() - n,
        {
            if intervals[n].key == key {
                own.push((intervals[n].open, intervals[n].close));
            }
            n = n + 1;
        }
        shells.push(ShellPresence { key, spans: own });
        next = next + 1;
    }
    proof {
        assert forall|i: int| 0 <= i < shells@.len() implies shell_met(intervals@, (#[trigger] shells@[i]).key) by {
            assert(keys@.contains(keys@[i]));
        }
        assert forall|i: int, j: int| 0 <= i < j < shells@.len() implies (#[trigger] shells@[i]).key.precedes(
            (#[trigger] shells@[j]).key,
        ) by {
            assert(keys@[i].precedes(keys@[j]));
        }
        assert forall|key: ShellKey| #[trigger] shell_met(intervals@, key) implies exists|i: int|
            0 <= i < shells@.len() && (#[trigger] shells@[i]).key == key by {
            assert(keys@.contains(key));
            let i = choose|i: int| 0 <= i < keys@.len() && keys@[i] == key;
            assert(shells@[i].key == key);
        }
    }
    shells
}

/// The distinct volumes of the stretches, in order.
fn volumes_met(intervals: &Vec<Interval>) -> (volumes: Vec<Entity>)
    ensures
        forall|i: int, j: int| 0 <= i < j < volumes@.len() ==> (#[trigger] volumes@[i]).id < (#[trigger] volumes@[j]).id,
        forall|volume: Entity| volumes@.contains(volume) <==> volume_met(intervals@, volume),
{
    let mut volumes: Vec<Entity> = Vec::new();
    let mut next: usize = 0;
    while next < intervals.len()
        invariant
            next <= intervals.len(),
            forall|i: int, j: int|
                0 <= i < j < volumes@.len() ==> (#[trigger] volumes@[i]).id < (#[trigger] volumes@[j]).id,
            forall|i: int| 0 <= i < volumes@.len() ==> volume_met(intervals@, #[trigger] volumes@[i]),
            forall|a: int| 0 <= a < next ==> volumes@.contains((#[trigger] intervals@[a]).key.volume),
        decreases intervals.len() - next,
    {
        let volume: Entity = intervals[next].key.volume;
        let ghost before = volumes@;
        let mut place: usize = 0;
        while place < volumes.len() && volumes[place].id < volume.id
            invariant
                place <= volumes.len(),
                volumes@ == before,
                forall|i: int| 0 <= i < place ==> (#[trigger] before[i]).id < volume.id,
            decreases volumes.len() - place,
        {
            place = place + 1;
        }
        if place < volumes.len() && volumes[place] == volume {
            assert(volumes@[place as int] == volume);
        } else {
            volumes.insert(place, volume);
            proof {
                let after = volumes@;
                assert(after =~= before.insert(place as int, volume));
                assert(intervals@[next as int].key.volume == volume);
                assert forall|i: int, j: int| 0 <= i < j < after.len() implies (#[trigger] after[i]).id < (
                #[trigger] after[j]).id by {
                    if j == place {
                        assert(after[i] == before[i]);
                    } else if i == place {
                        assert(after[j] == before[j - 1]);
                        if j - 1 > place {
                            assert(before[place as int].id < before[j - 1].id);
                        }
                    } else {
                        let x = if i < place { i } else { i - 1 };
                        let y = if j < place { j } else { j - 1 };
                        assert(after[i] == before[x] && after[j] == before[y]);
                    }
                }
                assert forall|i: int| 0 <= i < after.len() implies volume_met(intervals@, #[trigger] after[i]) by {
                    if i != place {
                        let x = if i < place { i } else { i - 1 };
                        assert(after[i] == before[x]);
                    }
                }
                assert forall|a: int| 0 <= a < next + 1 implies after.contains((#[trigger] intervals@[a]).key.volume) by {
                    if a < next {
                        let x = choose|x: int| 0 <= x < before.len() && before[x] == intervals@[a].key.volume;
                        let y = if x < place { x } else { x + 1 };
                        assert(after[y] == intervals@[a].key.volume);
                    } else {
                        assert(after[place as int] == volume);
                    }
                }
            }
        }
        next = next + 1;
    }
    proof {
        assert forall|volume: Entity| volumes@.contains(volume) <==> volume_met(intervals@, volume) by {
            if volume_met(intervals@, volume) {
                let a = choose|a: int| 0 <= a < intervals@.len() && (#[trigger] intervals@[a]).key.volume == volume;
                assert(volumes@.contains(intervals@[a].key.volume));
            }
        }
    }
    volumes
}

/// The volume's own stretches, by where they open and then by where they close.
fn ordered_spans(intervals: &Vec<Interval>, volume: Entity) -> (pairs: Vec<(F64, F64)>)
    ensures
        in_pair_order(pairs@),
        pairs@.to_multiset() == volume_spans(intervals@, volume, intervals@.len() as int).to_multiset(),
{
    let mut pairs: Vec<(F64, F64)> = Vec::new();
    let mut n: usize = 0;
    while n < intervals.len()
        invariant
            n <= intervals.len(),
            in_pair_order(pairs@),
            pairs@.to_multiset() == volume_spans(intervals@, volume, n as int).to_multiset(),
        decreases intervals.len() - n,
    {
        if intervals[n].key.volume == volume {
            let pair: (F64, F64) = (intervals[n].open, intervals[n].close);
            let ghost before = pairs@;
            let mut place: usize = pairs.len();
            while place > 0 && (pair.0.order_key() < pairs[place - 1].0.order_key() || (pair.0 == pairs[place - 1].0
                && pair.1.order_key() < pairs[place - 1].1.order_key()))
                invariant
                    place <= pairs.len(),
                    pairs@ == before,
                    in_pair_order(before),
                    forall|i: int| place <= i < before.len() ==> pair_leq(pair, #[trigger] before[i]),
                decreases place,
            {
                place = place - 1;
            }
            pairs.insert(place, pair);
            proof {
                let after = pairs@;
                assert(after =~= before.insert(place as int, pair));
                vstd::seq_lib::to_multiset_insert(before, place as int, pair);
                volume_spans(intervals@, volume, n as int).to_multiset_ensures();
                assert forall|i: int, j: int| 0 <= i < j < after.len() implies pair_leq(#[trigger] after[i], #[trigger] after[j]) by {
                    if j == place {
                        assert(after[i] == before[i]);
                        if i < place - 1 {
                            assert(pair_leq(before[i], before[place - 1]));
                        }
                    } else if i == place {
                        assert(after[j] == before[j - 1]);
                    } else {
                        let x = if i < place { i } else { i - 1 };
                        let y = if j < place { j } else { j - 1 };
                        assert(after[i] == before[x] && after[j] == before[y]);
                    }
                }
            }
        }
        n = n + 1;
    }
    pairs
}

/// The union of ordered stretches.
fn merge_spans(pairs: &Vec<(F64, F64)>) -> (union: Vec<(F64, F64)>)
    ensures
        union@ == merged(pairs@, pairs@.len() as int),
{
    let mut union: Vec<(F64, F64)> = Vec::new();
    let mut n: usize = 0;
    while n < pairs.len()
        invariant
            n <= pairs.len(),
            union@ == merged(pairs@, n as int),
        decreases pairs.len() - n,
    {
        let pair: (F64, F64) = pairs[n];
        let count: usize = union.len();
        let ghost before = union@;
        if count > 0 && pair.0.le(union[count - 1].1) {
            let last: (F64, F64) = union[count - 1];
            union.set(count - 1, (last.0, last.1.max(pair.1)));
            assert(union@ =~= before.drop_last().push((last.0, last.1.larger(pair.1))));
        } else {
            union.push(pair);
        }
        n = n + 1;
    }
    union
}

/// Each volume's union of stretches, charged at its own factor.
pub fn entity_presence(intervals: &Vec<Interval>, volumes: &VolumeTable) -> (presence: Vec<EntityPresence>)
    requires
        forall|a: int| 0 <= a < intervals@.len() ==> volumes@.contains_key((#[trigger] intervals@[a]).key.volume),
    ensures
        is_entity_presence(presence@, intervals@, volumes@),
{
    let met: Vec<Entity> = volumes_met(intervals);
    let mut presence: Vec<EntityPresence> = Vec::new();
    let mut next: usize = 0;
    while next < met.len()
        invariant
            next <= met.len(),
            presence@.len() == next,
            forall|volume: Entity| met@.contains(volume) <==> volume_met(intervals@, volume),
            forall|a: int| 0 <= a < intervals@.len() ==> volumes@.contains_key((#[trigger] intervals@[a]).key.volume),
            forall|i: int|
                0 <= i < next ==> (#[trigger] presence@[i]).entity == met@[i] && is_presence(
                    presence@[i],
                    intervals@,
                    volumes@,
                ),
        decreases met.len() - next,
    {
        let entity: Entity = met[next];
        proof {
            assert(met@.contains(entity));
            let a = choose|a: int| 0 <= a < intervals@.len() && (#[trigger] intervals@[a]).key.volume == entity;
            assert(volumes@.contains_key(intervals@[a].key.volume));
        }
        let ordered: Vec<(F64, F64)> = ordered_spans(intervals, entity);
        let pairs: Vec<(F64, F64)> = merge_spans(&ordered);
        let factor: F32 = match volumes.factor(entity) {
            Ok(factor) => factor,
            Err(_) => F32::zero(),
        };
        let mut chord: F64 = F64::zero();
        let mut n: usize = 0;
        while n < pairs.len()
            invariant
                n <= pairs.len(),
                chord == chord_of(pairs@, n as int),
            decreases pairs.len() - n,
        {
            chord = chord.plus(pairs[n].1.minus(pairs[n].0));
            n = n + 1;
        }
        assert(in_pair_order(ordered@));
        presence.push(
            EntityPresence {
                entity,
                factor,
                chord: chord.to_single(),
                cost: chord.times(factor.to_double()).to_single(),
                spans: pairs,
            },
        );
        next = next + 1;
    }
    proof {
        assert forall|i: int| 0 <= i < presence@.len() implies volume_met(intervals@, (#[trigger] presence@[i]).entity) by {
            assert(met@.contains(met@[i]));
        }
        assert forall|i: int, j: int| 0 <= i < j < presence@.len() implies (#[trigger] presence@[i]).entity.id < (
        #[trigger] presence@[j]).entity.id by {
            assert(met@[i].id < met@[j].id);
        }
        assert forall|volume: Entity| #[trigger] volume_met(intervals@, volume) implies exists|i: int|
            0 <= i < presence@.len() && (#[trigger] presence@[i]).entity == volume by {
            assert(met@.contains(volume));
            let i = choose|i: int| 0 <= i < met@.len() && met@[i] == volume;
            assert(presence@[i].entity == volume);
        }
    }
    presence
}

/// Some stretch holds the position.
pub open spec fn pair_covered(pairs: Seq<(F64, F64)>, x: int) -> bool {
    exists|i: int| 0 <= i < pairs.len() && (#[trigger] pairs[i]).0.value() <= x < pairs[i].1.value()
}

/// The stretches are numbers, none ending before it starts.
pub open spec fn proper(pairs: Seq<(F64, F64)>) -> bool {
    forall|i: int|
        0 <= i < pairs.len() ==> !(#[trigger] pairs[i]).0.is_nan() && !pairs[i].1.is_nan() && pairs[i].0.value()
            <= pairs[i].1.value()
}

/// Merging ordered stretches keeps every position and leaves a gap between neighbours.
pub proof fn lemma_merged(pairs: Seq<(F64, F64)>, n: int)
    requires
        in_pair_order(pairs),
        proper(pairs),
        0 <= n <= pairs.len(),
    ensures
        proper(merged(pairs, n)),
        forall|x: int| #[trigger] pair_covered(merged(pairs, n), x) <==> pair_covered(pairs.take(n), x),
        forall|i: int|
            0 <= i < merged(pairs, n).len() - 1 ==> (#[trigger] merged(pairs, n)[i]).1.value() < merged(pairs, n)[i
                + 1].0.value(),
        n > 0 ==> merged(pairs, n).len() > 0 && merged(pairs, n).last().0.value() <= pairs[n - 1].0.value(),
    decreases n,
{
    let all = merged(pairs, n);
    if n > 0 {
        lemma_merged(pairs, n - 1);
        let rest = merged(pairs, n - 1);
        let pair = pairs[n - 1];
        let shorter = pairs.take(n - 1);
        let longer = pairs.take(n);
        if rest.len() > 0 {
            assert(rest.last().0.value() <= pair.0.value()) by {
                if n > 1 {
                    assert(pair_leq(pairs[n - 2], pair));
                    pairs[n - 2].0.lemma_rank(pair.0);
                }
            }
        }
        assert forall|x: int| #[trigger] pair_covered(all, x) <==> pair_covered(longer, x) by {
            assert(pair_covered(rest, x) <==> pair_covered(shorter, x));
            assert(pair_covered(longer, x) <==> pair_covered(shorter, x) || pair.0.value() <= x < pair.1.value()) by {
                if pair_covered(shorter, x) {
                    let i = choose|i: int|
                        0 <= i < shorter.len() && (#[trigger] shorter[i]).0.value() <= x < shorter[i].1.value();
                    assert(longer[i] == shorter[i]);
                }
                assert(longer[n - 1] == pair);
                if pair_covered(longer, x) {
                    let i = choose|i: int|
                        0 <= i < longer.len() && (#[trigger] longer[i]).0.value() <= x < longer[i].1.value();
                    if i < n - 1 {
                        assert(shorter[i] == longer[i]);
                    }
                }
            }
            if rest.len() > 0 && pair.0.at_most(rest.last().1) {
                let k = rest.len() - 1;
                assert(rest[k] == rest.last());
                if pair_covered(all, x) {
                    let i = choose|i: int| 0 <= i < all.len() && (#[trigger] all[i]).0.value() <= x < all[i].1.value();
                    if i < k {
                        assert(all[i] == rest[i]);
                    } else {
                        if x < rest[k].1.value() {
                            assert(rest[k].0.value() <= x < rest[k].1.value());
                        }
                    }
                }
                if pair_covered(rest, x) {
                    let i = choose|i: int|
                        0 <= i < rest.len() && (#[trigger] rest[i]).0.value() <= x < rest[i].1.value();
                    if i < k {
                        assert(all[i] == rest[i]);
                    } else {
                        assert(all[k].0.value() <= x < all[k].1.value());
                    }
                }
                if pair.0.value() <= x < pair.1.value() {
                    assert(all[k].0.value() <= x < all[k].1.value());
                }
            } else {
                if pair_covered(all, x) {
                    let i = choose|i: int| 0 <= i < all.len() && (#[trigger] all[i]).0.value() <= x < all[i].1.value();
                    if i < rest.len() {
                        assert(all[i] == rest[i]);
                    }
                }
                if pair_covered(rest, x) {
                    let i = choose|i: int|
                        0 <= i < rest.len() && (#[trigger] rest[i]).0.value() <= x < rest[i].1.value();
                    assert(all[i] == rest[i]);
                }
                assert(all[rest.len() as int] == pair);
            }
        }
        if rest.len() > 0 && pair.0.at_most(rest.last().1) {
            let k = rest.len() - 1;
            assert forall|i: int| 0 <= i < all.len() - 1 implies (#[trigger] all[i]).1.value() < all[i + 1].0.value() by {
                assert(all[i] == rest[i]);
                assert(all[i + 1].0 == rest[i + 1].0);
            }
            assert forall|i: int| 0 <= i < all.len() implies !(#[trigger] all[i]).0.is_nan() && !all[i].1.is_nan()
                && all[i].0.value() <= all[i].1.value() by {
                if i < k {
                    assert(all[i] == rest[i]);
                } else {
                    assert(rest[k] == rest.last());
                }
            }
        } else {
            assert forall|i: int| 0 <= i < all.len() - 1 implies (#[trigger] all[i]).1.value() < all[i + 1].0.value() by {
                assert(all[i] == rest[i]);
                if i + 1 < rest.len() {
                    assert(all[i + 1] == rest[i + 1]);
                } else {
                    assert(all[i + 1] == pair);
                    assert(rest[i] == rest.last());
                }
            }
            assert forall|i: int| 0 <= i < all.len() implies !(#[trigger] all[i]).0.is_nan() && !all[i].1.is_nan()
                && all[i].0.value() <= all[i].1.value() by {
                if i < rest.len() {
                    assert(all[i] == rest[i]);
                }
            }
        }
    } else {
        assert forall|x: int| #[trigger] pair_covered(all, x) <==> pair_covered(pairs.take(n), x) by {}
    }
}

/// A volume's own stretches hold a position exactly where the volume is present.
pub proof fn lemma_volume_spans(intervals: Seq<Interval>, volume: Entity, n: int, x: int)
    requires
        0 <= n <= intervals.len(),
    ensures
        pair_covered(volume_spans(intervals, volume, n), x) <==> spans::volume_covered(intervals.take(n), volume, x),
    decreases n,
{
    if n > 0 {
        lemma_volume_spans(intervals, volume, n - 1, x);
        let shorter = intervals.take(n - 1);
        let longer = intervals.take(n);
        let rest = volume_spans(intervals, volume, n - 1);
        let all = volume_spans(intervals, volume, n);
        let last = intervals[n - 1];
        assert(longer[n - 1] == last);
        if spans::volume_covered(shorter, volume, x) {
            let a = choose|a: int|
                0 <= a < shorter.len() && (#[trigger] shorter[a]).key.volume == volume && shorter[a].open.value() <= x
                    < shorter[a].close.value();
            assert(longer[a] == shorter[a]);
            let i = choose|i: int| 0 <= i < rest.len() && (#[trigger] rest[i]).0.value() <= x < rest[i].1.value();
            assert(all[i] == rest[i]);
        }
        if spans::volume_covered(longer, volume, x) {
            let a = choose|a: int|
                0 <= a < longer.len() && (#[trigger] longer[a]).key.volume == volume && longer[a].open.value() <= x
                    < longer[a].close.value();
            if a < n - 1 {
                assert(shorter[a] == longer[a]);
            } else {
                assert(all[rest.len() as int] == (last.open, last.close));
            }
        }
        if pair_covered(all, x) {
            let i = choose|i: int| 0 <= i < all.len() && (#[trigger] all[i]).0.value() <= x < all[i].1.value();
            if i < rest.len() {
                assert(rest[i] == all[i]);
            }
        }
    } else {
        assert(!spans::volume_covered(intervals.take(0), volume, x));
    }
}

} // verus!
