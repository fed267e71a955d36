//! The factor of every volume a corridor can meet, once per volume.

use crate::ballistics::walk::vocabulary::{Entity, WalkError};
use crate::float::F32;
use vstd::prelude::*;

verus! {

/// A factor that can take part in a maximum and in a sum.
pub open spec fn legal_factor(factor: F32) -> bool {
    factor.finite() && !factor.below(F32::zero())
}

/// A factor with one pattern for "no material".
pub open spec fn canonical_factor(factor: F32) -> F32 {
    if factor.equals(F32::zero()) {
        F32::zero()
    } else {
        factor
    }
}

/// What a table made of `entries` carries: the last factor given for each volume.
pub open spec fn tabled(entries: Seq<(Entity, F32)>) -> Map<Entity, F32>
    decreases entries.len(),
{
    if entries.len() == 0 {
        Map::empty()
    } else {
        tabled(entries.drop_last()).insert(entries.last().0, canonical_factor(entries.last().1))
    }
}

/// Volume factors in entity order.
#[derive(Debug, PartialEq)]
pub struct VolumeTable {
    rows: Vec<(Entity, F32)>,
}

impl View for VolumeTable {
    type V = Map<Entity, F32>;

    closed spec fn view(&self) -> Map<Entity, F32> {
        tabled(self.rows@)
    }
}

impl VolumeTable {
    /// The rows, in entity order.
    pub closed spec fn spec_rows(&self) -> Seq<(Entity, F32)> {
        self.rows@
    }

    #[verifier::type_invariant]
    spec fn well_formed(self) -> bool {
        ordered(self.rows@)
    }
}

/// The table's rows are in order, and are what it maps.
pub open spec fn is_listed(table: VolumeTable) -> bool {
    ordered(table.spec_rows()) && tabled(table.spec_rows()) == table@
}

/// What a list of factors makes: a table of them all, or the first that is not legal.
pub open spec fn is_table(result: Result<VolumeTable, WalkError>, entries: Seq<(Entity, F32)>) -> bool {
    match result {
        Ok(table) => table@ == tabled(entries) && is_listed(table) && forall|i: int|
            0 <= i < entries.len() ==> legal_factor((#[trigger] entries[i]).1),
        Err(error) => exists|i: int|
            {
                &&& 0 <= i < entries.len()
                &&& !legal_factor((#[trigger] entries[i]).1)
                &&& forall|j: int| 0 <= j < i ==> legal_factor((#[trigger] entries[j]).1)
                &&& error == (WalkError::BadFactor { volume: entries[i].0, factor: entries[i].1 })
            },
    }
}

/// Some row is for the volume.
pub open spec fn row_of(rows: Seq<(Entity, F32)>, volume: Entity) -> bool {
    exists|i: int| 0 <= i < rows.len() && (#[trigger] rows[i]).0 == volume
}

/// Rows by rising entity, with canonical legal factors.
pub open spec fn ordered(rows: Seq<(Entity, F32)>) -> bool {
    &&& forall|i: int, j: int| 0 <= i < j < rows.len() ==> (#[trigger] rows[i]).0.id < (#[trigger] rows[j]).0.id
    &&& forall|i: int|
        0 <= i < rows.len() ==> (#[trigger] rows[i]).1.finite() && !rows[i].1.negative()
}

/// Ordered rows are their mapping, row by row.
pub proof fn lemma_tabled(rows: Seq<(Entity, F32)>)
    requires
        ordered(rows),
    ensures
        forall|v: Entity| #[trigger] tabled(rows).contains_key(v) <==> row_of(rows, v),
        forall|i: int|
            0 <= i < rows.len() ==> tabled(rows).contains_key((#[trigger] rows[i]).0) && tabled(rows)[rows[i].0]
                == rows[i].1,
    decreases rows.len(),
{
    if rows.len() > 0 {
        let shorter = rows.drop_last();
        let last = rows.last();
        lemma_tabled(shorter);
        last.1.lemma_nonnegative();
        assert(canonical_factor(last.1) == last.1);
        assert forall|v: Entity| #[trigger] tabled(rows).contains_key(v) implies row_of(rows, v) by {
            if v != last.0 {
                assert(tabled(shorter).contains_key(v));
                let i = choose|i: int| 0 <= i < shorter.len() && (#[trigger] shorter[i]).0 == v;
                assert(rows[i].0 == v);
            } else {
                assert(rows[rows.len() - 1].0 == v);
            }
        }
        assert forall|i: int| 0 <= i < rows.len() implies tabled(rows).contains_key((#[trigger] rows[i]).0)
            && tabled(rows)[rows[i].0] == rows[i].1 by {
            if i < rows.len() - 1 {
                assert(shorter[i] == rows[i]);
                assert(rows[i].0.id < rows[rows.len() - 1].0.id);
            }
        }
        assert forall|v: Entity| row_of(rows, v) implies #[trigger] tabled(rows).contains_key(v) by {
            let i = choose|i: int| 0 <= i < rows.len() && (#[trigger] rows[i]).0 == v;
            assert(tabled(rows).contains_key(rows[i].0));
        }
    }
}

/// Two ordered row lists of the same mapping agree on it.
proof fn lemma_tabled_is(rows: Seq<(Entity, F32)>, map: Map<Entity, F32>)
    requires
        ordered(rows),
        forall|v: Entity| #[trigger] map.contains_key(v) <==> row_of(rows, v),
        forall|i: int| 0 <= i < rows.len() ==> map[(#[trigger] rows[i]).0] == rows[i].1,
    ensures
        tabled(rows) == map,
{
    lemma_tabled(rows);
    assert forall|v: Entity| tabled(rows).contains_key(v) implies tabled(rows)[v] == map[v] by {
        let i = choose|i: int| 0 <= i < rows.len() && (#[trigger] rows[i]).0 == v;
        assert(rows[i].0 == v);
    }
    assert(tabled(rows) =~= map);
}

impl VolumeTable {
    /// Builds the table; the last factor given for a volume holds. Refuses the
    /// first factor that is not finite or is negative.
    pub fn new(entries: Vec<(Entity, F32)>) -> (result: Result<VolumeTable, WalkError>)
        ensures
            is_table(result, entries@),
    {
        let mut rows: Vec<(Entity, F32)> = Vec::new();
        let mut next: usize = 0;
        assert(entries@.take(0) =~= Seq::empty());
        while next < entries.len()
            invariant
                next <= entries.len(),
                ordered(rows@),
                tabled(rows@) == tabled(entries@.take(next as int)),
                forall|i: int| 0 <= i < next ==> legal_factor((#[trigger] entries@[i]).1),
            decreases entries.len() - next,
        {
            let (volume, factor) = entries[next];
            if !factor.is_finite() || factor.lt(F32::zero()) {
                return Err(WalkError::BadFactor { volume, factor });
            }
            let canonical: F32 = if factor.same(F32::zero()) { F32::zero() } else { factor };
            proof {
                factor.lemma_nonnegative();
                assert(entries@.take(next + 1).drop_last() =~= entries@.take(next as int));
                assert(entries@.take(next + 1).last() == entries@[next as int]);
            }
            Self::put(&mut rows, volume, canonical);
            next = next + 1;
        }
        assert(entries@.take(next as int) =~= entries@);
        Ok(VolumeTable { rows })
    }

    fn put(rows: &mut Vec<(Entity, F32)>, volume: Entity, factor: F32)
        requires
            ordered(old(rows)@),
            factor.finite(),
            !factor.negative(),
        ensures
            ordered(final(rows)@),
            tabled(final(rows)@) == tabled(old(rows)@).insert(volume, factor),
    {
        let ghost before = rows@;
        let mut place: usize = 0;
        while place < rows.len() && rows[place].0.id < volume.id
            invariant
                place <= rows.len(),
                rows@ == before,
                ordered(before),
                forall|i: int| 0 <= i < place ==> (#[trigger] before[i]).0.id < volume.id,
            decreases rows.len() - place,
        {
            place = place + 1;
        }
        proof {
            lemma_tabled(before);
        }
        let ghost map = tabled(before).insert(volume, factor);
        if place < rows.len() && rows[place].0.id == volume.id {
            rows.set(place, (volume, factor));
            proof {
                assert forall|v: Entity| #[trigger] map.contains_key(v) implies row_of(rows@, v) by {
                    if v == volume {
                        assert(rows@[place as int].0 == v);
                    } else {
                        let i = choose|i: int| 0 <= i < before.len() && (#[trigger] before[i]).0 == v;
                        assert(rows@[i].0 == v);
                    }
                }
                assert forall|v: Entity| row_of(rows@, v) implies #[trigger] map.contains_key(v) by {
                    let i = choose|i: int| 0 <= i < rows@.len() && (#[trigger] rows@[i]).0 == v;
                    assert(before[i].0 == v);
                    assert(row_of(before, v));
                }
                lemma_tabled_is(rows@, map);
            }
        } else {
            rows.insert(place, (volume, factor));
            proof {
                assert(rows@ =~= before.insert(place as int, (volume, factor)));
                assert forall|i: int, j: int| 0 <= i < j < rows@.len() implies (#[trigger] rows@[i]).0.id < (
                #[trigger] rows@[j]).0.id by {
                    if j == place {
                        assert(rows@[i] == before[i]);
                    } else if i == place {
                        assert(rows@[j] == before[j - 1]);
                        assert(before[place as int].0.id > volume.id);
                        if j - 1 > place {
                            assert(before[place as int].0.id < before[j - 1].0.id);
                        }
                    } else {
                        let bi = if i < place { i } else { i - 1 };
                        let bj = if j < place { j } else { j - 1 };
                        assert(rows@[i] == before[bi] && rows@[j] == before[bj]);
                    }
                }
                assert forall|v: Entity| #[trigger] map.contains_key(v) implies row_of(rows@, v) by {
                    if v == volume {
                        assert(rows@[place as int].0 == v);
                    } else {
                        let i = choose|i: int| 0 <= i < before.len() && (#[trigger] before[i]).0 == v;
                        let k = if i < place { i } else { i + 1 };
                        assert(rows@[k].0 == v);
                    }
                }
                assert forall|v: Entity| row_of(rows@, v) implies #[trigger] map.contains_key(v) by {
                    let i = choose|i: int| 0 <= i < rows@.len() && (#[trigger] rows@[i]).0 == v;
                    if i != place {
                        let k = if i < place { i } else { i - 1 };
                        assert(before[k].0 == v);
                        assert(row_of(before, v));
                    }
                }
                assert forall|i: int| 0 <= i < rows@.len() implies map[(#[trigger] rows@[i]).0] == rows@[i].1 by {
                    if i != place {
                        let k = if i < place { i } else { i - 1 };
                        assert(before[k] == rows@[i]);
                        if i < place {
                            assert(rows@[i].0.id < rows@[place as int].0.id);
                        } else {
                            assert(rows@[place as int].0.id < rows@[i].0.id);
                        }
                    }
                }
                lemma_tabled_is(rows@, map);
            }
        }
    }

    /// Every volume with its factor, in entity order.
    pub fn entries(&self) -> (rows: Vec<(Entity, F32)>)
        ensures
            rows@ == self.spec_rows(),
            ordered(rows@),
            tabled(rows@) == self@,
    {
        proof {
            use_type_invariant(self);
        }
        let mut rows: Vec<(Entity, F32)> = Vec::new();
        let mut next: usize = 0;
        while next < self.rows.len()
            invariant
                next <= self.rows.len(),
                rows@ == self.rows@.take(next as int),
            decreases self.rows.len() - next,
        {
            rows.push(self.rows[next]);
            assert(self.rows@.take(next + 1) =~= self.rows@.take(next as int).push(self.rows@[next as int]));
            next = next + 1;
        }
        assert(self.rows@.take(next as int) =~= self.rows@);
        rows
    }

    /// The factor of a volume.
    pub fn factor(&self, volume: Entity) -> (result: Result<F32, WalkError>)
        ensures
            match result {
                Ok(factor) => self@.contains_key(volume) && factor == self@[volume] && factor.finite()
                    && !factor.negative(),
                Err(error) => !self@.contains_key(volume) && error == (WalkError::UnknownVolume { volume }),
            },
    {
        proof {
            use_type_invariant(self);
            lemma_tabled(self.rows@);
        }
        let mut next: usize = 0;
        while next < self.rows.len()
            invariant
                next <= self.rows.len(),
                ordered(self.rows@),
                forall|i: int| 0 <= i < next ==> (#[trigger] self.rows@[i]).0 != volume,
                forall|i: int|
                    0 <= i < self.rows@.len() ==> tabled(self.rows@).contains_key((#[trigger] self.rows@[i]).0)
                        && tabled(self.rows@)[self.rows@[i].0] == self.rows@[i].1,
            decreases self.rows.len() - next,
        {
            if self.rows[next].0.id == volume.id {
                return Ok(self.rows[next].1);
            }
            next = next + 1;
        }
        Err(WalkError::UnknownVolume { volume })
    }
}

impl Clone for VolumeTable {
    fn clone(&self) -> (table: VolumeTable)
        ensures
            table@ == self@,
            table.spec_rows() == self.spec_rows(),
    {
        VolumeTable { rows: self.entries() }
    }
}

impl Default for VolumeTable {
    /// The table that carries no volume.
    fn default() -> (table: VolumeTable)
        ensures
            table@ == Map::<Entity, F32>::empty(),
    {
        VolumeTable { rows: Vec::new() }
    }
}

} // verus!
