//! One stable sort, on keys that are rows of integers.

use vstd::prelude::*;

verus! {

/// Rows compare at the first place where they differ.
pub open spec fn row_less(a: Seq<u64>, b: Seq<u64>) -> bool
    decreases a.len(),
{
    if a.len() == 0 || b.len() == 0 {
        a.len() == 0 && b.len() > 0
    } else if a[0] != b[0] {
        a[0] < b[0]
    } else {
        row_less(a.drop_first(), b.drop_first())
    }
}

/// Item `x` stands before item `y`: by its row, then by its place.
pub open spec fn stands_before(rows: Seq<Vec<u64>>, x: int, y: int) -> bool {
    row_less(rows[x]@, rows[y]@) || (rows[x]@ == rows[y]@ && x < y)
}

/// `order` lists every place of `rows` once, by row and then by place.
pub open spec fn sorts(rows: Seq<Vec<u64>>, order: Seq<usize>) -> bool {
    &&& order.len() == rows.len()
    &&& forall|i: int| 0 <= i < order.len() ==> (#[trigger] order[i]) < rows.len()
    &&& forall|i: int, j: int|
        0 <= i < j < order.len() ==> stands_before(rows, #[trigger] order[i] as int, #[trigger] order[j] as int)
}

pub proof fn lemma_row_total(a: Seq<u64>, b: Seq<u64>)
    ensures
        row_less(a, b) || row_less(b, a) || a == b,
        !(row_less(a, b) && row_less(b, a)),
        a == b ==> !row_less(a, b),
    decreases a.len(),
{
    if a.len() == 0 || b.len() == 0 {
        if a.len() == 0 && b.len() == 0 {
            assert(a =~= b);
        }
    } else {
        lemma_row_total(a.drop_first(), b.drop_first());
        if a[0] == b[0] && a.drop_first() == b.drop_first() {
            assert(a =~= seq![a[0]] + a.drop_first());
            assert(b =~= seq![b[0]] + b.drop_first());
        }
    }
}

pub proof fn lemma_row_transitive(a: Seq<u64>, b: Seq<u64>, c: Seq<u64>)
    requires
        row_less(a, b),
        row_less(b, c),
    ensures
        row_less(a, c),
    decreases a.len(),
{
    if a.len() > 0 && b.len() > 0 && c.len() > 0 && a[0] == b[0] && b[0] == c[0] {
        lemma_row_transitive(a.drop_first(), b.drop_first(), c.drop_first());
    }
}

proof fn lemma_before_transitive(rows: Seq<Vec<u64>>, x: int, y: int, z: int)
    requires
        stands_before(rows, x, y),
        stands_before(rows, y, z),
    ensures
        stands_before(rows, x, z),
{
    if row_less(rows[x]@, rows[y]@) && row_less(rows[y]@, rows[z]@) {
        lemma_row_transitive(rows[x]@, rows[y]@, rows[z]@);
    }
}

proof fn lemma_suffix(a: Seq<u64>, b: Seq<u64>, i: int)
    requires
        0 <= i < a.len(),
        i < b.len(),
        a[i] == b[i],
    ensures
        row_less(a.skip(i), b.skip(i)) == row_less(a.skip(i + 1), b.skip(i + 1)),
{
    assert(a.skip(i).drop_first() =~= a.skip(i + 1));
    assert(b.skip(i).drop_first() =~= b.skip(i + 1));
}

pub(crate) fn row_before(a: &Vec<u64>, b: &Vec<u64>) -> (less: bool)
    ensures
        less == row_less(a@, b@),
{
    let mut i: usize = 0;
    assert(a@.skip(0) =~= a@);
    assert(b@.skip(0) =~= b@);
    while i < a.len() && i < b.len() && a[i] == b[i]
        invariant
            i <= a.len(),
            i <= b.len(),
            row_less(a@, b@) == row_less(a@.skip(i as int), b@.skip(i as int)),
        decreases a.len() - i,
    {
        proof {
            lemma_suffix(a@, b@, i as int);
        }
        i = i + 1;
    }
    if i < a.len() && i < b.len() {
        a[i] < b[i]
    } else {
        i == a.len() && i < b.len()
    }
}

/// The stable order of `rows`.
pub fn sort_rows(rows: &Vec<Vec<u64>>) -> (order: Vec<usize>)
    ensures
        sorts(rows@, order@),
{
    let mut order: Vec<usize> = Vec::new();
    let mut next: usize = 0;
    while next < rows.len()
        invariant
            next <= rows.len(),
            order.len() == next,
            forall|i: int| 0 <= i < order.len() ==> (#[trigger] order[i]) < next,
            forall|i: int, j: int|
                0 <= i < j < order.len() ==> stands_before(rows@, #[trigger] order[i] as int, #[trigger] order[j] as int),
        decreases rows.len() - next,
    {
        // the place after everything that is not greater
        let mut place: usize = order.len();
        while place > 0 && row_before(&rows[next], &rows[order[place - 1]])
            invariant
                place <= order.len(),
                next < rows.len(),
                order.len() == next,
                forall|i: int| 0 <= i < order.len() ==> (#[trigger] order[i]) < next,
                forall|i: int| place <= i < order.len() ==> stands_before(rows@, next as int, #[trigger] order[i] as int),
            decreases place,
        {
            place = place - 1;
        }
        let ghost before = order@;
        proof {
            if place > 0 {
                let p = before[place - 1] as int;
                lemma_row_total(rows@[next as int]@, rows@[p]@);
                assert(stands_before(rows@, p, next as int));
                assert forall|i: int| 0 <= i < place implies stands_before(rows@, #[trigger] before[i] as int, next as int) by {
                    if i < place - 1 {
                        lemma_before_transitive(rows@, before[i] as int, p, next as int);
                    }
                }
            }
        }
        order.insert(place, next);
        assert(order@ =~= before.insert(place as int, next));
        next = next + 1;
    }
    order
}

/// Two stable orders of the same rows are the same.
pub proof fn lemma_sorts_unique(rows: Seq<Vec<u64>>, a: Seq<usize>, b: Seq<usize>, n: nat)
    requires
        sorts(rows, a),
        sorts(rows, b),
        n <= rows.len(),
    ensures
        a.take(n as int) == b.take(n as int),
    decreases n,
{
    if n > 0 {
        let k = n - 1;
        lemma_sorts_unique(rows, a, b, k as nat);
        lemma_sorts_injective(rows, a);
        lemma_sorts_injective(rows, b);
        if a[k] != b[k] {
            // each head item occurs later in the other order
            let i = lemma_sorts_onto(rows, b, a[k] as int);
            let j = lemma_sorts_onto(rows, a, b[k] as int);
            if i < k {
                assert(a.take(k)[i] == b.take(k)[i]);
            }
            if j < k {
                assert(a.take(k)[j] == b.take(k)[j]);
            }
            lemma_row_total(rows[a[k] as int]@, rows[b[k] as int]@);
            assert(stands_before(rows, b[k] as int, b[i] as int));
            assert(stands_before(rows, a[k] as int, a[j] as int));
        }
        assert(a.take(n as int) =~= a.take(k).push(a[k]));
        assert(b.take(n as int) =~= b.take(k).push(b[k]));
    } else {
        assert(a.take(0) =~= b.take(0));
    }
}

proof fn lemma_sorts_injective(rows: Seq<Vec<u64>>, order: Seq<usize>)
    requires
        sorts(rows, order),
    ensures
        order.no_duplicates(),
{
    assert forall|i: int, j: int| 0 <= i < order.len() && 0 <= j < order.len() && i != j implies order[i] != order[j] by {
        if order[i] == order[j] {
            lemma_row_total(rows[order[i] as int]@, rows[order[i] as int]@);
            if i < j {
                assert(stands_before(rows, order[i] as int, order[j] as int));
            } else {
                assert(stands_before(rows, order[j] as int, order[i] as int));
            }
        }
    }
}

/// Every place of `rows` occurs in a stable order.
pub proof fn lemma_sorts_onto(rows: Seq<Vec<u64>>, order: Seq<usize>, x: int) -> (i: int)
    requires
        sorts(rows, order),
        0 <= x < rows.len(),
    ensures
        0 <= i < order.len(),
        order[i] == x,
{
    lemma_sorts_injective(rows, order);
    let n = rows.len();
    let places = Seq::new(order.len(), |i: int| order[i] as int);
    let all = vstd::set_lib::set_int_range(0, n as int);
    vstd::set_lib::lemma_int_range(0, n as int);
    places.unique_seq_to_set();
    assert(places.to_set().subset_of(all)) by {
        assert forall|y: int| places.to_set().contains(y) implies all.contains(y) by {
            let i = choose|i: int| 0 <= i < places.len() && places[i] == y;
            assert(order[i] < n);
        }
    }
    vstd::set_lib::lemma_subset_equality(places.to_set(), all);
    assert(places.to_set().contains(x));
    choose|i: int| 0 <= i < places.len() && places[i] == x
}

} // verus!
