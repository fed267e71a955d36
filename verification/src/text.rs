//! Names: how they compare, and a table keyed by them.

use vstd::prelude::*;
use vstd::string::StrSliceExecFns;
use vstd::string::StringExecFns;

verus! {

/// Names order by their first differing character, a shorter name before a longer one.
pub open spec fn before(a: Seq<char>, b: Seq<char>) -> bool
    decreases a.len(),
{
    if a.len() == 0 || b.len() == 0 {
        a.len() == 0 && b.len() > 0
    } else if a[0] != b[0] {
        (a[0] as int) < (b[0] as int)
    } else {
        before(a.drop_first(), b.drop_first())
    }
}

pub proof fn lemma_before_total(a: Seq<char>, b: Seq<char>)
    ensures
        before(a, b) || before(b, a) || a == b,
        !(before(a, b) && before(b, a)),
        a == b ==> !before(a, b),
    decreases a.len(),
{
    if a.len() == 0 || b.len() == 0 {
        if a.len() == 0 && b.len() == 0 {
            assert(a =~= b);
        }
    } else {
        lemma_before_total(a.drop_first(), b.drop_first());
        if a[0] == b[0] && a.drop_first() == b.drop_first() {
            assert(a =~= seq![a[0]] + a.drop_first());
            assert(b =~= seq![b[0]] + b.drop_first());
        }
    }
}

pub proof fn lemma_before_transitive(a: Seq<char>, b: Seq<char>, c: Seq<char>)
    requires
        before(a, b),
        before(b, c),
    ensures
        before(a, c),
    decreases a.len(),
{
    if a.len() > 0 && b.len() > 0 && c.len() > 0 && a[0] == b[0] && b[0] == c[0] {
        lemma_before_transitive(a.drop_first(), b.drop_first(), c.drop_first());
    }
}

/// Whether one name stands before the other.
pub fn is_before(a: &String, b: &String) -> (yes: bool)
    ensures
        yes == before(a@, b@),
{
    let first: &str = a.as_str();
    let second: &str = b.as_str();
    let n: usize = first.unicode_len();
    let m: usize = second.unicode_len();
    let mut i: usize = 0;
    assert(a@.skip(0) =~= a@);
    assert(b@.skip(0) =~= b@);
    while i < n && i < m
        invariant
            first@ == a@,
            second@ == b@,
            n == a@.len(),
            m == b@.len(),
            i <= n,
            i <= m,
            before(a@, b@) == before(a@.skip(i as int), b@.skip(i as int)),
        decreases n - i,
    {
        let x: char = first.get_char(i);
        let y: char = second.get_char(i);
        assert(a@.skip(i as int)[0] == x);
        assert(b@.skip(i as int)[0] == y);
        if x != y {
            return (x as u32) < (y as u32);
        }
        assert(a@.skip(i as int).drop_first() =~= a@.skip(i + 1));
        assert(b@.skip(i as int).drop_first() =~= b@.skip(i + 1));
        i = i + 1;
    }
    i == n && i < m
}

/// Whether a name starts with a prefix.
pub fn starts_with(name: &str, prefix: &str) -> (yes: bool)
    ensures
        yes == prefix@.is_prefix_of(name@),
{
    let n: usize = name.unicode_len();
    let m: usize = prefix.unicode_len();
    if m > n {
        return false;
    }
    let mut i: usize = 0;
    while i < m
        invariant
            n == name@.len(),
            m == prefix@.len(),
            i <= m <= n,
            forall|j: int| 0 <= j < i ==> prefix@[j] == name@[j],
        decreases m - i,
    {
        if name.get_char(i) != prefix.get_char(i) {
            assert(prefix@[i as int] != name@.subrange(0, m as int)[i as int]);
            return false;
        }
        i = i + 1;
    }
    assert(prefix@ =~= name@.subrange(0, m as int));
    true
}

/// Whether two names are the same.
pub fn same_text(a: &str, b: &str) -> (yes: bool)
    ensures
        yes == (a@ == b@),
{
    let yes: bool = a.unicode_len() == b.unicode_len() && starts_with(a, b);
    proof {
        if yes {
            assert(a@ =~= b@);
        }
    }
    yes
}

/// A digit.
pub open spec fn digit(d: nat) -> Seq<char> {
    if d == 0 {
        "0"@
    } else if d == 1 {
        "1"@
    } else if d == 2 {
        "2"@
    } else if d == 3 {
        "3"@
    } else if d == 4 {
        "4"@
    } else if d == 5 {
        "5"@
    } else if d == 6 {
        "6"@
    } else if d == 7 {
        "7"@
    } else if d == 8 {
        "8"@
    } else {
        "9"@
    }
}

/// A number in decimal digits.
pub open spec fn decimal_of(n: nat) -> Seq<char>
    decreases n,
{
    if n < 10 {
        digit(n)
    } else {
        decimal_of(n / 10) + digit(n % 10)
    }
}

pub fn decimal(n: u64) -> (text: String)
    ensures
        text@ == decimal_of(n as nat),
    decreases n,
{
    let d: u64 = n % 10;
    let last: &str = if d == 0 {
        "0"
    } else if d == 1 {
        "1"
    } else if d == 2 {
        "2"
    } else if d == 3 {
        "3"
    } else if d == 4 {
        "4"
    } else if d == 5 {
        "5"
    } else if d == 6 {
        "6"
    } else if d == 7 {
        "7"
    } else if d == 8 {
        "8"
    } else {
        "9"
    };
    if n < 10 {
        last.to_owned()
    } else {
        decimal(n / 10).concat(last)
    }
}

/// A character that is a decimal digit.
pub open spec fn is_digit(c: char) -> bool {
    48 <= c as int <= 57
}

/// The value of decimal digits, the last counting ones.
pub open spec fn digits_value(s: Seq<char>) -> int
    decreases s.len(),
{
    if s.len() == 0 {
        0
    } else {
        digits_value(s.drop_last()) * 10 + (s.last() as int - 48)
    }
}

/// At least one character, and all of them digits.
pub open spec fn all_digits(s: Seq<char>) -> bool {
    s.len() > 0 && forall|i: int| 0 <= i < s.len() ==> is_digit(#[trigger] s[i])
}

/// What follows a plus sign, or all of it where there is none.
pub open spec fn unsigned(s: Seq<char>) -> Seq<char> {
    if s.len() > 0 && s[0] as int == 43 {
        s.drop_first()
    } else {
        s
    }
}

/// The whole number that a text spells in decimal, where it spells one of 64 bits.
pub open spec fn numeral(s: Seq<char>) -> Option<u64> {
    if all_digits(unsigned(s)) && digits_value(unsigned(s)) <= u64::MAX {
        Some(digits_value(unsigned(s)) as u64)
    } else {
        None
    }
}

proof fn lemma_digits_grow(s: Seq<char>, i: int)
    requires
        0 <= i <= s.len(),
        forall|j: int| 0 <= j < s.len() ==> is_digit(#[trigger] s[j]),
    ensures
        0 <= digits_value(s.take(i)) <= digits_value(s),
    decreases s.len(),
{
    if i == s.len() {
        assert(s.take(i) =~= s);
        if s.len() > 0 {
            lemma_digits_grow(s.drop_last(), s.len() - 1);
            assert(s.drop_last().take(s.len() - 1) =~= s.drop_last());
        }
    } else {
        lemma_digits_grow(s.drop_last(), i);
        assert(s.drop_last().take(i) =~= s.take(i));
    }
}

/// Reads a whole number in decimal.
pub fn parse_whole(name: &str) -> (value: Option<u64>)
    ensures
        value == numeral(name@),
{
    let n: usize = name.unicode_len();
    let signed: bool = n > 0 && name.get_char(0) as u32 == 43;
    let start: usize = if signed {
        1
    } else {
        0
    };
    let ghost body = unsigned(name@);
    assert(body =~= name@.skip(start as int));
    if n == start {
        return None;
    }
    let mut value: u64 = 0;
    let mut i: usize = start;
    while i < n
        invariant
            n == name@.len(),
            start <= i <= n,
            body == name@.skip(start as int),
            body == unsigned(name@),
            body.len() > 0,
            forall|j: int| 0 <= j < i - start ==> is_digit(#[trigger] body[j]),
            value == digits_value(body.take(i - start)),
        decreases n - i,
    {
        let c: u32 = name.get_char(i) as u32;
        assert(body[i - start] as int == c);
        if c < 48 || c > 57 {
            return None;
        }
        proof {
            let next = body.take(i + 1 - start);
            assert(next.drop_last() =~= body.take(i - start));
            assert(next.last() == body[i - start]);
            if all_digits(body) {
                lemma_digits_grow(body, i + 1 - start);
            }
        }
        match value.checked_mul(10) {
            None => {
                return None;
            },
            Some(tens) => match tens.checked_add((c - 48) as u64) {
                None => {
                    return None;
                },
                Some(sum) => {
                    value = sum;
                },
            },
        }
        i = i + 1;
    }
    assert(body.take(i - start) =~= body);
    Some(value)
}

proof fn lemma_digit(d: nat)
    requires
        d < 10,
    ensures
        digit(d).len() == 1,
        digit(d)[0] as int == 48 + d,
{
    reveal_strlit("0");
    reveal_strlit("1");
    reveal_strlit("2");
    reveal_strlit("3");
    reveal_strlit("4");
    reveal_strlit("5");
    reveal_strlit("6");
    reveal_strlit("7");
    reveal_strlit("8");
    reveal_strlit("9");
}

proof fn lemma_decimal(n: nat)
    ensures
        all_digits(decimal_of(n)),
        digits_value(decimal_of(n)) == n,
    decreases n,
{
    let s = decimal_of(n);
    if n < 10 {
        lemma_digit(n);
        assert(s.drop_last() =~= Seq::<char>::empty());
        assert(digits_value(s.drop_last()) == 0);
    } else {
        lemma_decimal(n / 10);
        lemma_digit(n % 10);
        assert(s.drop_last() =~= decimal_of(n / 10));
        assert forall|i: int| 0 <= i < s.len() implies is_digit(#[trigger] s[i]) by {
            if i < s.len() - 1 {
                assert(s[i] == decimal_of(n / 10)[i]);
            }
        }
    }
}

/// A number written in decimal reads back.
pub proof fn law_decimal_reads_back(n: u64)
    ensures
        numeral(decimal_of(n as nat)) == Some(n),
{
    lemma_decimal(n as nat);
    assert(is_digit(decimal_of(n as nat)[0]));
}

/// Values by name, listed in the order of the names.
pub struct Table<T> {
    rows: Vec<(String, T)>,
}

/// The names rise.
pub open spec fn in_order<T>(rows: Seq<(String, T)>) -> bool {
    forall|i: int, j: int| 0 <= i < j < rows.len() ==> before((#[trigger] rows[i]).0@, (#[trigger] rows[j]).0@)
}

/// Some row has the name.
pub open spec fn has_row<T>(rows: Seq<(String, T)>, name: Seq<char>) -> bool {
    exists|i: int| 0 <= i < rows.len() && (#[trigger] rows[i]).0@ == name
}

/// The value in the row with the name.
pub open spec fn row_value<T>(rows: Seq<(String, T)>, name: Seq<char>) -> T {
    rows[choose|i: int| 0 <= i < rows.len() && (#[trigger] rows[i]).0@ == name].1
}

/// The rows as a mapping.
pub open spec fn mapped<T>(rows: Seq<(String, T)>) -> Map<Seq<char>, T> {
    Map::new(|name: Seq<char>| has_row(rows, name), |name: Seq<char>| row_value(rows, name))
}

impl<T> View for Table<T> {
    type V = Map<Seq<char>, T>;

    closed spec fn view(&self) -> Map<Seq<char>, T> {
        mapped(self.rows@)
    }
}

proof fn lemma_row<T>(rows: Seq<(String, T)>, i: int)
    requires
        in_order(rows),
        0 <= i < rows.len(),
    ensures
        has_row(rows, rows[i].0@),
        row_value(rows, rows[i].0@) == rows[i].1,
{
    let name = rows[i].0@;
    let k = choose|k: int| 0 <= k < rows.len() && (#[trigger] rows[k]).0@ == name;
    lemma_before_total(name, name);
    if k < i {
        assert(before(rows[k].0@, rows[i].0@));
    } else if i < k {
        assert(before(rows[i].0@, rows[k].0@));
    }
}

impl<T> Table<T> {
    #[verifier::type_invariant]
    spec fn well_formed(self) -> bool {
        in_order(self.rows@)
    }
}

impl<T: Copy> Table<T> {

    pub fn new() -> (table: Table<T>)
        ensures
            table@ == Map::<Seq<char>, T>::empty(),
    {
        let table: Table<T> = Table { rows: Vec::new() };
        assert(table@ =~= Map::<Seq<char>, T>::empty());
        table
    }

    pub fn len(&self) -> (count: usize)
        ensures
            count == self.listed().len(),
            count == 0 <==> self@ == Map::<Seq<char>, T>::empty(),
    {
        proof {
            if self.rows@.len() > 0 {
                assert(has_row(self.rows@, self.rows@[0].0@));
                assert(self@.contains_key(self.rows@[0].0@));
            } else {
                assert(self@ =~= Map::<Seq<char>, T>::empty());
            }
        }
        self.rows.len()
    }

    /// The rows, as the contracts read them.
    pub closed spec fn listed(self) -> Seq<(String, T)> {
        self.rows@
    }

    /// The rows in the order of their names.
    pub fn rows(&self) -> (rows: &Vec<(String, T)>)
        ensures
            rows@ == self.listed(),
            in_order(rows@),
            self@ == mapped(rows@),
    {
        proof {
            use_type_invariant(self);
        }
        &self.rows
    }

    /// Where the name is, or where it belongs.
    fn place(&self, name: &String) -> (at: usize)
        ensures
            at <= self.rows@.len(),
            forall|i: int| 0 <= i < at ==> before((#[trigger] self.rows@[i]).0@, name@),
            at < self.rows@.len() ==> !before(self.rows@[at as int].0@, name@),
    {
        let mut at: usize = 0;
        while at < self.rows.len() && is_before(&self.rows[at].0, name)
            invariant
                at <= self.rows@.len(),
                forall|i: int| 0 <= i < at ==> before((#[trigger] self.rows@[i]).0@, name@),
            decreases self.rows.len() - at,
        {
            at = at + 1;
        }
        at
    }

    pub fn get(&self, name: &String) -> (value: Option<T>)
        ensures
            value == if self@.contains_key(name@) {
                Some(self@[name@])
            } else {
                None
            },
    {
        proof {
            use_type_invariant(self);
        }
        let at: usize = self.place(name);
        if at < self.rows.len() && self.rows[at].0 == *name {
            proof {
                lemma_row(self.rows@, at as int);
            }
            return Some(self.rows[at].1);
        }
        proof {
            if has_row(self.rows@, name@) {
                let k = choose|k: int| 0 <= k < self.rows@.len() && (#[trigger] self.rows@[k]).0@ == name@;
                lemma_before_total(name@, name@);
                if k > at {
                    assert(before(self.rows@[at as int].0@, self.rows@[k].0@));
                }
            }
        }
        None
    }

    pub fn set(&mut self, name: &String, value: T)
        ensures
            final(self)@ == old(self)@.insert(name@, value),
    {
        proof {
            use_type_invariant(&*self);
        }
        let ghost earlier = self.rows@;
        let at: usize = self.place(name);
        let mut rows: Vec<(String, T)> = Vec::new();
        std::mem::swap(&mut rows, &mut self.rows);
        if at < rows.len() && rows[at].0 == *name {
            rows.set(at, (name.clone(), value));
            proof {
                assert forall|i: int, j: int| 0 <= i < j < rows@.len() implies before(
                    (#[trigger] rows@[i]).0@,
                    (#[trigger] rows@[j]).0@,
                ) by {
                    assert(before(earlier[i].0@, earlier[j].0@));
                }
                lemma_set(earlier, rows@, at as int, name@, value);
            }
        } else {
            rows.insert(at, (name.clone(), value));
            proof {
                lemma_insert(earlier, rows@, at as int, name@, value);
            }
        }
        self.rows = rows;
    }
}

proof fn lemma_set<T>(a: Seq<(String, T)>, b: Seq<(String, T)>, at: int, name: Seq<char>, value: T)
    requires
        in_order(a),
        in_order(b),
        a.len() == b.len(),
        0 <= at < a.len(),
        a[at].0@ == name,
        b[at].0@ == name,
        b[at].1 == value,
        forall|i: int| 0 <= i < a.len() && i != at ==> #[trigger] b[i] == a[i],
    ensures
        mapped(b) == mapped(a).insert(name, value),
{
    lemma_row(b, at);
    lemma_row(a, at);
    assert forall|other: Seq<char>| other != name implies #[trigger] has_row(b, other) == has_row(a, other) && (has_row(
        a,
        other,
    ) ==> row_value(a, other) == row_value(b, other)) by {
        if has_row(a, other) {
            let i = choose|i: int| 0 <= i < a.len() && (#[trigger] a[i]).0@ == other;
            assert(b[i] == a[i]);
            lemma_row(a, i);
            lemma_row(b, i);
        }
        if has_row(b, other) {
            let i = choose|i: int| 0 <= i < b.len() && (#[trigger] b[i]).0@ == other;
            assert(b[i] == a[i]);
        }
    }
    assert(mapped(b) =~= mapped(a).insert(name, value));
}

proof fn lemma_insert<T>(a: Seq<(String, T)>, b: Seq<(String, T)>, at: int, name: Seq<char>, value: T)
    requires
        in_order(a),
        0 <= at <= a.len(),
        forall|i: int| 0 <= i < at ==> before((#[trigger] a[i]).0@, name),
        at < a.len() ==> !before(a[at].0@, name) && a[at].0@ != name,
        b == a.insert(at, b[at]),
        b[at].0@ == name,
        b[at].1 == value,
    ensures
        in_order(b),
        mapped(b) == mapped(a).insert(name, value),
{
    assert forall|i: int, j: int| 0 <= i < j < b.len() implies before((#[trigger] b[i]).0@, (#[trigger] b[j]).0@) by {
        if j == at {
            assert(b[i] == a[i]);
        } else if i == at {
            assert(b[j] == a[j - 1]);
            lemma_before_total(a[at].0@, name);
            if j - 1 > at {
                assert(before(a[at].0@, a[j - 1].0@));
                lemma_before_transitive(name, a[at].0@, a[j - 1].0@);
            }
        } else {
            let x = if i < at {
                i
            } else {
                i - 1
            };
            let y = if j < at {
                j
            } else {
                j - 1
            };
            assert(b[i] == a[x] && b[j] == a[y]);
        }
    }
    lemma_row(b, at);
    assert forall|other: Seq<char>| other != name implies #[trigger] has_row(b, other) == has_row(a, other) && (has_row(
        a,
        other,
    ) ==> row_value(a, other) == row_value(b, other)) by {
        if has_row(a, other) {
            let i = choose|i: int| 0 <= i < a.len() && (#[trigger] a[i]).0@ == other;
            let y = if i < at {
                i
            } else {
                i + 1
            };
            assert(b[y] == a[i]);
            lemma_row(a, i);
            lemma_row(b, y);
        }
        if has_row(b, other) {
            let y = choose|y: int| 0 <= y < b.len() && (#[trigger] b[y]).0@ == other;
            let i = if y < at {
                y
            } else {
                y - 1
            };
            assert(a[i] == b[y]);
        }
    }
    assert(mapped(b) =~= mapped(a).insert(name, value));
}

} // verus!
