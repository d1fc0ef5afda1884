//! A map from byte strings to values, kept as rows in the order of their keys.
//!
//! No key occurs twice and the rows stand in one fixed order, so a map has
//! exactly one sequence of rows. That is what lets a record be written to
//! bytes in one way only.

use vstd::prelude::*;

verus! {

/// `a` comes before `b`, and position `n` decides it: the two agree on the
/// first `n` bytes, and there `a` ends or has the smaller byte.
pub open spec fn precedes_at(a: Seq<u8>, b: Seq<u8>, n: int) -> bool {
    &&& 0 <= n <= a.len()
    &&& n < b.len()
    &&& forall|j: int| 0 <= j < n ==> a[j] == b[j]
    &&& (n == a.len() || a[n] < b[n])
}

/// `a` comes before `b` in the order of the dictionary, byte by byte.
pub open spec fn key_lt(a: Seq<u8>, b: Seq<u8>) -> bool {
    exists|n: int| precedes_at(a, b, n)
}

/// No byte string comes before itself.
pub proof fn lemma_key_lt_irreflexive(a: Seq<u8>)
    ensures
        !key_lt(a, a),
{
}

/// Of two byte strings at most one comes before the other.
pub proof fn lemma_key_lt_asymmetric(a: Seq<u8>, b: Seq<u8>)
    requires
        key_lt(a, b),
    ensures
        !key_lt(b, a),
{
    let n = choose|n: int| precedes_at(a, b, n);
    if key_lt(b, a) {
        let m = choose|m: int| precedes_at(b, a, m);
        if m < n {
            assert(a[m] == b[m]);
        } else if n < m {
            assert(b[n] == a[n]);
        }
    }
}

/// What comes before something that comes before `c` comes before `c`.
pub proof fn lemma_key_lt_transitive(a: Seq<u8>, b: Seq<u8>, c: Seq<u8>)
    requires
        key_lt(a, b),
        key_lt(b, c),
    ensures
        key_lt(a, c),
{
    let n = choose|n: int| precedes_at(a, b, n);
    let m = choose|m: int| precedes_at(b, c, m);
    if n <= m {
        assert(precedes_at(a, c, n));
    } else {
        assert(a[m] == b[m]);
        assert(precedes_at(a, c, m));
    }
}

/// How one byte string stands to another in the order of the keys.
#[derive(Clone, Copy, Debug, PartialEq, Eq, Structural)]
pub enum Rank {
    /// It comes first.
    Before,
    /// The two are the same.
    Same,
    /// It comes second.
    After,
}

/// Compares two byte strings in the order of the keys.
pub fn compare(a: &[u8], b: &[u8]) -> (rank: Rank)
    ensures
        rank is Before <==> key_lt(a@, b@),
        rank is Same <==> a@ == b@,
        rank is After <==> key_lt(b@, a@),
{
    let mut i: usize = 0;
    while i < a.len() && i < b.len()
        invariant
            i <= a@.len(),
            i <= b@.len(),
            forall|j: int| 0 <= j < i ==> a@[j] == b@[j],
        decreases a@.len() - i,
    {
        if a[i] < b[i] {
            proof {
                assert(precedes_at(a@, b@, i as int));
                lemma_key_lt_asymmetric(a@, b@);
                lemma_key_lt_irreflexive(a@);
            }
            return Rank::Before;
        }
        if a[i] > b[i] {
            proof {
                assert(precedes_at(b@, a@, i as int));
                lemma_key_lt_asymmetric(b@, a@);
                lemma_key_lt_irreflexive(a@);
            }
            return Rank::After;
        }
        i += 1;
    }
    if a.len() < b.len() {
        proof {
            assert(precedes_at(a@, b@, i as int));
            lemma_key_lt_asymmetric(a@, b@);
            lemma_key_lt_irreflexive(a@);
        }
        Rank::Before
    } else if b.len() < a.len() {
        proof {
            assert(precedes_at(b@, a@, i as int));
            lemma_key_lt_asymmetric(b@, a@);
            lemma_key_lt_irreflexive(a@);
        }
        Rank::After
    } else {
        proof {
            assert(a@ =~= b@);
            lemma_key_lt_irreflexive(a@);
        }
        Rank::Same
    }
}

/// Whether the keys of `rows` strictly ascend, so that none occurs twice.
pub open spec fn ascending<V>(rows: Seq<(Seq<u8>, V)>) -> bool {
    forall|i: int, j: int|
        0 <= i < j < rows.len() ==> key_lt((#[trigger] rows[i]).0, (#[trigger] rows[j]).0)
}

/// Whether row `i` of `rows` has the key `key`.
pub open spec fn row_has_key<V>(rows: Seq<(Seq<u8>, V)>, key: Seq<u8>, i: int) -> bool {
    0 <= i < rows.len() && rows[i].0 == key
}

/// The map that `rows` spell out: each key to the value of a row that has it.
pub open spec fn rows_map<V>(rows: Seq<(Seq<u8>, V)>) -> Map<Seq<u8>, V> {
    Map::new(
        |key: Seq<u8>| exists|i: int| row_has_key(rows, key, i),
        |key: Seq<u8>| rows[choose|i: int| row_has_key(rows, key, i)].1,
    )
}

/// In ascending rows a key stands in one row only, and the map holds that
/// row's value for it.
pub proof fn lemma_row_in_map<V>(rows: Seq<(Seq<u8>, V)>, i: int)
    requires
        ascending(rows),
        0 <= i < rows.len(),
    ensures
        rows_map(rows).contains_key(rows[i].0),
        rows_map(rows)[rows[i].0] == rows[i].1,
{
    let key = rows[i].0;
    assert(row_has_key(rows, key, i));
    let j = choose|j: int| row_has_key(rows, key, j);
    lemma_key_lt_irreflexive(key);
    if j < i {
        assert(key_lt(rows[j].0, rows[i].0));
    } else if i < j {
        assert(key_lt(rows[i].0, rows[j].0));
    }
}

/// A map has one sequence of ascending rows at most.
pub proof fn lemma_rows_unique<V>(a: Seq<(Seq<u8>, V)>, b: Seq<(Seq<u8>, V)>)
    requires
        ascending(a),
        ascending(b),
        rows_map(a) == rows_map(b),
    ensures
        a == b,
    decreases a.len(),
{
    if a.len() == 0 {
        if b.len() > 0 {
            lemma_row_in_map(b, 0);
            let i = choose|i: int| row_has_key(a, b[0].0, i);
            assert(row_has_key(a, b[0].0, i));
        }
        assert(a =~= b);
    } else {
        let last = a.len() - 1;
        lemma_row_in_map(a, last);
        let at = choose|i: int| row_has_key(b, a[last].0, i);
        assert(row_has_key(b, a[last].0, at));
        let end = b.len() - 1;
        lemma_row_in_map(b, end);
        let back = choose|i: int| row_has_key(a, b[end].0, i);
        assert(row_has_key(a, b[end].0, back));
        // Each last key occurs in the other sequence, so neither is the greater.
        if at < end {
            assert(key_lt(b[at].0, b[end].0));
            if back < last {
                assert(key_lt(a[back].0, a[last].0));
                lemma_key_lt_asymmetric(b[at].0, b[end].0);
            }
            lemma_key_lt_irreflexive(a[last].0);
        }
        assert(at == end);
        lemma_row_in_map(b, at);
        assert(a[last] == b[end]);
        let a0 = a.drop_last();
        let b0 = b.drop_last();
        assert(ascending(a0)) by {
            assert forall|i: int, j: int| 0 <= i < j < a0.len() implies key_lt(
                (#[trigger] a0[i]).0,
                (#[trigger] a0[j]).0,
            ) by {
                assert(key_lt(a[i].0, a[j].0));
            }
        }
        assert(ascending(b0)) by {
            assert forall|i: int, j: int| 0 <= i < j < b0.len() implies key_lt(
                (#[trigger] b0[i]).0,
                (#[trigger] b0[j]).0,
            ) by {
                assert(key_lt(b[i].0, b[j].0));
            }
        }
        lemma_drop_last_map(a);
        lemma_drop_last_map(b);
        lemma_rows_unique(a0, b0);
        assert(a =~= a0.push(a[last]));
        assert(b =~= b0.push(b[end]));
    }
}

/// Without their last row, ascending rows spell the map without its key.
proof fn lemma_drop_last_map<V>(rows: Seq<(Seq<u8>, V)>)
    requires
        ascending(rows),
        rows.len() > 0,
    ensures
        rows_map(rows.drop_last()) == rows_map(rows).remove(rows.last().0),
{
    let short = rows.drop_last();
    let gone = rows.last().0;
    assert forall|key: Seq<u8>| #[trigger]
        rows_map(short).contains_key(key) == rows_map(rows).remove(gone).contains_key(key) by {
        if rows_map(short).contains_key(key) {
            let i = choose|i: int| row_has_key(short, key, i);
            assert(row_has_key(rows, key, i));
            assert(key_lt(rows[i].0, rows[rows.len() - 1].0));
            lemma_key_lt_irreflexive(gone);
        }
        if rows_map(rows).remove(gone).contains_key(key) {
            let i = choose|i: int| row_has_key(rows, key, i);
            assert(row_has_key(short, key, i));
        }
    }
    assert forall|key: Seq<u8>| #[trigger]
        rows_map(short).contains_key(key) implies rows_map(short)[key] == rows_map(rows).remove(
        gone,
    )[key] by {
        let i = choose|i: int| row_has_key(short, key, i);
        assert(ascending(short)) by {
            assert forall|i: int, j: int| 0 <= i < j < short.len() implies key_lt(
                (#[trigger] short[i]).0,
                (#[trigger] short[j]).0,
            ) by {
                assert(key_lt(rows[i].0, rows[j].0));
            }
        }
        lemma_row_in_map(short, i);
        lemma_row_in_map(rows, i);
    }
    assert(rows_map(short) =~= rows_map(rows).remove(gone));
}

/// The rows with `f` applied to each value; the keys stay.
pub open spec fn lift_rows<V, W>(rows: Seq<(Seq<u8>, V)>, f: spec_fn(V) -> W) -> Seq<
    (Seq<u8>, W),
> {
    Seq::new(rows.len(), |i: int| (rows[i].0, f(rows[i].1)))
}

/// Applying `f` to the value of each row is applying it to each value of
/// the map.
pub proof fn lemma_lift_rows<V, W>(rows: Seq<(Seq<u8>, V)>, f: spec_fn(V) -> W)
    requires
        ascending(rows),
    ensures
        ascending(lift_rows(rows, f)),
        rows_map(lift_rows(rows, f)) == rows_map(rows).map_values(f),
{
    let lifted = lift_rows(rows, f);
    assert(ascending(lifted)) by {
        assert forall|a: int, b: int| 0 <= a < b < lifted.len() implies key_lt(
            (#[trigger] lifted[a]).0,
            (#[trigger] lifted[b]).0,
        ) by {
            assert(key_lt(rows[a].0, rows[b].0));
        }
    }
    assert forall|k: Seq<u8>| #[trigger]
        rows_map(lifted).contains_key(k) == rows_map(rows).map_values(f).contains_key(k) by {
        if rows_map(lifted).contains_key(k) {
            let j = choose|j: int| row_has_key(lifted, k, j);
            assert(row_has_key(rows, k, j));
        }
        if rows_map(rows).contains_key(k) {
            let j = choose|j: int| row_has_key(rows, k, j);
            assert(row_has_key(lifted, k, j));
        }
    }
    assert forall|k: Seq<u8>| #[trigger]
        rows_map(lifted).contains_key(k) implies rows_map(lifted)[k] == rows_map(rows).map_values(
        f,
    )[k] by {
        let j = choose|j: int| row_has_key(lifted, k, j);
        lemma_row_in_map(lifted, j);
        lemma_row_in_map(rows, j);
    }
    assert(rows_map(lifted) =~= rows_map(rows).map_values(f));
}

/// A map from byte strings to values of `V`.
#[derive(Clone, Debug, PartialEq, Eq)]
pub struct Table<V> {
    keys: Vec<Vec<u8>>,
    values: Vec<V>,
}

impl<V> View for Table<V> {
    type V = Map<Seq<u8>, V>;

    /// The map that the table holds.
    open spec fn view(&self) -> Map<Seq<u8>, V> {
        rows_map(self.rows())
    }
}

impl<V> Table<V> {
    /// The rows of the table, in the order in which it keeps them.
    pub closed spec fn rows(&self) -> Seq<(Seq<u8>, V)> {
        Seq::new(self.keys@.len(), |i: int| (self.keys@[i]@, self.values@[i]))
    }

    /// Whether the table is in order: one value for each key, and the keys
    /// ascending.
    pub closed spec fn wf(&self) -> bool {
        &&& self.keys@.len() == self.values@.len()
        &&& ascending(self.rows())
    }

    /// The rows of a table in order ascend.
    pub proof fn lemma_ascending(&self)
        requires
            self.wf(),
        ensures
            ascending(self.rows()),
    {
    }

    /// The empty table.
    pub fn new() -> (table: Self)
        ensures
            table.wf(),
            table.rows() == Seq::<(Seq<u8>, V)>::empty(),
    {
        let table = Table { keys: Vec::new(), values: Vec::new() };
        assert(table.rows() =~= Seq::<(Seq<u8>, V)>::empty());
        table
    }

    /// The number of rows.
    pub fn len(&self) -> (n: usize)
        requires
            self.wf(),
        ensures
            n == self.rows().len(),
    {
        self.keys.len()
    }

    /// The key of row `i`.
    pub fn key_at(&self, i: usize) -> (key: &Vec<u8>)
        requires
            self.wf(),
            i < self.rows().len(),
        ensures
            key@ == self.rows()[i as int].0,
    {
        &self.keys[i]
    }

    /// The value of row `i`.
    pub fn value_at(&self, i: usize) -> (value: &V)
        requires
            self.wf(),
            i < self.rows().len(),
        ensures
            *value == self.rows()[i as int].1,
    {
        &self.values[i]
    }

    /// The value of row `i`, to be changed in place. The key stays.
    pub fn value_at_mut(&mut self, i: usize) -> (value: &mut V)
        requires
            old(self).wf(),
            i < old(self).rows().len(),
        ensures
            *value == old(self).rows()[i as int].1,
            final(self).wf(),
            final(self).rows() == old(self).rows().update(
                i as int,
                (old(self).rows()[i as int].0, *final(value)),
            ),
    {
        let ghost before = self.rows();
        let value = &mut self.values[i];
        proof {
            lemma_update_map(before, i as int, *final(value));
            assert(after_borrow(*self).rows() =~= before.update(
                i as int,
                (before[i as int].0, *final(value)),
            ));
        }
        value
    }

    /// The first row whose key does not come before `key`, and whether that
    /// row has the key itself.
    fn locate(&self, key: &[u8]) -> (found: (usize, bool))
        requires
            self.wf(),
        ensures
            found.0 <= self.rows().len(),
            forall|j: int| 0 <= j < found.0 ==> key_lt((#[trigger] self.rows()[j]).0, key@),
            found.1 ==> found.0 < self.rows().len() && self.rows()[found.0 as int].0 == key@,
            !found.1 ==> forall|j: int|
                found.0 <= j < self.rows().len() ==> key_lt(key@, (#[trigger] self.rows()[j]).0),
    {
        let mut low: usize = 0;
        let mut high: usize = self.keys.len();
        while low < high
            invariant
                self.wf(),
                low <= high <= self.rows().len(),
                forall|j: int| 0 <= j < low ==> key_lt((#[trigger] self.rows()[j]).0, key@),
                forall|j: int|
                    high <= j < self.rows().len() ==> key_lt(key@, (#[trigger] self.rows()[j]).0),
            decreases high - low,
        {
            let mid: usize = low + (high - low) / 2;
            let ghost middle = self.rows()[mid as int].0;
            match compare(self.keys[mid].as_slice(), key) {
                Rank::Before => {
                    proof {
                        assert forall|j: int| 0 <= j < mid + 1 implies key_lt(
                            (#[trigger] self.rows()[j]).0,
                            key@,
                        ) by {
                            if j < mid {
                                assert(key_lt(self.rows()[j].0, self.rows()[mid as int].0));
                                lemma_key_lt_transitive(self.rows()[j].0, middle, key@);
                            }
                        }
                    }
                    low = mid + 1;
                },
                Rank::Same => {
                    return (mid, true);
                },
                Rank::After => {
                    proof {
                        assert forall|j: int| mid <= j < self.rows().len() implies key_lt(
                            key@,
                            (#[trigger] self.rows()[j]).0,
                        ) by {
                            if mid < j {
                                assert(key_lt(self.rows()[mid as int].0, self.rows()[j].0));
                                lemma_key_lt_transitive(key@, middle, self.rows()[j].0);
                            }
                        }
                    }
                    high = mid;
                },
            }
        }
        (low, false)
    }

    /// The row that holds `key`, if one does.
    pub fn position(&self, key: &[u8]) -> (at: Option<usize>)
        requires
            self.wf(),
        ensures
            match at {
                Some(i) => i < self.rows().len() && self.rows()[i as int].0 == key@
                    && self@.contains_key(key@) && self@[key@] == self.rows()[i as int].1,
                None => !self@.contains_key(key@),
            },
    {
        let (i, present) = self.locate(key);
        if present {
            proof {
                lemma_row_in_map(self.rows(), i as int);
            }
            Some(i)
        } else {
            proof {
                self.lemma_absent(key@, i as int);
            }
            None
        }
    }

    /// A key that falls between two neighbouring rows is in none.
    proof fn lemma_absent(&self, key: Seq<u8>, at: int)
        requires
            self.wf(),
            0 <= at <= self.rows().len(),
            forall|j: int| 0 <= j < at ==> key_lt((#[trigger] self.rows()[j]).0, key),
            forall|j: int| at <= j < self.rows().len() ==> key_lt(key, (#[trigger] self.rows()[j]).0),
        ensures
            !self@.contains_key(key),
    {
        if self@.contains_key(key) {
            let j = choose|j: int| row_has_key(self.rows(), key, j);
            lemma_key_lt_irreflexive(key);
            assert(key_lt(self.rows()[j].0, key) || key_lt(key, self.rows()[j].0));
        }
    }

    /// Whether the table holds `key`.
    pub fn contains_key(&self, key: &[u8]) -> (held: bool)
        requires
            self.wf(),
        ensures
            held == self@.contains_key(key@),
    {
        self.position(key).is_some()
    }

    /// The value that the table holds for `key`.
    pub fn get(&self, key: &[u8]) -> (value: Option<&V>)
        requires
            self.wf(),
        ensures
            match value {
                Some(v) => self@.contains_key(key@) && *v == self@[key@],
                None => !self@.contains_key(key@),
            },
    {
        match self.position(key) {
            Some(i) => Some(&self.values[i]),
            None => None,
        }
    }

    /// Puts `value` under `key` and hands back the value it replaces.
    pub fn insert(&mut self, key: Vec<u8>, value: V) -> (replaced: Option<V>)
        requires
            old(self).wf(),
        ensures
            final(self).wf(),
            final(self)@ == old(self)@.insert(key@, value),
            replaced == if old(self)@.contains_key(key@) {
                Some(old(self)@[key@])
            } else {
                None::<V>
            },
    {
        let (i, present) = self.locate(key.as_slice());
        let ghost before = self.rows();
        if present {
            proof {
                lemma_row_in_map(before, i as int);
            }
            let mut value = value;
            core::mem::swap(&mut self.values[i], &mut value);
            proof {
                let after = self.rows();
                assert(after =~= before.update(i as int, (key@, self.values@[i as int])));
                lemma_update_map(before, i as int, self.values@[i as int]);
            }
            Some(value)
        } else {
            proof {
                self.lemma_absent(key@, i as int);
            }
            self.keys.insert(i, key);
            self.values.insert(i, value);
            proof {
                let after = self.rows();
                assert(after =~= before.insert(i as int, (key@, value)));
                lemma_insert_map(before, i as int, key@, value);
            }
            None
        }
    }

    /// Puts a row at the end of the table, where `key` comes behind every key
    /// that the table holds; else leaves the table as it is.
    pub fn append(&mut self, key: Vec<u8>, value: V) -> (done: bool)
        requires
            old(self).wf(),
        ensures
            final(self).wf(),
            done == (old(self).rows().len() == 0 || key_lt(old(self).rows().last().0, key@)),
            final(self).rows() == if done {
                old(self).rows().push((key@, value))
            } else {
                old(self).rows()
            },
    {
        let n: usize = self.keys.len();
        let ghost before = self.rows();
        if n > 0 {
            match compare(self.keys[n - 1].as_slice(), key.as_slice()) {
                Rank::Before => {},
                _ => {
                    return false;
                },
            }
        }
        proof {
            assert forall|j: int| 0 <= j < before.len() implies key_lt(
                (#[trigger] before[j]).0,
                key@,
            ) by {
                if j < n - 1 {
                    assert(key_lt(before[j].0, before[n - 1].0));
                    lemma_key_lt_transitive(before[j].0, before[n - 1].0, key@);
                }
            }
            lemma_insert_map(before, n as int, key@, value);
        }
        self.keys.push(key);
        self.values.push(value);
        proof {
            assert(self.rows() =~= before.push((key@, value)));
            assert(before.insert(n as int, (key@, value)) =~= before.push((key@, value)));
        }
        true
    }

    /// Takes `key` out of the table and hands back the value it had.
    pub fn remove(&mut self, key: &[u8]) -> (removed: Option<V>)
        requires
            old(self).wf(),
        ensures
            final(self).wf(),
            final(self)@ == old(self)@.remove(key@),
            removed == if old(self)@.contains_key(key@) {
                Some(old(self)@[key@])
            } else {
                None::<V>
            },
    {
        let (i, present) = self.locate(key);
        let ghost before = self.rows();
        if present {
            proof {
                lemma_row_in_map(before, i as int);
            }
            self.keys.remove(i);
            let value = self.values.remove(i);
            proof {
                let after = self.rows();
                assert(after =~= before.remove(i as int));
                lemma_remove_map(before, i as int);
            }
            Some(value)
        } else {
            proof {
                self.lemma_absent(key@, i as int);
                assert(self@ =~= old(self)@.remove(key@));
            }
            None
        }
    }

    /// Empties the table.
    pub fn clear(&mut self)
        ensures
            final(self).wf(),
            final(self).rows() == Seq::<(Seq<u8>, V)>::empty(),
    {
        self.keys.clear();
        self.values.clear();
        assert(self.rows() =~= Seq::<(Seq<u8>, V)>::empty());
    }
}

/// The empty sequence of rows spells the empty map.
pub proof fn lemma_no_rows_map<V>()
    ensures
        rows_map(Seq::<(Seq<u8>, V)>::empty()) == Map::<Seq<u8>, V>::empty(),
{
    assert(rows_map(Seq::<(Seq<u8>, V)>::empty()) =~= Map::<Seq<u8>, V>::empty());
}

/// A new value in row `i` is a new value under that row's key.
pub proof fn lemma_update_map<V>(rows: Seq<(Seq<u8>, V)>, i: int, value: V)
    requires
        ascending(rows),
        0 <= i < rows.len(),
    ensures
        ascending(rows.update(i, (rows[i].0, value))),
        rows_map(rows.update(i, (rows[i].0, value))) == rows_map(rows).insert(rows[i].0, value),
{
    let key = rows[i].0;
    let next = rows.update(i, (key, value));
    assert(ascending(next)) by {
        assert forall|a: int, b: int| 0 <= a < b < next.len() implies key_lt(
            (#[trigger] next[a]).0,
            (#[trigger] next[b]).0,
        ) by {
            assert(key_lt(rows[a].0, rows[b].0));
        }
    }
    assert forall|k: Seq<u8>| #[trigger]
        rows_map(next).contains_key(k) == rows_map(rows).insert(key, value).contains_key(k) by {
        if rows_map(next).contains_key(k) {
            let j = choose|j: int| row_has_key(next, k, j);
            assert(row_has_key(rows, k, j));
        }
        if rows_map(rows).contains_key(k) {
            let j = choose|j: int| row_has_key(rows, k, j);
            assert(row_has_key(next, k, j));
        }
        assert(row_has_key(next, key, i));
    }
    assert forall|k: Seq<u8>| #[trigger]
        rows_map(next).contains_key(k) implies rows_map(next)[k] == rows_map(rows).insert(
        key,
        value,
    )[k] by {
        let j = choose|j: int| row_has_key(next, k, j);
        lemma_row_in_map(next, j);
        lemma_row_in_map(rows, j);
    }
    assert(rows_map(next) =~= rows_map(rows).insert(key, value));
}

/// A new row between the keys before it and the keys behind it is a new key
/// in the map.
pub proof fn lemma_insert_map<V>(rows: Seq<(Seq<u8>, V)>, i: int, key: Seq<u8>, value: V)
    requires
        ascending(rows),
        0 <= i <= rows.len(),
        forall|j: int| 0 <= j < i ==> key_lt((#[trigger] rows[j]).0, key),
        forall|j: int| i <= j < rows.len() ==> key_lt(key, (#[trigger] rows[j]).0),
    ensures
        ascending(rows.insert(i, (key, value))),
        rows_map(rows.insert(i, (key, value))) == rows_map(rows).insert(key, value),
{
    let next = rows.insert(i, (key, value));
    assert(ascending(next)) by {
        assert forall|a: int, b: int| 0 <= a < b < next.len() implies key_lt(
            (#[trigger] next[a]).0,
            (#[trigger] next[b]).0,
        ) by {
            if b < i {
                assert(key_lt(rows[a].0, rows[b].0));
            } else if b == i {
                assert(key_lt(rows[a].0, key));
            } else if a == i {
                assert(key_lt(key, rows[b - 1].0));
            } else if a < i {
                assert(key_lt(rows[a].0, rows[b - 1].0));
            } else {
                assert(key_lt(rows[a - 1].0, rows[b - 1].0));
            }
        }
    }
    assert forall|k: Seq<u8>| #[trigger]
        rows_map(next).contains_key(k) == rows_map(rows).insert(key, value).contains_key(k) by {
        if rows_map(next).contains_key(k) && k != key {
            let j = choose|j: int| row_has_key(next, k, j);
            if j < i {
                assert(row_has_key(rows, k, j));
            } else {
                assert(row_has_key(rows, k, j - 1));
            }
        }
        if rows_map(rows).contains_key(k) {
            let j = choose|j: int| row_has_key(rows, k, j);
            if j < i {
                assert(row_has_key(next, k, j));
            } else {
                assert(row_has_key(next, k, j + 1));
            }
        }
        assert(row_has_key(next, key, i));
    }
    assert forall|k: Seq<u8>| #[trigger]
        rows_map(next).contains_key(k) implies rows_map(next)[k] == rows_map(rows).insert(
        key,
        value,
    )[k] by {
        let j = choose|j: int| row_has_key(next, k, j);
        lemma_row_in_map(next, j);
        if j < i {
            lemma_row_in_map(rows, j);
        } else if j > i {
            lemma_row_in_map(rows, j - 1);
        }
    }
    assert(rows_map(next) =~= rows_map(rows).insert(key, value));
}

/// Without row `i` the rows spell the map without that row's key.
pub proof fn lemma_remove_map<V>(rows: Seq<(Seq<u8>, V)>, i: int)
    requires
        ascending(rows),
        0 <= i < rows.len(),
    ensures
        ascending(rows.remove(i)),
        rows_map(rows.remove(i)) == rows_map(rows).remove(rows[i].0),
{
    let key = rows[i].0;
    let next = rows.remove(i);
    assert(ascending(next)) by {
        assert forall|a: int, b: int| 0 <= a < b < next.len() implies key_lt(
            (#[trigger] next[a]).0,
            (#[trigger] next[b]).0,
        ) by {
            let a0 = if a < i { a } else { a + 1 };
            let b0 = if b < i { b } else { b + 1 };
            assert(key_lt(rows[a0].0, rows[b0].0));
        }
    }
    assert forall|k: Seq<u8>| #[trigger]
        rows_map(next).contains_key(k) == rows_map(rows).remove(key).contains_key(k) by {
        if rows_map(next).contains_key(k) {
            let j = choose|j: int| row_has_key(next, k, j);
            let j0 = if j < i { j } else { j + 1 };
            assert(row_has_key(rows, k, j0));
            lemma_key_lt_irreflexive(key);
            if j0 < i {
                assert(key_lt(rows[j0].0, rows[i].0));
            } else {
                assert(key_lt(rows[i].0, rows[j0].0));
            }
        }
        if rows_map(rows).remove(key).contains_key(k) {
            let j = choose|j: int| row_has_key(rows, k, j);
            if j < i {
                assert(row_has_key(next, k, j));
            } else {
                assert(row_has_key(next, k, j - 1));
            }
        }
    }
    assert forall|k: Seq<u8>| #[trigger]
        rows_map(next).contains_key(k) implies rows_map(next)[k] == rows_map(rows).remove(key)[k] by {
        let j = choose|j: int| row_has_key(next, k, j);
        lemma_row_in_map(next, j);
        let j0 = if j < i { j } else { j + 1 };
        lemma_row_in_map(rows, j0);
    }
    assert(rows_map(next) =~= rows_map(rows).remove(key));
}

} // verus!
