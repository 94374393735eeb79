//! Tables of rows: one kind found by an integer key, one kind a plain set of rows.

use vstd::prelude::*;

verus! {

/// The views of a sequence of values.
pub open spec fn views<T: View>(s: Seq<T>) -> Seq<T::V> {
    s.map_values(|t: T| t@)
}

/// A row that is found by an integer key.
pub trait Keyed: View + Sized {
    /// The key of a row.
    spec fn key_of(v: Self::V) -> i32;

    /// The key of this row.
    fn key(&self) -> (k: i32)
        ensures
            k == Self::key_of(self@),
    ;
}

/// A row that can be compared with another.
pub trait Comparable: View + Sized {
    /// Whether the two rows are equal.
    fn same(&self, other: &Self) -> (b: bool)
        ensures
            b == (self@ == other@),
    ;
}

/// A row that belongs to an addon.
pub trait Owned: View + Sized {
    /// The addon that a row belongs to.
    spec fn owner_of(v: Self::V) -> i32;

    /// The addon that this row belongs to.
    fn owner(&self) -> (k: i32)
        ensures
            k == Self::owner_of(self@),
    ;
}

/// A table with at most one row for each key, kept in ascending order of the keys.
pub struct Table<R> {
    rows: Vec<R>,
}

impl<R: Keyed> Table<R> {
    /// The rows in ascending order of their keys.
    pub closed spec fn rows(&self) -> Seq<R::V> {
        views(self.rows@)
    }

    /// The keys strictly ascend.
    pub open spec fn wf(&self) -> bool {
        ascending::<R>(self.rows())
    }
}

/// The keys of `rows` strictly ascend.
pub open spec fn ascending<R: Keyed>(rows: Seq<R::V>) -> bool {
    forall|i: int, j: int|
        0 <= i < j < rows.len() ==> R::key_of(#[trigger] rows[i]) < R::key_of(#[trigger] rows[j])
}

/// `rows` has a row with key `k`.
pub open spec fn has_key<R: Keyed>(rows: Seq<R::V>, k: i32) -> bool {
    exists|i: int| 0 <= i < rows.len() && R::key_of(#[trigger] rows[i]) == k
}

/// The rows by their keys.
pub open spec fn by_key<R: Keyed>(rows: Seq<R::V>) -> Map<i32, R::V> {
    Map::new(
        |k: i32| has_key::<R>(rows, k),
        |k: i32| rows[choose|i: int| 0 <= i < rows.len() && R::key_of(#[trigger] rows[i]) == k],
    )
}

impl<R: Keyed> View for Table<R> {
    type V = Map<i32, R::V>;

    open spec fn view(&self) -> Map<i32, R::V> {
        by_key::<R>(self.rows())
    }
}

/// In a table each row is the one found by its key.
pub proof fn lemma_by_key<R: Keyed>(rows: Seq<R::V>, i: int)
    requires
        ascending::<R>(rows),
        0 <= i < rows.len(),
    ensures
        by_key::<R>(rows).contains_key(R::key_of(rows[i])),
        by_key::<R>(rows)[R::key_of(rows[i])] == rows[i],
{
    let k = R::key_of(rows[i]);
    assert(has_key::<R>(rows, k));
    let j = choose|j: int| 0 <= j < rows.len() && R::key_of(#[trigger] rows[j]) == k;
    if j < i {
        assert(R::key_of(rows[j]) < R::key_of(rows[i]));
    } else if i < j {
        assert(R::key_of(rows[i]) < R::key_of(rows[j]));
    }
}

/// A key of the table has a row.
pub proof fn lemma_row_of_key<R: Keyed>(rows: Seq<R::V>, k: i32) -> (i: int)
    requires
        ascending::<R>(rows),
        by_key::<R>(rows).contains_key(k),
    ensures
        0 <= i < rows.len(),
        R::key_of(rows[i]) == k,
        by_key::<R>(rows)[k] == rows[i],
{
    let i = choose|i: int| 0 <= i < rows.len() && R::key_of(#[trigger] rows[i]) == k;
    lemma_by_key::<R>(rows, i);
    i
}

/// A table has as many rows as keys.
pub proof fn lemma_table_len<R: Keyed>(rows: Seq<R::V>)
    requires
        ascending::<R>(rows),
    ensures
        by_key::<R>(rows).dom().finite(),
        by_key::<R>(rows).len() == rows.len(),
    decreases rows.len(),
{
    if rows.len() == 0 {
        assert(by_key::<R>(rows).dom() =~= Set::empty());
    } else {
        let rest = rows.drop_last();
        assert(ascending::<R>(rest)) by {
            assert forall|i: int, j: int| 0 <= i < j < rest.len() implies R::key_of(
                #[trigger] rest[i],
            ) < R::key_of(#[trigger] rest[j]) by {
                assert(rest[i] == rows[i] && rest[j] == rows[j]);
            }
        }
        lemma_table_len::<R>(rest);
        let k = R::key_of(rows.last());
        assert forall|x: i32| has_key::<R>(rows, x) <==> (has_key::<R>(rest, x) || x == k) by {
            if has_key::<R>(rows, x) {
                let i = choose|i: int| 0 <= i < rows.len() && R::key_of(#[trigger] rows[i]) == x;
                if i < rest.len() {
                    assert(rest[i] == rows[i]);
                }
            }
            if has_key::<R>(rest, x) {
                let i = choose|i: int| 0 <= i < rest.len() && R::key_of(#[trigger] rest[i]) == x;
                assert(rows[i] == rest[i]);
            }
            if x == k {
                assert(R::key_of(rows[rows.len() - 1]) == k);
            }
        }
        assert(!has_key::<R>(rest, k)) by {
            if has_key::<R>(rest, k) {
                let i = choose|i: int| 0 <= i < rest.len() && R::key_of(#[trigger] rest[i]) == k;
                assert(R::key_of(rows[i]) < R::key_of(rows[rows.len() - 1]));
            }
        }
        assert(by_key::<R>(rows).dom() =~= by_key::<R>(rest).dom().insert(k));
    }
}

impl<R: Keyed> Table<R> {
    /// A table without rows.
    pub fn new() -> (t: Self)
        ensures
            t.wf(),
            t@ == Map::<i32, R::V>::empty(),
    {
        let t = Table { rows: Vec::new() };
        assert(t.rows() =~= Seq::empty());
        assert(t@ =~= Map::<i32, R::V>::empty());
        t
    }

    /// The number of rows.
    pub fn len(&self) -> (n: usize)
        ensures
            n == self.rows().len(),
    {
        self.rows.len()
    }

    /// The row at position `i`.
    pub fn row(&self, i: usize) -> (r: &R)
        requires
            i < self.rows().len(),
        ensures
            r@ == self.rows()[i as int],
    {
        &self.rows[i]
    }

    /// The position of the first row whose key is not below `k`.
    fn position(&self, k: i32) -> (p: usize)
        requires
            self.wf(),
        ensures
            p <= self.rows().len(),
            forall|i: int| 0 <= i < p ==> R::key_of(#[trigger] self.rows()[i]) < k,
            forall|i: int| p <= i < self.rows().len() ==> R::key_of(#[trigger] self.rows()[i]) >= k,
    {
        let mut lo: usize = 0;
        let mut hi: usize = self.rows.len();
        while lo < hi
            invariant
                lo <= hi <= self.rows().len(),
                self.rows().len() == self.rows.len(),
                self.wf(),
                forall|i: int| 0 <= i < lo ==> R::key_of(#[trigger] self.rows()[i]) < k,
                forall|i: int|
                    hi <= i < self.rows().len() ==> R::key_of(#[trigger] self.rows()[i]) >= k,
            decreases hi - lo,
        {
            let mid: usize = lo + (hi - lo) / 2;
            let ghost at = self.rows()[mid as int];
            if self.rows[mid].key() < k {
                lo = mid + 1;
            } else {
                hi = mid;
            }
        }
        lo
    }

    /// The row with key `k`.
    pub fn get(&self, k: i32) -> (r: Option<&R>)
        requires
            self.wf(),
        ensures
            r is Some <==> self@.contains_key(k),
            r matches Some(row) ==> row@ == self@[k],
    {
        let p = self.position(k);
        if p < self.rows.len() && self.rows[p].key() == k {
            proof {
                lemma_by_key::<R>(self.rows(), p as int);
            }
            Some(&self.rows[p])
        } else {
            proof {
                if self@.contains_key(k) {
                    let i = lemma_row_of_key::<R>(self.rows(), k);
                    let at = self.rows()[p as int];
                }
            }
            None
        }
    }

    /// Puts `row` in the place of the row with its key, or adds it if there is none.
    pub fn put(&mut self, row: R)
        requires
            old(self).wf(),
        ensures
            final(self).wf(),
            final(self)@ == old(self)@.insert(R::key_of(row@), row@),
    {
        let k = row.key();
        let ghost v = row@;
        let p = self.position(k);
        let ghost before = self.rows();
        if p < self.rows.len() && self.rows[p].key() == k {
            self.rows.set(p, row);
            assert(self.rows() =~= before.update(p as int, v));
            proof {
                lemma_put_replaces::<R>(before, p as int, v);
            }
        } else {
            self.rows.insert(p, row);
            assert(self.rows() =~= before.insert(p as int, v));
            proof {
                assert forall|i: int| p <= i < before.len() implies R::key_of(#[trigger] before[i])
                    > k by {
                    if i > p {
                        assert(R::key_of(before[p as int]) < R::key_of(before[i]));
                    }
                }
                lemma_put_adds::<R>(before, p as int, v);
            }
        }
    }

    /// Takes the row with key `k` out, if there is one.
    pub fn delete(&mut self, k: i32)
        requires
            old(self).wf(),
        ensures
            final(self).wf(),
            final(self)@ == old(self)@.remove(k),
    {
        let p = self.position(k);
        let ghost before = self.rows();
        if p < self.rows.len() && self.rows[p].key() == k {
            let _ = self.rows.remove(p);
            assert(self.rows() =~= before.remove(p as int));
            proof {
                lemma_delete::<R>(before, p as int);
            }
        } else {
            proof {
                if self@.contains_key(k) {
                    let i = lemma_row_of_key::<R>(self.rows(), k);
                    let at = self.rows()[p as int];
                }
                assert(self@.remove(k) =~= self@);
            }
        }
    }
}

proof fn lemma_put_replaces<R: Keyed>(rows: Seq<R::V>, p: int, v: R::V)
    requires
        ascending::<R>(rows),
        0 <= p < rows.len(),
        R::key_of(rows[p]) == R::key_of(v),
    ensures
        ascending::<R>(rows.update(p, v)),
        by_key::<R>(rows.update(p, v)) == by_key::<R>(rows).insert(R::key_of(v), v),
{
    let after = rows.update(p, v);
    assert forall|i: int, j: int| 0 <= i < j < after.len() implies R::key_of(#[trigger] after[i])
        < R::key_of(#[trigger] after[j]) by {
        assert(R::key_of(rows[i]) < R::key_of(rows[j]));
    }
    let m = by_key::<R>(rows).insert(R::key_of(v), v);
    let n = by_key::<R>(after);
    assert forall|k: i32|
        #![trigger m.dom().contains(k)]
        #![trigger n.dom().contains(k)]
        m.dom().contains(k) == n.dom().contains(k) && (m.dom().contains(k) ==> m[k] == n[k]) by {
        if by_key::<R>(rows).contains_key(k) {
            let i = lemma_row_of_key::<R>(rows, k);
            assert(R::key_of(after[i]) == k);
            lemma_by_key::<R>(after, i);
            if i != p && k == R::key_of(v) {
                lemma_by_key::<R>(rows, i);
                lemma_by_key::<R>(rows, p);
                if i < p {
                    assert(R::key_of(rows[i]) < R::key_of(rows[p]));
                } else {
                    assert(R::key_of(rows[p]) < R::key_of(rows[i]));
                }
            }
        }
        if n.contains_key(k) {
            let i = lemma_row_of_key::<R>(after, k);
            assert(R::key_of(rows[i]) == k);
            lemma_by_key::<R>(rows, i);
        }
        lemma_by_key::<R>(after, p);
    }
    assert(m =~= n);
}

proof fn lemma_put_adds<R: Keyed>(rows: Seq<R::V>, p: int, v: R::V)
    requires
        ascending::<R>(rows),
        0 <= p <= rows.len(),
        forall|i: int| 0 <= i < p ==> R::key_of(#[trigger] rows[i]) < R::key_of(v),
        forall|i: int| p <= i < rows.len() ==> R::key_of(#[trigger] rows[i]) > R::key_of(v),
    ensures
        ascending::<R>(rows.insert(p, v)),
        by_key::<R>(rows.insert(p, v)) == by_key::<R>(rows).insert(R::key_of(v), v),
{
    let after = rows.insert(p, v);
    assert forall|i: int, j: int| 0 <= i < j < after.len() implies R::key_of(#[trigger] after[i])
        < R::key_of(#[trigger] after[j]) by {
        let a = if i < p { i } else { i - 1 };
        let b = if j < p { j } else { j - 1 };
        assert(i == p || after[i] == rows[a]);
        assert(j == p || after[j] == rows[b]);
    }
    let m = by_key::<R>(rows).insert(R::key_of(v), v);
    let n = by_key::<R>(after);
    assert forall|k: i32|
        #![trigger m.dom().contains(k)]
        #![trigger n.dom().contains(k)]
        m.dom().contains(k) == n.dom().contains(k) && (m.dom().contains(k) ==> m[k] == n[k]) by {
        if by_key::<R>(rows).contains_key(k) {
            let i = lemma_row_of_key::<R>(rows, k);
            let j = if i < p { i } else { i + 1 };
            assert(after[j] == rows[i]);
            lemma_by_key::<R>(after, j);
        }
        if n.contains_key(k) {
            let j = lemma_row_of_key::<R>(after, k);
            if j != p {
                let i = if j < p { j } else { j - 1 };
                assert(after[j] == rows[i]);
                lemma_by_key::<R>(rows, i);
            }
        }
        assert(after[p] == v);
        lemma_by_key::<R>(after, p);
    }
    assert(m =~= n);
}

proof fn lemma_delete<R: Keyed>(rows: Seq<R::V>, p: int)
    requires
        ascending::<R>(rows),
        0 <= p < rows.len(),
    ensures
        ascending::<R>(rows.remove(p)),
        by_key::<R>(rows.remove(p)) == by_key::<R>(rows).remove(R::key_of(rows[p])),
{
    let after = rows.remove(p);
    assert forall|i: int, j: int| 0 <= i < j < after.len() implies R::key_of(#[trigger] after[i])
        < R::key_of(#[trigger] after[j]) by {
        let a = if i < p { i } else { i + 1 };
        let b = if j < p { j } else { j + 1 };
        assert(after[i] == rows[a] && after[j] == rows[b]);
        assert(R::key_of(rows[a]) < R::key_of(rows[b]));
    }
    let m = by_key::<R>(rows).remove(R::key_of(rows[p]));
    let n = by_key::<R>(after);
    assert forall|k: i32|
        #![trigger m.dom().contains(k)]
        #![trigger n.dom().contains(k)]
        m.dom().contains(k) == n.dom().contains(k) && (m.dom().contains(k) ==> m[k] == n[k]) by {
        lemma_by_key::<R>(rows, p);
        if m.contains_key(k) {
            let i = lemma_row_of_key::<R>(rows, k);
            let j = if i < p { i } else { i - 1 };
            assert(i != p);
            assert(after[j] == rows[i]);
            lemma_by_key::<R>(after, j);
        }
        if n.contains_key(k) {
            let j = lemma_row_of_key::<R>(after, k);
            let i = if j < p { j } else { j + 1 };
            assert(after[j] == rows[i]);
            lemma_by_key::<R>(rows, i);
            if i < p {
                assert(R::key_of(rows[i]) < R::key_of(rows[p]));
            } else {
                assert(R::key_of(rows[p]) < R::key_of(rows[i]));
            }
        }
    }
    assert(m =~= n);
}

/// A table that holds each row at most once and finds rows by their whole contents.
pub struct RowSet<R> {
    rows: Vec<R>,
}

impl<R: Comparable> RowSet<R> {
    /// The rows in the order in which they came.
    pub closed spec fn rows(&self) -> Seq<R::V> {
        views(self.rows@)
    }

    /// No row occurs twice.
    pub open spec fn wf(&self) -> bool {
        self.rows().no_duplicates()
    }
}

impl<R: Comparable> View for RowSet<R> {
    type V = Set<R::V>;

    open spec fn view(&self) -> Set<R::V> {
        self.rows().to_set()
    }
}

impl<R: Comparable> RowSet<R> {
    /// A table without rows.
    pub fn new() -> (t: Self)
        ensures
            t.wf(),
            t@ == Set::<R::V>::empty(),
    {
        let t = RowSet { rows: Vec::new() };
        assert(t.rows() =~= Seq::empty());
        assert(t@ =~= Set::<R::V>::empty());
        t
    }

    /// The number of rows.
    pub fn len(&self) -> (n: usize)
        ensures
            n == self.rows().len(),
    {
        self.rows.len()
    }

    /// The row at position `i`.
    pub fn row(&self, i: usize) -> (r: &R)
        requires
            i < self.rows().len(),
        ensures
            r@ == self.rows()[i as int],
    {
        &self.rows[i]
    }

    /// Whether `row` is in the table.
    pub fn contains(&self, row: &R) -> (b: bool)
        ensures
            b == self@.contains(row@),
    {
        let mut i: usize = 0;
        while i < self.rows.len()
            invariant
                i <= self.rows.len(),
                self.rows().len() == self.rows.len(),
                forall|j: int| 0 <= j < i ==> #[trigger] self.rows()[j] != row@,
            decreases self.rows.len() - i,
        {
            if self.rows[i].same(row) {
                assert(self.rows()[i as int] == row@);
                return true;
            }
            i += 1;
        }
        false
    }

    /// Adds `row`, unless it is there already.
    pub fn add_row(&mut self, row: R)
        requires
            old(self).wf(),
        ensures
            final(self).wf(),
            final(self)@ == old(self)@.insert(row@),
    {
        let ghost before = self.rows();
        let ghost v = row@;
        if !self.contains(&row) {
            self.rows.push(row);
            assert(self.rows() =~= before.push(v));
            proof {
                assert(before.push(v).to_set() =~= before.to_set().insert(v)) by {
                    assert forall|x: R::V| before.push(v).contains(x) == (before.contains(x) || x
                        == v) by {
                        if before.contains(x) {
                            let i = before.index_of(x);
                            assert(before.push(v)[i] == x);
                        }
                        assert(before.push(v)[before.len() as int] == v);
                        if before.push(v).contains(x) {
                            let i = before.push(v).index_of(x);
                            if i < before.len() {
                                assert(before[i] == x);
                            }
                        }
                    }
                }
                assert forall|i: int, j: int|
                    0 <= i < before.push(v).len() && 0 <= j < before.push(v).len() && i
                        != j implies before.push(v)[i] != before.push(v)[j] by {
                    if i < before.len() && j < before.len() {
                        assert(before[i] != before[j]);
                    } else if i < before.len() {
                        assert(before.contains(before[i]));
                    } else {
                        assert(before.contains(before[j]));
                    }
                }
            }
        } else {
            assert(self@.insert(v) =~= self@);
        }
    }
}

/// Whether `k` is in `list`.
pub fn is_listed(list: &Vec<i32>, k: i32) -> (b: bool)
    ensures
        b == list@.contains(k),
{
    let mut i: usize = 0;
    while i < list.len()
        invariant
            i <= list.len(),
            forall|j: int| 0 <= j < i ==> list@[j] != k,
        decreases list.len() - i,
    {
        if list[i] == k {
            return true;
        }
        i += 1;
    }
    false
}

impl<R: Comparable + Owned> RowSet<R> {
    /// Takes out every row that belongs to one of `owners`.
    pub fn remove_owned(&mut self, owners: &Vec<i32>)
        requires
            old(self).wf(),
        ensures
            final(self).wf(),
            final(self)@ == old(self)@.filter(|v: R::V| !owners@.contains(R::owner_of(v))),
    {
        let ghost before = self.rows();
        let mut i: usize = 0;
        while i < self.rows.len()
            invariant
                i <= self.rows.len(),
                self.wf(),
                self.rows().len() == self.rows.len(),
                forall|x: R::V| #[trigger] self.rows().contains(x) ==> before.contains(x),
                forall|x: R::V| #[trigger]
                    before.contains(x) && !owners@.contains(R::owner_of(x))
                        ==> self.rows().contains(x),
                forall|j: int|
                    0 <= j < i ==> !owners@.contains(R::owner_of(#[trigger] self.rows()[j])),
            decreases self.rows.len() - i,
        {
            let k = self.rows[i].owner();
            let ghost now = self.rows();
            if is_listed(owners, k) {
                let _ = self.rows.remove(i);
                proof {
                    let next = self.rows();
                    assert(next =~= now.remove(i as int));
                    assert forall|x: R::V| #[trigger] next.contains(x) implies before.contains(
                        x,
                    ) by {
                        let j = next.index_of(x);
                        let m = if j < i { j } else { j + 1 };
                        assert(now[m] == x);
                        assert(now.contains(x));
                    }
                    assert forall|x: R::V| #[trigger]
                        before.contains(x) && !owners@.contains(
                            R::owner_of(x),
                        ) implies next.contains(x) by {
                        assert(now.contains(x));
                        let m = now.index_of(x);
                        assert(m != i);
                        let j = if m < i { m } else { m - 1 };
                        assert(next[j] == x);
                    }
                    assert forall|j: int| 0 <= j < i implies !owners@.contains(
                        R::owner_of(#[trigger] next[j]),
                    ) by {
                        assert(next[j] == now[j]);
                    }
                    assert(next.no_duplicates()) by {
                        assert forall|a: int, b: int|
                            0 <= a < next.len() && 0 <= b < next.len() && a != b implies next[a]
                            != next[b] by {
                            let m = if a < i { a } else { a + 1 };
                            let n = if b < i { b } else { b + 1 };
                            assert(next[a] == now[m] && next[b] == now[n]);
                        }
                    }
                }
            } else {
                i += 1;
            }
        }
        proof {
            let kept = before.to_set().filter(|v: R::V| !owners@.contains(R::owner_of(v)));
            assert forall|x: R::V| self@.contains(x) == kept.contains(x) by {
                if self.rows().contains(x) {
                    let j = self.rows().index_of(x);
                    assert(self.rows()[j] == x);
                }
            }
            assert(self@ =~= kept);
        }
    }
}

/// The rows of both sets, after each row of `more` went in.
pub proof fn lemma_union_push<A>(base: Set<A>, more: Seq<A>, n: int)
    requires
        0 <= n < more.len(),
    ensures
        base.union(more.take(n).to_set()).insert(more[n]) == base.union(more.take(n + 1).to_set()),
{
    let a = more.take(n);
    let b = more.take(n + 1);
    assert forall|x: A| (a.contains(x) || x == more[n]) == b.contains(x) by {
        if a.contains(x) {
            let i = a.index_of(x);
            assert(b[i] == x);
        }
        assert(b[n] == more[n]);
        if b.contains(x) {
            let i = b.index_of(x);
            if i < n {
                assert(a[i] == x);
            }
        }
    }
    assert(base.union(a.to_set()).insert(more[n]) =~= base.union(b.to_set()));
}

} // verus!
