//! Rearranging vectors of vectors.

use vstd::prelude::*;

verus! {

/// The rows of `v` as sequences.
pub open spec fn rows_of<T>(v: Seq<Vec<T>>) -> Seq<Seq<T>> {
    Seq::new(v.len(), |i: int| v[i]@)
}

/// Column `j` of the rows `m`, from the top row down.
pub open spec fn column<T>(m: Seq<Seq<T>>, j: int) -> Seq<T> {
    Seq::new(m.len(), |i: int| m[i][j])
}

/// The columns of `m`, as many as its first row has elements.
pub open spec fn transposed<T>(m: Seq<Seq<T>>) -> Seq<Seq<T>> {
    Seq::new(m[0].len(), |j: int| column(m, j))
}

/// A matrix whose rows are all as long as the first one.
pub open spec fn rectangular<T>(m: Seq<Seq<T>>) -> bool {
    &&& m.len() > 0
    &&& forall|i: int| 0 <= i < m.len() ==> (#[trigger] m[i]).len() == m[0].len()
}

/// Turns rows into columns.
///
/// The first row sets the number of columns; what a longer row holds beyond that is dropped.
pub fn transpose<T>(v: Vec<Vec<T>>) -> (columns: Vec<Vec<T>>)
    requires
        v@.len() > 0,
        forall|i: int| 0 <= i < v@.len() ==> (#[trigger] v@[i])@.len() >= v@[0]@.len(),
    ensures
        rows_of(columns@) == transposed(rows_of(v@)),
{
    let len: usize = v[0].len();
    let ghost m = rows_of(v@);
    let mut columns: Vec<Vec<T>> = Vec::new();
    for c in 0..len
        invariant
            columns@.len() == c,
            forall|j: int| 0 <= j < c ==> (#[trigger] columns@[j])@ == Seq::<T>::empty(),
    {
        columns.push(Vec::new());
    }
    assert forall|j: int| 0 <= j < len implies (#[trigger] columns@[j])@ == column(m.take(0), j) by {
        assert(column(m.take(0), j) =~= Seq::<T>::empty());
    }
    for row in rows: v
        invariant
            m == rows_of(rows.seq()),
            m.len() > 0,
            m[0].len() == len,
            forall|i: int| 0 <= i < m.len() ==> (#[trigger] m[i]).len() >= len,
            columns@.len() == len,
            forall|j: int| 0 <= j < len ==>
                (#[trigger] columns@[j])@ == column(m.take(rows.index()), j),
    {
        let ghost r = rows.index();
        assert(m[r] == row@);
        assert(m[r].len() >= len);
        let mut j: usize = 0;
        for x in items: row
            invariant
                0 <= r < m.len(),
                m[r] == items.seq(),
                m[r].len() >= len,
                j == if items.index() < len { items.index() } else { len as int },
                columns@.len() == len,
                forall|k: int| 0 <= k < j ==> (#[trigger] columns@[k])@ == column(m.take(r + 1), k),
                forall|k: int| j <= k < len ==> (#[trigger] columns@[k])@ == column(m.take(r), k),
        {
            if j < len {
                columns[j].push(x);
                assert(column(m.take(r + 1), j as int) =~= column(m.take(r), j as int).push(m[r][j as int]));
                j += 1;
            }
        }
    }
    assert(m.take(m.len() as int) =~= m);
    assert(rows_of(columns@) =~= transposed(m));
    columns
}

/// `n` times `None`.
pub fn vec_of_none<T>(n: usize) -> (v: Vec<Option<T>>)
    ensures
        v@ == Seq::new(n as nat, |i: int| None::<T>),
{
    let mut v: Vec<Option<T>> = Vec::new();
    for i in 0..n
        invariant
            v@ == Seq::new(i as nat, |k: int| None::<T>),
    {
        v.push(None);
        assert(v@ =~= Seq::new((i + 1) as nat, |k: int| None::<T>));
    }
    v
}

/// The first components of a sequence of pairs.
pub open spec fn firsts<A, B>(s: Seq<(A, B)>) -> Seq<A> {
    s.map_values(|p: (A, B)| p.0)
}

/// The second components of a sequence of pairs.
pub open spec fn seconds<A, B>(s: Seq<(A, B)>) -> Seq<B> {
    s.map_values(|p: (A, B)| p.1)
}

/// Regroups pairs kept per thread and job into two tables kept per job and thread: one of the
/// first components and one of the second.
pub fn split_by_job<A, B>(readys: Vec<Vec<(A, B)>>, jobs: usize) -> (tables: (Vec<Vec<A>>, Vec<Vec<B>>))
    requires
        forall|t: int| 0 <= t < readys@.len() ==> (#[trigger] readys@[t])@.len() >= jobs,
    ensures
        rows_of(tables.0@) == Seq::new(jobs as nat, |j: int| firsts(column(rows_of(readys@), j))),
        rows_of(tables.1@) == Seq::new(jobs as nat, |j: int| seconds(column(rows_of(readys@), j))),
{
    let ghost m = rows_of(readys@);
    let mut left: Vec<Vec<A>> = Vec::new();
    let mut right: Vec<Vec<B>> = Vec::new();
    for c in 0..jobs
        invariant
            left@.len() == c,
            right@.len() == c,
            forall|j: int| 0 <= j < c ==> (#[trigger] left@[j])@ == Seq::<A>::empty(),
            forall|j: int| 0 <= j < c ==> (#[trigger] right@[j])@ == Seq::<B>::empty(),
    {
        left.push(Vec::new());
        right.push(Vec::new());
    }
    assert forall|j: int| 0 <= j < jobs implies (#[trigger] left@[j])@ == firsts(column(m.take(0), j)) by {
        assert(firsts(column(m.take(0), j)) =~= Seq::<A>::empty());
    }
    assert forall|j: int| 0 <= j < jobs implies (#[trigger] right@[j])@ == seconds(column(m.take(0), j)) by {
        assert(seconds(column(m.take(0), j)) =~= Seq::<B>::empty());
    }
    for row in rows: readys
        invariant
            m == rows_of(rows.seq()),
            forall|i: int| 0 <= i < m.len() ==> (#[trigger] m[i]).len() >= jobs,
            left@.len() == jobs,
            right@.len() == jobs,
            forall|j: int| 0 <= j < jobs ==>
                (#[trigger] left@[j])@ == firsts(column(m.take(rows.index()), j)),
            forall|j: int| 0 <= j < jobs ==>
                (#[trigger] right@[j])@ == seconds(column(m.take(rows.index()), j)),
    {
        let ghost r = rows.index();
        assert(m[r] == row@);
        assert(m[r].len() >= jobs);
        let mut j: usize = 0;
        for pair in items: row
            invariant
                0 <= r < m.len(),
                m[r] == items.seq(),
                m[r].len() >= jobs,
                j == if items.index() < jobs { items.index() } else { jobs as int },
                left@.len() == jobs,
                right@.len() == jobs,
                forall|k: int| 0 <= k < j ==> (#[trigger] left@[k])@ == firsts(column(m.take(r + 1), k)),
                forall|k: int| j <= k < jobs ==> (#[trigger] left@[k])@ == firsts(column(m.take(r), k)),
                forall|k: int| 0 <= k < j ==> (#[trigger] right@[k])@ == seconds(column(m.take(r + 1), k)),
                forall|k: int| j <= k < jobs ==> (#[trigger] right@[k])@ == seconds(column(m.take(r), k)),
        {
            if j < jobs {
                let (a, b) = pair;
                left[j].push(a);
                right[j].push(b);
                assert(firsts(column(m.take(r + 1), j as int))
                    =~= firsts(column(m.take(r), j as int)).push(m[r][j as int].0));
                assert(seconds(column(m.take(r + 1), j as int))
                    =~= seconds(column(m.take(r), j as int)).push(m[r][j as int].1));
                j += 1;
            }
        }
    }
    assert(m.take(m.len() as int) =~= m);
    assert(rows_of(left@) =~= Seq::new(jobs as nat, |j: int| firsts(column(m, j))));
    assert(rows_of(right@) =~= Seq::new(jobs as nat, |j: int| seconds(column(m, j))));
    (left, right)
}

/// Transposing a rectangular matrix that has a column twice gives the matrix back.
pub proof fn law_transpose_twice<T>(m: Seq<Seq<T>>)
    requires
        rectangular(m),
        m[0].len() > 0,
    ensures
        rectangular(transposed(m)),
        transposed(transposed(m)) == m,
{
    let t = transposed(m);
    assert(t[0].len() == m.len());
    assert forall|i: int| 0 <= i < m.len() implies transposed(t)[i] == m[i] by {
        assert(column(t, i) =~= m[i]);
    }
    assert(transposed(t) =~= m);
}

/// The number in row `i` and column `j` comes to stand in row `j` and column `i`; there is a row for
/// each number of the first row, and in it one number of each row.
pub proof fn law_transposed<T>(m: Seq<Seq<T>>)
    ensures
        transposed(m).len() == m[0].len(),
        forall|j: int| 0 <= j < m[0].len() ==> (#[trigger] transposed(m)[j]).len() == m.len(),
        forall|i: int, j: int| 0 <= i < m.len() && 0 <= j < m[0].len() ==> #[trigger] transposed(m)[j][i] == m[i][j],
{
}

/// The pair that thread `t` has for a job is found, in its two halves, in the row of the job and
/// the column of the thread.
pub proof fn law_split_by_job<A, B>(m: Seq<Seq<(A, B)>>, j: int)
    ensures
        firsts(column(m, j)).len() == m.len(),
        seconds(column(m, j)).len() == m.len(),
        forall|t: int| 0 <= t < m.len() ==> #[trigger] firsts(column(m, j))[t] == m[t][j].0,
        forall|t: int| 0 <= t < m.len() ==> #[trigger] seconds(column(m, j))[t] == m[t][j].1,
        forall|t: int| 0 <= t < m.len() ==> (#[trigger] firsts(column(m, j))[t], seconds(column(m, j))[t]) == m[t][j],
{
}

/// The rows of a vector of vectors are its elements, in their order.
pub proof fn law_rows<T>(v: Seq<Vec<T>>)
    ensures
        rows_of(v).len() == v.len(),
        forall|i: int| 0 <= i < v.len() ==> #[trigger] rows_of(v)[i] == v[i]@,
{
}

} // verus!
