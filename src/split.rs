use vstd::prelude::*;

use crate::cosort::{
    co_sort, hits, is_perm, is_row_permutation, nondecreasing, rectangular, row_count, rows_moved,
};

verus! {

/// The rows of `top` followed by the rows of `bottom`, column by column.
pub open spec fn joined(top: Seq<Seq<i32>>, bottom: Seq<Seq<i32>>) -> Seq<Seq<i32>> {
    Seq::new(top.len(), |c: int| top[c] + bottom[c])
}

/// The dimension that follows `prior` among `ncols` columns, cyclically; a
/// unit that was never split (`usize::MAX`) starts at the first column.
pub open spec fn next_dim(prior: usize, ncols: int) -> usize {
    if prior < ncols {
        ((prior + 1) % ncols) as usize
    } else {
        0
    }
}

/// A piece of the dataset being partitioned: it owns its rows, records the
/// dimension it was last split on, and where its first row stands in the
/// whole dataset.
pub struct WorkUnit {
    pub df: Vec<Vec<i32>>,
    pub split_dim: usize,
    pub offset: usize,
}

/// A unit of `rows` rows is a leaf when it is under the threshold, or when
/// splitting it could not make it smaller.
pub open spec fn leaf_sized(rows: int, leaf_threshold: int) -> bool {
    rows < leaf_threshold || rows <= 1
}

impl WorkUnit {
    pub open spec fn rows(&self) -> Seq<Seq<i32>> {
        self.df.deep_view()
    }

    pub open spec fn row_count(&self) -> int {
        row_count(self.rows())
    }

    /// At least one column, all of one length, and every row position fits
    /// in a `usize`.
    pub open spec fn wf(&self) -> bool {
        &&& self.df@.len() > 0
        &&& rectangular(self.rows())
        &&& self.offset + self.row_count() <= usize::MAX
    }

    /// The number of rows.
    pub fn len(&self) -> (r: usize)
        requires
            self.df@.len() > 0,
        ensures
            r == self.row_count(),
    {
        self.df[0].len()
    }

    /// Whether this unit is finished rather than split further.
    pub fn is_leaf(&self, leaf_threshold: usize) -> (r: bool)
        requires
            self.df@.len() > 0,
        ensures
            r == leaf_sized(self.row_count(), leaf_threshold as int),
    {
        let n = self.df[0].len();
        n < leaf_threshold || n <= 1
    }

    /// Co-sorts the unit on the next dimension and cuts it in two halves;
    /// both remember that dimension.
    pub fn split(self) -> (r: (WorkUnit, WorkUnit))
        requires
            self.wf(),
        ensures
            r.0.wf(),
            r.1.wf(),
            r.0.df@.len() == self.df@.len(),
            r.1.df@.len() == self.df@.len(),
            r.0.split_dim == next_dim(self.split_dim, self.df@.len() as int),
            r.1.split_dim == r.0.split_dim,
            r.0.offset == self.offset,
            r.0.row_count() == self.row_count() / 2,
            r.1.offset == self.offset + r.0.row_count(),
            r.1.row_count() == self.row_count() - r.0.row_count(),
            is_row_permutation(joined(r.0.rows(), r.1.rows()), self.rows()),
            nondecreasing(joined(r.0.rows(), r.1.rows())[r.0.split_dim as int]),
    {
        let dim = self.new_split_dim();
        let n = self.df[0].len();
        let offset = self.offset;
        let (a, b) = multi_sort_and_split(self.df, dim);
        let left = WorkUnit { df: a, split_dim: dim, offset };
        let right = WorkUnit { df: b, split_dim: dim, offset: offset + n / 2 };
        (left, right)
    }

    /// Round robin over the columns, starting at the first.
    pub fn new_split_dim(&self) -> (r: usize)
        ensures
            r == next_dim(self.split_dim, self.df@.len() as int),
    {
        let dim = if self.split_dim == usize::MAX {
            0
        } else {
            self.split_dim + 1
        };
        proof {
            let ncols = self.df@.len() as int;
            if self.split_dim < ncols {
                if self.split_dim + 1 < ncols {
                    vstd::arithmetic::div_mod::lemma_small_mod((self.split_dim + 1) as nat, ncols as nat);
                } else {
                    vstd::arithmetic::div_mod::lemma_mod_self_0(ncols);
                }
            }
        }
        if dim >= self.df.len() {
            0
        } else {
            dim
        }
    }
}

pub(crate) proof fn lemma_perm_trans(a: Seq<Seq<i32>>, b: Seq<Seq<i32>>, c: Seq<Seq<i32>>)
    requires
        is_row_permutation(b, a),
        is_row_permutation(c, b),
        rectangular(a),
        a.len() > 0,
    ensures
        is_row_permutation(c, a),
        rectangular(b),
        row_count(b) == row_count(a),
        rectangular(c),
        row_count(c) == row_count(a),
{
    let p = choose|p: Seq<usize>| is_perm(p, row_count(a)) && rows_moved(b, a, p);
    let q = choose|q: Seq<usize>| is_perm(q, row_count(b)) && rows_moved(c, b, q);
    let n = row_count(a);
    assert(b[0].len() == n);
    let r = Seq::new(n as nat, |i: int| p[q[i] as int]);
    assert forall|k: int| 0 <= k < n implies #[trigger] hits(r, k) by {
        assert(hits(p, k));
        let j = choose|j: int| 0 <= j < p.len() && p[j] == k;
        assert(hits(q, j));
        let i = choose|i: int| 0 <= i < q.len() && q[i] == j;
        assert(r[i] == k);
    }
    assert forall|i: int, j: int| 0 <= i < n && 0 <= j < n && i != j implies r[i] != r[j] by {
        assert(q[i] != q[j]);
    }
    assert(is_perm(r, n));
    assert(rows_moved(c, a, r));
}

pub(crate) proof fn lemma_perm_join(t: Seq<Seq<i32>>, t0: Seq<Seq<i32>>, u: Seq<Seq<i32>>, u0: Seq<Seq<i32>>)
    requires
        is_row_permutation(t, t0),
        is_row_permutation(u, u0),
        rectangular(t0),
        rectangular(u0),
        t0.len() == u0.len(),
        t0.len() > 0,
        row_count(t0) + row_count(u0) <= usize::MAX,
    ensures
        is_row_permutation(joined(t, u), joined(t0, u0)),
        rectangular(joined(t0, u0)),
        row_count(joined(t0, u0)) == row_count(t0) + row_count(u0),
{
    let p = choose|p: Seq<usize>| is_perm(p, row_count(t0)) && rows_moved(t, t0, p);
    let q = choose|q: Seq<usize>| is_perm(q, row_count(u0)) && rows_moved(u, u0, q);
    let m = row_count(t0);
    let h = row_count(u0);
    let n = m + h;
    let j0 = joined(t0, u0);
    let j1 = joined(t, u);
    assert(j0[0].len() == n);
    let r = Seq::new(n as nat, |i: int| if i < m { p[i] } else { (m + q[i - m]) as usize });
    assert forall|k: int| 0 <= k < n implies #[trigger] hits(r, k) by {
        if k < m {
            assert(hits(p, k));
            let i = choose|i: int| 0 <= i < p.len() && p[i] == k;
            assert(r[i] == k);
        } else {
            assert(hits(q, k - m));
            let i = choose|i: int| 0 <= i < q.len() && q[i] == k - m;
            assert(q[i] < h);
            assert(r[m + i] == k);
        }
    }
    assert forall|i: int, j: int| 0 <= i < n && 0 <= j < n && i != j implies r[i] != r[j] by {
        if i < m && j >= m {
            assert(q[j - m] < h);
            assert(r[i] < m);
        } else if i >= m && j < m {
            assert(q[i - m] < h);
            assert(r[j] < m);
        } else if i >= m && j >= m {
            assert(q[i - m] < h);
            assert(q[j - m] < h);
            assert(q[i - m] != q[j - m]);
        }
    }
    assert(is_perm(r, n));
    assert forall|c: int, i: int| 0 <= c < j1.len() && 0 <= i < r.len()
        implies #[trigger] j1[c][i] == j0[c][r[i] as int] by {
        assert(t[c].len() == m);
        assert(u[c].len() == h);
        assert(t0[c].len() == m);
        if i < m {
            assert(j1[c][i] == t[c][i]);
        } else {
            assert(j1[c][i] == u[c][i - m]);
        }
    }
    assert(rows_moved(j1, j0, r));
}

/// Co-sorts `df` on column `by`, then cuts every column at half the row
/// count: the first half of the rows goes left, the rest right.
pub fn multi_sort_and_split(df: Vec<Vec<i32>>, by: usize) -> (r: (Vec<Vec<i32>>, Vec<Vec<i32>>))
    requires
        by < df@.len(),
        rectangular(df.deep_view()),
    ensures
        r.0@.len() == df@.len(),
        r.1@.len() == df@.len(),
        rectangular(r.0.deep_view()),
        rectangular(r.1.deep_view()),
        row_count(r.0.deep_view()) == row_count(df.deep_view()) / 2,
        row_count(r.1.deep_view()) == row_count(df.deep_view()) - row_count(df.deep_view()) / 2,
        is_row_permutation(joined(r.0.deep_view(), r.1.deep_view()), df.deep_view()),
        nondecreasing(joined(r.0.deep_view(), r.1.deep_view())[by as int]),
{
    let mut df = df;
    let sp = df[0].len() / 2;
    co_sort(&mut df, by);
    let ghost sorted = df.deep_view();
    let mut right: Vec<Vec<i32>> = Vec::new();
    let mut c: usize = 0;
    while c < df.len()
        invariant
            df@.len() == sorted.len(),
            rectangular(sorted),
            sp <= sorted[0].len(),
            0 <= c <= df@.len(),
            right@.len() == c,
            forall|e: int| 0 <= e < c ==> #[trigger] df@[e]@ == sorted[e].subrange(0, sp as int),
            forall|e: int| 0 <= e < c ==> #[trigger] right@[e]@ == sorted[e].subrange(sp as int, sorted[e].len() as int),
            forall|e: int| c <= e < df@.len() ==> #[trigger] df@[e]@ == sorted[e],
        decreases df@.len() - c,
    {
        assert(df@[c as int]@ == sorted[c as int]);
        let tail = df[c].split_off(sp);
        right.push(tail);
        c = c + 1;
    }
    let ghost l = df.deep_view();
    let ghost rr = right.deep_view();
    proof {
        assert forall|e: int| 0 <= e < sorted.len() implies #[trigger] joined(l, rr)[e] == sorted[e] by {
            assert(l[e] == df@[e]@);
            assert(rr[e] == right@[e]@);
            assert(sorted[e].len() == sorted[0].len());
            assert(joined(l, rr)[e] =~= sorted[e]);
        }
        assert(joined(l, rr) =~= sorted);
        assert(l[0].len() == sp);
        assert forall|e: int| 0 <= e < l.len() implies #[trigger] l[e].len() == l[0].len() by {
            assert(l[e] == df@[e]@);
            assert(sorted[e].len() == sorted[0].len());
        }
        assert forall|e: int| 0 <= e < rr.len() implies #[trigger] rr[e].len() == rr[0].len() by {
            assert(rr[e] == right@[e]@);
            assert(rr[0] == right@[0]@);
            assert(sorted[e].len() == sorted[0].len());
        }
        assert(rr[0] == right@[0]@);
    }
    (df, right)
}

} // verus!
