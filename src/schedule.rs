use vstd::prelude::*;

use crate::cosort::{is_perm, is_row_permutation, nondecreasing, rectangular, row_count, rows_moved};
use crate::split::{joined, leaf_sized, lemma_perm_join, lemma_perm_trans, next_dim, WorkUnit};

verus! {

/// The rows `start .. start + len` of the partitioned dataset, finished as one
/// leaf.
#[derive(Clone, Copy, Debug, PartialEq, Eq, Structural)]
pub struct Leaf {
    pub start: usize,
    pub len: usize,
}

/// The leaves, in order, cover `lo .. hi` end to end, with no gap and no
/// overlap.
pub open spec fn tiles(ls: Seq<Leaf>, lo: int, hi: int) -> bool
    decreases ls.len(),
{
    if ls.len() == 0 {
        lo == hi
    } else {
        ls[0].start == lo && tiles(ls.drop_first(), lo + ls[0].len, hi)
    }
}

/// Every leaf is small enough to stay unsplit.
pub open spec fn all_leaf_sized(ls: Seq<Leaf>, leaf_threshold: int) -> bool {
    forall|k: int| 0 <= k < ls.len() ==> leaf_sized(#[trigger] ls[k].len as int, leaf_threshold)
}

proof fn lemma_tiles_append(a: Seq<Leaf>, b: Seq<Leaf>, lo: int, mid: int, hi: int)
    requires
        tiles(a, lo, mid),
        tiles(b, mid, hi),
    ensures
        tiles(a + b, lo, hi),
    decreases a.len(),
{
    if a.len() > 0 {
        lemma_tiles_append(a.drop_first(), b, lo + a[0].len, mid, hi);
        assert((a + b).drop_first() =~= a.drop_first() + b);
    } else {
        assert(a + b =~= b);
    }
}

/// Every key in `lo .. mid` is at most every key in `mid .. hi`.
pub open spec fn ordered_across(key: Seq<i32>, lo: int, mid: int, hi: int) -> bool {
    forall|i: int, j: int| lo <= i < mid <= j < hi ==> key[i] <= key[j]
}

/// The rows `lo .. hi` of `d` are what splitting them yields when the last
/// split was on `prior`: a leaf-sized range is taken as it is; any other is
/// cut at its middle, the next dimension's keys in the first half are at most
/// those in the second, and each half is again split this way.
pub open spec fn well_split(d: Seq<Seq<i32>>, lo: int, hi: int, prior: usize, leaf_threshold: int) -> bool
    decreases hi - lo,
{
    if leaf_sized(hi - lo, leaf_threshold) {
        true
    } else {
        let mid = lo + (hi - lo) / 2;
        let dim = next_dim(prior, d.len() as int);
        &&& ordered_across(d[dim as int], lo, mid, hi)
        &&& well_split(d, lo, mid, dim, leaf_threshold)
        &&& well_split(d, mid, hi, dim, leaf_threshold)
    }
}

/// The leaves that splitting the rows `lo .. hi` ends in, in row order.
pub open spec fn leaves_of(lo: int, hi: int, leaf_threshold: int) -> Seq<Leaf>
    decreases hi - lo,
{
    if leaf_sized(hi - lo, leaf_threshold) {
        seq![Leaf { start: lo as usize, len: (hi - lo) as usize }]
    } else {
        let mid = lo + (hi - lo) / 2;
        leaves_of(lo, mid, leaf_threshold) + leaves_of(mid, hi, leaf_threshold)
    }
}

proof fn lemma_next_dim_bound(prior: usize, ncols: int)
    requires
        ncols > 0,
    ensures
        next_dim(prior, ncols) < ncols,
{
    if prior < ncols {
        vstd::arithmetic::div_mod::lemma_mod_pos_bound(prior + 1, ncols);
    }
}

proof fn lemma_well_split_shift(
    d1: Seq<Seq<i32>>,
    d2: Seq<Seq<i32>>,
    lo1: int,
    lo2: int,
    len: int,
    prior: usize,
    leaf_threshold: int,
)
    requires
        d1.len() == d2.len(),
        d1.len() > 0,
        0 <= len,
        forall|c: int, i: int| 0 <= c < d1.len() && 0 <= i < len ==> #[trigger] d2[c][lo2 + i] == d1[c][lo1 + i],
        well_split(d1, lo1, lo1 + len, prior, leaf_threshold),
    ensures
        well_split(d2, lo2, lo2 + len, prior, leaf_threshold),
    decreases len,
{
    if !leaf_sized(len, leaf_threshold) {
        let h = len / 2;
        let dim = next_dim(prior, d1.len() as int);
        lemma_next_dim_bound(prior, d1.len() as int);
        assert(lo1 + (lo1 + len - lo1) / 2 == lo1 + h);
        assert(lo2 + (lo2 + len - lo2) / 2 == lo2 + h);
        assert(ordered_across(d1[dim as int], lo1, lo1 + h, lo1 + len));
        assert(well_split(d1, lo1, lo1 + h, dim, leaf_threshold));
        assert(well_split(d1, lo1 + h, lo1 + len, dim, leaf_threshold));
        lemma_well_split_shift(d1, d2, lo1, lo2, h, dim, leaf_threshold);
        assert forall|c: int, i: int| 0 <= c < d1.len() && 0 <= i < len - h
            implies #[trigger] d2[c][lo2 + h + i] == d1[c][lo1 + h + i] by {
            assert(d2[c][lo2 + (h + i)] == d1[c][lo1 + (h + i)]);
        }
        assert(lo1 + h + (len - h) == lo1 + len);
        lemma_well_split_shift(d1, d2, lo1 + h, lo2 + h, len - h, dim, leaf_threshold);
        assert(lo2 + h + (len - h) == lo2 + len);
        assert forall|i: int, j: int| lo2 <= i < lo2 + h <= j < lo2 + len
            implies d2[dim as int][i] <= d2[dim as int][j] by {
            assert(d2[dim as int][lo2 + (i - lo2)] == d1[dim as int][lo1 + (i - lo2)]);
            assert(d2[dim as int][lo2 + (j - lo2)] == d1[dim as int][lo1 + (j - lo2)]);
        }
        assert(ordered_across(d2[dim as int], lo2, lo2 + h, lo2 + len));
    }
}

/// Leaf `l` holds row `k`.
pub open spec fn holds_row(l: Leaf, k: int) -> bool {
    l.start <= k < l.start + l.len
}

proof fn lemma_tiles_bounds(ls: Seq<Leaf>, lo: int, hi: int)
    requires
        tiles(ls, lo, hi),
    ensures
        lo <= hi,
        forall|j: int| 0 <= j < ls.len() ==> lo <= #[trigger] ls[j].start && ls[j].start + ls[j].len <= hi,
    decreases ls.len(),
{
    if ls.len() > 0 {
        let rest = ls.drop_first();
        lemma_tiles_bounds(rest, lo + ls[0].len, hi);
        assert forall|j: int| 0 <= j < ls.len() implies lo <= #[trigger] ls[j].start && ls[j].start + ls[j].len <= hi by {
            if j > 0 {
                assert(ls[j] == rest[j - 1]);
            }
        }
    }
}

/// Leaves that tile a range of rows hold each row of it in exactly one leaf:
/// no row is lost and none is duplicated.
pub proof fn lemma_each_row_in_one_leaf(ls: Seq<Leaf>, lo: int, hi: int, k: int)
    requires
        tiles(ls, lo, hi),
        lo <= k < hi,
    ensures
        exists|j: int| 0 <= j < ls.len() && holds_row(#[trigger] ls[j], k),
        forall|i: int, j: int|
            0 <= i < ls.len() && 0 <= j < ls.len() && holds_row(#[trigger] ls[i], k) && holds_row(
                #[trigger] ls[j],
                k,
            ) ==> i == j,
    decreases ls.len(),
{
    let rest = ls.drop_first();
    lemma_tiles_bounds(rest, lo + ls[0].len, hi);
    if holds_row(ls[0], k) {
        assert forall|i: int, j: int|
            0 <= i < ls.len() && 0 <= j < ls.len() && holds_row(#[trigger] ls[i], k) && holds_row(
                #[trigger] ls[j],
                k,
            ) implies i == j by {
            if i > 0 {
                assert(ls[i] == rest[i - 1]);
            }
            if j > 0 {
                assert(ls[j] == rest[j - 1]);
            }
        }
    } else {
        lemma_each_row_in_one_leaf(rest, lo + ls[0].len, hi, k);
        let j = choose|j: int| 0 <= j < rest.len() && holds_row(#[trigger] rest[j], k);
        assert(ls[j + 1] == rest[j]);
        assert forall|i: int, j: int|
            0 <= i < ls.len() && 0 <= j < ls.len() && holds_row(#[trigger] ls[i], k) && holds_row(
                #[trigger] ls[j],
                k,
            ) implies i == j by {
            assert(i > 0 && j > 0);
            assert(ls[i] == rest[i - 1]);
            assert(ls[j] == rest[j - 1]);
        }
    }
}

/// What a worker does with a unit it received.
pub enum Outcome {
    /// The unit is a leaf: it is finished as it is.
    Leaf(WorkUnit),
    /// The unit was split: both halves go back to the queue.
    Split(WorkUnit, WorkUnit),
}

/// A worker's decision on one unit: a leaf is handed back untouched, any
/// other unit is split.
pub fn handle(unit: WorkUnit, leaf_threshold: usize) -> (r: Outcome)
    requires
        unit.wf(),
    ensures
        match r {
            Outcome::Leaf(u) => {
                &&& leaf_sized(unit.row_count(), leaf_threshold as int)
                &&& u == unit
            },
            Outcome::Split(a, b) => {
                &&& !leaf_sized(unit.row_count(), leaf_threshold as int)
                &&& a.wf()
                &&& b.wf()
                &&& a.df@.len() == unit.df@.len()
                &&& b.df@.len() == unit.df@.len()
                &&& a.offset == unit.offset
                &&& a.row_count() == unit.row_count() / 2
                &&& b.offset == unit.offset + a.row_count()
                &&& b.row_count() == unit.row_count() - a.row_count()
                &&& a.split_dim == next_dim(unit.split_dim, unit.df@.len() as int)
                &&& b.split_dim == a.split_dim
                &&& is_row_permutation(joined(a.rows(), b.rows()), unit.rows())
                &&& nondecreasing(joined(a.rows(), b.rows())[a.split_dim as int])
            },
        },
{
    if unit.is_leaf(leaf_threshold) {
        Outcome::Leaf(unit)
    } else {
        let (a, b) = unit.split();
        Outcome::Split(a, b)
    }
}

/// The pending counter holds the number of units not yet resolved. A worker
/// that finishes a leaf and read `pending_before` just before taking it off
/// has resolved the last one: the run is over.
pub fn last_outstanding(pending_before: i32) -> (r: bool)
    ensures
        r == (pending_before <= 1),
{
    pending_before <= 1
}

/// Resolves `unit` down to leaves: appends them to `leaves`, in row order,
/// and returns the unit's rows in their final order.
fn resolve(unit: WorkUnit, leaf_threshold: usize, leaves: &mut Vec<Leaf>) -> (out: Vec<Vec<i32>>)
    requires
        unit.wf(),
    ensures
        out@.len() == unit.df@.len(),
        rectangular(out.deep_view()),
        row_count(out.deep_view()) == unit.row_count(),
        is_row_permutation(out.deep_view(), unit.rows()),
        final(leaves)@.len() >= old(leaves)@.len(),
        final(leaves)@.subrange(0, old(leaves)@.len() as int) == old(leaves)@,
        tiles(
            final(leaves)@.subrange(old(leaves)@.len() as int, final(leaves)@.len() as int),
            unit.offset as int,
            unit.offset + unit.row_count(),
        ),
        all_leaf_sized(
            final(leaves)@.subrange(old(leaves)@.len() as int, final(leaves)@.len() as int),
            leaf_threshold as int,
        ),
        final(leaves)@.subrange(old(leaves)@.len() as int, final(leaves)@.len() as int)
            == leaves_of(unit.offset as int, unit.offset + unit.row_count(), leaf_threshold as int),
        well_split(out.deep_view(), 0, unit.row_count(), unit.split_dim, leaf_threshold as int),
    decreases unit.row_count(),
{
    let ghost rows0 = unit.rows();
    let ghost l0 = leaves@;
    match handle(unit, leaf_threshold) {
        Outcome::Leaf(u) => {
            let n = u.len();
            leaves.push(Leaf { start: u.offset, len: n });
            proof {
                let added = leaves@.subrange(l0.len() as int, leaves@.len() as int);
                assert(added.drop_first() =~= Seq::<Leaf>::empty());
                assert(added[0] == Leaf { start: u.offset, len: n });
                assert(tiles(added.drop_first(), u.offset + n, u.offset + n));
                assert(tiles(added, u.offset as int, u.offset + n));
                assert(added =~= leaves_of(u.offset as int, u.offset + n, leaf_threshold as int));
                assert(leaves@.subrange(0, l0.len() as int) =~= l0);
                lemma_self_permutation(rows0);
            }
            u.df
        },
        Outcome::Split(a, b) => {
            let ghost ra = a.rows();
            let ghost rb = b.rows();
            let ghost (ao, an, bo, bn) = (a.offset as int, a.row_count(), b.offset as int, b.row_count());
            let ghost dim = a.split_dim;
            let mut top = resolve(a, leaf_threshold, leaves);
            let ghost l1 = leaves@;
            let mut bottom = resolve(b, leaf_threshold, leaves);
            let ghost l2 = leaves@;
            let ghost t = top.deep_view();
            let ghost u = bottom.deep_view();
            let mut c: usize = 0;
            while c < top.len()
                invariant
                    top@.len() == t.len(),
                    bottom@.len() == u.len(),
                    t.len() == u.len(),
                    0 <= c <= top@.len(),
                    forall|e: int| 0 <= e < c ==> #[trigger] top@[e]@ == t[e] + u[e],
                    forall|e: int| c <= e < top@.len() ==> #[trigger] top@[e]@ == t[e],
                    forall|e: int| c <= e < bottom@.len() ==> #[trigger] bottom@[e]@ == u[e],
                decreases top@.len() - c,
            {
                top[c].append(&mut bottom[c]);
                c = c + 1;
            }
            proof {
                let out = top.deep_view();
                assert forall|e: int| 0 <= e < out.len() implies #[trigger] out[e] == joined(t, u)[e] by {
                    assert(out[e] == top@[e]@);
                }
                assert(out =~= joined(t, u));
                lemma_perm_join(t, ra, u, rb);
                lemma_perm_trans(rows0, joined(ra, rb), joined(t, u));
                let s1 = l1.subrange(l0.len() as int, l1.len() as int);
                let s2 = l2.subrange(l1.len() as int, l2.len() as int);
                assert(l2.subrange(l0.len() as int, l2.len() as int) =~= s1 + s2);
                assert(l1.subrange(0, l0.len() as int) == l0);
                assert(l2.subrange(0, l0.len() as int) =~= l0);
                lemma_tiles_append(s1, s2, ao, bo, bo + bn);
                let n = rows0[0].len() as int;
                let lt = leaf_threshold as int;
                assert(l2.subrange(l0.len() as int, l2.len() as int) =~= leaves_of(ao, ao + n, lt));
                // the halves, each finished on its own, stay in place in the joined rows
                let jj = joined(t, u);
                assert forall|c: int, i: int| 0 <= c < t.len() && 0 <= i < an
                    implies #[trigger] jj[c][0 + i] == t[c][0 + i] by {
                    assert(t[c].len() == an);
                }
                lemma_well_split_shift(t, jj, 0, 0, an, dim, lt);
                assert forall|c: int, i: int| 0 <= c < u.len() && 0 <= i < bn
                    implies #[trigger] jj[c][an + i] == u[c][0 + i] by {
                    assert(t[c].len() == an);
                }
                lemma_well_split_shift(u, jj, 0, an, bn, dim, lt);
                // the split's order on `dim` survives the reordering inside each half
                let p = choose|p: Seq<usize>| is_perm(p, row_count(ra)) && rows_moved(t, ra, p);
                let q = choose|q: Seq<usize>| is_perm(q, row_count(rb)) && rows_moved(u, rb, q);
                let jr = joined(ra, rb);
                assert forall|i: int, j: int| 0 <= i < an <= j < n
                    implies jj[dim as int][i] <= jj[dim as int][j] by {
                    assert(t[dim as int].len() == an);
                    assert(ra[dim as int].len() == an);
                    assert(jj[dim as int][i] == t[dim as int][i]);
                    assert(jj[dim as int][j] == u[dim as int][j - an]);
                    assert(p[i] < an);
                    assert(q[j - an] < bn);
                    assert(jr[dim as int][p[i] as int] == ra[dim as int][p[i] as int]);
                    assert(jr[dim as int][an + q[j - an]] == rb[dim as int][q[j - an] as int]);
                }
                assert(jj.len() == rows0.len());
                assert(n / 2 == an);
            }
            top
        },
    }
}

proof fn lemma_self_permutation(d: Seq<Seq<i32>>)
    requires
        rectangular(d),
        d.len() > 0,
        d[0].len() <= usize::MAX,
    ensures
        is_row_permutation(d, d),
{
    let n = row_count(d);
    crate::cosort::lemma_identity_is_perm(n);
    assert(crate::cosort::rows_moved(d, d, crate::cosort::identity(n)));
}

/// Why an input cannot be partitioned.
#[derive(Clone, Copy, Debug, PartialEq, Eq, Structural)]
pub enum InputError {
    /// The dataset has no column.
    NoColumns,
    /// Two columns differ in length.
    RaggedColumns,
    /// The leaf threshold is zero.
    ZeroThreshold,
}

/// The first problem found with an input, in the order the checks are made.
pub open spec fn input_problem(d: Seq<Seq<i32>>, leaf_threshold: int) -> Option<InputError> {
    if d.len() == 0 {
        Some(InputError::NoColumns)
    } else if !rectangular(d) {
        Some(InputError::RaggedColumns)
    } else if leaf_threshold < 1 {
        Some(InputError::ZeroThreshold)
    } else {
        None
    }
}

/// Whether all columns have the length of the first.
pub fn is_rectangular(columns: &Vec<Vec<i32>>) -> (r: bool)
    ensures
        r == rectangular(columns.deep_view()),
{
    let ghost d = columns.deep_view();
    if columns.len() == 0 {
        return true;
    }
    let n = columns[0].len();
    let mut c: usize = 1;
    while c < columns.len()
        invariant
            d == columns.deep_view(),
            columns@.len() > 0,
            n == d[0].len(),
            1 <= c <= columns@.len(),
            forall|e: int| 0 <= e < c ==> #[trigger] d[e].len() == n,
        decreases columns@.len() - c,
    {
        if columns[c].len() != n {
            assert(d[c as int].len() != d[0].len());
            return false;
        }
        c = c + 1;
    }
    true
}

/// Checks an input before any work starts.
pub fn check_input(columns: &Vec<Vec<i32>>, leaf_threshold: usize) -> (r: Result<(), InputError>)
    ensures
        match input_problem(columns.deep_view(), leaf_threshold as int) {
            Some(e) => r == Err::<(), InputError>(e),
            None => r is Ok,
        },
{
    if columns.len() == 0 {
        Err(InputError::NoColumns)
    } else if !is_rectangular(columns) {
        Err(InputError::RaggedColumns)
    } else if leaf_threshold < 1 {
        Err(InputError::ZeroThreshold)
    } else {
        Ok(())
    }
}

/// Partitions the dataset in place: splits it recursively, each time on the
/// next dimension, until every piece is a leaf. On success the columns hold
/// the same rows in their final order, and the leaves, in row order, cover
/// them end to end. A rejected input is left untouched.
pub fn partition(columns: &mut Vec<Vec<i32>>, leaf_threshold: usize) -> (r: Result<Vec<Leaf>, InputError>)
    ensures
        match input_problem(old(columns).deep_view(), leaf_threshold as int) {
            Some(e) => {
                &&& r == Err::<Vec<Leaf>, InputError>(e)
                &&& final(columns)@ == old(columns)@
            },
            None => {
                &&& r is Ok
                &&& final(columns)@.len() == old(columns)@.len()
                &&& rectangular(final(columns).deep_view())
                &&& is_row_permutation(final(columns).deep_view(), old(columns).deep_view())
                &&& tiles(r->Ok_0@, 0, row_count(old(columns).deep_view()))
                &&& all_leaf_sized(r->Ok_0@, leaf_threshold as int)
                &&& r->Ok_0@ == leaves_of(0, row_count(old(columns).deep_view()), leaf_threshold as int)
                &&& well_split(
                    final(columns).deep_view(),
                    0,
                    row_count(old(columns).deep_view()),
                    usize::MAX,
                    leaf_threshold as int,
                )
            },
        },
{
    match check_input(columns, leaf_threshold) {
        Err(e) => {
            return Err(e);
        },
        Ok(()) => {},
    }
    let mut df: Vec<Vec<i32>> = Vec::new();
    std::mem::swap(columns, &mut df);
    let ghost d0 = df.deep_view();
    let n = df[0].len();
    assert(d0[0] == df@[0]@);
    let root = WorkUnit { df, split_dim: usize::MAX, offset: 0 };
    let mut leaves: Vec<Leaf> = Vec::new();
    let out = resolve(root, leaf_threshold, &mut leaves);
    assert(leaves@.subrange(0, leaves@.len() as int) =~= leaves@);
    *columns = out;
    Ok(leaves)
}

/// Writes the rows of a finished unit back at its place in the whole
/// dataset; all other rows stay as they are.
pub fn place_leaf(columns: &mut Vec<Vec<i32>>, leaf: &WorkUnit)
    requires
        old(columns)@.len() == leaf.df@.len(),
        leaf.wf(),
        rectangular(old(columns).deep_view()),
        leaf.offset + leaf.row_count() <= row_count(old(columns).deep_view()),
    ensures
        final(columns)@.len() == old(columns)@.len(),
        rectangular(final(columns).deep_view()),
        row_count(final(columns).deep_view()) == row_count(old(columns).deep_view()),
        forall|c: int, i: int|
            0 <= c < final(columns)@.len() && 0 <= i < row_count(old(columns).deep_view()) ==>
                #[trigger] final(columns).deep_view()[c][i] == if leaf.offset <= i < leaf.offset + leaf.row_count() {
                    leaf.rows()[c][i - leaf.offset]
                } else {
                    old(columns).deep_view()[c][i]
                },
{
    let ghost d0 = columns.deep_view();
    let ghost lr = leaf.rows();
    let n = leaf.len();
    let off = leaf.offset;
    let mut c: usize = 0;
    while c < columns.len()
        invariant
            columns@.len() == d0.len(),
            d0.len() == lr.len(),
            rectangular(d0),
            rectangular(lr),
            d0.len() > 0,
            lr == leaf.df.deep_view(),
            n == lr[0].len(),
            off + n <= d0[0].len(),
            off + n <= usize::MAX,
            0 <= c <= columns@.len(),
            forall|e: int| 0 <= e < c ==> #[trigger] columns@[e]@.len() == d0[e].len(),
            forall|e: int, i: int| 0 <= e < c && 0 <= i < d0[e].len() ==>
                #[trigger] columns@[e]@[i] == if off <= i < off + n { lr[e][i - off] } else { d0[e][i] },
            forall|e: int| c <= e < columns@.len() ==> #[trigger] columns@[e]@ == d0[e],
        decreases columns@.len() - c,
    {
        let mut k: usize = 0;
        let ghost before = columns@;
        assert(columns@[c as int]@ == d0[c as int]);
        assert(leaf.df@[c as int]@ == lr[c as int]);
        while k < n
            invariant
                columns@.len() == d0.len(),
                d0.len() == lr.len(),
                rectangular(d0),
                rectangular(lr),
                d0.len() > 0,
                lr == leaf.df.deep_view(),
                n == lr[0].len(),
                off + n <= d0[0].len(),
                off + n <= usize::MAX,
                c < columns@.len(),
                leaf.df@[c as int]@ == lr[c as int],
                0 <= k <= n,
                columns@[c as int]@.len() == d0[c as int].len(),
                forall|i: int| 0 <= i < d0[c as int].len() ==>
                    #[trigger] columns@[c as int]@[i] == if off <= i < off + k { lr[c as int][i - off] } else { d0[c as int][i] },
                forall|e: int| 0 <= e < columns@.len() && e != c ==> #[trigger] columns@[e] == before[e],
            decreases n - k,
        {
            let v = leaf.df[c][k];
            columns[c][off + k] = v;
            k = k + 1;
        }
        c = c + 1;
    }
    proof {
        let d1 = columns.deep_view();
        assert forall|e: int| 0 <= e < d1.len() implies #[trigger] d1[e].len() == d1[0].len() by {
            assert(d1[e] == columns@[e]@);
            assert(d1[0] == columns@[0]@);
        }
    }
}

} // verus!
