use vstd::prelude::*;

verus! {

/// Every column has the row count of the first one.
pub open spec fn rectangular(d: Seq<Seq<i32>>) -> bool {
    forall|c: int| 0 <= c < d.len() ==> #[trigger] d[c].len() == d[0].len()
}

/// The number of rows of a dataset (zero when it has no column).
pub open spec fn row_count(d: Seq<Seq<i32>>) -> int {
    if d.len() == 0 {
        0
    } else {
        d[0].len() as int
    }
}

/// `p` is a bijection of `0..n` onto itself: new position to old position.
pub open spec fn is_perm(p: Seq<usize>, n: int) -> bool {
    &&& p.len() == n
    &&& forall|i: int| 0 <= i < n ==> #[trigger] p[i] < n
    &&& forall|i: int, j: int| 0 <= i < n && 0 <= j < n && i != j ==> p[i] != p[j]
    &&& forall|k: int| 0 <= k < n ==> #[trigger] hits(p, k)
}

/// Some position of `p` holds `k`.
pub open spec fn hits(p: Seq<usize>, k: int) -> bool {
    exists|i: int| 0 <= i < p.len() && p[i] == k
}

/// Row `i` of `new` is row `p[i]` of `old`, in every column.
pub open spec fn rows_moved(new: Seq<Seq<i32>>, old: Seq<Seq<i32>>, p: Seq<usize>) -> bool {
    &&& new.len() == old.len()
    &&& forall|c: int| 0 <= c < new.len() ==> #[trigger] new[c].len() == p.len()
    &&& forall|c: int, i: int|
        0 <= c < new.len() && 0 <= i < p.len() ==> #[trigger] new[c][i] == old[c][p[i] as int]
}

/// `new` holds the rows of `old`, each exactly once, in some order.
pub open spec fn is_row_permutation(new: Seq<Seq<i32>>, old: Seq<Seq<i32>>) -> bool {
    exists|p: Seq<usize>| is_perm(p, row_count(old)) && rows_moved(new, old, p)
}

pub open spec fn nondecreasing(s: Seq<i32>) -> bool {
    forall|i: int, j: int| 0 <= i <= j < s.len() ==> s[i] <= s[j]
}

/// The keys read in the order that `p` gives.
pub open spec fn keyed(key: Seq<i32>, p: Seq<usize>) -> Seq<i32> {
    p.map_values(|i: usize| key[i as int])
}

pub open spec fn identity(n: int) -> Seq<usize> {
    Seq::new(n as nat, |i: int| i as usize)
}

pub(crate) proof fn lemma_identity_is_perm(n: int)
    requires
        0 <= n <= usize::MAX + 1,
    ensures
        is_perm(identity(n), n),
{
    assert forall|k: int| 0 <= k < n implies #[trigger] hits(identity(n), k) by {
        assert(identity(n)[k] == k);
    }
}

proof fn lemma_swap_is_perm(p: Seq<usize>, n: int, a: int, b: int)
    requires
        is_perm(p, n),
        0 <= a < n,
        0 <= b < n,
    ensures
        is_perm(p.update(a, p[b]).update(b, p[a]), n),
{
    let q = p.update(a, p[b]).update(b, p[a]);
    assert forall|k: int| 0 <= k < n implies #[trigger] hits(q, k) by {
        assert(hits(p, k));
        let i = choose|i: int| 0 <= i < p.len() && p[i] == k;
        if i == a {
            assert(q[b] == k);
        } else if i == b {
            assert(q[a] == k);
        } else {
            assert(q[i] == k);
        }
    }
}

/// Reading a sequence through a bijection of its positions keeps its
/// multiset of values: nothing is lost and nothing is duplicated.
pub proof fn lemma_reindex_keeps_values(s: Seq<i32>, t: Seq<i32>, p: Seq<usize>)
    requires
        is_perm(p, s.len() as int),
        t.len() == s.len(),
        forall|i: int| 0 <= i < t.len() ==> #[trigger] t[i] == s[p[i] as int],
    ensures
        t.to_multiset() == s.to_multiset(),
    decreases s.len(),
{
    let n = s.len() as int;
    if n == 0 {
        assert(t =~= s);
    } else {
        let k = p[n - 1] as int;
        let s2 = s.remove(k);
        let t2 = t.drop_last();
        let p2 = Seq::new((n - 1) as nat, |i: int| if p[i] > k { (p[i] - 1) as usize } else { p[i] });
        assert forall|i: int| 0 <= i < n - 1 implies #[trigger] p2[i] < n - 1 by {
            assert(p[i] != p[n - 1]);
        }
        assert forall|i: int, j: int| 0 <= i < n - 1 && 0 <= j < n - 1 && i != j implies p2[i] != p2[j] by {
            assert(p[i] != p[n - 1]);
            assert(p[j] != p[n - 1]);
            assert(p[i] != p[j]);
        }
        assert forall|kk: int| 0 <= kk < n - 1 implies #[trigger] hits(p2, kk) by {
            let v = if kk < k { kk } else { kk + 1 };
            assert(hits(p, v));
            let i = choose|i: int| 0 <= i < p.len() && p[i] == v;
            assert(i != n - 1);
            assert(p2[i] == kk);
        }
        assert(is_perm(p2, n - 1));
        assert forall|i: int| 0 <= i < t2.len() implies #[trigger] t2[i] == s2[p2[i] as int] by {
            assert(p[i] != p[n - 1]);
        }
        lemma_reindex_keeps_values(s2, t2, p2);
        assert(t =~= t2.push(t[n - 1]));
        vstd::seq_lib::to_multiset_build(t2, t[n - 1]);
        vstd::seq_lib::to_multiset_remove(s, k);
        s.to_multiset_ensures();
        assert(s.to_multiset().count(s[k]) > 0);
        assert(s.to_multiset().remove(s[k]).insert(s[k]) =~= s.to_multiset());
    }
}

/// Moving whole rows keeps the multiset of values of every column.
pub proof fn lemma_row_permutation_keeps_columns(new: Seq<Seq<i32>>, old: Seq<Seq<i32>>)
    requires
        is_row_permutation(new, old),
        rectangular(old),
    ensures
        forall|c: int| 0 <= c < new.len() ==> #[trigger] new[c].to_multiset() == old[c].to_multiset(),
{
    let p = choose|p: Seq<usize>| is_perm(p, row_count(old)) && rows_moved(new, old, p);
    assert forall|c: int| 0 <= c < new.len() implies #[trigger] new[c].to_multiset() == old[c].to_multiset() by {
        assert(old[c].len() == old[0].len());
        lemma_reindex_keeps_values(old[c], new[c], p);
    }
}

/// Reorders the first `idxs.len()` elements of `a` so that element `i` is
/// the old element `idxs[i]`, with `buffer` as scratch space: each position is
/// filled from a later position, still untouched, or from the saved copy of an
/// earlier one. The rest of `a` is left as it is; the buffer ends up holding
/// the old first `idxs.len()` elements of `a`.
pub fn sort_by_indexes(idxs: &[usize], a: &mut [i32], buffer: &mut [i32])
    requires
        idxs@.len() <= old(a)@.len(),
        idxs@.len() <= old(buffer)@.len(),
        forall|i: int| 0 <= i < idxs@.len() ==> #[trigger] idxs@[i] < old(a)@.len(),
    ensures
        final(a)@.len() == old(a)@.len(),
        final(buffer)@.len() == old(buffer)@.len(),
        forall|i: int| 0 <= i < idxs@.len() ==> #[trigger] final(a)@[i] == old(a)@[idxs@[i] as int],
        forall|i: int| idxs@.len() <= i < old(a)@.len() ==> #[trigger] final(a)@[i] == old(a)@[i],
        forall|i: int| 0 <= i < idxs@.len() ==> #[trigger] final(buffer)@[i] == old(a)@[i],
        forall|i: int| idxs@.len() <= i < old(buffer)@.len() ==> #[trigger] final(buffer)@[i] == old(buffer)@[i],
{
    let n = idxs.len();
    let mut i: usize = 0;
    while i < n
        invariant
            n == idxs@.len(),
            a@.len() == old(a)@.len(),
            buffer@.len() == old(buffer)@.len(),
            n <= a@.len(),
            n <= buffer@.len(),
            0 <= i <= n,
            forall|j: int| 0 <= j < n ==> #[trigger] idxs@[j] < a@.len(),
            forall|j: int| 0 <= j < i ==> #[trigger] buffer@[j] == old(a)@[j],
            forall|j: int| i <= j < buffer@.len() ==> #[trigger] buffer@[j] == old(buffer)@[j],
            forall|j: int| 0 <= j < i ==> #[trigger] a@[j] == old(a)@[idxs@[j] as int],
            forall|j: int| i <= j < a@.len() ==> #[trigger] a@[j] == old(a)@[j],
        decreases n - i,
    {
        let idx = idxs[i];
        let cur = a[i];
        buffer[i] = cur;
        if idx > i {
            let v = a[idx];
            a[i] = v;
        } else if idx < i {
            let v = buffer[idx];
            a[i] = v;
        }
        i = i + 1;
    }
}

/// The row order that sorts `key`: a permutation of its positions under which
/// the keys never decrease. An already sorted key gives the identity.
fn sorted_order(key: &Vec<i32>) -> (p: Vec<usize>)
    ensures
        is_perm(p@, key@.len() as int),
        nondecreasing(keyed(key@, p@)),
        nondecreasing(key@) ==> p@ == identity(key@.len() as int),
{
    let n = key.len();
    let mut p: Vec<usize> = Vec::new();
    let mut k: usize = 0;
    while k < n
        invariant
            n == key@.len(),
            0 <= k <= n,
            p@ == identity(k as int),
        decreases n - k,
    {
        p.push(k);
        k = k + 1;
        assert(p@ =~= identity(k as int));
    }
    proof {
        lemma_identity_is_perm(n as int);
    }
    let mut i: usize = 1;
    while i < n
        invariant
            n == key@.len(),
            1 <= i || n == 0,
            i <= n || n == 0,
            is_perm(p@, n as int),
            forall|a: int, b: int| 0 <= a <= b < i && b < n ==> keyed(key@, p@)[a] <= keyed(key@, p@)[b],
            nondecreasing(key@) ==> p@ == identity(n as int),
        decreases n - i,
    {
        let mut j: usize = i;
        while j > 0 && key[p[j - 1]] > key[p[j]]
            invariant
                n == key@.len(),
                1 <= i < n,
                j <= i,
                is_perm(p@, n as int),
                forall|a: int, b: int|
                    0 <= a <= b <= i && a != j && b != j ==> keyed(key@, p@)[a] <= keyed(key@, p@)[b],
                forall|b: int| j < b <= i ==> keyed(key@, p@)[j as int] < #[trigger] keyed(key@, p@)[b],
                nondecreasing(key@) ==> p@ == identity(n as int),
            decreases j,
        {
            let ghost ks = keyed(key@, p@);
            let x = p[j - 1];
            let y = p[j];
            proof {
                lemma_swap_is_perm(p@, n as int, j - 1, j as int);
                if nondecreasing(key@) {
                    assert(key@[x as int] <= key@[y as int]);
                }
            }
            p[j - 1] = y;
            p[j] = x;
            assert(keyed(key@, p@) =~= ks.update(j - 1, ks[j as int]).update(j as int, ks[j - 1]));
            j = j - 1;
        }
        proof {
            let ks = keyed(key@, p@);
            assert forall|a: int, b: int| 0 <= a <= b < i + 1 && b < n implies ks[a] <= ks[b] by {
                if a == j && b != j {
                    assert(ks[j as int] < ks[b]);
                } else if b == j && a != j {
                    assert(ks[a] <= ks[j - 1]);
                }
            }
        }
        i = i + 1;
    }
    p
}

/// Reorders the rows of `df` so that column `by` never decreases, moving
/// every column by the same row permutation. The order of rows with equal
/// keys is not fixed, but a dataset already sorted on `by` is left as it is.
pub fn co_sort(df: &mut Vec<Vec<i32>>, by: usize)
    requires
        by < old(df)@.len(),
        rectangular(old(df).deep_view()),
    ensures
        is_row_permutation(final(df).deep_view(), old(df).deep_view()),
        rectangular(final(df).deep_view()),
        row_count(final(df).deep_view()) == row_count(old(df).deep_view()),
        forall|c: int| 0 <= c < old(df)@.len() ==>
            #[trigger] final(df).deep_view()[c].to_multiset() == old(df).deep_view()[c].to_multiset(),
        nondecreasing(final(df).deep_view()[by as int]),
        nondecreasing(old(df).deep_view()[by as int]) ==> final(df).deep_view() == old(df).deep_view(),
{
    let ghost d0 = df.deep_view();
    let n = df[0].len();
    let order = sorted_order(&df[by]);
    let mut buffer: Vec<i32> = vec![0; n];
    assert(d0[by as int] == df@[by as int]@);
    assert(d0[by as int].len() == n);
    let mut c: usize = 0;
    while c < df.len()
        invariant
            df@.len() == d0.len(),
            rectangular(d0),
            by < d0.len(),
            n == d0[0].len(),
            buffer@.len() == n,
            is_perm(order@, n as int),
            nondecreasing(keyed(d0[by as int], order@)),
            nondecreasing(d0[by as int]) ==> order@ == identity(n as int),
            0 <= c <= df@.len(),
            forall|e: int| 0 <= e < c ==> #[trigger] df@[e]@.len() == n,
            forall|e: int, i: int|
                0 <= e < c && 0 <= i < n ==> #[trigger] df@[e]@[i] == d0[e][order@[i] as int],
            forall|e: int| c <= e < df@.len() ==> #[trigger] df@[e]@ == d0[e],
        decreases df@.len() - c,
    {
        sort_by_indexes(order.as_slice(), df[c].as_mut_slice(), buffer.as_mut_slice());
        c = c + 1;
    }
    let ghost d1 = df.deep_view();
    proof {
        assert(rows_moved(d1, d0, order@));
        assert(row_count(d0) == n);
        lemma_row_permutation_keeps_columns(d1, d0);
        if nondecreasing(d0[by as int]) {
            assert forall|e: int| 0 <= e < d1.len() implies #[trigger] d1[e] == d0[e] by {
                assert(d1[e] =~= d0[e]);
            }
            assert(d1 =~= d0);
        }
        assert forall|i: int, j: int| 0 <= i <= j < d1[by as int].len()
            implies d1[by as int][i] <= d1[by as int][j] by {
            assert(keyed(d0[by as int], order@)[i] == d1[by as int][i]);
            assert(keyed(d0[by as int], order@)[j] == d1[by as int][j]);
        }
    }
}

} // verus!
