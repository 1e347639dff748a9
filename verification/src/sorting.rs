use vstd::prelude::*;
use vstd::multiset::Multiset;
use crate::geometry::{DataPoint, NDIMS, cmp_on_axis, key};

verus! {

broadcast use vstd::multiset::group_multiset_axioms;

/// The points at positions `lo..=hi` are in non-decreasing order of their
/// coordinate on `axis`.
pub open spec fn sorted_on(s: Seq<DataPoint>, lo: usize, hi: usize, axis: u64) -> bool {
    forall|a: int, b: int|
        lo <= a <= b <= hi ==> #[trigger] key(s[a], axis) <= #[trigger] key(s[b], axis)
}

/// The multiset of the items at positions `lo..=hi`.
pub open spec fn range_items<T>(s: Seq<T>, lo: usize, hi: usize) -> Multiset<T> {
    s.subrange(lo as int, hi + 1).to_multiset()
}

/// The sequence with the items at positions `i` and `j` exchanged.
pub open spec fn swapped<T>(s: Seq<T>, i: usize, j: usize) -> Seq<T> {
    s.update(i as int, s[j as int]).update(j as int, s[i as int])
}

/// Exchanging two items inside a range keeps the multiset of that range.
pub proof fn lemma_swap_keeps_range<T>(s: Seq<T>, i: usize, j: usize, lo: usize, hi: usize)
    requires
        lo <= i <= hi,
        lo <= j <= hi,
        hi < s.len(),
    ensures
        range_items(swapped(s, i, j), lo, hi) == range_items(s, lo, hi),
{
    broadcast use vstd::seq_lib::to_multiset_update;

    let t = s.subrange(lo as int, hi + 1);
    let ii = i - lo;
    let jj = j - lo;
    let t1 = t.update(ii, t[jj]);
    let t2 = t1.update(jj, t[ii]);
    assert(swapped(s, i, j).subrange(lo as int, hi + 1) =~= t2);
    assert(t1.to_multiset() == t.to_multiset().insert(t[jj]).remove(t[ii]));
    assert(t2.to_multiset() == t1.to_multiset().insert(t[ii]).remove(t1[jj]));
    assert(t1[jj] == t[jj]);
    assert(t.to_multiset().count(t[ii]) > 0) by {
        t.to_multiset_ensures();
        assert(t.contains(t[ii]));
    }
    assert(t2.to_multiset() =~= t.to_multiset());
}

/// When a sequence changes only inside `lo2..=hi2`, which lies within
/// `lo..=hi`, and keeps the multiset of `lo2..=hi2`, it keeps the multiset of
/// `lo..=hi`.
pub proof fn lemma_range_items_compose<T>(
    p1: Seq<T>,
    p2: Seq<T>,
    lo: usize,
    hi: usize,
    lo2: usize,
    hi2: usize,
)
    requires
        lo <= lo2 <= hi2 <= hi < p1.len(),
        p1.len() == p2.len(),
        forall|k: int| 0 <= k < p1.len() && !(lo2 <= k <= hi2) ==> #[trigger] p2[k] == p1[k],
        range_items(p2, lo2, hi2) == range_items(p1, lo2, hi2),
    ensures
        range_items(p2, lo, hi) == range_items(p1, lo, hi),
{
    broadcast use vstd::seq_lib::lemma_multiset_commutative;

    let a1 = p1.subrange(lo as int, lo2 as int);
    let m1 = p1.subrange(lo2 as int, hi2 + 1);
    let b1 = p1.subrange(hi2 + 1, hi + 1);
    let a2 = p2.subrange(lo as int, lo2 as int);
    let m2 = p2.subrange(lo2 as int, hi2 + 1);
    let b2 = p2.subrange(hi2 + 1, hi + 1);
    assert(a2 =~= a1);
    assert(b2 =~= b1);
    assert(p1.subrange(lo as int, hi + 1) =~= a1 + m1 + b1);
    assert(p2.subrange(lo as int, hi + 1) =~= a2 + m2 + b2);
    assert((a1 + m1 + b1).to_multiset() =~= a1.to_multiset().add(m1.to_multiset()).add(
        b1.to_multiset(),
    ));
    assert((a2 + m2 + b2).to_multiset() =~= a2.to_multiset().add(m2.to_multiset()).add(
        b2.to_multiset(),
    ));
}

/// Exchanging two items keeps the multiset of the whole sequence.
pub proof fn lemma_swap_keeps_items<T>(s: Seq<T>, i: usize, j: usize)
    requires
        i < s.len(),
        j < s.len(),
        s.len() <= usize::MAX,
    ensures
        swapped(s, i, j).to_multiset() == s.to_multiset(),
{
    let hi = (s.len() - 1) as usize;
    lemma_swap_keeps_range(s, i, j, 0, hi);
    assert(s.subrange(0, hi + 1) =~= s);
    assert(swapped(s, i, j).subrange(0, hi + 1) =~= swapped(s, i, j));
}

/// The sorted sequence `t` with `x` inserted after every item whose
/// coordinate on `axis` is at most that of `x`: the place an insertion sort
/// that moves `x` leftwards past greater items gives it.
pub open spec fn insert_by_key(t: Seq<DataPoint>, x: DataPoint, axis: u64) -> Seq<DataPoint>
    decreases t.len(),
{
    if t.len() == 0 {
        seq![x]
    } else if key(t.last(), axis) > key(x, axis) {
        insert_by_key(t.drop_last(), x, axis).push(t.last())
    } else {
        t.push(x)
    }
}

/// `s` sorted by the coordinate on `axis` by insertion; points with equal
/// coordinates keep their order.
pub open spec fn sort_by_key(s: Seq<DataPoint>, axis: u64) -> Seq<DataPoint>
    decreases s.len(),
{
    if s.len() == 0 {
        s
    } else {
        insert_by_key(sort_by_key(s.drop_last(), axis), s.last(), axis)
    }
}

/// The sequence is in non-decreasing order of the coordinate on `axis`.
pub open spec fn sorted_by_key(t: Seq<DataPoint>, axis: u64) -> bool {
    forall|a: int, b: int|
        0 <= a <= b < t.len() ==> #[trigger] key(t[a], axis) <= #[trigger] key(t[b], axis)
}

/// Inserting into a sorted sequence adds one item, keeps the order and adds
/// `x` to the multiset; every coordinate stays at most a bound that `x` and
/// all of `t` respect.
proof fn lemma_insert_by_key(t: Seq<DataPoint>, x: DataPoint, axis: u64, bound: i64)
    requires
        sorted_by_key(t, axis),
    ensures
        insert_by_key(t, x, axis).len() == t.len() + 1,
        insert_by_key(t, x, axis).to_multiset() == t.to_multiset().insert(x),
        sorted_by_key(insert_by_key(t, x, axis), axis),
        (forall|k: int| 0 <= k < t.len() ==> key(#[trigger] t[k], axis) <= bound) && key(x, axis)
            <= bound ==> forall|k: int|
            0 <= k < insert_by_key(t, x, axis).len() ==> key(
                #[trigger] insert_by_key(t, x, axis)[k],
                axis,
            ) <= bound,
    decreases t.len(),
{
    broadcast use vstd::seq_lib::to_multiset_build;

    if t.len() == 0 {
        assert(seq![x] =~= t.push(x));
    } else if key(t.last(), axis) > key(x, axis) {
        let init = t.drop_last();
        let l = t.last();
        assert(t =~= init.push(l));
        lemma_insert_by_key(init, x, axis, key(l, axis));
        let r = insert_by_key(init, x, axis);
        assert(forall|k: int| 0 <= k < init.len() ==> key(#[trigger] init[k], axis) <= key(l, axis))
            by {
            assert(forall|k: int| 0 <= k < init.len() ==> init[k] == t[k]);
        }
        if (forall|k: int| 0 <= k < t.len() ==> key(#[trigger] t[k], axis) <= bound) && key(x, axis)
            <= bound {
            lemma_insert_by_key(init, x, axis, bound);
            assert(key(t[t.len() - 1], axis) <= bound);
        }
        assert(r.push(l).to_multiset() == r.to_multiset().insert(l));
        assert(t.to_multiset() == init.to_multiset().insert(l));
        assert(r.push(l).to_multiset() =~= t.to_multiset().insert(x));
    } else {
        assert(t.push(x).to_multiset() == t.to_multiset().insert(x));
        assert(key(t[t.len() - 1], axis) <= key(x, axis));
    }
}

/// Sorting by insertion keeps the length and the multiset, and orders the
/// sequence by the coordinate on `axis`.
pub proof fn lemma_sort_by_key(s: Seq<DataPoint>, axis: u64)
    ensures
        sort_by_key(s, axis).len() == s.len(),
        sort_by_key(s, axis).to_multiset() == s.to_multiset(),
        sorted_by_key(sort_by_key(s, axis), axis),
    decreases s.len(),
{
    broadcast use vstd::seq_lib::to_multiset_build;

    if s.len() > 0 {
        lemma_sort_by_key(s.drop_last(), axis);
        lemma_insert_by_key(sort_by_key(s.drop_last(), axis), s.last(), axis, 0);
        assert(s =~= s.drop_last().push(s.last()));
        assert(s.to_multiset() == s.drop_last().to_multiset().insert(s.last()));
    }
}

/// Inserting `x` into `a + b`, where every item of `b` is greater than `x`,
/// places `x` within `a`.
proof fn lemma_insert_before(a: Seq<DataPoint>, b: Seq<DataPoint>, x: DataPoint, axis: u64)
    requires
        forall|k: int| 0 <= k < b.len() ==> key(#[trigger] b[k], axis) > key(x, axis),
    ensures
        insert_by_key(a + b, x, axis) == insert_by_key(a, x, axis) + b,
    decreases b.len(),
{
    if b.len() == 0 {
        assert(a + b =~= a);
        assert(insert_by_key(a, x, axis) + b =~= insert_by_key(a, x, axis));
    } else {
        let bi = b.drop_last();
        lemma_insert_before(a, bi, x, axis);
        assert((a + b).drop_last() =~= a + bi);
        assert((a + b).last() == b.last());
        assert(key(b[b.len() - 1], axis) > key(x, axis));
        assert((insert_by_key(a, x, axis) + bi).push(b.last()) =~= insert_by_key(a, x, axis) + b);
    }
}

/// Where `x` ends up once every item after position `n` of the sorted `t`
/// is greater than `x` and the item before it (if any) is not.
proof fn lemma_insert_at(t: Seq<DataPoint>, x: DataPoint, n: int, axis: u64)
    requires
        0 <= n <= t.len(),
        forall|k: int| n <= k < t.len() ==> key(#[trigger] t[k], axis) > key(x, axis),
        n == 0 || key(t[n - 1], axis) <= key(x, axis),
    ensures
        insert_by_key(t, x, axis) == t.subrange(0, n) + seq![x] + t.subrange(n, t.len() as int),
{
    let pre = t.subrange(0, n);
    let post = t.subrange(n, t.len() as int);
    assert(t =~= pre + post);
    lemma_insert_before(pre, post, x, axis);
    if n > 0 {
        assert(pre.last() == t[n - 1]);
        assert(insert_by_key(pre, x, axis) == pre.push(x));
    } else {
        assert(pre =~= Seq::<DataPoint>::empty());
        assert(insert_by_key(pre, x, axis) == seq![x]);
    }
    assert(pre.push(x) =~= pre + seq![x]);
}

/// Exchanging `x` with the item before it moves it one place to the left.
proof fn lemma_shift_left(u: Seq<DataPoint>, t: Seq<DataPoint>, x: DataPoint, n: int)
    requires
        1 <= n <= t.len(),
        u == t.subrange(0, n) + seq![x] + t.subrange(n, t.len() as int),
    ensures
        u[n - 1] == t[n - 1],
        u[n] == x,
        u.update(n - 1, x).update(n, t[n - 1]) == t.subrange(0, n - 1) + seq![x] + t.subrange(
            n - 1,
            t.len() as int,
        ),
{
    let v = u.update(n - 1, x).update(n, t[n - 1]);
    let w = t.subrange(0, n - 1) + seq![x] + t.subrange(n - 1, t.len() as int);
    assert(u.len() == t.len() + 1);
    assert(u[n - 1] == t[n - 1]);
    assert(u[n] == x);
    assert forall|k: int| 0 <= k < v.len() implies v[k] == w[k] by {
        if k < n - 1 {
            assert(u[k] == t[k]);
        } else if k > n {
            assert(u[k] == t[k - 1]);
        }
    }
    assert(v =~= w);
}

/// The point at position `j`.
pub open spec fn at(s: Seq<DataPoint>, j: usize) -> DataPoint {
    s[j as int]
}

/// Whether the point at `j - 1` lies beyond the point at `j` on `axis`.
fn out_of_order(points: &Vec<DataPoint>, j: usize, axis: u64) -> (r: bool)
    requires
        0 < j < points.len(),
        axis < NDIMS,
    ensures
        r == (key(points@[j - 1], axis) > key(at(points@, j), axis)),
{
    cmp_on_axis(&points[j - 1], &points[j], axis) > 0
}

/// Sorts the points at positions `lo..=hi` by their coordinate on `axis`,
/// leaving the other positions untouched (insertion sort, keeping the order
/// of points with equal coordinates).
pub fn sort_points_on_axis(points: &mut Vec<DataPoint>, lo: usize, hi: usize, axis: u64)
    requires
        lo <= hi < old(points).len(),
        axis < NDIMS,
    ensures
        final(points).len() == old(points).len(),
        forall|k: int|
            0 <= k < old(points).len() && !(lo <= k <= hi) ==> #[trigger] final(points)@[k]
                == old(points)@[k],
        final(points)@.subrange(lo as int, hi + 1) == sort_by_key(
            old(points)@.subrange(lo as int, hi + 1),
            axis,
        ),
        range_items(final(points)@, lo, hi) == range_items(old(points)@, lo, hi),
        sorted_on(final(points)@, lo, hi, axis),
{
    let ghost orig = points@;
    let mut i: usize = lo + 1;
    proof {
        let s1 = orig.subrange(lo as int, lo + 1);
        assert(s1.drop_last() =~= Seq::<DataPoint>::empty());
        assert(sort_by_key(s1.drop_last(), axis) == s1.drop_last());
        assert(sort_by_key(s1, axis) =~= seq![orig[lo as int]]);
        assert(points@.subrange(lo as int, lo + 1) =~= seq![orig[lo as int]]);
    }
    while i <= hi
        invariant
            lo < i <= hi + 1,
            hi < points.len(),
            points.len() == orig.len(),
            axis < NDIMS,
            forall|k: int|
                0 <= k < orig.len() && !(lo <= k < i) ==> #[trigger] points@[k] == orig[k],
            points@.subrange(lo as int, i as int) == sort_by_key(
                orig.subrange(lo as int, i as int),
                axis,
            ),
            range_items(points@, lo, hi) == range_items(orig, lo, hi),
            forall|a: int, b: int|
                lo <= a <= b < i ==> #[trigger] key(points@[a], axis) <= #[trigger] key(
                    points@[b],
                    axis,
                ),
        decreases hi + 1 - i,
    {
        let ghost t = points@.subrange(lo as int, i as int);
        let ghost x = orig[i as int];
        let mut j: usize = i;
        proof {
            assert(points@[i as int] == x);
            assert(points@.subrange(lo as int, i + 1) =~= t.subrange(0, j - lo) + seq![x]
                + t.subrange(j - lo, i - lo));
        }
        while j > lo && out_of_order(&points, j, axis)
            invariant
                lo <= j <= i <= hi,
                hi < points.len(),
                points.len() == orig.len(),
                axis < NDIMS,
                t.len() == i - lo,
                forall|k: int|
                    0 <= k < orig.len() && !(lo <= k <= i) ==> #[trigger] points@[k] == orig[k],
                points@.subrange(lo as int, i + 1) == t.subrange(0, j - lo) + seq![x]
                    + t.subrange(j - lo, i - lo),
                forall|k: int| j - lo <= k < i - lo ==> key(#[trigger] t[k], axis) > key(x, axis),
                range_items(points@, lo, hi) == range_items(orig, lo, hi),
                forall|a: int, b: int|
                    lo <= a <= b <= i && a != j && b != j ==> #[trigger] key(points@[a], axis)
                        <= #[trigger] key(points@[b], axis),
                forall|b: int|
                    j < b <= i ==> key(points@[j as int], axis) <= #[trigger] key(points@[b], axis),
            decreases j,
        {
            let jm = j - 1;
            let ghost before = points@;
            let ghost u = before.subrange(lo as int, i + 1);
            proof {
                lemma_shift_left(u, t, x, j - lo);
                assert(u[jm - lo] == before[jm as int]);
                assert(u[j - lo] == before[j as int]);
            }
            let a = points[jm];
            let b = points[j];
            points.set(jm, b);
            points.set(j, a);
            proof {
                assert(points@ == swapped(before, jm, j));
                lemma_swap_keeps_range(before, jm, j, lo, hi);
                assert(points@.subrange(lo as int, i + 1) =~= u.update(jm - lo, x).update(
                    j - lo,
                    t[jm - lo],
                ));
            }
            j = jm;
        }
        proof {
            let u = points@.subrange(lo as int, i + 1);
            if j > lo {
                lemma_shift_left(u, t, x, j - lo);
                assert(u[j - 1 - lo] == points@[j - 1]);
                assert(u[j - lo] == points@[j as int]);
                assert(key(t[j - lo - 1], axis) <= key(x, axis));
            }
            assert forall|a: int, b: int| lo <= a <= b <= i implies #[trigger] key(points@[a], axis)
                <= #[trigger] key(points@[b], axis) by {
                if a == j && b != j {
                } else if b == j && a != j {
                    assert(key(points@[a], axis) <= key(points@[j - 1], axis));
                } else {
                }
            }
            // The new prefix is the insertion of `x` into the sorted prefix.
            lemma_insert_at(t, x, j - lo, axis);
            let s_next = orig.subrange(lo as int, i + 1);
            assert(s_next.drop_last() =~= orig.subrange(lo as int, i as int));
            assert(s_next.last() == x);
            assert(u == insert_by_key(t, x, axis));
        }
        i = i + 1;
    }
    proof {
        assert(forall|k: int| 0 <= k < orig.len() && !(lo <= k <= hi) ==> #[trigger] points@[k]
            == orig[k]);
    }
}

/// Sign of the comparison of two indices.
pub open spec fn sign_of_u64(a: u64, b: u64) -> i32 {
    if a > b {
        1i32
    } else if a < b {
        -1i32
    } else {
        0i32
    }
}

/// Compares two indices.
pub fn cmp_size_t(a1: &u64, a2: &u64) -> (r: i32)
    ensures
        r == sign_of_u64(*a1, *a2),
{
    if *a1 > *a2 {
        1
    } else if *a1 < *a2 {
        -1
    } else {
        0
    }
}

/// The entry at position `j`.
pub open spec fn entry_at(s: Seq<u64>, j: usize) -> u64 {
    s[j as int]
}

/// Whether the entry at `j - 1` is greater than the entry at `j`.
fn entries_out_of_order(data: &Vec<u64>, j: usize) -> (r: bool)
    requires
        0 < j < data.len(),
    ensures
        r == (data@[j - 1] > entry_at(data@, j)),
{
    cmp_size_t(&data[j - 1], &data[j]) > 0
}

/// The sequence is in non-decreasing order.
pub open spec fn ascending(s: Seq<u64>) -> bool {
    forall|a: int, b: int| 0 <= a <= b < s.len() ==> #[trigger] s[a] <= #[trigger] s[b]
}

/// Sorts the whole vector in non-decreasing order (insertion sort).
pub fn sort_indices(data: &mut Vec<u64>)
    ensures
        final(data)@.to_multiset() == old(data)@.to_multiset(),
        ascending(final(data)@),
{
    let ghost orig = data@;
    let n = data.len();
    let mut i: usize = 1;
    while i < n
        invariant
            1 <= i,
            data.len() == n,
            data@.to_multiset() == orig.to_multiset(),
            forall|a: int, b: int| 0 <= a <= b < i && b < n ==> #[trigger] data@[a] <= #[trigger] data@[b],
        decreases n - i,
    {
        let mut j: usize = i;
        while j > 0 && entries_out_of_order(&data, j)
            invariant
                j <= i < n,
                data.len() == n,
                data@.to_multiset() == orig.to_multiset(),
                forall|a: int, b: int|
                    0 <= a <= b <= i && a != j && b != j ==> #[trigger] data@[a] <= #[trigger] data@[b],
                forall|b: int| j < b <= i ==> data@[j as int] <= #[trigger] data@[b],
            decreases j,
        {
            let jm = j - 1;
            let ghost before = data@;
            let a = data[jm];
            let b = data[j];
            data.set(jm, b);
            data.set(j, a);
            proof {
                assert(data@ == swapped(before, jm, j));
                lemma_swap_keeps_items(before, jm, j);
            }
            j = jm;
        }
        proof {
            assert forall|a: int, b: int| 0 <= a <= b <= i implies #[trigger] data@[a]
                <= #[trigger] data@[b] by {
                if b == j && a != j {
                    assert(data@[a] <= data@[j - 1]);
                }
            }
        }
        i = i + 1;
    }
}

} // verus!
