//! Vertex degrees: counting, summing and sorting them.
use vstd::prelude::*;
use vstd::relations::{sorted_by, total_ordering};
use crate::walks::is_square;

verus! {

broadcast use {vstd::seq_lib::group_seq_properties, vstd::multiset::group_multiset_axioms};

/// The number of `true` entries of a row.
pub open spec fn count_true(row: Seq<bool>) -> nat
    decreases row.len(),
{
    if row.len() == 0 {
        0
    } else {
        count_true(row.drop_last()) + if row.last() {
            1nat
        } else {
            0nat
        }
    }
}

/// The degree of every vertex, in vertex order.
pub open spec fn degree_list(m: Seq<Seq<bool>>) -> Seq<u32> {
    Seq::new(m.len(), |i: int| count_true(m[i]) as u32)
}

/// The order "at least": sorting by it puts the largest first.
pub open spec fn at_least() -> spec_fn(u32, u32) -> bool {
    |a: u32, b: u32| a >= b
}

/// The sum of a sequence of degrees.
pub open spec fn sum_of(s: Seq<u32>) -> nat
    decreases s.len(),
{
    if s.len() == 0 {
        0
    } else {
        sum_of(s.drop_last()) + s.last() as nat
    }
}

/// How many entries of a sequence are odd.
pub open spec fn odd_count(s: Seq<u32>) -> nat
    decreases s.len(),
{
    if s.len() == 0 {
        0
    } else {
        odd_count(s.drop_last()) + if s.last() % 2 != 0 {
            1nat
        } else {
            0nat
        }
    }
}

/// `x` is an entry of `s` and no entry is smaller.
pub open spec fn is_smallest(s: Seq<u32>, x: u32) -> bool {
    s.contains(x) && forall|i: int| 0 <= i < s.len() ==> x <= #[trigger] s[i]
}

/// `x` is an entry of `s` and no entry is larger.
pub open spec fn is_largest(s: Seq<u32>, x: u32) -> bool {
    s.contains(x) && forall|i: int| 0 <= i < s.len() ==> #[trigger] s[i] <= x
}

pub proof fn lemma_at_least_total()
    ensures
        total_ordering(at_least()),
{
}

/// A row has no more `true` entries than entries.
pub proof fn lemma_count_true_bound(row: Seq<bool>)
    ensures
        count_true(row) <= row.len(),
    decreases row.len(),
{
    if row.len() > 0 {
        lemma_count_true_bound(row.drop_last());
    }
}

/// The degree of every vertex: the number of `true` entries of its row.
pub fn degrees(adj: &Vec<Vec<bool>>) -> (degs: Vec<u32>)
    requires
        is_square(adj.deep_view()),
        adj.len() <= u32::MAX,
    ensures
        degs@ == degree_list(adj.deep_view()),
        forall|i: int| 0 <= i < degs.len() ==> #[trigger] degs@[i] <= adj.len(),
{
    let n = adj.len();
    let ghost m = adj.deep_view();
    let mut degs: Vec<u32> = Vec::new();
    let mut i: usize = 0;
    while i < n
        invariant
            n == adj.len(),
            m == adj.deep_view(),
            is_square(m),
            n <= u32::MAX,
            i <= n,
            degs@ =~= degree_list(m).take(i as int),
            forall|k: int| 0 <= k < i ==> #[trigger] degs@[k] <= n,
        decreases n - i,
    {
        let ghost row = m[i as int];
        assert(adj@[i as int]@ == row);
        assert(row.len() == n);
        let mut d: u32 = 0;
        let mut j: usize = 0;
        while j < n
            invariant
                n == adj.len(),
                i < n,
                n <= u32::MAX,
                row == adj@[i as int]@,
                row.len() == n,
                j <= n,
                d as nat == count_true(row.take(j as int)),
                d <= j,
            decreases n - j,
        {
            assert(row.take(j + 1).drop_last() =~= row.take(j as int));
            if adj[i][j] {
                d = d + 1;
            }
            j = j + 1;
        }
        assert(row.take(n as int) =~= row);

        degs.push(d);
        i = i + 1;
    }
    degs
}

/// The degrees sorted from largest to smallest.
pub fn sort_descending(degs: Vec<u32>) -> (sorted: Vec<u32>)
    ensures
        sorted@ == degs@.sort_by(at_least()),
        forall|k: int, l: int| 0 <= k < l < sorted@.len() ==> sorted@[k] >= sorted@[l],
        sorted@.to_multiset() == degs@.to_multiset(),
{
    let ghost input = degs@;
    let mut a = degs;
    let n = a.len();
    let ghost ge = at_least();
    let mut i: usize = 0;
    while i < n
        invariant
            n == a.len(),
            ge == at_least(),
            i <= n,
            a@.to_multiset() == input.to_multiset(),
            forall|k: int, l: int| 0 <= k < l < i ==> a@[k] >= a@[l],
            forall|k: int, l: int| 0 <= k < i <= l < n ==> a@[k] >= a@[l],
        decreases n - i,
    {
        let mut best = i;
        let mut j = i + 1;
        while j < n
            invariant
                n == a.len(),
                i < n,
                i <= best < n,
                i < j <= n,
                forall|l: int| i <= l < j ==> a@[best as int] >= #[trigger] a@[l],
            decreases n - j,
        {
            if a[j] > a[best] {
                best = j;
            }
            j = j + 1;
        }
        let x = a[i];
        let y = a[best];
        let ghost before = a@;
        a.set(i, y);
        let ghost middle = a@;
        a.set(best, x);
        proof {
            vstd::seq_lib::to_multiset_update(before, i as int, y);
            vstd::seq_lib::to_multiset_update(middle, best as int, x);
            assert(before.to_multiset().contains(x) && before.to_multiset().contains(y)) by {
                vstd::seq_lib::to_multiset_contains(before, x);
                vstd::seq_lib::to_multiset_contains(before, y);
                assert(before.contains(x) && before.contains(y)) by {
                    assert(before[i as int] == x && before[best as int] == y);
                }
            }
            assert(a@.to_multiset() =~= before.to_multiset());
            assert forall|l: int| i <= l < n implies a@[i as int] >= a@[l] by {
                if l == best {
                    assert(before[best as int] >= before[i as int]);
                } else if l != i {
                    assert(a@[l] == before[l]);
                }
            }
            assert forall|k: int, l: int| 0 <= k < i + 1 <= l < n implies a@[k] >= a@[l] by {
                if k < i {
                    if l == best {
                        assert(before[k] >= before[i as int]);
                    } else {
                        assert(before[k] >= before[l]);
                    }
                }
            }
        }
        i = i + 1;
    }
    proof {
        lemma_at_least_total();
        input.lemma_sort_by_ensures(ge);
        assert(sorted_by(a@, ge));
        vstd::seq_lib::lemma_sorted_unique(a@, input.sort_by(ge), ge);
    }
    a
}

/// The sum of the degrees.
pub fn degree_sum(degs: &Vec<u32>) -> (sum: u64)
    requires
        forall|i: int| 0 <= i < degs.len() ==> #[trigger] degs@[i] <= degs.len(),
        degs.len() <= u32::MAX,
    ensures
        sum == sum_of(degs@),
{
    let n = degs.len();
    let mut sum: u64 = 0;
    let mut i: usize = 0;
    while i < n
        invariant
            n == degs.len(),
            n <= u32::MAX,
            forall|k: int| 0 <= k < n ==> #[trigger] degs@[k] <= n,
            i <= n,
            sum == sum_of(degs@.take(i as int)),
            sum <= i * n,
        decreases n - i,
    {
        assert(degs@.take(i + 1).drop_last() =~= degs@.take(i as int));
        proof {
            assert((i + 1) * n == i * n + n) by (nonlinear_arith);
            assert((i + 1) * n <= n * n) by (nonlinear_arith)
                requires
                    i < n,
            ;
            assert(n * n <= 0xffff_ffff * 0xffff_ffffu64) by (nonlinear_arith)
                requires
                    n <= 0xffff_ffff,
            ;
        }
        sum = sum + degs[i] as u64;
        i = i + 1;
    }
    assert(degs@.take(n as int) =~= degs@);
    sum
}

/// How many degrees are odd.
pub fn count_odd(degs: &Vec<u32>) -> (count: usize)
    ensures
        count == odd_count(degs@),
{
    let n = degs.len();
    let mut count: usize = 0;
    let mut i: usize = 0;
    while i < n
        invariant
            n == degs.len(),
            i <= n,
            count == odd_count(degs@.take(i as int)),
            count <= i,
        decreases n - i,
    {
        assert(degs@.take(i + 1).drop_last() =~= degs@.take(i as int));
        if degs[i] % 2 != 0 {
            count = count + 1;
        }
        i = i + 1;
    }
    assert(degs@.take(n as int) =~= degs@);
    count
}

/// The smallest and the largest degree of a non-empty list.
pub fn degree_range(degs: &Vec<u32>) -> (range: (u32, u32))
    requires
        degs.len() > 0,
    ensures
        is_smallest(degs@, range.0),
        is_largest(degs@, range.1),
{
    let mut lo = degs[0];
    let mut hi = degs[0];
    let mut i: usize = 1;
    while i < degs.len()
        invariant
            1 <= i <= degs.len(),
            degs@.take(i as int).contains(lo),
            degs@.take(i as int).contains(hi),
            forall|k: int| 0 <= k < i ==> lo <= #[trigger] degs@[k] <= hi,
        decreases degs.len() - i,
    {
        let ghost t = degs@.take(i as int);
        let ghost t1 = degs@.take(i + 1);
        if degs[i] < lo {
            lo = degs[i];
        }
        if degs[i] > hi {
            hi = degs[i];
        }
        proof {
            assert(t1[i as int] == degs@[i as int]);
            if t.contains(lo) {
                let k = choose|k: int| 0 <= k < t.len() && t[k] == lo;
                assert(t1[k] == lo);
            }
            if t.contains(hi) {
                let k = choose|k: int| 0 <= k < t.len() && t[k] == hi;
                assert(t1[k] == hi);
            }
        }
        i = i + 1;
    }
    assert(degs@.take(degs.len() as int) =~= degs@);
    (lo, hi)
}

} // verus!
