//! Balanced bucketing of eigen-directions.
//!
//! The directions of an eigenbasis are spread over equally large buckets so
//! that the products of the eigenvalues in the buckets stay close to each
//! other. Products are balanced as sums: every direction comes with a
//! weight, the logarithm of its eigenvalue in steps of a grid that the
//! caller chooses.

use vstd::prelude::*;

use crate::error::PqError;

verus! {

/// Direction `a` comes before direction `b`: it has the smaller weight, or
/// the same weight and the smaller index.
pub open spec fn precedes(weights: Seq<i64>, a: int, b: int) -> bool {
    weights[a] < weights[b] || (weights[a] == weights[b] && a < b)
}

/// Direction `x` occurs in `order`.
pub open spec fn lists(order: Seq<usize>, x: int) -> bool {
    exists|k: int| 0 <= k < order.len() && #[trigger] order[k] == x
}

/// `order` lists every direction once, each before all that it precedes.
pub open spec fn is_ascending_order(order: Seq<usize>, weights: Seq<i64>) -> bool {
    &&& order.len() == weights.len()
    &&& forall|k: int| 0 <= k < order.len() ==> (#[trigger] order[k]) < weights.len()
    &&& forall|a: int, b: int|
        0 <= a < b < order.len() ==> precedes(weights, #[trigger] order[a] as int, #[trigger] order[b] as int)
    &&& forall|x: int| 0 <= x < weights.len() ==> #[trigger] lists(order, x)
}

/// The directions in ascending order of their weights; directions with
/// equal weights stand in ascending order of their indices.
pub open spec fn ascending_order(weights: Seq<i64>) -> Seq<usize> {
    choose|order: Seq<usize>| is_ascending_order(order, weights)
}

/// Only one sequence lists the directions in ascending order.
pub proof fn lemma_ascending_order_unique(s1: Seq<usize>, s2: Seq<usize>, weights: Seq<i64>)
    requires
        is_ascending_order(s1, weights),
        is_ascending_order(s2, weights),
    ensures
        s1 == s2,
{
    assert forall|k: int| 0 <= k < s1.len() implies s1[k] == s2[k] by {
        lemma_ascending_order_agree(s1, s2, weights, k);
    }
    assert(s1 =~= s2);
}

proof fn lemma_ascending_order_agree(s1: Seq<usize>, s2: Seq<usize>, weights: Seq<i64>, k: int)
    requires
        is_ascending_order(s1, weights),
        is_ascending_order(s2, weights),
        0 <= k < s1.len(),
    ensures
        s1[k] == s2[k],
    decreases k,
{
    assert forall|j: int| 0 <= j < k implies s1[j] == s2[j] by {
        lemma_ascending_order_agree(s1, s2, weights, j);
    }
    let x = s1[k] as int;
    let y = s2[k] as int;
    assert(lists(s2, x) && lists(s1, y));
    let p = choose|p: int| 0 <= p < s2.len() && s2[p] == x;
    let q = choose|q: int| 0 <= q < s1.len() && s1[q] == y;
    if p < k {
        assert(s1[p] == s2[p]);
        assert(precedes(weights, s1[p] as int, s1[k] as int));
    }
    if q < k {
        assert(s1[q] == s2[q]);
        assert(precedes(weights, s2[q] as int, s2[k] as int));
    }
    if p > k {
        assert(precedes(weights, s2[k] as int, s2[p] as int));
        if q > k {
            assert(precedes(weights, s1[k] as int, s1[q] as int));
        }
    }
}

/// `order` lists the first `n` directions in ascending order.
pub open spec fn is_ascending_prefix(order: Seq<usize>, weights: Seq<i64>, n: nat) -> bool {
    &&& order.len() == n
    &&& forall|k: int| 0 <= k < order.len() ==> (#[trigger] order[k]) < n
    &&& forall|a: int, b: int|
        0 <= a < b < order.len() ==> precedes(weights, #[trigger] order[a] as int, #[trigger] order[b] as int)
    &&& forall|x: int| 0 <= x < n ==> #[trigger] lists(order, x)
}

/// Where direction `i` goes into the ascending order of the directions
/// before it: in front of the trailing run of larger weights.
pub open spec fn insertion_point(order: Seq<usize>, weights: Seq<i64>, i: int, p: nat) -> nat
    decreases p,
{
    if p > 0 && weights[order[p - 1] as int] > weights[i] {
        insertion_point(order, weights, i, (p - 1) as nat)
    } else {
        p
    }
}

proof fn lemma_insertion_point(order: Seq<usize>, weights: Seq<i64>, i: int, p: nat)
    ensures
        ({
            let r = insertion_point(order, weights, i, p);
            &&& r <= p
            &&& forall|k: int| r <= k < p ==> weights[(#[trigger] order[k]) as int] > weights[i]
            &&& r > 0 ==> weights[order[r - 1] as int] <= weights[i]
        }),
    decreases p,
{
    if p > 0 && weights[order[p - 1] as int] > weights[i] {
        lemma_insertion_point(order, weights, i, (p - 1) as nat);
    }
}

proof fn lemma_insert_keeps_order(before: Seq<usize>, weights: Seq<i64>, i: usize, p: int)
    requires
        is_ascending_prefix(before, weights, i as nat),
        i < weights.len(),
        0 <= p <= i,
        forall|k: int| p <= k < i ==> weights[(#[trigger] before[k]) as int] > weights[i as int],
        p > 0 ==> weights[before[p - 1] as int] <= weights[i as int],
    ensures
        is_ascending_prefix(before.insert(p, i), weights, (i + 1) as nat),
{
    let after = before.insert(p, i);
    assert forall|k: int| 0 <= k < i + 1 implies (#[trigger] after[k]) < i + 1 by {
        if k < p {
            assert(after[k] == before[k]);
        } else if k > p {
            assert(after[k] == before[k - 1]);
        }
    }
    assert forall|a: int, b: int| 0 <= a < b < i + 1 implies precedes(
        weights,
        #[trigger] after[a] as int,
        #[trigger] after[b] as int,
    ) by {
        if b < p {
            assert(after[a] == before[a] && after[b] == before[b]);
        } else if b == p {
            assert(after[a] == before[a]);
            assert(precedes(weights, before[a] as int, before[p - 1] as int) || a == p - 1);
        } else if a < p {
            assert(after[a] == before[a] && after[b] == before[b - 1]);
        } else if a == p {
            assert(after[b] == before[b - 1]);
        } else {
            assert(after[a] == before[a - 1] && after[b] == before[b - 1]);
        }
    }
    assert forall|x: int| 0 <= x < i + 1 implies #[trigger] lists(after, x) by {
        if x == i {
            assert(after[p] == x);
        } else {
            assert(lists(before, x));
            let k0 = choose|k: int| 0 <= k < before.len() && #[trigger] before[k] == x;
            if k0 < p {
                assert(after[k0] == x);
            } else {
                assert(after[k0 + 1] == x);
            }
        }
    }
}

proof fn lemma_ascending_prefix_exists(weights: Seq<i64>, n: nat)
    requires
        n <= weights.len() <= usize::MAX,
    ensures
        exists|order: Seq<usize>| is_ascending_prefix(order, weights, n),
    decreases n,
{
    if n == 0 {
        assert(is_ascending_prefix(Seq::<usize>::empty(), weights, 0));
    } else {
        let m = (n - 1) as nat;
        lemma_ascending_prefix_exists(weights, m);
        let before = choose|order: Seq<usize>| is_ascending_prefix(order, weights, m);
        let i = (n - 1) as usize;
        let p = insertion_point(before, weights, i as int, i as nat);
        lemma_insertion_point(before, weights, i as int, i as nat);
        lemma_insert_keeps_order(before, weights, i, p as int);
        assert(is_ascending_prefix(before.insert(p as int, i), weights, n));
    }
}

/// Some sequence lists the directions in ascending order, and
/// [`ascending_order`] is that sequence.
pub proof fn lemma_ascending_order_exists(weights: Seq<i64>)
    requires
        weights.len() <= usize::MAX,
    ensures
        is_ascending_order(ascending_order(weights), weights),
{
    lemma_ascending_prefix_exists(weights, weights.len());
    let order = choose|order: Seq<usize>| is_ascending_prefix(order, weights, weights.len());
    assert(is_ascending_order(order, weights));
}

/// Sorts the directions by ascending weight.
pub fn sort_directions(weights: &Vec<i64>) -> (order: Vec<usize>)
    ensures
        order@ == ascending_order(weights@),
        is_ascending_order(order@, weights@),
{
    let n = weights.len();
    let mut order: Vec<usize> = Vec::new();
    let mut i: usize = 0;
    while i < n
        invariant
            n == weights.len(),
            i <= n,
            is_ascending_prefix(order@, weights@, i as nat),
        decreases n - i,
    {
        let mut p: usize = i;
        while p > 0 && weights[order[p - 1]] > weights[i]
            invariant
                n == weights.len(),
                i < n,
                p <= i,
                is_ascending_prefix(order@, weights@, i as nat),
                forall|k: int| p <= k < i ==> weights[(#[trigger] order[k]) as int] > weights[i as int],
            decreases p,
        {
            p = p - 1;
        }
        proof {
            lemma_insert_keeps_order(order@, weights@, i, p as int);
        }
        order.insert(p, i);
        i = i + 1;
    }
    proof {
        assert(is_ascending_order(order@, weights@));
        lemma_ascending_order_unique(order@, ascending_order(weights@), weights@);
    }
    order
}

/// The smallest weight among the first `n` directions.
pub open spec fn min_weight(weights: Seq<i64>, n: nat) -> int
    decreases n,
{
    if n <= 1 {
        weights[0] as int
    } else {
        let m = min_weight(weights, (n - 1) as nat);
        let w = weights[n - 1] as int;
        if w < m {
            w
        } else {
            m
        }
    }
}

/// The weight of direction `x` above the smallest weight of all directions.
pub open spec fn shifted_weight(weights: Seq<i64>, x: int) -> int {
    weights[x] - min_weight(weights, weights.len())
}

/// No direction has a weight below the smallest, and one direction has it.
pub proof fn lemma_min_weight(weights: Seq<i64>, n: nat)
    requires
        1 <= n <= weights.len(),
    ensures
        forall|x: int| 0 <= x < n ==> min_weight(weights, n) <= #[trigger] weights[x],
        exists|x: int| 0 <= x < n && #[trigger] weights[x] == min_weight(weights, n),
    decreases n,
{
    if n > 1 {
        lemma_min_weight(weights, (n - 1) as nat);
        let before = choose|x: int|
            0 <= x < n - 1 && #[trigger] weights[x] == min_weight(weights, (n - 1) as nat);
        if weights[n - 1] < min_weight(weights, (n - 1) as nat) {
            assert(weights[n - 1] == min_weight(weights, n));
        } else {
            assert(weights[before] == min_weight(weights, n));
        }
    } else {
        assert(weights[0] == min_weight(weights, n));
    }
}

/// The shifted weights of all directions.
fn shifted_weights(weights: &Vec<i64>) -> (shifted: Vec<u64>)
    ensures
        shifted.len() == weights.len(),
        forall|x: int|
            0 <= x < weights.len() ==> #[trigger] shifted[x] == shifted_weight(weights@, x),
{
    let n = weights.len();
    let mut shifted: Vec<u64> = Vec::new();
    if n == 0 {
        return shifted;
    }
    let mut smallest: i64 = weights[0];
    let mut i: usize = 1;
    while i < n
        invariant
            n == weights.len(),
            1 <= i <= n,
            smallest == min_weight(weights@, i as nat),
        decreases n - i,
    {
        if weights[i] < smallest {
            smallest = weights[i];
        }
        i = i + 1;
    }
    let mut j: usize = 0;
    while j < n
        invariant
            n == weights.len(),
            n >= 1,
            j <= n,
            shifted.len() == j,
            smallest == min_weight(weights@, n as nat),
            forall|x: int| 0 <= x < j ==> #[trigger] shifted[x] == shifted_weight(weights@, x),
        decreases n - j,
    {
        proof {
            lemma_min_weight(weights@, n as nat);
        }
        let above: i128 = (weights[j] as i128) - (smallest as i128);
        shifted.push(above as u64);
        j = j + 1;
    }
    shifted
}

/// The bucket that takes the next direction, looked for among the first `n`
/// buckets: of those with fewer than `capacity` members the one with the
/// smallest sum, and of several such the first. Negative when all of them
/// are full.
pub open spec fn pick_among(members: Seq<Seq<usize>>, sums: Seq<int>, capacity: nat, n: nat) -> int
    decreases n,
{
    if n == 0 {
        -1
    } else {
        let p = pick_among(members, sums, capacity, (n - 1) as nat);
        let b = n - 1;
        if members[b].len() < capacity && (p < 0 || sums[b] < sums[p]) {
            b
        } else {
            p
        }
    }
}

/// What [`pick_among`] picks: a bucket with room whose sum no other bucket
/// with room undercuts, and which no earlier bucket with room equals.
pub proof fn lemma_pick_among(members: Seq<Seq<usize>>, sums: Seq<int>, capacity: nat, n: nat)
    ensures
        ({
            let p = pick_among(members, sums, capacity, n);
            &&& -1 <= p < n
            &&& p >= 0 ==> members[p].len() < capacity
            &&& forall|b: int|
                0 <= b < n && (#[trigger] members[b]).len() < capacity ==> p >= 0 && sums[p] <= sums[b] && (b < p
                    ==> sums[p] < sums[b])
        }),
    decreases n,
{
    if n > 0 {
        lemma_pick_among(members, sums, capacity, (n - 1) as nat);
    }
}

/// The buckets and their sums after the `t` largest directions were handed
/// out, the largest first.
pub open spec fn assign(
    order: Seq<usize>,
    shifted: Seq<int>,
    n_buckets: nat,
    capacity: nat,
    t: nat,
) -> (Seq<Seq<usize>>, Seq<int>)
    decreases t,
{
    if t == 0 {
        (Seq::new(n_buckets, |b: int| Seq::<usize>::empty()), Seq::new(n_buckets, |b: int| 0int))
    } else {
        let (members, sums) = assign(order, shifted, n_buckets, capacity, (t - 1) as nat);
        let x = order[order.len() - t];
        let b = pick_among(members, sums, capacity, n_buckets);
        (members.update(b, members[b].push(x)), sums.update(b, sums[b] + shifted[x as int]))
    }
}

/// The buckets of the directions of `weights`: the directions are taken
/// from the largest weight down, and each goes to the bucket that
/// [`pick_among`] names.
pub open spec fn bucketing(weights: Seq<i64>, n_buckets: nat) -> Seq<Seq<usize>> {
    assign(
        ascending_order(weights),
        Seq::new(weights.len(), |x: int| shifted_weight(weights, x)),
        n_buckets,
        weights.len() / n_buckets,
        weights.len(),
    ).0
}

/// The number of members of the first `n` buckets together.
pub open spec fn total_len(members: Seq<Seq<usize>>, n: nat) -> nat
    decreases n,
{
    if n == 0 {
        0
    } else {
        total_len(members, (n - 1) as nat) + members[n - 1].len()
    }
}

proof fn lemma_total_len_bounds(members: Seq<Seq<usize>>, capacity: nat, n: nat)
    requires
        n <= members.len(),
        forall|b: int| 0 <= b < n ==> (#[trigger] members[b]).len() <= capacity,
    ensures
        total_len(members, n) <= n * capacity,
        total_len(members, n) == n * capacity ==> forall|b: int|
            0 <= b < n ==> (#[trigger] members[b]).len() == capacity,
    decreases n,
{
    if n > 0 {
        lemma_total_len_bounds(members, capacity, (n - 1) as nat);
        assert(n * capacity == (n - 1) * capacity + capacity) by (nonlinear_arith);
    } else {
        assert(0 * capacity == 0);
    }
}

proof fn lemma_total_len_push(members: Seq<Seq<usize>>, b: int, x: usize, n: nat)
    requires
        n <= members.len(),
        0 <= b < members.len(),
    ensures
        total_len(members.update(b, members[b].push(x)), n) == total_len(members, n) + (if b < n {
            1nat
        } else {
            0nat
        }),
    decreases n,
{
    if n > 0 {
        lemma_total_len_push(members, b, x, (n - 1) as nat);
    }
}

proof fn lemma_total_len_empty(n_buckets: nat, n: nat)
    requires
        n <= n_buckets,
    ensures
        total_len(Seq::new(n_buckets, |b: int| Seq::<usize>::empty()), n) == 0,
    decreases n,
{
    if n > 0 {
        lemma_total_len_empty(n_buckets, (n - 1) as nat);
    }
}

/// Direction `x` is a member of one of the buckets.
pub open spec fn holds(members: Seq<Seq<usize>>, x: int) -> bool {
    exists|b: int, i: int| 0 <= b < members.len() && 0 <= i < members[b].len() && #[trigger] members[b][i] == x
}

/// Direction `x` is one of the last `t` of `order`.
pub open spec fn among_last(order: Seq<usize>, t: nat, x: int) -> bool {
    exists|k: int| order.len() - t <= k < order.len() && #[trigger] order[k] == x
}

/// What holds of the buckets while the directions are handed out.
pub open spec fn assigned(
    order: Seq<usize>,
    members: Seq<Seq<usize>>,
    sums: Seq<int>,
    n_buckets: nat,
    capacity: nat,
    t: nat,
) -> bool {
    &&& members.len() == n_buckets
    &&& sums.len() == n_buckets
    &&& forall|b: int| 0 <= b < n_buckets ==> (#[trigger] members[b]).len() <= capacity
    &&& total_len(members, n_buckets) == t
    &&& forall|b: int, i: int|
        0 <= b < n_buckets && 0 <= i < members[b].len() ==> among_last(order, t, #[trigger] members[b][i] as int)
    &&& forall|k: int| order.len() - t <= k < order.len() ==> holds(members, #[trigger] order[k] as int)
    &&& forall|b1: int, i1: int, b2: int, i2: int|
        0 <= b1 < n_buckets && 0 <= i1 < members[b1].len() && 0 <= b2 < n_buckets && 0 <= i2 < members[b2].len()
            && #[trigger] members[b1][i1] == #[trigger] members[b2][i2] ==> b1 == b2 && i1 == i2
}

proof fn lemma_assign(order: Seq<usize>, shifted: Seq<int>, n_buckets: nat, capacity: nat, t: nat)
    requires
        order.len() == n_buckets * capacity,
        t <= order.len(),
        forall|a: int, b: int| 0 <= a < b < order.len() ==> #[trigger] order[a] != #[trigger] order[b],
    ensures
        ({
            let (members, sums) = assign(order, shifted, n_buckets, capacity, t);
            assigned(order, members, sums, n_buckets, capacity, t)
        }),
        t < order.len() ==> ({
            let (members, sums) = assign(order, shifted, n_buckets, capacity, t);
            let p = pick_among(members, sums, capacity, n_buckets);
            0 <= p < n_buckets && members[p].len() < capacity
        }),
    decreases t,
{
    let (members, sums) = assign(order, shifted, n_buckets, capacity, t);
    if t == 0 {
        lemma_total_len_empty(n_buckets, n_buckets);
    } else {
        let (before, sums_before) = assign(order, shifted, n_buckets, capacity, (t - 1) as nat);
        lemma_assign(order, shifted, n_buckets, capacity, (t - 1) as nat);
        let p = pick_among(before, sums_before, capacity, n_buckets);
        let at = order.len() - t;
        let x = order[at];
        assert(members == before.update(p, before[p].push(x)));
        lemma_total_len_push(before, p, x, n_buckets);
        assert forall|b: int, i: int| 0 <= b < n_buckets && 0 <= i < members[b].len() implies among_last(
            order,
            t,
            #[trigger] members[b][i] as int,
        ) by {
            if b == p && i == before[p].len() {
                assert(order[at] == x);
            } else {
                assert(members[b][i] == before[b][i]);
                assert(among_last(order, (t - 1) as nat, before[b][i] as int));
                let k = choose|k: int| order.len() - (t - 1) <= k < order.len() && #[trigger] order[k] == before[b][i];
                assert(order[k] == members[b][i]);
            }
        }
        assert forall|k: int| order.len() - t <= k < order.len() implies holds(
            members,
            #[trigger] order[k] as int,
        ) by {
            if k == at {
                assert(members[p][before[p].len() as int] == x);
            } else {
                assert(holds(before, order[k] as int));
                let (b, i) = choose|b: int, i: int|
                    0 <= b < before.len() && 0 <= i < before[b].len() && #[trigger] before[b][i] == order[k];
                assert(members[b][i] == order[k]);
            }
        }
        assert forall|b1: int, i1: int, b2: int, i2: int|
            0 <= b1 < n_buckets && 0 <= i1 < members[b1].len() && 0 <= b2 < n_buckets && 0 <= i2
                < members[b2].len() && #[trigger] members[b1][i1] == #[trigger] members[b2][i2] implies b1 == b2
            && i1 == i2 by {
            let new1 = b1 == p && i1 == before[p].len();
            let new2 = b2 == p && i2 == before[p].len();
            if new1 && !new2 {
                assert(members[b2][i2] == before[b2][i2]);
                assert(among_last(order, (t - 1) as nat, before[b2][i2] as int));
            } else if new2 && !new1 {
                assert(members[b1][i1] == before[b1][i1]);
                assert(among_last(order, (t - 1) as nat, before[b1][i1] as int));
            } else if !new1 && !new2 {
                assert(members[b1][i1] == before[b1][i1]);
                assert(members[b2][i2] == before[b2][i2]);
            }
        }
    }
    if t < order.len() {
        lemma_pick_among(members, sums, capacity, n_buckets);
        lemma_total_len_bounds(members, capacity, n_buckets);
        let p = pick_among(members, sums, capacity, n_buckets);
        if p < 0 {
            assert forall|b: int| 0 <= b < n_buckets implies (#[trigger] members[b]).len() >= capacity by {}
            lemma_total_len_at_least(members, capacity, n_buckets);
        }
    }
}

proof fn lemma_total_len_at_least(members: Seq<Seq<usize>>, capacity: nat, n: nat)
    requires
        n <= members.len(),
        forall|b: int| 0 <= b < n ==> (#[trigger] members[b]).len() >= capacity,
    ensures
        total_len(members, n) >= n * capacity,
    decreases n,
{
    if n > 0 {
        lemma_total_len_at_least(members, capacity, (n - 1) as nat);
        assert(n * capacity == (n - 1) * capacity + capacity) by (nonlinear_arith);
    } else {
        assert(0 * capacity == 0);
    }
}

/// The buckets are a partition of the directions `0..n_directions` into
/// `n_buckets` parts of equal size.
pub open spec fn is_balanced_partition(buckets: Seq<Seq<usize>>, n_directions: nat, n_buckets: nat) -> bool {
    &&& buckets.len() == n_buckets
    &&& forall|b: int| 0 <= b < n_buckets ==> (#[trigger] buckets[b]).len() == n_directions / n_buckets
    &&& forall|b: int, i: int|
        0 <= b < n_buckets && 0 <= i < buckets[b].len() ==> (#[trigger] buckets[b][i]) < n_directions
    &&& forall|b1: int, i1: int, b2: int, i2: int|
        0 <= b1 < n_buckets && 0 <= i1 < buckets[b1].len() && 0 <= b2 < n_buckets && 0 <= i2 < buckets[b2].len()
            && #[trigger] buckets[b1][i1] == #[trigger] buckets[b2][i2] ==> b1 == b2 && i1 == i2
    &&& forall|x: int| 0 <= x < n_directions ==> #[trigger] holds(buckets, x)
}

/// Whenever the number of buckets divides the number of directions, the
/// buckets are pairwise disjoint, each holds the same number of directions,
/// and together they hold every direction.
pub proof fn lemma_bucketing_partitions(weights: Seq<i64>, n_buckets: nat)
    requires
        weights.len() <= usize::MAX,
        n_buckets > 0,
        weights.len() >= n_buckets,
        weights.len() % n_buckets == 0,
    ensures
        is_balanced_partition(bucketing(weights, n_buckets), weights.len(), n_buckets),
{
    let d = weights.len();
    let capacity = d / n_buckets;
    let order = ascending_order(weights);
    let shifted = Seq::new(d, |x: int| shifted_weight(weights, x));
    lemma_ascending_order_exists(weights);
    assert(d == n_buckets * capacity) by (nonlinear_arith)
        requires
            n_buckets > 0,
            d % n_buckets == 0,
            capacity == d / n_buckets,
    ;
    assert forall|a: int, b: int| 0 <= a < b < order.len() implies #[trigger] order[a] != #[trigger] order[b] by {
        assert(precedes(weights, order[a] as int, order[b] as int));
    }
    lemma_assign(order, shifted, n_buckets, capacity, d);
    let (members, sums) = assign(order, shifted, n_buckets, capacity, d);
    lemma_total_len_bounds(members, capacity, n_buckets);
    assert forall|b: int, i: int| 0 <= b < n_buckets && 0 <= i < members[b].len() implies (
    #[trigger] members[b][i]) < d by {
        assert(among_last(order, d, members[b][i] as int));
    }
    assert forall|x: int| 0 <= x < d implies #[trigger] holds(members, x) by {
        assert(lists(order, x));
        let k = choose|k: int| 0 <= k < order.len() && #[trigger] order[k] == x;
        assert(holds(members, order[k] as int));
    }
}


/// After the `t` largest directions were handed out, each of the first `t`
/// buckets holds one of them, the largest the first bucket, and the other
/// buckets are empty.
pub open spec fn leading(
    order: Seq<usize>,
    shifted: Seq<int>,
    members: Seq<Seq<usize>>,
    sums: Seq<int>,
    n_buckets: nat,
    t: nat,
) -> bool {
    &&& members.len() == n_buckets
    &&& sums.len() == n_buckets
    &&& forall|j: int|
        0 <= j < t ==> (#[trigger] members[j]) == seq![order[order.len() - 1 - j]] && sums[j] == shifted[order[
            order.len() - 1 - j] as int]
    &&& forall|j: int| t <= j < n_buckets ==> (#[trigger] members[j]).len() == 0 && sums[j] == 0
}

proof fn lemma_leading(order: Seq<usize>, shifted: Seq<int>, n_buckets: nat, capacity: nat, t: nat)
    requires
        capacity >= 1,
        order.len() == n_buckets * capacity,
        t <= n_buckets,
        forall|k: int| 1 <= k < order.len() ==> shifted[(#[trigger] order[k]) as int] > 0,
    ensures
        ({
            let (members, sums) = assign(order, shifted, n_buckets, capacity, t);
            leading(order, shifted, members, sums, n_buckets, t)
        }),
    decreases t,
{
    if t > 0 {
        let (before, sums_before) = assign(order, shifted, n_buckets, capacity, (t - 1) as nat);
        lemma_leading(order, shifted, n_buckets, capacity, (t - 1) as nat);
        lemma_pick_among(before, sums_before, capacity, n_buckets);
        let p = pick_among(before, sums_before, capacity, n_buckets);
        let d = order.len() as int;
        assert(n_buckets * capacity >= n_buckets) by (nonlinear_arith)
            requires
                capacity >= 1,
        ;
        // The next bucket is empty and has the sum zero, and every bucket
        // before it has a sum above zero.
        assert(before[t - 1].len() < capacity);
        assert forall|j: int| 0 <= j < t - 1 implies sums_before[j] > 0 by {
            assert(before[j] == seq![order[d - 1 - j]]);
            assert(shifted[order[d - 1 - j] as int] > 0);
        }
        assert(p == t - 1) by {
            assert(p >= 0 && sums_before[p] <= sums_before[t - 1]);
            if p > t - 1 {
                assert(before[p].len() == 0);
                assert(sums_before[p] < sums_before[t - 1]);
            }
        }
        let (members, sums) = assign(order, shifted, n_buckets, capacity, t);
        let x = order[d - t];
        assert(members == before.update(p, before[p].push(x)));
        assert(before[p].push(x) =~= seq![x]);
        assert forall|j: int| 0 <= j < t implies (#[trigger] members[j]) == seq![order[d - 1 - j]] && sums[j]
            == shifted[order[d - 1 - j] as int] by {
            if j < t - 1 {
                assert(before[j] == seq![order[d - 1 - j]]);
            }
        }
        assert forall|j: int| t <= j < n_buckets implies (#[trigger] members[j]).len() == 0 && sums[j] == 0 by {
            assert(before[j].len() == 0);
        }
    }
}

proof fn lemma_first_member_stays(
    order: Seq<usize>,
    shifted: Seq<int>,
    n_buckets: nat,
    capacity: nat,
    t: nat,
    later: nat,
)
    requires
        order.len() == n_buckets * capacity,
        t <= later <= order.len(),
        forall|a: int, b: int| 0 <= a < b < order.len() ==> #[trigger] order[a] != #[trigger] order[b],
    ensures
        forall|b: int|
            0 <= b < n_buckets && (#[trigger] assign(order, shifted, n_buckets, capacity, t).0[b]).len() >= 1 ==> {
                &&& assign(order, shifted, n_buckets, capacity, later).0[b].len() >= 1
                &&& assign(order, shifted, n_buckets, capacity, later).0[b][0] == assign(
                    order,
                    shifted,
                    n_buckets,
                    capacity,
                    t,
                ).0[b][0]
            },
    decreases later - t,
{
    if t < later {
        lemma_first_member_stays(order, shifted, n_buckets, capacity, t, (later - 1) as nat);
        lemma_assign(order, shifted, n_buckets, capacity, (later - 1) as nat);
        let (before, sums_before) = assign(order, shifted, n_buckets, capacity, (later - 1) as nat);
        let p = pick_among(before, sums_before, capacity, n_buckets);
        let x = order[order.len() - later];
        let after = assign(order, shifted, n_buckets, capacity, later).0;
        assert(after == before.update(p, before[p].push(x)));
        assert forall|b: int|
            0 <= b < n_buckets && (#[trigger] assign(order, shifted, n_buckets, capacity, t).0[b]).len()
                >= 1 implies after[b].len() >= 1 && after[b][0] == assign(
            order,
            shifted,
            n_buckets,
            capacity,
            t,
        ).0[b][0] by {
            assert(before[b].len() >= 1);
            if b == p {
                assert(after[b][0] == before[b][0]);
            }
        }
    }
}

/// Where no two directions have the same weight, the largest directions
/// are spread one per bucket: bucket `j` starts with the direction of the
/// largest weight but `j`.
pub proof fn lemma_largest_directions_lead(weights: Seq<i64>, n_buckets: nat)
    requires
        weights.len() <= usize::MAX,
        buckets_divide(weights.len(), n_buckets),
        forall|a: int, b: int| 0 <= a < b < weights.len() ==> #[trigger] weights[a] != #[trigger] weights[b],
    ensures
        forall|j: int|
            0 <= j < n_buckets ==> (#[trigger] bucketing(weights, n_buckets)[j]).len() >= 1 && bucketing(
                weights,
                n_buckets,
            )[j][0] == ascending_order(weights)[weights.len() - 1 - j],
{
    let d = weights.len();
    let capacity = d / n_buckets;
    let order = ascending_order(weights);
    let shifted = Seq::new(d, |x: int| shifted_weight(weights, x));
    lemma_ascending_order_exists(weights);
    lemma_min_weight(weights, d);
    assert(d == n_buckets * capacity && capacity >= 1) by (nonlinear_arith)
        requires
            n_buckets > 0,
            d >= n_buckets,
            d % n_buckets == 0,
            capacity == d / n_buckets,
    ;
    assert forall|a: int, b: int| 0 <= a < b < order.len() implies #[trigger] order[a] != #[trigger] order[b] by {
        assert(precedes(weights, order[a] as int, order[b] as int));
    }
    assert forall|k: int| 1 <= k < order.len() implies shifted[(#[trigger] order[k]) as int] > 0 by {
        assert(precedes(weights, order[0] as int, order[k] as int));
        assert(order[0] != order[k]);
        assert(min_weight(weights, d) <= weights[order[0] as int]);
    }
    lemma_leading(order, shifted, n_buckets, capacity, n_buckets);
    lemma_first_member_stays(order, shifted, n_buckets, capacity, n_buckets, d);
    let led = assign(order, shifted, n_buckets, capacity, n_buckets).0;
    assert forall|j: int| 0 <= j < n_buckets implies (#[trigger] bucketing(weights, n_buckets)[j]).len() >= 1
        && bucketing(weights, n_buckets)[j][0] == order[d - 1 - j] by {
        assert(led[j] == seq![order[d - 1 - j]]);
        assert(led[j].len() >= 1);
    }
}

/// The bucket count is positive and divides the number of directions, of
/// which there is at least one per bucket.
pub open spec fn buckets_divide(n_directions: nat, n_buckets: nat) -> bool {
    n_buckets > 0 && n_directions >= n_buckets && n_directions % n_buckets == 0
}

/// Finds the bucket with room and the smallest sum.
fn pick_bucket(buckets: &Vec<Vec<usize>>, sums: &Vec<u128>, capacity: usize) -> (picked: Option<usize>)
    requires
        buckets.len() == sums.len(),
    ensures
        ({
            let p = pick_among(buckets.deep_view(), sums@.map_values(|s: u128| s as int), capacity as nat, buckets.len() as nat);
            match picked {
                Some(b) => b == p,
                None => p < 0,
            }
        }),
{
    let ghost members = buckets.deep_view();
    let ghost spec_sums = sums@.map_values(|s: u128| s as int);
    let n = buckets.len();
    let mut picked: Option<usize> = None;
    let mut b: usize = 0;
    while b < n
        invariant
            n == buckets.len(),
            n == sums.len(),
            b <= n,
            members == buckets.deep_view(),
            spec_sums == sums@.map_values(|s: u128| s as int),
            match picked {
                Some(best) => best == pick_among(members, spec_sums, capacity as nat, b as nat) && best < b,
                None => pick_among(members, spec_sums, capacity as nat, b as nat) < 0,
            },
        decreases n - b,
    {
        assert(members[b as int].len() == buckets[b as int].len());
        assert(spec_sums[b as int] == sums[b as int]);
        if buckets[b].len() < capacity {
            match picked {
                None => {
                    picked = Some(b);
                },
                Some(best) => {
                    assert(spec_sums[best as int] == sums[best as int]);
                    if sums[b] < sums[best] {
                        picked = Some(b);
                    }
                },
            }
        }
        b = b + 1;
    }
    picked
}

/// Spreads the directions of an eigenbasis over `n_buckets` buckets of equal
/// size so that the products of the eigenvalues in the buckets are balanced.
///
/// `weights` holds, for every direction, the logarithm of its eigenvalue in
/// steps of a grid. The weights are taken above the smallest of them. The
/// directions are then handed out from the largest weight down: each goes
/// to the bucket that has room and the smallest sum of weights so far, the
/// first of several such. Bucket `b` of the result lists its directions in
/// the order in which it received them.
///
/// Fails with `InvalidConfiguration` when `n_buckets` is zero, exceeds the
/// number of weights or does not divide it.
pub fn bucket_eigenvalues(weights: &Vec<i64>, n_buckets: usize) -> (result: Result<Vec<Vec<usize>>, PqError>)
    ensures
        result == Err::<Vec<Vec<usize>>, PqError>(PqError::InvalidConfiguration) <==> !buckets_divide(
            weights.len() as nat,
            n_buckets as nat,
        ),
        result is Err ==> result == Err::<Vec<Vec<usize>>, PqError>(PqError::InvalidConfiguration),
        result matches Ok(buckets) ==> {
            &&& buckets.deep_view() == bucketing(weights@, n_buckets as nat)
            &&& is_balanced_partition(buckets.deep_view(), weights.len() as nat, n_buckets as nat)
            &&& buckets.len() == n_buckets
            &&& forall|b: int| 0 <= b < n_buckets ==> (#[trigger] buckets[b]).len() == weights.len() / n_buckets
        },
{
    let d = weights.len();
    if n_buckets == 0 || d < n_buckets || d % n_buckets != 0 {
        return Err(PqError::InvalidConfiguration);
    }
    let order = sort_directions(weights);
    let shifted = shifted_weights(weights);
    let capacity = d / n_buckets;
    let ghost spec_weights = Seq::new(d as nat, |x: int| shifted_weight(weights@, x));
    proof {
        assert(d == n_buckets * capacity) by (nonlinear_arith)
            requires
                n_buckets > 0,
                d % n_buckets == 0,
                capacity == d / n_buckets,
        ;
        assert forall|a: int, b: int| 0 <= a < b < order@.len() implies #[trigger] order@[a] != #[trigger] order@[b] by {
            assert(precedes(weights@, order@[a] as int, order@[b] as int));
        }
    }
    let mut buckets: Vec<Vec<usize>> = Vec::new();
    let mut sums: Vec<u128> = Vec::new();
    let mut b: usize = 0;
    while b < n_buckets
        invariant
            b <= n_buckets,
            buckets.len() == b,
            sums.len() == b,
            forall|j: int| 0 <= j < b ==> (#[trigger] buckets[j])@ == Seq::<usize>::empty(),
            forall|j: int| 0 <= j < b ==> #[trigger] sums[j] == 0,
        decreases n_buckets - b,
    {
        buckets.push(Vec::new());
        sums.push(0u128);
        b = b + 1;
    }
    let mut t: usize = 0;
    proof {
        let (members, spec_sums) = assign(order@, spec_weights, n_buckets as nat, capacity as nat, 0);
        assert(buckets.deep_view() =~~= members);
        assert(sums@.map_values(|s: u128| s as int) =~= spec_sums);
    }
    while t < d
        invariant
            t <= d,
            d == weights.len(),
            d == n_buckets * capacity,
            order@.len() == d,
            is_ascending_order(order@, weights@),
            forall|a: int, b: int| 0 <= a < b < order@.len() ==> #[trigger] order@[a] != #[trigger] order@[b],
            shifted.len() == d,
            forall|x: int| 0 <= x < d ==> #[trigger] shifted[x] == spec_weights[x],
            buckets.len() == n_buckets,
            sums.len() == n_buckets,
            buckets.deep_view() == assign(order@, spec_weights, n_buckets as nat, capacity as nat, t as nat).0,
            sums@.map_values(|s: u128| s as int) == assign(
                order@,
                spec_weights,
                n_buckets as nat,
                capacity as nat,
                t as nat,
            ).1,
            forall|j: int| 0 <= j < n_buckets ==> #[trigger] sums[j] <= buckets[j].len() * u64::MAX,
        decreases d - t,
    {
        let ghost members = buckets.deep_view();
        let ghost spec_sums = sums@.map_values(|s: u128| s as int);
        proof {
            lemma_assign(order@, spec_weights, n_buckets as nat, capacity as nat, t as nat);
        }
        let x = order[d - 1 - t];
        let picked = pick_bucket(&buckets, &sums, capacity);
        let p = picked.unwrap();
        assert(members[p as int].len() == buckets[p as int].len());
        assert(spec_sums[p as int] == sums[p as int]);
        assert(sums[p as int] + shifted[x as int] <= (buckets[p as int].len() + 1) * u64::MAX)
            by (nonlinear_arith)
            requires
                sums[p as int] <= buckets[p as int].len() * u64::MAX,
                shifted[x as int] <= u64::MAX,
        ;
        assert((buckets[p as int].len() + 1) * u64::MAX <= u128::MAX) by (nonlinear_arith)
            requires
                buckets[p as int].len() + 1 <= 0xffff_ffff_ffff_ffff,
                u64::MAX == 0xffff_ffff_ffff_ffff,
                u128::MAX == 0xffff_ffff_ffff_ffff_ffff_ffff_ffff_ffff,
        ;
        let sum = sums[p] + (shifted[x] as u128);
        buckets[p].push(x);
        sums.set(p, sum);
        t = t + 1;
        proof {
            let (after, sums_after) = assign(order@, spec_weights, n_buckets as nat, capacity as nat, t as nat);
            assert(after == members.update(p as int, members[p as int].push(x)));
            assert(buckets.deep_view() =~~= after);
            assert(sums@.map_values(|s: u128| s as int) =~= sums_after);
        }
    }
    proof {
        lemma_bucketing_partitions(weights@, n_buckets as nat);
        assert forall|b: int| 0 <= b < n_buckets implies (#[trigger] buckets[b]).len() == d / n_buckets by {
            assert(buckets.deep_view()[b].len() == buckets[b].len());
        }
    }
    Ok(buckets)
}

} // verus!
