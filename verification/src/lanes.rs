//! Vectors of lanes, and the few operations the reduction needs on them.
//!
//! A vector holds one value per lane. Every operation acts on each lane by
//! itself, except for the two horizontal reductions, which combine the lanes
//! of one vector into a single value.
use crate::scalar::Additive;
use vstd::prelude::*;

verus! {

/// The sum of the first `n` lanes of `v`, taken from lane 0 upwards and
/// starting with lane 0 itself.
pub open spec fn fold_lanes<T: Additive>(v: Seq<T>, n: nat) -> T
    decreases n,
{
    if n <= 1 {
        v[0]
    } else {
        fold_lanes(v, (n - 1) as nat).plus_spec(v[n - 1])
    }
}

/// Vectors that agree lane by lane add up to the same.
pub proof fn lemma_fold_same<T: Additive>(u: Seq<T>, v: Seq<T>, n: nat)
    requires
        u[0] == v[0],
        forall|k: int| 0 <= k < n ==> u[k] == v[k],
    ensures
        fold_lanes(u, n) == fold_lanes(v, n),
    decreases n,
{
    if n > 1 {
        lemma_fold_same(u, v, (n - 1) as nat);
    }
}

/// The total of the first `n` lane counters of `c`.
pub open spec fn lane_count(c: Seq<u8>, n: nat) -> nat
    decreases n,
{
    if n == 0 {
        0
    } else {
        lane_count(c, (n - 1) as nat) + c[n - 1] as nat
    }
}

/// Counters that are all zero total zero.
pub proof fn lemma_lane_count_zero(c: Seq<u8>, n: nat)
    requires
        n <= c.len(),
        forall|k: int| 0 <= k < n ==> c[k] == 0,
    ensures
        lane_count(c, n) == 0,
    decreases n,
{
    if n > 0 {
        lemma_lane_count_zero(c, (n - 1) as nat);
    }
}

/// The total of counters that agree lane by lane is the same.
pub proof fn lemma_lane_count_same(c: Seq<u8>, d: Seq<u8>, n: nat)
    requires
        n <= c.len(),
        n <= d.len(),
        forall|k: int| 0 <= k < n ==> c[k] == d[k],
    ensures
        lane_count(c, n) == lane_count(d, n),
    decreases n,
{
    if n > 0 {
        lemma_lane_count_same(c, d, (n - 1) as nat);
    }
}

/// Raising one counter by `step` raises the total by `step`, as long as the
/// counter lies among the lanes that are totalled.
pub proof fn lemma_lane_count_raised(c: Seq<u8>, d: Seq<u8>, n: nat, lane: int, step: nat)
    requires
        n <= c.len(),
        c.len() == d.len(),
        0 <= lane < c.len(),
        d[lane] == c[lane] + step,
        forall|k: int| 0 <= k < c.len() && k != lane ==> c[k] == d[k],
    ensures
        lane_count(d, n) == lane_count(c, n) + if lane < n {
            step
        } else {
            0
        },
    decreases n,
{
    if n > 0 {
        lemma_lane_count_raised(c, d, (n - 1) as nat, lane, step);
    }
}

/// A vector with `x` in each of its `lanes` lanes.
pub fn splat<T: Copy>(x: T, lanes: usize) -> (r: Vec<T>)
    ensures
        r@.len() == lanes,
        forall|k: int| 0 <= k < lanes ==> r@[k] == x,
{
    let mut r: Vec<T> = Vec::new();
    let mut k: usize = 0;
    while k < lanes
        invariant
            k <= lanes,
            r@.len() == k,
            forall|t: int| 0 <= t < k ==> r@[t] == x,
        decreases lanes - k,
    {
        r.push(x);
        k = k + 1;
    }
    r
}

/// Adds `b` to `a`, lane by lane.
pub fn add_lanes<T: Additive>(a: &mut Vec<T>, b: &Vec<T>)
    requires
        old(a)@.len() == b@.len(),
    ensures
        final(a)@.len() == b@.len(),
        forall|k: int| 0 <= k < b@.len() ==> final(a)@[k] == old(a)@[k].plus_spec(b@[k]),
{
    let lanes: usize = b.len();
    let mut k: usize = 0;
    while k < lanes
        invariant
            lanes == b@.len(),
            a@.len() == lanes,
            k <= lanes,
            forall|t: int| 0 <= t < k ==> a@[t] == old(a)@[t].plus_spec(b@[t]),
            forall|t: int| k <= t < lanes ==> a@[t] == old(a)@[t],
        decreases lanes - k,
    {
        let sum: T = a[k].plus(b[k]);
        a.set(k, sum);
        k = k + 1;
    }
}

/// Moves every lane `amount` places towards lane 0; the lanes that fall off
/// the front come back in at the end.
pub fn rotate_left<T: Copy>(v: &Vec<T>, amount: usize) -> (r: Vec<T>)
    requires
        amount < v@.len(),
    ensures
        r@.len() == v@.len(),
        forall|k: int| 0 <= k < v@.len() ==> r@[k] == v@[(k + amount) % (v@.len() as int)],
{
    let lanes: usize = v.len();
    let mut r: Vec<T> = Vec::new();
    let mut k: usize = 0;
    while k < lanes
        invariant
            lanes == v@.len(),
            amount < lanes,
            k <= lanes,
            r@.len() == k,
            forall|t: int| 0 <= t < k ==> r@[t] == v@[(t + amount) % (lanes as int)],
        decreases lanes - k,
    {
        let from: usize = if k < lanes - amount {
            k + amount
        } else {
            k - (lanes - amount)
        };
        proof {
            if k < lanes - amount {
                vstd::arithmetic::div_mod::lemma_small_mod((k + amount) as nat, lanes as nat);
            } else {
                vstd::arithmetic::div_mod::lemma_fundamental_div_mod_converse(
                    (k + amount) as int,
                    lanes as int,
                    1,
                    from as int,
                );
            }
        }
        r.push(v[from]);
        k = k + 1;
    }
    r
}

/// Adds up the lanes of `v`, from lane 0 upwards.
pub fn reduce_add<T: Additive>(v: &Vec<T>) -> (r: T)
    requires
        v@.len() >= 1,
    ensures
        r == fold_lanes(v@, v@.len()),
{
    let lanes: usize = v.len();
    let mut r: T = v[0];
    let mut k: usize = 1;
    while k < lanes
        invariant
            lanes == v@.len(),
            1 <= k <= lanes,
            r == fold_lanes(v@, k as nat),
        decreases lanes - k,
    {
        r = r.plus(v[k]);
        k = k + 1;
    }
    r
}

/// Adds the counters of `b` to those of `a`, lane by lane.
pub fn index_add(a: &mut Vec<u8>, b: &Vec<u8>)
    requires
        old(a)@.len() == b@.len(),
        forall|k: int| 0 <= k < b@.len() ==> old(a)@[k] + b@[k] <= u8::MAX,
    ensures
        final(a)@.len() == b@.len(),
        forall|k: int| 0 <= k < b@.len() ==> final(a)@[k] == old(a)@[k] + b@[k],
        lane_count(final(a)@, b@.len()) == lane_count(old(a)@, b@.len()) + lane_count(
            b@,
            b@.len(),
        ),
{
    let lanes: usize = b.len();
    let mut k: usize = 0;
    while k < lanes
        invariant
            lanes == b@.len(),
            a@.len() == lanes,
            k <= lanes,
            forall|t: int| 0 <= t < lanes ==> old(a)@[t] + b@[t] <= u8::MAX,
            forall|t: int| 0 <= t < k ==> a@[t] == old(a)@[t] + b@[t],
            forall|t: int| k <= t < lanes ==> a@[t] == old(a)@[t],
            lane_count(a@, k as nat) == lane_count(old(a)@, k as nat) + lane_count(b@, k as nat),
        decreases lanes - k,
    {
        let ghost before = a@;
        let sum: u8 = a[k] + b[k];
        a.set(k, sum);
        proof {
            lemma_lane_count_same(before, a@, k as nat);
        }
        k = k + 1;
    }
}

/// Adds up the lane counters of `c`.
pub fn reduce(c: &Vec<u8>) -> (r: usize)
    requires
        c@.len() <= 0x1_0000,
    ensures
        r == lane_count(c@, c@.len()),
{
    let lanes: usize = c.len();
    let mut r: usize = 0;
    let mut k: usize = 0;
    while k < lanes
        invariant
            lanes == c@.len(),
            k <= lanes,
            lanes <= 0x1_0000,
            r == lane_count(c@, k as nat),
            r <= 255 * k,
        decreases lanes - k,
    {
        r = r + c[k] as usize;
        k = k + 1;
    }
    r
}

} // verus!
