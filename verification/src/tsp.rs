//! Cities, routes and the distance evaluator.
//!
//! Coordinates are fixed-point numbers counted in tenths of a map unit, so
//! the sample city table is represented exactly. A route's length is the
//! cyclic sum of its leg distances, where a leg between two cities measures
//! `sqrt(|dx| + |dy|)` map units; distances are returned as fixed-point
//! integers counted in units of `10^-5`, i.e. a leg is
//! `isqrt((|dx| + |dy|) * 10^9)` with all quantities in tenths. The pruned
//! evaluator abandons a route as soon as its partial sum reaches a given
//! threshold and reports that with an explicit [`Distance::Pruned`] marker,
//! never with a fake numeric value.

use vstd::prelude::*;

verus! {

/// A position on the map; both coordinates are in tenths of a map unit.
#[derive(Clone, Copy, PartialEq, Eq, Structural, Debug)]
pub struct City {
    pub x: i32,
    pub y: i32,
}

/// The outcome of evaluating one route: either its exact length in
/// `10^-5` map units, or the marker that the evaluation was abandoned
/// because the route provably cannot beat the threshold it was given.
#[derive(Clone, Copy, PartialEq, Eq, Structural, Debug)]
pub enum Distance {
    Computed(u64),
    Pruned,
}

/// Routes longer than this many cities are rejected up front; it keeps
/// every cyclic distance sum below `u64::MAX`.
pub const MAX_ROUTE_LEN: usize = 0x8000_0000;

/// Scale between squared-tenths and the `10^-5` distance unit:
/// `10^5 * sqrt(m/10) == sqrt(m * 10^9)` for a Manhattan gap of `m` tenths.
pub const LEG_SCALE: u64 = 1_000_000_000;

/// The integer square root, defined by counting up.
pub open spec fn sqrt_floor(n: nat) -> nat
    decreases n,
{
    if n == 0 {
        0
    } else {
        let r = sqrt_floor((n - 1) as nat);
        if (r + 1) * (r + 1) <= n {
            r + 1
        } else {
            r
        }
    }
}

/// `sqrt_floor(n)` is the unique integer whose square brackets `n`.
pub proof fn lemma_sqrt_floor_bounds(n: nat)
    ensures
        sqrt_floor(n) * sqrt_floor(n) <= n,
        n < (sqrt_floor(n) + 1) * (sqrt_floor(n) + 1),
    decreases n,
{
    let s = sqrt_floor(n);
    if n > 0 {
        lemma_sqrt_floor_bounds((n - 1) as nat);
        let r = sqrt_floor((n - 1) as nat);
        if (r + 1) * (r + 1) <= n {
            assert(s == r + 1);
            assert(s * s == (r + 1) * (r + 1)) by (nonlinear_arith)
                requires s == r + 1,
            ;
            assert(n == s * s);
            assert((s + 1) * (s + 1) > s * s) by (nonlinear_arith);
        } else {
            assert(s == r);
            assert(s * s <= n);
            assert((s + 1) * (s + 1) == (r + 1) * (r + 1)) by (nonlinear_arith)
                requires s == r,
            ;
        }
    } else {
        assert(s == 0);
        assert(s * s == 0 && (s + 1) * (s + 1) == 1) by (nonlinear_arith)
            requires s == 0,
        ;
    }
}

/// Any integer whose square brackets `n` is `sqrt_floor(n)`.
pub proof fn lemma_sqrt_floor_unique(n: nat, r: nat)
    requires
        r * r <= n,
        n < (r + 1) * (r + 1),
    ensures
        r == sqrt_floor(n),
{
    lemma_sqrt_floor_bounds(n);
    let s = sqrt_floor(n);
    if r < s {
        assert((r + 1) * (r + 1) <= s * s) by (nonlinear_arith)
            requires r + 1 <= s,
        ;
    }
    if s < r {
        assert((s + 1) * (s + 1) <= r * r) by (nonlinear_arith)
            requires s + 1 <= r,
        ;
    }
}

/// Binary-search integer square root.
fn isqrt(n: u64) -> (r: u64)
    ensures
        r == sqrt_floor(n as nat),
        r < 0x1_0000_0000,
{
    let mut lo: u64 = 0;
    let mut hi: u64 = 0x1_0000_0000;
    while hi - lo > 1
        invariant
            lo < hi <= 0x1_0000_0000,
            (lo as int) * (lo as int) <= n as int,
            (n as int) < (hi as int) * (hi as int),
        decreases hi - lo,
    {
        let mid = lo + (hi - lo) / 2;
        proof {
            assert(lo < mid < hi);
            assert((mid as int) * (mid as int) < 0x1_0000_0000_0000_0000) by (nonlinear_arith)
                requires 0 <= mid < 0x1_0000_0000,
            ;
        }
        if mid * mid <= n {
            lo = mid;
        } else {
            hi = mid;
        }
    }
    proof {
        lemma_sqrt_floor_unique(n as nat, lo as nat);
    }
    lo
}

/// The gap between two coordinates, as a non-negative number.
pub open spec fn abs_diff(a: int, b: int) -> int {
    if a >= b {
        a - b
    } else {
        b - a
    }
}

/// The Manhattan gap between two cities, in tenths.
pub open spec fn manhattan(c1: City, c2: City) -> int {
    abs_diff(c1.x as int, c2.x as int) + abs_diff(c1.y as int, c2.y as int)
}

/// One leg's distance in `10^-5` map units.
pub open spec fn leg_distance(c1: City, c2: City) -> nat {
    sqrt_floor((manhattan(c1, c2) * LEG_SCALE) as nat)
}

/// A leg measures the same in both directions.
pub proof fn lemma_leg_symmetric(c1: City, c2: City)
    ensures
        leg_distance(c1, c2) == leg_distance(c2, c1),
{
}

/// Every leg is below `2^32` in `10^-5` units.
pub proof fn lemma_leg_bound(c1: City, c2: City)
    ensures
        leg_distance(c1, c2) < 0x1_0000_0000,
{
    let v = (manhattan(c1, c2) * LEG_SCALE) as nat;
    assert(v < 0x1_0000_0000_0000_0000);
    lemma_sqrt_floor_bounds(v);
    let s = sqrt_floor(v);
    if s >= 0x1_0000_0000 {
        assert(s * s >= 0x1_0000_0000_0000_0000) by (nonlinear_arith)
            requires s >= 0x1_0000_0000,
        ;
    }
}

/// The legs of a cyclic route, in visiting order: leg `i` joins city `i`
/// to its successor, the last city closing the tour back to the first.
pub open spec fn leg_seq(s: Seq<City>) -> Seq<nat> {
    Seq::new(s.len(), |i: int| leg_distance(s[i], s[if i + 1 == s.len() { 0 } else { i + 1 }]))
}

/// Sum of a sequence of numbers.
pub open spec fn sum_seq(s: Seq<nat>) -> nat
    decreases s.len(),
{
    if s.len() == 0 {
        0
    } else {
        sum_seq(s.drop_last()) + s.last()
    }
}

pub proof fn lemma_sum_take_step(s: Seq<nat>, i: int)
    requires
        0 <= i < s.len(),
    ensures
        sum_seq(s.take(i + 1)) == sum_seq(s.take(i)) + s[i],
{
    assert(s.take(i + 1).drop_last() =~= s.take(i));
}

/// Partial sums never exceed the total.
pub proof fn lemma_sum_take_le(s: Seq<nat>, i: int)
    requires
        0 <= i <= s.len(),
    ensures
        sum_seq(s.take(i)) <= sum_seq(s),
    decreases s.len() - i,
{
    if i == s.len() {
        assert(s.take(i) =~= s);
    } else {
        lemma_sum_take_step(s, i);
        lemma_sum_take_le(s, i + 1);
    }
}

/// The total cyclic distance of a route, in `10^-5` map units.
pub open spec fn route_distance(s: Seq<City>) -> nat {
    sum_seq(leg_seq(s))
}

pub proof fn lemma_sum_push(s: Seq<nat>, x: nat)
    ensures
        sum_seq(s.push(x)) == sum_seq(s) + x,
{
    assert(s.push(x).drop_last() =~= s);
}

/// A sum can also be peeled off at the front.
pub proof fn lemma_sum_first(s: Seq<nat>)
    requires
        s.len() > 0,
    ensures
        sum_seq(s) == s[0] + sum_seq(s.drop_first()),
    decreases s.len(),
{
    if s.len() == 1 {
        assert(s.drop_last() =~= Seq::<nat>::empty());
        assert(s.drop_first() =~= Seq::<nat>::empty());
    } else {
        lemma_sum_first(s.drop_last());
        assert(s.drop_last().drop_first() =~= s.drop_first().drop_last());
        assert(s.drop_first().last() == s.last());
    }
}

/// Reversing a sequence does not change its sum.
pub proof fn lemma_sum_reverse(s: Seq<nat>)
    ensures
        sum_seq(s.reverse()) == sum_seq(s),
    decreases s.len(),
{
    if s.len() > 0 {
        lemma_sum_reverse(s.drop_first());
        assert(s.reverse().drop_last() =~= s.drop_first().reverse());
        assert(s.reverse().last() == s[0]);
        lemma_sum_first(s);
    }
}

/// Riding a cyclic tour in the opposite direction covers the same
/// distance: each leg is symmetric, and reversal only reorders the legs.
pub proof fn lemma_route_distance_reverse(s: Seq<City>)
    ensures
        route_distance(s.reverse()) == route_distance(s),
{
    let n = s.len() as int;
    if n <= 1 {
        assert(s.reverse() =~= s);
    } else {
        let t = leg_seq(s);
        let rt = leg_seq(s.reverse());
        let a = t.take(n - 1).reverse();
        assert forall|i: int| 0 <= i < n implies rt[i] == a.push(t[n - 1])[i] by {
            if i < n - 1 {
                lemma_leg_symmetric(s[n - 1 - i], s[n - 2 - i]);
                assert(a[i] == t.take(n - 1)[n - 2 - i]);
            } else {
                lemma_leg_symmetric(s[0], s[n - 1]);
            }
        }
        assert(rt =~= a.push(t[n - 1]));
        lemma_sum_push(a, t[n - 1]);
        lemma_sum_reverse(t.take(n - 1));
        lemma_sum_take_step(t, n - 1);
        assert(t.take(n) =~= t);
    }
}

/// Evaluating the pruned distance of route `s` against threshold `best`:
/// the exact length when it beats the threshold, the pruned marker when it
/// does not; the empty route measures zero unconditionally.
pub open spec fn pruned_route_distance(s: Seq<City>, best: u64) -> Distance {
    if s.len() == 0 {
        Distance::Computed(0)
    } else if route_distance(s) >= best {
        Distance::Pruned
    } else {
        Distance::Computed(route_distance(s) as u64)
    }
}

/// Soundness of pruning: a route reported as pruned against threshold `t`
/// really measures at least `t`, so discarding its exact length can never
/// hide a minimum better than `t`.
pub proof fn lemma_pruning_sound(s: Seq<City>, t: u64)
    ensures
        pruned_route_distance(s, t) == Distance::Pruned ==> route_distance(s) >= t,
{
}

fn leg_dist(c1: &City, c2: &City) -> (r: u64)
    ensures
        r == leg_distance(*c1, *c2),
        r < 0x1_0000_0000,
{
    let dx = c1.x as i64 - c2.x as i64;
    let dy = c1.y as i64 - c2.y as i64;
    let adx: u64 = if dx >= 0 {
        dx as u64
    } else {
        (-dx) as u64
    };
    let ady: u64 = if dy >= 0 {
        dy as u64
    } else {
        (-dy) as u64
    };
    let m = adx + ady;
    proof {
        lemma_leg_bound(*c1, *c2);
    }
    isqrt(m * LEG_SCALE)
}

/// The exact cyclic distance of a route.
pub fn calculate_distance(cities: &Vec<City>) -> (r: u64)
    requires
        cities@.len() <= MAX_ROUTE_LEN,
    ensures
        r == route_distance(cities@),
{
    let ghost legs = leg_seq(cities@);
    let n = cities.len();
    let mut sum: u64 = 0;
    let mut i: usize = 0;
    while i < n
        invariant
            n == cities@.len() <= MAX_ROUTE_LEN,
            0 <= i <= n,
            legs == leg_seq(cities@),
            sum == sum_seq(legs.take(i as int)),
            sum <= (i as int) * 0xFFFF_FFFF,
        decreases n - i,
    {
        let next = if i + 1 == n { 0 } else { i + 1 };
        let d = leg_dist(&cities[i], &cities[next]);
        proof {
            lemma_sum_take_step(legs, i as int);
        }
        sum = sum + d;
        i = i + 1;
    }
    proof {
        assert(legs.take(n as int) =~= legs);
    }
    sum
}

/// The pruned distance evaluator: identical to [`calculate_distance`]
/// except that it abandons the route as soon as the partial sum reaches
/// `current_best`, reporting [`Distance::Pruned`] instead of a value.
pub fn calculate_distance_optimized(cities: &Vec<City>, current_best: u64) -> (r: Distance)
    requires
        cities@.len() <= MAX_ROUTE_LEN,
    ensures
        r == pruned_route_distance(cities@, current_best),
{
    let ghost legs = leg_seq(cities@);
    let n = cities.len();
    let mut sum: u64 = 0;
    let mut i: usize = 0;
    while i < n
        invariant
            n == cities@.len() <= MAX_ROUTE_LEN,
            0 <= i <= n,
            legs == leg_seq(cities@),
            sum == sum_seq(legs.take(i as int)),
            sum <= (i as int) * 0xFFFF_FFFF,
            sum < current_best || i == 0,
        decreases n - i,
    {
        let next = if i + 1 == n { 0 } else { i + 1 };
        let d = leg_dist(&cities[i], &cities[next]);
        proof {
            lemma_sum_take_step(legs, i as int);
        }
        sum = sum + d;
        i = i + 1;
        if sum >= current_best {
            proof {
                lemma_sum_take_le(legs, i as int);
                assert(route_distance(cities@) >= sum);
            }
            return Distance::Pruned;
        }
    }
    proof {
        assert(legs.take(n as int) =~= legs);
    }
    Distance::Computed(sum)
}

/// Folding a list of distances down to its minimum, starting from the
/// "no route seen yet" value `u64::MAX`.
pub open spec fn fold_min(s: Seq<u64>) -> u64
    decreases s.len(),
{
    if s.len() == 0 {
        u64::MAX
    } else {
        let m = fold_min(s.drop_last());
        if s.last() < m {
            s.last()
        } else {
            m
        }
    }
}

/// `fold_min` really is the least element (or `u64::MAX` on no input).
pub proof fn lemma_fold_min_is_min(s: Seq<u64>)
    ensures
        forall|i: int| 0 <= i < s.len() ==> fold_min(s) <= #[trigger] s[i],
        fold_min(s) == u64::MAX || exists|i: int| 0 <= i < s.len() && fold_min(s) == #[trigger] s[i],
    decreases s.len(),
{
    if s.len() > 0 {
        lemma_fold_min_is_min(s.drop_last());
        assert forall|i: int| 0 <= i < s.len() implies fold_min(s) <= #[trigger] s[i] by {
            if i < s.len() - 1 {
                assert(s[i] == s.drop_last()[i]);
            }
        }
        if fold_min(s) != u64::MAX {
            if s.last() < fold_min(s.drop_last()) {
                assert(fold_min(s) == s[s.len() - 1]);
            } else {
                let i = choose|i: int|
                    0 <= i < s.drop_last().len() && fold_min(s.drop_last()) == #[trigger] s.drop_last()[i];
                assert(fold_min(s) == s[i]);
            }
        }
    }
}

/// The least of a list of route distances; `u64::MAX` when the list is
/// empty, mirroring an untouched "best seen so far".
pub fn find_shortest_route(distances: Vec<u64>) -> (r: u64)
    ensures
        r == fold_min(distances@),
{
    let mut best: u64 = u64::MAX;
    let mut i: usize = 0;
    while i < distances.len()
        invariant
            0 <= i <= distances@.len(),
            best == fold_min(distances@.take(i as int)),
        decreases distances@.len() - i,
    {
        proof {
            assert(distances@.take(i + 1).drop_last() =~= distances@.take(i as int));
        }
        if distances[i] < best {
            best = distances[i];
        }
        i = i + 1;
    }
    proof {
        assert(distances@.take(distances@.len() as int) =~= distances@);
    }
    best
}

/// The fixed sample table of eighteen cities, in tenths of a map unit.
pub open spec fn city_table() -> Seq<City> {
    seq![
        City { x: 0, y: 0 },
        City { x: 5, y: 10 },
        City { x: 3, y: 15 },
        City { x: 10, y: 25 },
        City { x: 13, y: 12 },
        City { x: 15, y: 14 },
        City { x: 30, y: 15 },
        City { x: 23, y: 12 },
        City { x: 31, y: 2 },
        City { x: 10, y: 20 },
        City { x: 15, y: 19 },
        City { x: 43, y: 31 },
        City { x: 40, y: 11 },
        City { x: 33, y: 22 },
        City { x: 14, y: 54 },
        City { x: 50, y: 35 },
        City { x: 33, y: 12 },
        City { x: 1, y: 9 },
    ]
}

/// The first `num_cities` entries of the sample table.
pub fn get_cities(num_cities: usize) -> (r: Vec<City>)
    requires
        num_cities <= city_table().len(),
    ensures
        r@ == city_table().take(num_cities as int),
{
    let mut v: Vec<City> = Vec::new();
    v.push(City { x: 0, y: 0 });
    v.push(City { x: 5, y: 10 });
    v.push(City { x: 3, y: 15 });
    v.push(City { x: 10, y: 25 });
    v.push(City { x: 13, y: 12 });
    v.push(City { x: 15, y: 14 });
    v.push(City { x: 30, y: 15 });
    v.push(City { x: 23, y: 12 });
    v.push(City { x: 31, y: 2 });
    v.push(City { x: 10, y: 20 });
    v.push(City { x: 15, y: 19 });
    v.push(City { x: 43, y: 31 });
    v.push(City { x: 40, y: 11 });
    v.push(City { x: 33, y: 22 });
    v.push(City { x: 14, y: 54 });
    v.push(City { x: 50, y: 35 });
    v.push(City { x: 33, y: 12 });
    v.push(City { x: 1, y: 9 });
    proof {
        assert(v@ =~= city_table());
    }
    v.truncate(num_cities);
    v
}

} // verus!
