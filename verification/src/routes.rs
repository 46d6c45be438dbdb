//! Route enumeration: all permutations of a city list.
//!
//! A route list for `n` cities is built by inserting the `n`-th city into
//! every position of every route over the first `n - 1` cities, so the
//! result provably holds `n!` routes, each of the full length.

use crate::tsp::City;
use vstd::prelude::*;

verus! {

/// `n` factorial.
pub open spec fn factorial(n: nat) -> nat
    decreases n,
{
    if n == 0 {
        1
    } else {
        n * factorial((n - 1) as nat)
    }
}

/// There is always at least one permutation.
pub proof fn lemma_factorial_pos(n: nat)
    ensures
        factorial(n) >= 1,
    decreases n,
{
    if n > 0 {
        lemma_factorial_pos((n - 1) as nat);
        assert(n * factorial((n - 1) as nat) >= 1) by (nonlinear_arith)
            requires n >= 1 && factorial((n - 1) as nat) >= 1,
        ;
    }
}

/// All ways to insert city `c` into route `p`, in position order.
pub open spec fn insertions(p: Seq<City>, c: City) -> Seq<Seq<City>> {
    Seq::new(p.len() + 1, |i: int| p.insert(i, c))
}

/// `insertions` applied to every route of a list, results concatenated.
pub open spec fn extend_each(ps: Seq<Seq<City>>, c: City) -> Seq<Seq<City>>
    decreases ps.len(),
{
    if ps.len() == 0 {
        Seq::empty()
    } else {
        extend_each(ps.drop_last(), c) + insertions(ps.last(), c)
    }
}

/// All permutations of `s`, built one city at a time.
pub open spec fn perms_of(s: Seq<City>) -> Seq<Seq<City>>
    decreases s.len(),
{
    if s.len() == 0 {
        seq![Seq::<City>::empty()]
    } else {
        extend_each(perms_of(s.drop_last()), s.last())
    }
}

/// The mathematical contents of a list of routes.
pub open spec fn views_of(rs: Seq<Vec<City>>) -> Seq<Seq<City>> {
    rs.map_values(|v: Vec<City>| v@)
}

proof fn lemma_views_push(rs: Seq<Vec<City>>, q: Vec<City>)
    ensures
        views_of(rs.push(q)) == views_of(rs).push(q@),
{
    assert(views_of(rs.push(q)) =~= views_of(rs).push(q@));
}

/// Extending a list of `k`-city routes yields `(k + 1)`-city routes,
/// `k + 1` of them per input route.
pub proof fn lemma_extend_each_props(ps: Seq<Seq<City>>, c: City, k: nat)
    requires
        forall|i: int| 0 <= i < ps.len() ==> (#[trigger] ps[i]).len() == k,
    ensures
        extend_each(ps, c).len() == ps.len() * (k + 1),
        forall|j: int| 0 <= j < extend_each(ps, c).len() ==> (#[trigger] extend_each(ps, c)[j]).len()
            == k + 1,
    decreases ps.len(),
{
    if ps.len() == 0 {
    } else {
        assert(forall|i: int|
            0 <= i < ps.drop_last().len() ==> (#[trigger] ps.drop_last()[i]).len() == k);
        lemma_extend_each_props(ps.drop_last(), c, k);
        assert(ps.last().len() == k);
        assert(insertions(ps.last(), c).len() == k + 1);
        assert(extend_each(ps, c).len() == (ps.len() - 1) * (k + 1) + (k + 1));
        assert((ps.len() - 1) * (k + 1) + (k + 1) == ps.len() * (k + 1)) by (nonlinear_arith);
        assert forall|j: int| 0 <= j < extend_each(ps, c).len() implies (#[trigger] extend_each(
            ps,
            c,
        )[j]).len() == k + 1 by {
            let pre = extend_each(ps.drop_last(), c);
            if j < pre.len() {
                assert(extend_each(ps, c)[j] == pre[j]);
            } else {
                assert(extend_each(ps, c)[j] == insertions(ps.last(), c)[j - pre.len()]);
            }
        }
    }
}

/// A permutation list holds `n!` routes of `n` cities each.
pub proof fn lemma_perms_of_props(s: Seq<City>)
    ensures
        perms_of(s).len() == factorial(s.len()),
        forall|j: int| 0 <= j < perms_of(s).len() ==> (#[trigger] perms_of(s)[j]).len() == s.len(),
    decreases s.len(),
{
    if s.len() == 0 {
    } else {
        lemma_perms_of_props(s.drop_last());
        let sub = perms_of(s.drop_last());
        let k = (s.len() - 1) as nat;
        lemma_extend_each_props(sub, s.last(), k);
        assert(perms_of(s).len() == factorial(k) * (k + 1));
        assert(factorial(k) * (k + 1) == (k + 1) * factorial(k)) by (nonlinear_arith);
    }
}

proof fn lemma_insert_multiset(p: Seq<City>, i: int, c: City)
    requires
        0 <= i <= p.len(),
    ensures
        p.insert(i, c).to_multiset() == p.to_multiset().insert(c),
{
    broadcast use vstd::seq_lib::group_to_multiset_ensures;
    broadcast use vstd::multiset::group_multiset_axioms;

    let front = p.subrange(0, i);
    let back = p.subrange(i, p.len() as int);
    vstd::seq_lib::lemma_multiset_commutative(front.push(c), back);
    vstd::seq_lib::lemma_multiset_commutative(front, back);
    assert(front.push(c).to_multiset() =~= front.to_multiset().insert(c));
    assert(front + back =~= p);
    assert(p.insert(i, c).to_multiset() =~= p.to_multiset().insert(c));
}

proof fn lemma_extend_each_membership(ps: Seq<Seq<City>>, c: City, j: int)
    requires
        0 <= j < extend_each(ps, c).len(),
    ensures
        exists|t: int, pos: int|
            0 <= t < ps.len() && 0 <= pos <= ps[t].len() && extend_each(ps, c)[j] == (
            #[trigger] ps[t].insert(pos, c)),
    decreases ps.len(),
{
    let pre = extend_each(ps.drop_last(), c);
    if j < pre.len() {
        lemma_extend_each_membership(ps.drop_last(), c, j);
        let (t, pos) = choose|t: int, pos: int|
            0 <= t < ps.drop_last().len() && 0 <= pos <= ps.drop_last()[t].len() && pre[j] == (
            #[trigger] ps.drop_last()[t].insert(pos, c));
        assert(extend_each(ps, c)[j] == pre[j]);
        assert(ps[t] == ps.drop_last()[t]);
        assert(extend_each(ps, c)[j] == ps[t].insert(pos, c));
    } else {
        let pos = j - pre.len();
        let t = ps.len() - 1;
        assert(extend_each(ps, c)[j] == insertions(ps.last(), c)[pos]);
        assert(extend_each(ps, c)[j] == ps[t].insert(pos, c));
    }
}

/// Every enumerated route really is a permutation of the input: it holds
/// exactly the input's cities, multiplicities included.
pub proof fn lemma_perms_of_are_permutations(s: Seq<City>)
    ensures
        forall|j: int|
            0 <= j < perms_of(s).len() ==> (#[trigger] perms_of(s)[j]).to_multiset()
                == s.to_multiset(),
    decreases s.len(),
{
    broadcast use vstd::seq_lib::group_to_multiset_ensures;
    broadcast use vstd::multiset::group_multiset_axioms;

    if s.len() == 0 {
        assert(s =~= Seq::<City>::empty());
        assert(perms_of(s)[0] =~= Seq::<City>::empty());
        assert(perms_of(s)[0].to_multiset() =~= s.to_multiset());
    } else {
        lemma_perms_of_are_permutations(s.drop_last());
        let sub = perms_of(s.drop_last());
        assert(s.drop_last().push(s.last()) =~= s);
        assert(s.to_multiset() =~= s.drop_last().to_multiset().insert(s.last()));
        assert forall|j: int|
            0 <= j < perms_of(s).len() implies (#[trigger] perms_of(s)[j]).to_multiset()
            == s.to_multiset() by {
            lemma_extend_each_membership(sub, s.last(), j);
            let (t, pos) = choose|t: int, pos: int|
                0 <= t < sub.len() && 0 <= pos <= sub[t].len() && perms_of(s)[j] == (
                #[trigger] sub[t].insert(pos, s.last()));
            lemma_insert_multiset(sub[t], pos, s.last());
            assert(sub[t].to_multiset() == s.drop_last().to_multiset());
        }
    }
}

fn insert_at(route: &Vec<City>, pos: usize, c: City) -> (r: Vec<City>)
    requires
        pos <= route@.len(),
    ensures
        r@ == route@.insert(pos as int, c),
{
    let mut r: Vec<City> = Vec::new();
    proof {
        assert(r@ =~= route@.take(0));
    }
    let mut i: usize = 0;
    while i < pos
        invariant
            0 <= i <= pos <= route@.len(),
            r@ == route@.take(i as int),
        decreases pos - i,
    {
        r.push(route[i]);
        proof {
            assert(r@ =~= route@.take(i + 1));
        }
        i = i + 1;
    }
    r.push(c);
    proof {
        assert(r@ =~= route@.take(pos as int).push(c) + route@.subrange(pos as int, pos as int));
    }
    let mut j: usize = pos;
    while j < route.len()
        invariant
            pos <= j <= route@.len(),
            r@ == route@.take(pos as int).push(c) + route@.subrange(pos as int, j as int),
        decreases route@.len() - j,
    {
        r.push(route[j]);
        proof {
            assert(r@ =~= route@.take(pos as int).push(c) + route@.subrange(pos as int, j + 1));
        }
        j = j + 1;
    }
    proof {
        assert(r@ =~= route@.insert(pos as int, c));
    }
    r
}

/// All permutations of the given city list, as concrete routes.
pub fn generate_routes(cities: Vec<City>) -> (r: Vec<Vec<City>>)
    ensures
        views_of(r@) == perms_of(cities@),
        r@.len() == factorial(cities@.len()),
{
    let mut routes: Vec<Vec<City>> = Vec::new();
    routes.push(Vec::new());
    proof {
        assert(views_of(routes@) =~= perms_of(cities@.take(0)));
    }
    let mut i: usize = 0;
    while i < cities.len()
        invariant
            0 <= i <= cities@.len(),
            views_of(routes@) == perms_of(cities@.take(i as int)),
            forall|t: int| 0 <= t < routes@.len() ==> (#[trigger] routes@[t])@.len() == i,
        decreases cities@.len() - i,
    {
        let c = cities[i];
        let ghost prev = perms_of(cities@.take(i as int));
        let mut next: Vec<Vec<City>> = Vec::new();
        proof {
            assert(views_of(next@) =~= extend_each(prev.take(0), c));
        }
        let mut j: usize = 0;
        while j < routes.len()
            invariant
                0 <= j <= routes@.len(),
                views_of(routes@) == prev,
                forall|t: int| 0 <= t < routes@.len() ==> (#[trigger] routes@[t])@.len() == i,
                i < cities@.len(),
                views_of(next@) == extend_each(prev.take(j as int), c),
            decreases routes@.len() - j,
        {
            let route = &routes[j];
            proof {
                assert(route@ == views_of(routes@)[j as int]);
                assert(cities@.len() <= usize::MAX) by {
                    assert(cities.len() == cities@.len());
                }
            }
            let ghost before = views_of(next@);
            let mut pos: usize = 0;
            while pos <= route.len()
                invariant
                    0 <= pos <= route@.len() + 1,
                    route@ == prev[j as int],
                    route@.len() < usize::MAX,
                    0 <= j < prev.len(),
                    views_of(next@) == before + insertions(route@, c).take(pos as int),
                decreases route@.len() + 1 - pos,
            {
                let q = insert_at(route, pos, c);
                proof {
                    lemma_views_push(next@, q);
                    assert(insertions(route@, c)[pos as int] == route@.insert(pos as int, c));
                    assert(insertions(route@, c).take(pos + 1) =~= insertions(route@, c).take(
                        pos as int,
                    ).push(route@.insert(pos as int, c)));
                    assert(before + insertions(route@, c).take(pos + 1) =~= (before + insertions(
                        route@,
                        c,
                    ).take(pos as int)).push(route@.insert(pos as int, c)));
                }
                next.push(q);
                pos = pos + 1;
            }
            proof {
                assert(insertions(route@, c).take(route@.len() as int + 1) =~= insertions(
                    route@,
                    c,
                ));
                assert(prev.take(j + 1).drop_last() =~= prev.take(j as int));
                assert(prev.take(j + 1).last() == prev[j as int]);
                assert(views_of(next@) =~= extend_each(prev.take(j + 1), c));
            }
            j = j + 1;
        }
        routes = next;
        proof {
            assert(prev.take(prev.len() as int) =~= prev);
            assert(cities@.take(i + 1).drop_last() =~= cities@.take(i as int));
            assert(cities@.take(i + 1).last() == cities@[i as int]);
            assert(views_of(routes@) =~= perms_of(cities@.take(i + 1)));
            lemma_perms_of_props(cities@.take(i + 1));
            assert forall|t: int| 0 <= t < routes@.len() implies (#[trigger] routes@[t])@.len() == i
                + 1 by {
                assert(routes@[t]@ == views_of(routes@)[t]);
            }
        }
        i = i + 1;
    }
    proof {
        assert(cities@.take(cities@.len() as int) =~= cities@);
        lemma_perms_of_props(cities@);
        assert(routes@.len() == views_of(routes@).len());
    }
    routes
}

} // verus!
