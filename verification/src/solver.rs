//! The concurrent solve, as verified state machines.
//!
//! The parallel architecture is a pool of workers pulling routes from a
//! work queue, a collector folding their results into the authoritative
//! best distance, and a broadcast router fanning improved thresholds back
//! out to the workers. Everything those components decide is a pure step
//! function defined here, verified against an explicit contract; the
//! thread and channel plumbing that carries events between them has no
//! decisions of its own left to make.

use crate::routes::generate_routes;
use crate::routes::lemma_perms_of_props;
use crate::routes::perms_of;
use crate::routes::views_of;
use crate::tsp::City;
use crate::tsp::Distance;
use crate::tsp::MAX_ROUTE_LEN;
use crate::tsp::calculate_distance;
use crate::tsp::calculate_distance_optimized;
use crate::tsp::find_shortest_route;
use crate::tsp::fold_min;
use crate::tsp::lemma_fold_min_is_min;
use crate::tsp::pruned_route_distance;
use crate::tsp::route_distance;
use vstd::prelude::*;

verus! {

/// Whether result `d` beats the best distance seen so far.
pub open spec fn is_improvement(d: Distance, best: u64) -> bool {
    match d {
        Distance::Computed(v) => v < best,
        Distance::Pruned => false,
    }
}

/// The best distance after taking result `d` into account: a pruned
/// result is never adopted, a computed one only when it improves.
pub open spec fn improved_best(best: u64, d: Distance) -> u64 {
    match d {
        Distance::Computed(v) => if v < best {
            v
        } else {
            best
        },
        Distance::Pruned => best,
    }
}

/// One worker's private view of the solve: the smallest distance it has
/// computed itself or been told of by broadcast; `u64::MAX` before any.
#[derive(Clone, Copy, PartialEq, Eq, Structural, Debug)]
pub struct WorkerState {
    pub threshold: u64,
}

/// What a worker reacts to: a route pulled from the work queue, a
/// broadcast best-distance update, or the closing of the work queue.
pub enum WorkerEvent {
    Work(Vec<City>),
    Update(u64),
    Closed,
}

/// What a worker asks its surroundings to do after one step.
#[derive(Clone, Copy, PartialEq, Eq, Structural, Debug)]
pub enum WorkerAction {
    Emit(Distance),
    Continue,
    Exit,
}

/// The worker's threshold after reacting to `event` from threshold `t`:
/// it adopts its own computed result or a broadcast value when strictly
/// smaller, and never moves upward, so a stale broadcast cannot undo a
/// better local bound.
pub open spec fn worker_threshold_after(t: u64, event: WorkerEvent) -> u64 {
    match event {
        WorkerEvent::Work(route) => improved_best(t, pruned_route_distance(route@, t)),
        WorkerEvent::Update(v) => if v < t {
            v
        } else {
            t
        },
        WorkerEvent::Closed => t,
    }
}

/// The action a worker takes on `event` at threshold `t`: it evaluates a
/// route against its current threshold and emits the (possibly pruned)
/// result, stays quiet on an update, and exits when the queue closes.
pub open spec fn worker_action_for(t: u64, event: WorkerEvent) -> WorkerAction {
    match event {
        WorkerEvent::Work(route) => WorkerAction::Emit(pruned_route_distance(route@, t)),
        WorkerEvent::Update(v) => WorkerAction::Continue,
        WorkerEvent::Closed => WorkerAction::Exit,
    }
}

/// Where worker thresholds come from: a step leaves the threshold alone,
/// adopts a broadcast value, or adopts the exact distance of the route it
/// just evaluated — never an invented number. Since broadcasts are
/// collector bests, and those in turn are computed route distances, every
/// threshold in the system is the exact length of some enumerated route
/// (or the initial placeholder), which is what makes pruning sound end to
/// end.
pub proof fn lemma_worker_threshold_provenance(t: u64, event: WorkerEvent)
    ensures
        worker_threshold_after(t, event) == t || (event matches WorkerEvent::Update(v)
            && worker_threshold_after(t, event) == v) || (event matches WorkerEvent::Work(route)
            && worker_threshold_after(t, event) == route_distance(route@)),
{
}

impl WorkerState {
    /// A fresh worker knows no bound yet.
    pub fn new() -> (s: WorkerState)
        ensures
            s.threshold == u64::MAX,
    {
        WorkerState { threshold: u64::MAX }
    }
}

/// One step of a worker's loop body.
pub fn worker_step(state: &mut WorkerState, event: WorkerEvent) -> (act: WorkerAction)
    requires
        event matches WorkerEvent::Work(route) ==> route@.len() <= MAX_ROUTE_LEN,
    ensures
        final(state).threshold == worker_threshold_after(old(state).threshold, event),
        final(state).threshold <= old(state).threshold,
        act == worker_action_for(old(state).threshold, event),
{
    match event {
        WorkerEvent::Work(route) => {
            let d = calculate_distance_optimized(&route, state.threshold);
            match d {
                Distance::Computed(v) => if v < state.threshold {
                    state.threshold = v;
                },
                Distance::Pruned => {},
            }
            WorkerAction::Emit(d)
        },
        WorkerEvent::Update(v) => {
            if v < state.threshold {
                state.threshold = v;
            }
            WorkerAction::Continue
        },
        WorkerEvent::Closed => WorkerAction::Exit,
    }
}

/// The broadcast router's whole state: the update channels registered so
/// far, named by opaque subscriber handles chosen by the caller.
#[derive(Clone, Debug)]
pub struct RouterState {
    pub subscribers: Vec<usize>,
}

/// What the router reacts to: a new subscriber, or a best-distance value
/// to fan out.
#[derive(Clone, Copy, PartialEq, Eq, Structural, Debug)]
pub enum RouterMsg {
    Subscribe(usize),
    PublishBest(u64),
}

/// One update the router asks its surroundings to deliver.
#[derive(Clone, Copy, PartialEq, Eq, Structural, Debug)]
pub struct Delivery {
    pub subscriber: usize,
    pub best: u64,
}

impl RouterState {
    /// A fresh router has no subscribers.
    pub fn new() -> (s: RouterState)
        ensures
            s.subscribers@ == Seq::<usize>::empty(),
    {
        let s = RouterState { subscribers: Vec::new() };
        proof {
            assert(s.subscribers@ =~= Seq::<usize>::empty());
        }
        s
    }
}

/// One step of the router's loop body. A published value is handed to
/// exactly the subscribers registered at that moment, in registration
/// order; later subscribers see nothing of it.
pub fn router_step(state: &mut RouterState, msg: RouterMsg) -> (out: Vec<Delivery>)
    ensures
        msg matches RouterMsg::Subscribe(id) ==> final(state).subscribers@ == old(
            state,
        ).subscribers@.push(id) && out@.len() == 0,
        msg matches RouterMsg::PublishBest(v) ==> final(state).subscribers@ == old(
            state,
        ).subscribers@ && out@.len() == old(state).subscribers@.len() && forall|k: int|
            0 <= k < out@.len() ==> out@[k] == (Delivery {
                subscriber: old(state).subscribers@[k],
                best: v,
            }),
{
    let mut out: Vec<Delivery> = Vec::new();
    match msg {
        RouterMsg::Subscribe(id) => {
            state.subscribers.push(id);
        },
        RouterMsg::PublishBest(v) => {
            let mut k: usize = 0;
            while k < state.subscribers.len()
                invariant
                    0 <= k <= state.subscribers@.len(),
                    out@.len() == k,
                    forall|t: int|
                        0 <= t < out@.len() ==> out@[t] == (Delivery {
                            subscriber: state.subscribers@[t],
                            best: v,
                        }),
                decreases state.subscribers@.len() - k,
            {
                out.push(Delivery { subscriber: state.subscribers[k], best: v });
                k = k + 1;
            }
        },
    }
    out
}

/// The collector's authoritative state: the global best so far and how
/// many results have been accounted for.
#[derive(Clone, Copy, PartialEq, Eq, Structural, Debug)]
pub struct CollectorState {
    pub best: u64,
    pub collected: usize,
}

impl CollectorState {
    /// Before any result, the best is the "infinite" placeholder.
    pub fn new() -> (s: CollectorState)
        ensures
            s.best == u64::MAX,
            s.collected == 0,
    {
        CollectorState { best: u64::MAX, collected: 0 }
    }
}

/// One step of the collector's loop body: account for one result, adopt
/// it when it improves the authoritative best, and say whether the new
/// best must be published. A pruned result is never adopted, so the
/// sentinel can never become the reported answer.
pub fn collector_step(state: &mut CollectorState, result: Distance) -> (publish: Option<u64>)
    requires
        old(state).collected < usize::MAX,
    ensures
        final(state).collected == old(state).collected + 1,
        final(state).best == improved_best(old(state).best, result),
        final(state).best <= old(state).best,
        is_improvement(result, old(state).best) ==> publish == Some(final(state).best),
        !is_improvement(result, old(state).best) ==> publish is None,
{
    state.collected = state.collected + 1;
    match result {
        Distance::Computed(v) => {
            if v < state.best {
                state.best = v;
                Some(v)
            } else {
                None
            }
        },
        Distance::Pruned => None,
    }
}

/// The best distance after folding a whole list of results, oldest first,
/// into an initial best.
pub open spec fn best_after(results: Seq<Distance>, init: u64) -> u64
    decreases results.len(),
{
    if results.len() == 0 {
        init
    } else {
        improved_best(best_after(results.drop_last(), init), results.last())
    }
}

/// Folding results never raises the best.
pub proof fn lemma_best_after_le_init(results: Seq<Distance>, init: u64)
    ensures
        best_after(results, init) <= init,
    decreases results.len(),
{
    if results.len() > 0 {
        lemma_best_after_le_init(results.drop_last(), init);
    }
}

/// The folded best is at most any computed result in the list.
pub proof fn lemma_best_after_le_computed(results: Seq<Distance>, init: u64, i: int, v: u64)
    requires
        0 <= i < results.len(),
        results[i] == Distance::Computed(v),
    ensures
        best_after(results, init) <= v,
    decreases results.len(),
{
    if i == results.len() - 1 {
        lemma_best_after_le_init(results.drop_last(), init);
    } else {
        lemma_best_after_le_computed(results.drop_last(), init, i, v);
    }
}

/// The folded best is the initial value or one of the computed results.
pub proof fn lemma_best_after_source(results: Seq<Distance>, init: u64)
    ensures
        best_after(results, init) == init || exists|i: int|
            0 <= i < results.len() && results[i] == Distance::Computed(
                best_after(results, init),
            ),
    decreases results.len(),
{
    if results.len() > 0 {
        lemma_best_after_source(results.drop_last(), init);
        let b = best_after(results, init);
        let prev = best_after(results.drop_last(), init);
        if b != init {
            if b == prev {
                let i = choose|i: int|
                    0 <= i < results.drop_last().len() && results.drop_last()[i]
                        == Distance::Computed(prev);
                assert(results[i] == Distance::Computed(b));
            } else {
                assert(results[results.len() - 1] == Distance::Computed(b));
            }
        }
    }
}

/// Result independence: whatever order results arrive in and however
/// work was pruned, the collector ends at the minimum of the true route
/// distances — provided every pruned route really measured at least that
/// minimum (soundness of pruning) and the minimum itself was computed
/// exactly at least once. A threshold is only ever a distance some route
/// really measured, so a route can be pruned at the minimum's value only
/// when another route of exactly the minimal length was computed in full,
/// which is what the witness premise records.
pub proof fn lemma_result_independence(ds: Seq<u64>, rs: Seq<Distance>)
    requires
        rs.len() == ds.len(),
        forall|i: int|
            0 <= i < rs.len() ==> (#[trigger] rs[i]) == Distance::Computed(ds[i]) || (rs[i]
                == Distance::Pruned && ds[i] >= fold_min(ds)),
        exists|i: int|
            0 <= i < rs.len() && (#[trigger] rs[i]) == Distance::Computed(ds[i]) && ds[i]
                == fold_min(ds),
    ensures
        best_after(rs, u64::MAX) == fold_min(ds),
{
    let m = fold_min(ds);
    let w = choose|i: int|
        0 <= i < rs.len() && (#[trigger] rs[i]) == Distance::Computed(ds[i]) && ds[i] == m;
    lemma_best_after_le_computed(rs, u64::MAX, w, ds[w]);
    lemma_best_after_source(rs, u64::MAX);
    lemma_fold_min_is_min(ds);
    let b = best_after(rs, u64::MAX);
    if b != u64::MAX {
        let i = choose|i: int| 0 <= i < rs.len() && rs[i] == Distance::Computed(b);
        assert(rs[i] == Distance::Computed(ds[i]) || rs[i] == Distance::Pruned);
        assert(b == ds[i]);
        assert(m <= ds[i]);
    }
}

/// Replaying a complete list of results through the collector, as the
/// driving loop does. Returns the final state and every value published
/// along the way: exactly one result is accounted per input (no loss, no
/// duplication), and the published thresholds strictly improve, so the
/// broadcast stream is monotone.
pub fn run_collector(results: &Vec<Distance>) -> (r: (CollectorState, Vec<u64>))
    requires
        results@.len() < usize::MAX,
    ensures
        r.0.collected == results@.len(),
        r.0.best == best_after(results@, u64::MAX),
        forall|k: int| 0 <= k && k + 1 < r.1@.len() ==> r.1@[k + 1] < #[trigger] r.1@[k],
        r.1@.len() > 0 ==> r.1@.last() == r.0.best,
        r.1@.len() == 0 ==> r.0.best == u64::MAX,
{
    let mut state = CollectorState::new();
    let mut published: Vec<u64> = Vec::new();
    let mut i: usize = 0;
    while i < results.len()
        invariant
            0 <= i <= results@.len() < usize::MAX,
            state.collected == i,
            state.best == best_after(results@.take(i as int), u64::MAX),
            forall|k: int| 0 <= k && k + 1 < published@.len() ==> published@[k + 1]
                < #[trigger] published@[k],
            published@.len() > 0 ==> published@.last() == state.best,
            published@.len() == 0 ==> state.best == u64::MAX,
        decreases results@.len() - i,
    {
        proof {
            assert(results@.take(i + 1).drop_last() =~= results@.take(i as int));
        }
        let d = results[i];
        let ghost pre_best = state.best;
        let ghost prev_pub = published@;
        match collector_step(&mut state, d) {
            Some(v) => {
                published.push(v);
                proof {
                    assert(published@ == prev_pub.push(v));
                    assert(published@.len() == prev_pub.len() + 1);
                    assert forall|k: int| 0 <= k && k + 1 < published@.len() implies published@[k
                        + 1]
                        < #[trigger] published@[k] by {
                        assert(published@[k] == prev_pub.push(v)[k]);
                        assert(0 <= k < prev_pub.len());
                        assert(prev_pub.push(v)[k] == prev_pub[k]);
                        if k + 1 < published@.len() - 1 {
                            assert(published@[k + 1] == prev_pub.push(v)[k + 1]);
                            assert(prev_pub.push(v)[k + 1] == prev_pub[k + 1]);
                        } else {
                            assert(prev_pub[k] == prev_pub.last());
                            assert(prev_pub.last() == pre_best);
                            assert(published@[k + 1] == prev_pub.push(v)[k + 1]);
                            assert(prev_pub.push(v)[k + 1] == v);
                        }
                    }
                }
            },
            None => {},
        }
        i = i + 1;
    }
    proof {
        assert(results@.take(results@.len() as int) =~= results@);
    }
    (state, published)
}

/// Strategy independence: a solve driven through the collector — with
/// pruning, and with results arriving in any order — returns exactly what
/// the sequential solve returns on the same city list. `ds` are the true
/// distances of the enumerated routes, `rs` what the workers emitted for
/// them, and `r_seq` any value meeting the sequential solver's contract.
pub proof fn lemma_parallel_agrees_with_sequential(
    cities: Seq<City>,
    ds: Seq<u64>,
    rs: Seq<Distance>,
    r_seq: u64,
)
    requires
        ds.len() == perms_of(cities).len(),
        ds.len() > 0,
        forall|k: int| 0 <= k < ds.len() ==> #[trigger] ds[k] == route_distance(perms_of(cities)[k]),
        rs.len() == ds.len(),
        forall|i: int|
            0 <= i < rs.len() ==> (#[trigger] rs[i]) == Distance::Computed(ds[i]) || (rs[i]
                == Distance::Pruned && ds[i] >= fold_min(ds)),
        exists|i: int|
            0 <= i < rs.len() && (#[trigger] rs[i]) == Distance::Computed(ds[i]) && ds[i]
                == fold_min(ds),
        forall|k: int|
            0 <= k < perms_of(cities).len() ==> r_seq <= route_distance(
                #[trigger] perms_of(cities)[k],
            ),
        exists|k: int|
            0 <= k < perms_of(cities).len() && r_seq == route_distance(
                #[trigger] perms_of(cities)[k],
            ),
    ensures
        best_after(rs, u64::MAX) == r_seq,
{
    lemma_result_independence(ds, rs);
    let m = fold_min(ds);
    lemma_fold_min_is_min(ds);
    assert forall|k: int| 0 <= k < perms_of(cities).len() implies m <= route_distance(
        #[trigger] perms_of(cities)[k],
    ) by {
        assert(m <= ds[k]);
    }
    if m == u64::MAX {
        assert(m <= ds[0]);
        assert(m == route_distance(perms_of(cities)[0]));
    } else {
        let k = choose|k: int| 0 <= k < ds.len() && m == #[trigger] ds[k];
        assert(m == route_distance(perms_of(cities)[k]));
    }
    lemma_minimum_unique(cities, m, r_seq);
}

/// The mathematical answer is one fixed value: any two results that are
/// both least route distances of the same city set are equal, so a solve
/// re-run on the same cities — in whatever schedule — yields the same
/// minimum.
pub proof fn lemma_minimum_unique(cities: Seq<City>, r1: u64, r2: u64)
    requires
        forall|k: int|
            0 <= k < perms_of(cities).len() ==> r1 <= route_distance(#[trigger] perms_of(cities)[k]),
        exists|k: int|
            0 <= k < perms_of(cities).len() && r1 == route_distance(#[trigger] perms_of(cities)[k]),
        forall|k: int|
            0 <= k < perms_of(cities).len() ==> r2 <= route_distance(#[trigger] perms_of(cities)[k]),
        exists|k: int|
            0 <= k < perms_of(cities).len() && r2 == route_distance(#[trigger] perms_of(cities)[k]),
    ensures
        r1 == r2,
{
    let k1 = choose|k: int|
        0 <= k < perms_of(cities).len() && r1 == route_distance(#[trigger] perms_of(cities)[k]);
    let k2 = choose|k: int|
        0 <= k < perms_of(cities).len() && r2 == route_distance(#[trigger] perms_of(cities)[k]);
    assert(r1 <= route_distance(perms_of(cities)[k2]));
    assert(r2 <= route_distance(perms_of(cities)[k1]));
}

/// The number of cities the bundled solvers work on.
pub const NUM_CITIES: usize = 9;

/// The sequential solver: enumerate every route of the sample cities,
/// measure each exactly, and keep the least distance. The result is
/// pinned to the minimum over all permutations.
pub fn tsp_sequential() -> (r: u64)
    ensures
        forall|k: int|
            0 <= k < perms_of(crate::tsp::city_table().take(NUM_CITIES as int)).len()
                ==> r <= route_distance(
                #[trigger] perms_of(crate::tsp::city_table().take(NUM_CITIES as int))[k],
            ),
        exists|k: int|
            0 <= k < perms_of(crate::tsp::city_table().take(NUM_CITIES as int)).len()
                && r == route_distance(
                #[trigger] perms_of(crate::tsp::city_table().take(NUM_CITIES as int))[k],
            ),
{
    solve_sequential(crate::tsp::get_cities(NUM_CITIES))
}

/// Sequential brute force over any city list: the result is the least
/// cyclic distance over all of its permutations.
pub fn solve_sequential(cities: Vec<City>) -> (r: u64)
    requires
        cities@.len() <= MAX_ROUTE_LEN,
    ensures
        forall|k: int|
            0 <= k < perms_of(cities@).len() ==> r <= route_distance(
                #[trigger] perms_of(cities@)[k],
            ),
        exists|k: int|
            0 <= k < perms_of(cities@).len() && r == route_distance(#[trigger] perms_of(cities@)[k]),
{
    let ghost cs = cities@;
    let ghost perms = perms_of(cs);
    let ghost n_cities = cs.len();
    let routes = generate_routes(cities);
    proof {
        lemma_perms_of_props(cs);
    }
    let mut distances: Vec<u64> = Vec::new();
    let mut i: usize = 0;
    while i < routes.len()
        invariant
            0 <= i <= routes@.len(),
            n_cities <= MAX_ROUTE_LEN,
            views_of(routes@) == perms,
            forall|j: int| 0 <= j < perms.len() ==> (#[trigger] perms[j]).len() == n_cities,
            distances@.len() == i,
            forall|j: int| 0 <= j < i ==> #[trigger] distances@[j] == route_distance(perms[j]),
        decreases routes@.len() - i,
    {
        proof {
            assert(routes@[i as int]@ == views_of(routes@)[i as int]);
        }
        let d = calculate_distance(&routes[i]);
        distances.push(d);
        i = i + 1;
    }
    let r = find_shortest_route(distances);
    proof {
        lemma_fold_min_is_min(distances@);
        crate::routes::lemma_factorial_pos(cs.len());
        assert(distances@.len() == perms.len());
        assert forall|k: int| 0 <= k < perms.len() implies r <= route_distance(
            #[trigger] perms[k],
        ) by {
            assert(r <= distances@[k]);
        }
        if r == u64::MAX {
            assert(r <= distances@[0]);
            assert(r == route_distance(perms[0]));
        } else {
            let k = choose|k: int| 0 <= k < distances@.len() && r == #[trigger] distances@[k];
            assert(r == route_distance(perms[k]));
        }
    }
    r
}

} // verus!
