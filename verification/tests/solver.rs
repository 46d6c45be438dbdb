use tsp_workshop::routes::generate_routes;
use tsp_workshop::solver::collector_step;
use tsp_workshop::solver::solve_sequential;
use tsp_workshop::solver::router_step;
use tsp_workshop::solver::run_collector;
use tsp_workshop::solver::tsp_sequential;
use tsp_workshop::solver::worker_step;
use tsp_workshop::solver::CollectorState;
use tsp_workshop::solver::Delivery;
use tsp_workshop::solver::RouterMsg;
use tsp_workshop::solver::RouterState;
use tsp_workshop::solver::WorkerAction;
use tsp_workshop::solver::WorkerEvent;
use tsp_workshop::solver::WorkerState;
use tsp_workshop::tsp::calculate_distance;
use tsp_workshop::tsp::City;
use tsp_workshop::tsp::find_shortest_route;
use tsp_workshop::tsp::get_cities;
use tsp_workshop::tsp::Distance;

#[test]
fn test_tsp_sequential() {
    // The nine-city tour of the sample table measures about 10.262417.
    let best = tsp_sequential();
    assert!((best as f64 / 1e5 - 10.262417).abs() < 1e-3);
}

#[test]
fn sequential_solve_is_idempotent() {
    assert_eq!(tsp_sequential(), tsp_sequential());
    let cities = get_cities(5);
    assert_eq!(
        solve_sequential(cities.clone()),
        solve_sequential(cities)
    );
}

#[test]
fn solve_two_cities_and_unit_square() {
    // Two cities at (0.0, 0.0) and (2.0, 2.0): the tour measures 4.0.
    let pair = vec![City { x: 0, y: 0 }, City { x: 20, y: 20 }];
    assert_eq!(solve_sequential(pair), 400_000);
    // A unit square: every tour is at least the 4.0 perimeter, and the
    // perimeter tour is among the candidates.
    let square = vec![
        City { x: 0, y: 0 },
        City { x: 0, y: 10 },
        City { x: 10, y: 10 },
        City { x: 10, y: 0 },
    ];
    assert_eq!(solve_sequential(square), 400_000);
}

#[test]
fn collector_counts_every_result() {
    // Every one of the 4! routes is accounted for exactly once.
    let routes = generate_routes(get_cities(4));
    assert_eq!(routes.len(), 24);
    let mut results = Vec::new();
    for route in &routes {
        results.push(Distance::Computed(calculate_distance(route)));
    }
    let (state, published) = run_collector(&results);
    assert_eq!(state.collected, 24);
    let mut exact = Vec::new();
    for route in &routes {
        exact.push(calculate_distance(route));
    }
    assert_eq!(state.best, find_shortest_route(exact));
    // The broadcast stream improves strictly and ends at the answer.
    for pair in published.windows(2) {
        assert!(pair[1] < pair[0]);
    }
    assert_eq!(*published.last().unwrap(), state.best);
}

#[test]
fn collector_never_adopts_pruned_results() {
    let mut state = CollectorState::new();
    assert_eq!(collector_step(&mut state, Distance::Pruned), None);
    assert_eq!(state.best, u64::MAX);
    assert_eq!(collector_step(&mut state, Distance::Computed(700)), Some(700));
    assert_eq!(collector_step(&mut state, Distance::Pruned), None);
    assert_eq!(collector_step(&mut state, Distance::Computed(900)), None);
    assert_eq!(collector_step(&mut state, Distance::Computed(600)), Some(600));
    assert_eq!(state.best, 600);
    assert_eq!(state.collected, 5);
}

#[test]
fn worker_threshold_never_regresses() {
    let mut worker = WorkerState::new();
    assert_eq!(worker.threshold, u64::MAX);
    assert_eq!(worker_step(&mut worker, WorkerEvent::Update(400)), WorkerAction::Continue);
    assert_eq!(worker.threshold, 400);
    // A stale, larger broadcast must not undo a better local bound.
    assert_eq!(worker_step(&mut worker, WorkerEvent::Update(500)), WorkerAction::Continue);
    assert_eq!(worker.threshold, 400);
    assert_eq!(worker_step(&mut worker, WorkerEvent::Closed), WorkerAction::Exit);
    assert_eq!(worker.threshold, 400);
}

#[test]
fn worker_emits_result_for_every_route() {
    let routes = generate_routes(get_cities(3));
    let mut worker = WorkerState::new();
    let mut emitted = 0;
    for route in routes {
        match worker_step(&mut worker, WorkerEvent::Work(route)) {
            WorkerAction::Emit(_) => emitted += 1,
            _ => panic!("a route must always produce a result"),
        }
    }
    assert_eq!(emitted, 6);
}

#[test]
fn router_delivers_to_current_subscribers_only() {
    let mut router = RouterState::new();
    // Published before anyone subscribes: delivered to nobody.
    assert_eq!(router_step(&mut router, RouterMsg::PublishBest(900)), Vec::new());
    assert_eq!(router_step(&mut router, RouterMsg::Subscribe(0)), Vec::new());
    let first = router_step(&mut router, RouterMsg::PublishBest(700));
    assert_eq!(first, vec![Delivery { subscriber: 0, best: 700 }]);
    assert_eq!(router_step(&mut router, RouterMsg::Subscribe(1)), Vec::new());
    let second = router_step(&mut router, RouterMsg::PublishBest(500));
    assert_eq!(
        second,
        vec![
            Delivery { subscriber: 0, best: 500 },
            Delivery { subscriber: 1, best: 500 }
        ]
    );
}

// One worker drives all routes while following the broadcasts a router
// hands it; the collector folds whatever the worker emitted.
fn solve_with_worker_pipeline(subscribe_late: bool) -> u64 {
    let routes = generate_routes(get_cities(4));
    let total = routes.len();
    let mut router = RouterState::new();
    let mut worker = WorkerState::new();
    let mut collector = CollectorState::new();
    if !subscribe_late {
        router_step(&mut router, RouterMsg::Subscribe(0));
    }
    let mut done = 0;
    for route in routes {
        match worker_step(&mut worker, WorkerEvent::Work(route)) {
            WorkerAction::Emit(d) => {
                if let Some(best) = collector_step(&mut collector, d) {
                    for delivery in router_step(&mut router, RouterMsg::PublishBest(best)) {
                        worker_step(&mut worker, WorkerEvent::Update(delivery.best));
                    }
                }
            }
            _ => panic!("a route must always produce a result"),
        }
        done += 1;
        if subscribe_late && done == 1 {
            // The worker misses the first broadcast and only then joins.
            router_step(&mut router, RouterMsg::Subscribe(0));
        }
    }
    assert_eq!(collector.collected, total);
    collector.best
}

#[test]
fn pruned_pipeline_matches_sequential_answer() {
    let routes = generate_routes(get_cities(4));
    let mut exact = Vec::new();
    for route in &routes {
        exact.push(calculate_distance(route));
    }
    let sequential = find_shortest_route(exact);
    assert_eq!(solve_with_worker_pipeline(false), sequential);
}

#[test]
fn late_subscription_still_converges() {
    // A worker that subscribes only after the first broadcast loses some
    // pruning, never the answer.
    assert_eq!(
        solve_with_worker_pipeline(true),
        solve_with_worker_pipeline(false)
    );
    let routes = generate_routes(get_cities(4));
    let mut exact = Vec::new();
    for route in &routes {
        exact.push(calculate_distance(route));
    }
    assert_eq!(solve_with_worker_pipeline(true), find_shortest_route(exact));
}
