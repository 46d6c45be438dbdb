use tsp_workshop::routes::generate_routes;
use tsp_workshop::tsp::calculate_distance;
use tsp_workshop::tsp::calculate_distance_optimized;
use tsp_workshop::tsp::find_shortest_route;
use tsp_workshop::tsp::get_cities;
use tsp_workshop::tsp::City;
use tsp_workshop::tsp::Distance;

#[test]
fn test_generate_permutations() {
    assert_eq!(generate_routes(get_cities(0)).len(), 1);
    assert_eq!(generate_routes(get_cities(1)).len(), 1);
    assert_eq!(generate_routes(get_cities(2)).len(), 2);
    assert_eq!(generate_routes(get_cities(3)).len(), 6);
    assert_eq!(generate_routes(get_cities(4)).len(), 24);
    assert_eq!(generate_routes(get_cities(5)).len(), 120);
    assert_eq!(generate_routes(get_cities(6)).len(), 720);
    assert_eq!(generate_routes(get_cities(7)).len(), 5040);
    assert_eq!(generate_routes(get_cities(8)).len(), 40320);
}

#[test]
fn test_calculate_distance() {
    // Two cities at (0.0, 0.0) and (2.0, 2.0): there and back is 4.0 units.
    let there_and_back = calculate_distance(&vec![City { x: 0, y: 0 }, City { x: 20, y: 20 }]);
    assert_eq!(there_and_back, 400_000);
    assert!((there_and_back as f64 / 1e5 - 4.0).abs() < 1e-9);
    // A unit square: the perimeter is 4.0 units.
    let square = calculate_distance(&vec![
        City { x: 0, y: 0 },
        City { x: 0, y: 10 },
        City { x: 10, y: 10 },
        City { x: 10, y: 0 },
    ]);
    assert_eq!(square, 400_000);
}

#[test]
fn empty_and_single_city_routes() {
    assert_eq!(calculate_distance(&Vec::new()), 0);
    assert_eq!(calculate_distance(&vec![City { x: 7, y: -3 }]), 0);
}

#[test]
fn reversed_route_has_same_distance() {
    let route = vec![
        City { x: 0, y: 0 },
        City { x: 5, y: 10 },
        City { x: 3, y: 15 },
        City { x: 10, y: 25 },
        City { x: 31, y: 2 },
    ];
    let mut reversed = route.clone();
    reversed.reverse();
    assert_eq!(calculate_distance(&route), calculate_distance(&reversed));
}

#[test]
fn pruned_evaluation_is_sound() {
    let routes = generate_routes(get_cities(5));
    for route in &routes {
        let exact = calculate_distance(route);
        for threshold in [0u64, 200_000, 400_000, exact, exact + 1, u64::MAX] {
            match calculate_distance_optimized(route, threshold) {
                Distance::Pruned => assert!(exact >= threshold),
                Distance::Computed(v) => {
                    assert_eq!(v, exact);
                    assert!(v < threshold);
                }
            }
        }
    }
}

#[test]
fn pruned_evaluation_exact_cases() {
    let square = vec![
        City { x: 0, y: 0 },
        City { x: 0, y: 10 },
        City { x: 10, y: 10 },
        City { x: 10, y: 0 },
    ];
    assert_eq!(
        calculate_distance_optimized(&square, 500_000),
        Distance::Computed(400_000)
    );
    assert_eq!(
        calculate_distance_optimized(&square, 400_000),
        Distance::Pruned
    );
    // The empty route measures zero whatever the threshold.
    assert_eq!(
        calculate_distance_optimized(&Vec::new(), 0),
        Distance::Computed(0)
    );
}

#[test]
fn shortest_route_of_distances() {
    assert_eq!(find_shortest_route(Vec::new()), u64::MAX);
    assert_eq!(find_shortest_route(vec![500_000, 300_000, 900_000]), 300_000);
    assert_eq!(find_shortest_route(vec![42]), 42);
}
