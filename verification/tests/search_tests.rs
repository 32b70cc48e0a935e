use nearest_counties::cache::{nearest_weighted_distances, DistanceCache};
use nearest_counties::county::{update_county_indices, Coordinate, CountyData};
use nearest_counties::search::PlacementSearch;

fn coord(longitude: f64, latitude: f64) -> Coordinate {
    Coordinate { longitude: longitude.to_bits(), latitude: latitude.to_bits() }
}

fn make_simple_county_data(longitude: f64, latitude: f64, population: u32) -> CountyData {
    CountyData {
        coordinate: coord(longitude, latitude),
        index: 0,
        geoid: "".to_string(),
        state: 1,
        population,
    }
}

/// Great-circle distance in kilometers (haversine on a 6371 km sphere).
fn find_distance_between_coordinates(coord1: &Coordinate, coord2: &Coordinate) -> f64 {
    let earth_radius_kilometer = 6371.0_f64;
    let lon1 = f64::from_bits(coord1.longitude);
    let lat1 = f64::from_bits(coord1.latitude);
    let lon2 = f64::from_bits(coord2.longitude);
    let lat2 = f64::from_bits(coord2.latitude);

    let coord1_latitude_radians = lat1.to_radians();
    let coord2_latitude_radians = lat2.to_radians();

    let delta_latitude = (lat1 - lat2).to_radians();
    let delta_longitude = (lon1 - lon2).to_radians();

    let central_angle_inner = (delta_latitude / 2.0).sin().powi(2)
        + coord1_latitude_radians.cos()
            * coord2_latitude_radians.cos()
            * (delta_longitude / 2.0).sin().powi(2);
    let central_angle = 2.0 * central_angle_inner.sqrt().asin();

    earth_radius_kilometer * central_angle
}

fn weighted_squared_distance_bits(coord1: &Coordinate, coord2: &Coordinate, weight: u32) -> u64 {
    let distance = find_distance_between_coordinates(coord1, coord2);
    (distance * distance * weight as f64).to_bits()
}

fn build_cache(counties: &Vec<CountyData>) -> DistanceCache {
    let mut entries: Vec<u64> = Vec::new();
    for county1 in counties.iter() {
        for county2 in counties.iter() {
            entries.push(weighted_squared_distance_bits(
                &county1.coordinate,
                &county2.coordinate,
                county2.population,
            ));
        }
    }
    DistanceCache::new(entries, counties.len()).expect("entry table must be square")
}

/// Runs the whole search: pulls candidate chunks from the verified engine,
/// scores them with the cache (minimum selection inside the library, the
/// floating-point square-and-sum here), and folds the costs back in.
fn run_search(counties: &Vec<CountyData>, k: usize, chunk_size: usize) -> Vec<Coordinate> {
    let mut search = PlacementSearch::new(counties, k).expect("counties must be re-indexed");
    let cache = build_cache(counties);
    loop {
        let candidates = search.next_candidates(chunk_size);
        if candidates.is_empty() {
            break;
        }
        let mut costs: Vec<u64> = Vec::new();
        for candidate in candidates.iter() {
            let nearest = nearest_weighted_distances(&cache, candidate);
            let mut total = 0.0_f64;
            for bits in nearest.iter() {
                let value = f64::from_bits(*bits);
                total += value * value;
            }
            costs.push(total.to_bits());
        }
        search.resolve_costs(&costs);
    }
    search.best_coordinates()
}

#[test]
fn find_distance_between_london_and_paris() {
    let paris = coord(-2.34880_f64, 48.85341_f64);
    let london = coord(-0.12574_f64, 51.50853_f64);
    assert_eq!(335, find_distance_between_coordinates(&paris, &london).round() as u32);
}

#[test]
fn find_closest_location_to_all_counties_same_population() {
    let county_data_left = make_simple_county_data(-5.0, 0.0, 1000);
    let county_data_center = make_simple_county_data(0.0, 0.0, 1000);
    let county_data_right = make_simple_county_data(5.0, 0.0, 1000);

    let expected = vec![county_data_center.coordinate];
    let mut counties = vec![county_data_left, county_data_center, county_data_right];
    update_county_indices(&mut counties);
    let closest = run_search(&counties, 1, 100000);
    assert_eq!(expected, closest);
}

#[test]
fn find_closest_location_to_all_counties_different_population() {
    let county_data_left = make_simple_county_data(-5.0, 0.0, 1000);
    let county_data_center = make_simple_county_data(0.0, 0.0, 1000);
    let county_data_right = make_simple_county_data(5.0, 0.0, 5000000);

    let expected = vec![county_data_right.coordinate];
    let mut counties = vec![county_data_left, county_data_center, county_data_right];
    update_county_indices(&mut counties);
    let closest = run_search(&counties, 1, 100000);
    assert_eq!(expected, closest);
}

#[test]
fn find_closest_2_locations_to_all_counties_same_population() {
    let county_data_left_1 = make_simple_county_data(-5.0, 0.0, 1000);
    let county_data_center_1 = make_simple_county_data(0.0, 0.0, 1000);
    let county_data_right_1 = make_simple_county_data(5.0, 0.0, 1000);
    let county_data_left_2 = make_simple_county_data(25.0, 0.0, 1000);
    let county_data_center_2 = make_simple_county_data(30.0, 0.0, 1000);
    let county_data_right_2 = make_simple_county_data(35.0, 0.0, 1000);

    let expected = vec![county_data_center_1.coordinate, county_data_center_2.coordinate];
    let mut counties = vec![
        county_data_left_1,
        county_data_center_1,
        county_data_right_1,
        county_data_left_2,
        county_data_center_2,
        county_data_right_2,
    ];
    update_county_indices(&mut counties);
    let closest = run_search(&counties, 2, 100000);
    assert_eq!(expected, closest);
}

#[test]
fn search_is_deterministic_across_chunk_sizes() {
    let mut counties = vec![
        make_simple_county_data(-5.0, 0.0, 1000),
        make_simple_county_data(0.0, 0.0, 1000),
        make_simple_county_data(5.0, 0.0, 1000),
        make_simple_county_data(25.0, 0.0, 1000),
        make_simple_county_data(30.0, 0.0, 1000),
        make_simple_county_data(35.0, 0.0, 1000),
    ];
    update_county_indices(&mut counties);
    let from_single_chunk = run_search(&counties, 2, 100000);
    let from_tiny_chunks = run_search(&counties, 2, 1);
    let from_small_chunks = run_search(&counties, 2, 4);
    let repeated = run_search(&counties, 2, 100000);
    assert_eq!(from_single_chunk, from_tiny_chunks);
    assert_eq!(from_single_chunk, from_small_chunks);
    assert_eq!(from_single_chunk, repeated);
}

#[test]
fn infeasible_search_returns_empty_result() {
    let mut counties = vec![
        make_simple_county_data(-5.0, 0.0, 1000),
        make_simple_county_data(0.0, 0.0, 1000),
        make_simple_county_data(5.0, 0.0, 1000),
    ];
    update_county_indices(&mut counties);
    let closest = run_search(&counties, 4, 100000);
    assert_eq!(Vec::<Coordinate>::new(), closest);
}

#[test]
fn candidates_come_in_lexicographic_order() {
    let mut counties = vec![
        make_simple_county_data(-5.0, 0.0, 1000),
        make_simple_county_data(0.0, 0.0, 1000),
        make_simple_county_data(5.0, 0.0, 1000),
        make_simple_county_data(10.0, 0.0, 1000),
    ];
    update_county_indices(&mut counties);
    let mut search = PlacementSearch::new(&counties, 2).expect("counties must be re-indexed");
    let candidates = search.next_candidates(100000);
    let expected: Vec<Vec<usize>> = vec![
        vec![0, 1],
        vec![0, 2],
        vec![0, 3],
        vec![1, 2],
        vec![1, 3],
        vec![2, 3],
    ];
    assert_eq!(expected, candidates);
}

#[test]
fn first_candidate_wins_a_cost_tie() {
    let mut counties = vec![
        make_simple_county_data(-5.0, 0.0, 1000),
        make_simple_county_data(5.0, 0.0, 1000),
    ];
    update_county_indices(&mut counties);
    let mut search = PlacementSearch::new(&counties, 1).expect("counties must be re-indexed");
    let candidates = search.next_candidates(100000);
    assert_eq!(vec![vec![0usize], vec![1usize]], candidates);
    let tied = (42.0_f64).to_bits();
    search.resolve_costs(&vec![tied, tied]);
    let (best_cost, best_indices) = search.best_cost_and_indices();
    assert_eq!(tied, best_cost);
    assert_eq!(vec![0usize], best_indices);
}

#[test]
fn all_infinite_costs_leave_no_placement() {
    let mut counties = vec![
        make_simple_county_data(-5.0, 0.0, 1000),
        make_simple_county_data(5.0, 0.0, 1000),
    ];
    update_county_indices(&mut counties);
    let mut search = PlacementSearch::new(&counties, 1).expect("counties must be re-indexed");
    let candidates = search.next_candidates(100000);
    let costs: Vec<u64> = candidates.iter().map(|_| f64::INFINITY.to_bits()).collect();
    search.resolve_costs(&costs);
    assert!(search.is_finished());
    assert_eq!(Vec::<Coordinate>::new(), search.best_coordinates());
}

#[test]
fn zero_population_and_zero_distance_are_harmless() {
    // A zero-population county weighs nothing and a coincident pair of
    // counties contributes zero distance; neither upsets the search.
    let mut counties = vec![
        make_simple_county_data(0.0, 0.0, 0),
        make_simple_county_data(0.0, 0.0, 1000),
        make_simple_county_data(5.0, 0.0, 10),
    ];
    update_county_indices(&mut counties);
    let closest = run_search(&counties, 1, 100000);
    assert_eq!(vec![coord(0.0, 0.0)], closest);
}

#[test]
fn zero_locations_yield_empty_result() {
    let mut counties = vec![
        make_simple_county_data(-5.0, 0.0, 1000),
        make_simple_county_data(5.0, 0.0, 1000),
    ];
    update_county_indices(&mut counties);
    // The single empty candidate scores the infinite sentinel, which never
    // displaces the empty starting placement.
    let closest = run_search(&counties, 0, 100000);
    assert_eq!(Vec::<Coordinate>::new(), closest);
}

#[test]
fn misaligned_county_index_is_rejected() {
    let mut counties = vec![
        make_simple_county_data(-5.0, 0.0, 1000),
        make_simple_county_data(0.0, 0.0, 1000),
    ];
    counties[1].index = 7;
    assert!(PlacementSearch::new(&counties, 1).is_err());
}

#[test]
fn best_cost_tracks_first_minimal_candidate() {
    let mut counties = vec![
        make_simple_county_data(-5.0, 0.0, 1000),
        make_simple_county_data(0.0, 0.0, 1000),
        make_simple_county_data(5.0, 0.0, 1000),
    ];
    update_county_indices(&mut counties);
    let mut search = PlacementSearch::new(&counties, 1).expect("counties must be re-indexed");
    let cache = build_cache(&counties);
    let candidates = search.next_candidates(100000);
    let mut costs: Vec<u64> = Vec::new();
    let mut expected_costs: Vec<f64> = Vec::new();
    for candidate in candidates.iter() {
        let nearest = nearest_weighted_distances(&cache, candidate);
        let mut total = 0.0_f64;
        for bits in nearest.iter() {
            let value = f64::from_bits(*bits);
            total += value * value;
        }
        costs.push(total.to_bits());
        expected_costs.push(total);
    }
    search.resolve_costs(&costs);
    assert!(search.is_finished());
    let (best_cost, best_indices) = search.best_cost_and_indices();
    assert_eq!(vec![1usize], best_indices);
    assert_eq!(expected_costs[1].to_bits(), best_cost);
    assert!(expected_costs[1] < expected_costs[0]);
    assert!(expected_costs[1] < expected_costs[2]);
}
