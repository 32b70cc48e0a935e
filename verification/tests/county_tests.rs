use nearest_counties::cache::{nearest_weighted_distances, DistanceCache};
use nearest_counties::county::{should_process_county, update_county_indices, Coordinate, CountyData};
use nearest_counties::COST_INFINITY;

fn coord(longitude: f64, latitude: f64) -> Coordinate {
    Coordinate { longitude: longitude.to_bits(), latitude: latitude.to_bits() }
}

fn county_in_state(state: u8) -> CountyData {
    CountyData {
        coordinate: coord(0.0, 0.0),
        index: 0,
        geoid: "00001".to_string(),
        state,
        population: 10,
    }
}

#[test]
fn mainland_filter_excludes_alaska_hawaii_and_territories() {
    assert!(should_process_county(&county_in_state(1)));
    assert!(should_process_county(&county_in_state(56)));
    assert!(!should_process_county(&county_in_state(2)));
    assert!(!should_process_county(&county_in_state(15)));
    assert!(!should_process_county(&county_in_state(72)));
}

#[test]
fn update_county_indices_numbers_counties_by_position() {
    let mut counties = vec![county_in_state(1), county_in_state(3), county_in_state(4)];
    counties[0].index = 9;
    counties[2].index = 9;
    update_county_indices(&mut counties);
    for (i, county) in counties.iter().enumerate() {
        assert_eq!(i, county.index);
        assert_eq!(10, county.population);
        assert_eq!("00001", county.geoid);
    }
}

#[test]
fn coordinates_compare_by_bit_pattern() {
    assert_eq!(coord(1.5, -2.5), coord(1.5, -2.5));
    assert_ne!(coord(1.5, -2.5), coord(1.5, 2.5));
    // 0.0 and -0.0 are numerically equal but differ as bit patterns.
    assert_ne!(coord(0.0, 0.0), coord(-0.0, 0.0));
}

#[test]
fn cost_infinity_is_the_double_infinity() {
    assert_eq!(f64::INFINITY.to_bits(), COST_INFINITY);
}

#[test]
fn distance_cache_returns_stored_entries() {
    let entries: Vec<u64> = vec![0, 1, 2, 10, 11, 12, 20, 21, 22];
    let cache = DistanceCache::new(entries, 3).expect("nine entries fill a 3 by 3 cache");
    assert_eq!(3, cache.columns());
    assert_eq!(0, cache.weighted_squared_distance(0, 0));
    assert_eq!(12, cache.weighted_squared_distance(1, 2));
    assert_eq!(21, cache.weighted_squared_distance(2, 1));
}

#[test]
fn distance_cache_rejects_a_table_of_the_wrong_size() {
    assert!(DistanceCache::new(vec![0, 1, 2], 2).is_none());
}

#[test]
fn nearest_weighted_distances_take_the_minimum_per_county() {
    // Rows: distances from each location; the candidate holds locations 0 and 2.
    let entries: Vec<u64> = vec![5, 9, 4, 7, 1, 8, 2, 6, 3];
    let cache = DistanceCache::new(entries, 3).expect("nine entries fill a 3 by 3 cache");
    let nearest = nearest_weighted_distances(&cache, &vec![0, 2]);
    assert_eq!(vec![2, 6, 3], nearest);
}

#[test]
fn nearest_weighted_distances_of_no_locations_are_infinite() {
    let entries: Vec<u64> = vec![5];
    let cache = DistanceCache::new(entries, 1).expect("one entry fills a 1 by 1 cache");
    let nearest = nearest_weighted_distances(&cache, &Vec::new());
    assert_eq!(vec![COST_INFINITY], nearest);
}
