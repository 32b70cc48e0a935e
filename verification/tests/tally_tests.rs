use nearest_counties::county::{
    find_unique_county_index, resolve_anchor_indices, update_county_indices, Coordinate,
    CountyData, ResolveError,
};
use nearest_counties::tally::{argmin_first, count_closest_population};

fn coord(longitude: f64, latitude: f64) -> Coordinate {
    Coordinate { longitude: longitude.to_bits(), latitude: latitude.to_bits() }
}

fn make_simple_county(longitude: f64, latitude: f64, population: u32) -> CountyData {
    make_county_with_geoid(longitude, latitude, population, "")
}

fn make_county_with_geoid(
    longitude: f64,
    latitude: f64,
    population: u32,
    geoid: &str,
) -> CountyData {
    CountyData {
        coordinate: coord(longitude, latitude),
        index: 0,
        geoid: geoid.to_string(),
        state: 1,
        population,
    }
}

/// Great-circle distance in kilometers (haversine on a 6371 km sphere).
fn distance_km(coord1: &Coordinate, coord2: &Coordinate) -> f64 {
    let earth_radius_kilometer = 6371.0_f64;
    let lon1 = f64::from_bits(coord1.longitude);
    let lat1 = f64::from_bits(coord1.latitude);
    let lon2 = f64::from_bits(coord2.longitude);
    let lat2 = f64::from_bits(coord2.latitude);

    let lat1_radians = lat1.to_radians();
    let lat2_radians = lat2.to_radians();
    let delta_latitude = (lat1 - lat2).to_radians();
    let delta_longitude = (lon1 - lon2).to_radians();

    let central_angle_inner = (delta_latitude / 2.0).sin().powi(2)
        + lat1_radians.cos() * lat2_radians.cos() * (delta_longitude / 2.0).sin().powi(2);
    let central_angle = 2.0 * central_angle_inner.sqrt().asin();

    earth_radius_kilometer * central_angle
}

/// Resolves the anchors and tallies population per anchor, computing the
/// unweighted squared distances outside the library and handing their bit
/// patterns in.
fn tally_by_geoids(counties: &Vec<CountyData>, geoids: &Vec<String>) -> Vec<u32> {
    let anchor_indices =
        resolve_anchor_indices(counties, geoids).expect("each anchor geoid must be unique");
    let mut distances: Vec<Vec<u64>> = Vec::new();
    for county in counties.iter() {
        let mut row: Vec<u64> = Vec::new();
        for anchor in anchor_indices.iter() {
            let d = distance_km(&counties[*anchor].coordinate, &county.coordinate);
            row.push((d * d * 1.0_f64).to_bits());
        }
        distances.push(row);
    }
    count_closest_population(counties, &distances, geoids.len())
}

#[test]
fn find_closest_population_with_2_split_locations_different_population() {
    let county_data_left_1 = make_simple_county(-5.0, 0.0, 1000);
    let county_data_center_1 = make_county_with_geoid(0.0, 0.0, 2000, "L");
    let county_data_right_1 = make_simple_county(5.0, 0.0, 8000);
    let county_data_left_2 = make_simple_county(25.0, 0.0, 4000);
    let county_data_center_2 = make_county_with_geoid(30.0, 0.0, 16000, "R");
    let county_data_right_2 = make_simple_county(35.0, 0.0, 32000);

    let expected = vec![11000, 52000];
    let mut counties = vec![
        county_data_left_1,
        county_data_center_1,
        county_data_right_1,
        county_data_left_2,
        county_data_center_2,
        county_data_right_2,
    ];
    update_county_indices(&mut counties);
    let closest_populations = tally_by_geoids(&counties, &vec!["L".to_string(), "R".to_string()]);
    assert_eq!(expected, closest_populations);
}

#[test]
fn tally_tie_goes_to_first_anchor() {
    // The middle county is handed identical distances to both anchors.
    let mut counties = vec![
        make_county_with_geoid(-10.0, 0.0, 100, "A"),
        make_simple_county(0.0, 0.0, 7),
        make_county_with_geoid(10.0, 0.0, 200, "B"),
    ];
    update_county_indices(&mut counties);
    let near = (0.0_f64).to_bits();
    let far = (1234.5_f64 * 1234.5_f64).to_bits();
    let halfway = (617.25_f64 * 617.25_f64).to_bits();
    let distances = vec![
        vec![near, far],
        vec![halfway, halfway],
        vec![far, near],
    ];
    let sums = count_closest_population(&counties, &distances, 2);
    assert_eq!(vec![107, 200], sums);
}

#[test]
fn tally_with_no_counties_gives_zero_sums() {
    let counties: Vec<CountyData> = Vec::new();
    let distances: Vec<Vec<u64>> = Vec::new();
    let sums = count_closest_population(&counties, &distances, 2);
    assert_eq!(vec![0, 0], sums);
}

#[test]
fn argmin_first_picks_earliest_minimum() {
    assert_eq!(2, argmin_first(&vec![9, 5, 3, 8]));
    assert_eq!(1, argmin_first(&vec![9, 3, 3, 8]));
    assert_eq!(0, argmin_first(&vec![4]));
}

#[test]
fn unique_geoid_resolves_to_its_county() {
    let mut counties = vec![
        make_county_with_geoid(-5.0, 0.0, 10, "47185"),
        make_county_with_geoid(5.0, 0.0, 20, "32023"),
    ];
    update_county_indices(&mut counties);
    assert_eq!(Ok(1), find_unique_county_index(&counties, &"32023".to_string()));
}

#[test]
fn missing_geoid_is_reported() {
    let counties = vec![make_county_with_geoid(-5.0, 0.0, 10, "47185")];
    assert_eq!(
        Err(ResolveError::NoMatch),
        find_unique_county_index(&counties, &"99999".to_string())
    );
}

#[test]
fn duplicated_geoid_is_reported() {
    let counties = vec![
        make_county_with_geoid(-5.0, 0.0, 10, "47185"),
        make_county_with_geoid(5.0, 0.0, 20, "47185"),
    ];
    assert_eq!(
        Err(ResolveError::MultipleMatches),
        find_unique_county_index(&counties, &"47185".to_string())
    );
    assert_eq!(
        Err(ResolveError::MultipleMatches),
        resolve_anchor_indices(&counties, &vec!["47185".to_string()])
    );
}
