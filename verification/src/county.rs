//! Region records: a coordinate, a population, a state code and a unique
//! identifier, plus the index-alignment and identifier-resolution rules the
//! search relies on.

use vstd::prelude::*;

verus! {

/// A geographic point. The two fields hold the bit patterns of the IEEE-754
/// doubles for longitude and latitude in decimal degrees. Two coordinates
/// are equal exactly when their bit patterns are identical.
#[derive(Debug, PartialEq, Eq, Structural, Copy, Clone)]
pub struct Coordinate {
    pub longitude: u64,
    pub latitude: u64,
}

/// One region (county): immutable after loading. `index` must equal the
/// record's position in the region list before the search runs.
#[derive(Debug, Clone)]
pub struct CountyData {
    pub coordinate: Coordinate,
    pub index: usize,
    pub geoid: String,
    pub state: u8,
    pub population: u32,
}

/// Whether a county survives the mainland filter: Alaska (2), Hawaii (15)
/// and everything past the last state code (56, Wyoming) are excluded.
pub open spec fn spec_should_process_county(state: u8) -> bool {
    state != 2 && state != 15 && state <= 56
}

/// The mainland filter applied at load time.
pub fn should_process_county(county_data: &CountyData) -> (r: bool)
    ensures
        r == spec_should_process_county(county_data.state),
{
    let state = county_data.state;
    state != 2 && state != 15 && state <= 56
}

/// Every county's `index` equals its position in the list.
pub open spec fn spec_indices_aligned(counties: Seq<CountyData>) -> bool {
    forall|i: int| 0 <= i < counties.len() ==> #[trigger] counties[i].index == i
}

/// Rewrites each county's `index` to its position, leaving every other
/// field unchanged.
pub fn update_county_indices(county_datas: &mut Vec<CountyData>)
    ensures
        final(county_datas).len() == old(county_datas).len(),
        spec_indices_aligned(final(county_datas)@),
        forall|i: int|
            0 <= i < old(county_datas).len() ==> {
                let updated = #[trigger] final(county_datas)@[i];
                let orig = old(county_datas)@[i];
                updated.coordinate == orig.coordinate && updated.geoid == orig.geoid
                    && updated.state == orig.state && updated.population == orig.population
            },
{
    let n = county_datas.len();
    let mut i: usize = 0;
    while i < n
        invariant
            i <= n,
            n == county_datas.len(),
            old(county_datas)@.len() == n,
            forall|j: int| 0 <= j < i ==> #[trigger] county_datas@[j].index == j,
            forall|j: int|
                0 <= j < n ==> {
                    let updated = #[trigger] county_datas@[j];
                    let orig = old(county_datas)@[j];
                    updated.coordinate == orig.coordinate && updated.geoid == orig.geoid
                        && updated.state == orig.state && updated.population == orig.population
                },
        decreases n - i,
    {
        let geoid = county_datas[i].geoid.clone();
        let county = CountyData {
            coordinate: county_datas[i].coordinate,
            index: i,
            geoid,
            state: county_datas[i].state,
            population: county_datas[i].population,
        };
        county_datas.set(i, county);
        i = i + 1;
    }
}

/// How resolving a county identifier can fail: the identifier names no
/// county, or more than one.
#[derive(Debug, PartialEq, Eq, Structural, Copy, Clone)]
pub enum ResolveError {
    NoMatch,
    MultipleMatches,
}

/// Whether the county's identifier is `geoid`.
pub open spec fn spec_matches_geoid(county: CountyData, geoid: Seq<char>) -> bool {
    county.geoid@ == geoid
}

/// `i` is the position of the one and only county with this identifier.
pub open spec fn spec_unique_match_at(
    counties: Seq<CountyData>,
    geoid: Seq<char>,
    i: int,
) -> bool {
    &&& 0 <= i < counties.len()
    &&& spec_matches_geoid(counties[i], geoid)
    &&& forall|j: int|
        0 <= j < counties.len() && j != i ==> !spec_matches_geoid(#[trigger] counties[j], geoid)
}

/// Exactly one county carries this identifier.
pub open spec fn spec_has_unique_match(counties: Seq<CountyData>, geoid: Seq<char>) -> bool {
    exists|i: int| spec_unique_match_at(counties, geoid, i)
}

/// No county carries this identifier.
pub open spec fn spec_has_no_match(counties: Seq<CountyData>, geoid: Seq<char>) -> bool {
    forall|j: int|
        0 <= j < counties.len() ==> !spec_matches_geoid(#[trigger] counties[j], geoid)
}

/// At least two counties carry this identifier.
pub open spec fn spec_has_multiple_matches(counties: Seq<CountyData>, geoid: Seq<char>) -> bool {
    exists|j1: int, j2: int|
        0 <= j1 < j2 < counties.len() && spec_matches_geoid(#[trigger] counties[j1], geoid)
            && spec_matches_geoid(#[trigger] counties[j2], geoid)
}

/// Resolves an identifier to the position of the one county that carries
/// it. An identifier carried by no county, or by more than one, is a caller
/// error and is reported as such.
pub fn find_unique_county_index(counties: &Vec<CountyData>, geoid: &String) -> (r: Result<
    usize,
    ResolveError,
>)
    ensures
        match r {
            Ok(i) => spec_unique_match_at(counties@, geoid@, i as int),
            Err(ResolveError::NoMatch) => spec_has_no_match(counties@, geoid@),
            Err(ResolveError::MultipleMatches) => spec_has_multiple_matches(counties@, geoid@),
        },
{
    let n = counties.len();
    let mut found: Option<usize> = None;
    let mut i: usize = 0;
    while i < n
        invariant
            i <= n,
            n == counties.len(),
            match found {
                Some(m) => m < i && spec_matches_geoid(counties@[m as int], geoid@) && forall|
                    j: int,
                |
                    0 <= j < i && j != m ==> !spec_matches_geoid(#[trigger] counties@[j], geoid@),
                None => forall|j: int|
                    0 <= j < i ==> !spec_matches_geoid(#[trigger] counties@[j], geoid@),
            },
        decreases n - i,
    {
        if counties[i].geoid == *geoid {
            match found {
                Some(m) => {
                    return Err(ResolveError::MultipleMatches);
                },
                None => {
                    found = Some(i);
                },
            }
        }
        i = i + 1;
    }
    match found {
        Some(m) => Ok(m),
        None => Err(ResolveError::NoMatch),
    }
}

/// Resolves each identifier of `geoids`, in order, to the position of the
/// one county carrying it. The first identifier that resolves to no county
/// or to several stops the resolution with the matching error.
pub fn resolve_anchor_indices(counties: &Vec<CountyData>, geoids: &Vec<String>) -> (r: Result<
    Vec<usize>,
    ResolveError,
>)
    ensures
        r is Ok <==> forall|l: int|
            0 <= l < geoids.len() ==> spec_has_unique_match(counties@, #[trigger] geoids@[l]@),
        match r {
            Ok(v) => v.len() == geoids.len() && forall|l: int|
                0 <= l < geoids.len() ==> spec_unique_match_at(
                    counties@,
                    geoids@[l]@,
                    #[trigger] v@[l] as int,
                ),
            Err(e) => exists|l: int|
                {
                    &&& 0 <= l < geoids.len()
                    &&& forall|l2: int|
                        0 <= l2 < l ==> spec_has_unique_match(counties@, #[trigger] geoids@[l2]@)
                    &&& if e is NoMatch {
                        spec_has_no_match(counties@, #[trigger] geoids@[l]@)
                    } else {
                        spec_has_multiple_matches(counties@, geoids@[l]@)
                    }
                },
        },
{
    let mut indices: Vec<usize> = Vec::new();
    let mut l: usize = 0;
    while l < geoids.len()
        invariant
            l <= geoids.len(),
            indices.len() == l,
            forall|l2: int|
                0 <= l2 < l ==> spec_unique_match_at(
                    counties@,
                    geoids@[l2]@,
                    #[trigger] indices@[l2] as int,
                ),
        decreases geoids.len() - l,
    {
        match find_unique_county_index(counties, &geoids[l]) {
            Ok(i) => {
                indices.push(i);
            },
            Err(e) => {
                proof {
                    let li = l as int;
                    assert forall|l2: int|
                        0 <= l2 < li implies spec_has_unique_match(
                        counties@,
                        #[trigger] geoids@[l2]@,
                    ) by {
                        assert(spec_unique_match_at(
                            counties@,
                            geoids@[l2]@,
                            indices@[l2] as int,
                        ));
                    }
                    assert(!spec_has_unique_match(counties@, geoids@[li]@)) by {
                        if spec_has_unique_match(counties@, geoids@[li]@) {
                            let i = choose|i: int|
                                spec_unique_match_at(counties@, geoids@[li]@, i);
                            assert(spec_matches_geoid(counties@[i], geoids@[li]@));
                            if e is MultipleMatches {
                                let (j1, j2) = choose|j1: int, j2: int|
                                    0 <= j1 < j2 < counties@.len() && spec_matches_geoid(
                                        #[trigger] counties@[j1],
                                        geoids@[li]@,
                                    ) && spec_matches_geoid(#[trigger] counties@[j2], geoids@[li]@);
                                assert(j1 != i || j2 != i);
                            }
                        }
                    }
                }
                return Err(e);
            },
        }
        l = l + 1;
    }
    proof {
        assert forall|l2: int|
            0 <= l2 < geoids@.len() implies spec_has_unique_match(
            counties@,
            #[trigger] geoids@[l2]@,
        ) by {
            assert(spec_unique_match_at(counties@, geoids@[l2]@, indices@[l2] as int));
        }
    }
    Ok(indices)
}

} // verus!
