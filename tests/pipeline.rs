use genom::builder::intern_strings;
use genom::dedup::deduplicate_places;
use genom::merge::merge_postal_codes;
use genom::coords::{cell_key, fine_key, SCALE};
use genom::geocoder::first_min_index;
use genom::grid::build_grid;
use genom::{
    decode_database, encode_database, Builder, CompactPlace, Database, Geocoder, LoadError,
    PostalCode, RawPlace, StringInterner,
};
use rustc_hash::FxHashMap;

fn fixed(deg: f64) -> i32 {
    (deg * SCALE as f64).round() as i32
}

fn raw(city: &str, country: &str, postal: &str, district: &str, lat: i32, lon: i32) -> RawPlace {
    RawPlace {
        city: city.to_string(),
        region: String::new(),
        region_code: String::new(),
        district: district.to_string(),
        country_code: country.to_string(),
        postal_code: postal.to_string(),
        timezone: String::new(),
        lat,
        lon,
    }
}

fn postal(country: &str, code: &str, district: &str, lat: i32, lon: i32) -> PostalCode {
    PostalCode {
        country: country.to_string(),
        code: code.to_string(),
        district: district.to_string(),
        lat,
        lon,
    }
}

type Fields = (String, String, String, String, String, String, String, i32, i32);

fn fields(p: &RawPlace) -> Fields {
    (
        p.city.clone(),
        p.region.clone(),
        p.region_code.clone(),
        p.district.clone(),
        p.country_code.clone(),
        p.postal_code.clone(),
        p.timezone.clone(),
        p.lat,
        p.lon,
    )
}

fn all_fields(v: &[RawPlace]) -> Vec<Fields> {
    v.iter().map(fields).collect()
}

fn resolved_fields(p: &genom::ResolvedPlace) -> Fields {
    (
        p.city.clone(),
        p.region.clone(),
        p.region_code.clone(),
        p.district.clone(),
        p.country_code.clone(),
        p.postal_code.clone(),
        p.timezone.clone(),
        p.lat,
        p.lon,
    )
}

fn paris_db() -> Database {
    let mut p = raw("Paris", "FR", "75001", "Paris", fixed(48.85341), fixed(2.3488));
    p.region = "Île-de-France".to_string();
    p.region_code = "IDF".to_string();
    p.timezone = "Europe/Paris".to_string();
    let london = raw("London", "GB", "", "", fixed(51.50853), fixed(-0.12574));
    Builder::build_database(vec![p, london], &Vec::new())
}

/// Runs a query the way the application does, ranking candidates by
/// squared planar distance instead of great-circle distance.
fn query(g: &Geocoder, lat: f64, lon: f64) -> Option<genom::ResolvedPlace> {
    let (la, lo) = (fixed(lat), fixed(lon));
    let key = g.grid_key(la, lo);
    let cands = g.candidates(key);
    let db = g.database();
    let dists: Vec<u64> = cands
        .iter()
        .map(|&i| {
            let p = &db.places[i as usize];
            let a = (p.lat as i64 - la as i64) as f64;
            let b = (p.lon as i64 - lo as i64) as f64;
            (a * a + b * b).sqrt().to_bits()
        })
        .collect();
    g.find_nearest(&cands, &dists).map(|i| g.build_place(i))
}

#[test]
fn cell_key_floors_negative_values() {
    assert_eq!(cell_key(0, 0), (0, 0));
    assert_eq!(cell_key(9_999, 19_999), (0, 1));
    assert_eq!(cell_key(-1, -10_000), (-1, -1));
    assert_eq!(cell_key(-10_001, 4_885_341), (-2, 488));
    assert_eq!(cell_key(9_000_000, -18_000_000), (900, -1800));
    assert_eq!(fine_key(-1, 1_999), (-1, 1));
}

#[test]
fn fixed_point_round_trip_within_one_unit() {
    for &x in &[48.8566, -160.0, 0.0, 89.999994, -179.123456, 2.3522] {
        let back = fixed(x) as f64 / SCALE as f64;
        assert!((back - x).abs() <= 0.00001);
    }
}

#[test]
fn interning_is_idempotent() {
    let mut t = StringInterner::new();
    let a = t.intern("Paris");
    let b = t.intern("Lyon");
    let a2 = t.intern("Paris");
    assert_eq!(a, 0);
    assert_eq!(b, 1);
    assert_eq!(a2, a);
    assert_eq!(t.intern("paris"), 2);
    assert_eq!(t.into_strings(), vec!["Paris".to_string(), "Lyon".to_string(), "paris".to_string()]);
}

#[test]
fn interning_distinct_strings_gives_one_entry_each() {
    let mut t = StringInterner::new();
    let words = ["a", "b", "c", "d", ""];
    for (i, w) in words.iter().enumerate() {
        assert_eq!(t.intern(w), i as u32);
    }
    assert_eq!(t.into_strings().len(), words.len());
}

#[test]
fn intern_strings_shares_repeated_text() {
    let places = vec![
        raw("Paris", "FR", "75001", "", 100, 200),
        raw("Lyon", "FR", "", "", 300, 400),
    ];
    let (strings, compact) = intern_strings(places);
    assert_eq!(strings, vec!["Paris", "", "FR", "75001", "Lyon"]);
    assert_eq!(
        compact[1],
        CompactPlace {
            city: 4,
            region: 1,
            region_code: 1,
            district: 1,
            country_code: 2,
            postal_code: 1,
            timezone: 1,
            lat: 300,
            lon: 400,
        }
    );
}

#[test]
fn grid_lists_each_record_once_in_its_own_cell() {
    let mk = |lat: i32, lon: i32| CompactPlace {
        city: 0,
        region: 0,
        region_code: 0,
        district: 0,
        country_code: 0,
        postal_code: 0,
        timezone: 0,
        lat,
        lon,
    };
    let places = vec![mk(5, 5), mk(-5, 5), mk(9_999, 0), mk(10_000, 0), mk(7, 3)];
    let grid = build_grid(&places);
    let total: usize = grid.values().map(|v| v.len()).sum();
    assert_eq!(total, places.len());
    for (i, p) in places.iter().enumerate() {
        let key = cell_key(p.lat, p.lon);
        assert!(grid[&key].contains(&(i as u32)));
    }
    assert_eq!(grid[&(0, 0)], vec![0, 2, 4]);
    assert_eq!(grid[&(-1, 0)], vec![1]);
    assert_eq!(grid[&(1, 0)], vec![3]);
}

#[test]
fn longer_city_name_survives_collapse() {
    let a = raw("Paris", "FR", "", "", 4_885_341, 234_880);
    let b = raw("Paris 1er", "FR", "", "", 4_885_400, 234_900);
    let out = deduplicate_places(vec![a, b.clone()]);
    assert_eq!(all_fields(&out), all_fields(&[b]));
}

#[test]
fn postal_code_breaks_collapse_tie() {
    let a = raw("Vannes", "FR", "", "", 100, 100);
    let b = raw("Rennes", "FR", "35000", "", 200, 200);
    let out = deduplicate_places(vec![a, b.clone()]);
    assert_eq!(all_fields(&out), all_fields(&[b]));
}

#[test]
fn full_tie_keeps_first_and_other_cells_survive() {
    let a = raw("Aa", "FR", "", "", 100, 100);
    let b = raw("Bb", "FR", "", "", 200, 200);
    let c = raw("Cc", "FR", "", "", 5_000, 100);
    let out = deduplicate_places(vec![a.clone(), b, c.clone()]);
    assert_eq!(all_fields(&out), all_fields(&[a, c]));
}

#[test]
fn collapse_orders_survivors_longest_name_first() {
    let a = raw("Ab", "FR", "", "", 100, 100);
    let b = raw("Abcd", "FR", "", "", 5_000, 100);
    let c = raw("Abc", "FR", "", "", 9_000, 100);
    let d = raw("Xy", "FR", "1", "", 13_000, 100);
    let out = deduplicate_places(vec![a.clone(), b.clone(), c.clone(), d.clone()]);
    assert_eq!(all_fields(&out), all_fields(&[b, c, d, a]));
}

#[test]
fn postal_merge_fills_code_and_district() {
    let mut places = vec![raw("Paris", "FR", "", "", fixed(48.8566), fixed(2.3522))];
    let codes = vec![
        postal("FR", "75001", "Paris 1er", fixed(48.8625), fixed(2.3364)),
        postal("DE", "10115", "Berlin", fixed(48.8570), fixed(2.3520)),
    ];
    merge_postal_codes(&mut places, &codes);
    assert_eq!(places[0].postal_code, "75001");
    assert_eq!(places[0].district, "Paris 1er");
}

#[test]
fn postal_merge_picks_nearest_and_keeps_district() {
    let mut places = vec![raw("X", "FR", "", "Own", 50_000, 50_000)];
    let codes = vec![
        postal("FR", "far", "A", 50_000, 58_000),
        postal("FR", "near", "B", 50_100, 50_100),
        postal("FR", "farther", "C", 41_000, 50_000),
    ];
    merge_postal_codes(&mut places, &codes);
    assert_eq!(places[0].postal_code, "near");
    assert_eq!(places[0].district, "Own");
}

#[test]
fn postal_merge_without_candidate_leaves_place() {
    let p = raw("X", "FR", "", "", 50_000, 50_000);
    let mut places = vec![p.clone()];
    let codes = vec![postal("FR", "1", "A", 90_000, 50_000), postal("BE", "2", "B", 50_000, 50_000)];
    merge_postal_codes(&mut places, &codes);
    assert_eq!(all_fields(&places), all_fields(&[p]));
}

#[test]
fn first_min_index_takes_first_smallest() {
    assert_eq!(first_min_index(&vec![]), None);
    assert_eq!(first_min_index(&vec![5, 3, 7, 3]), Some(1));
    assert_eq!(first_min_index(&vec![2]), Some(0));
}

#[test]
fn empty_database_encodes_to_three_zero_counts() {
    let db = Database { strings: vec![], places: vec![], grid: FxHashMap::default() };
    assert_eq!(encode_database(&db), vec![0u8; 24]);
}

#[test]
fn encoding_has_the_documented_layout() {
    let mut grid = FxHashMap::default();
    grid.insert((-1i16, 2i16), vec![0u32]);
    let db = Database {
        strings: vec!["é".to_string()],
        places: vec![CompactPlace {
            city: 0,
            region: 0,
            region_code: 0,
            district: 0,
            country_code: 0,
            postal_code: 0,
            timezone: 0,
            lat: -1,
            lon: 2,
        }],
        grid,
    };
    let bytes = encode_database(&db);
    let mut want = vec![1, 0, 0, 0, 0, 0, 0, 0, 2, 0xC3, 0xA9];
    want.extend_from_slice(&[1, 0, 0, 0, 0, 0, 0, 0]);
    want.extend_from_slice(&[0; 28]);
    want.extend_from_slice(&[0xFF, 0xFF, 0xFF, 0xFF, 2, 0, 0, 0]);
    want.extend_from_slice(&[1, 0, 0, 0, 0, 0, 0, 0]);
    want.extend_from_slice(&[0xFF, 0xFF, 2, 0]);
    want.extend_from_slice(&[1, 0, 0, 0, 0, 0, 0, 0, 0, 0, 0, 0]);
    assert_eq!(bytes, want);
}

#[test]
fn long_string_length_uses_varint_continuation() {
    let s = "x".repeat(300);
    let db = Database { strings: vec![s.clone()], places: vec![], grid: FxHashMap::default() };
    let bytes = encode_database(&db);
    assert_eq!(&bytes[8..10], &[0xAC, 0x02]);
    let back = decode_database(&bytes).ok().unwrap();
    assert_eq!(back.strings, vec![s]);
}

#[test]
fn decode_reverses_encode() {
    let db = paris_db();
    let bytes = encode_database(&db);
    let back = decode_database(&bytes).ok().unwrap();
    assert_eq!(back.strings, db.strings);
    assert_eq!(back.places, db.places);
    assert_eq!(back.grid, db.grid);
}

#[test]
fn truncated_or_invalid_bytes_fail_to_decode() {
    let bytes = encode_database(&paris_db());
    for cut in [0, 7, 8, 20, bytes.len() - 1] {
        assert!(decode_database(&bytes[..cut]).is_err());
    }
    let mut bad = vec![1, 0, 0, 0, 0, 0, 0, 0, 1, 0xFF];
    bad.extend_from_slice(&[0; 16]);
    assert!(decode_database(&bad).is_err());
    let mut long = vec![1, 0, 0, 0, 0, 0, 0, 0];
    long.extend_from_slice(&[0x80; 11]);
    long.push(0);
    assert!(decode_database(&long).is_err());
}

#[test]
fn loading_rejects_dangling_references() {
    let mut grid = FxHashMap::default();
    grid.insert((0i16, 0i16), vec![3u32]);
    let db = Database { strings: vec![], places: vec![], grid };
    let bytes = encode_database(&db);
    assert!(matches!(Geocoder::new(&bytes), Err(LoadError::DanglingReference)));
    assert!(matches!(Geocoder::new(&bytes[..5]), Err(LoadError::Malformed)));
}

#[test]
fn paris_query_returns_paris() {
    let g = Geocoder::new(&encode_database(&paris_db())).ok().unwrap();
    let p = query(&g, 48.8566, 2.3522).unwrap();
    assert_eq!(p.city, "Paris");
    assert_eq!(p.country_code, "FR");
    assert_eq!(p.region, "Île-de-France");
    assert_eq!(p.postal_code, "75001");
    assert_eq!(p.timezone, "Europe/Paris");
    assert_eq!((p.lat, p.lon), (fixed(48.85341), fixed(2.3488)));
}

#[test]
fn open_pacific_query_returns_nothing() {
    let g = Geocoder::new(&encode_database(&paris_db())).ok().unwrap();
    assert!(query(&g, 0.0, -160.0).is_none());
}

#[test]
fn repeated_queries_agree() {
    let g = Geocoder::new(&encode_database(&paris_db())).ok().unwrap();
    let first = query(&g, 51.5, -0.12).map(|p| resolved_fields(&p));
    for _ in 0..5 {
        assert_eq!(query(&g, 51.5, -0.12).map(|p| resolved_fields(&p)), first);
    }
    assert_eq!(first.unwrap().0, "London");
}

#[test]
fn nearest_of_several_candidates_wins() {
    let places = vec![
        raw("Far", "FR", "", "", 1_000, 1_000),
        raw("Near", "FR", "", "", 10, 10),
        raw("Neighbour cell", "FR", "", "", -9_000, 15_000),
    ];
    let g = Geocoder::from_database(Builder::build_database(places, &Vec::new())).ok().unwrap();
    assert_eq!(query(&g, 0.0, 0.0).unwrap().city, "Near");
    assert!(query(&g, 0.0, 0.3).is_none());
}

#[test]
fn build_database_merges_collapses_and_indexes() {
    let places = vec![
        raw("Rennes", "FR", "", "", 4_811_000, -167_000),
        raw("Rennes Centre", "FR", "", "", 4_811_100, -166_900),
        raw("Nantes", "FR", "", "", 4_721_000, -155_000),
    ];
    let codes = vec![postal("FR", "35000", "Ille-et-Vilaine", 4_811_200, -167_200)];
    let db = Builder::build_database(places, &codes);
    assert_eq!(db.places.len(), 2);
    let g = Geocoder::from_database(db).ok().unwrap();
    let p = query(&g, 48.11, -1.67).unwrap();
    assert_eq!(p.city, "Rennes Centre");
    assert_eq!(p.postal_code, "35000");
    assert_eq!(p.district, "Ille-et-Vilaine");
}

#[test]
fn later_cell_with_same_key_replaces_earlier() {
    let mut bytes = vec![0u8; 16];
    bytes.extend_from_slice(&[2, 0, 0, 0, 0, 0, 0, 0]);
    for id in [7u32, 9u32] {
        bytes.extend_from_slice(&[1, 0, 2, 0]);
        bytes.extend_from_slice(&[1, 0, 0, 0, 0, 0, 0, 0]);
        bytes.extend_from_slice(&id.to_le_bytes());
    }
    let db = decode_database(&bytes).ok().unwrap();
    assert_eq!(db.grid.len(), 1);
    assert_eq!(db.grid[&(1, 2)], vec![9]);
}

#[test]
fn oversized_varint_and_overlong_string_fail() {
    let mut big = vec![1, 0, 0, 0, 0, 0, 0, 0];
    big.extend_from_slice(&[0xFF; 9]);
    big.push(0x02);
    assert!(decode_database(&big).is_err());
    let mut fits = vec![1, 0, 0, 0, 0, 0, 0, 0];
    fits.extend_from_slice(&[0xFF; 9]);
    fits.push(0x01);
    assert!(decode_database(&fits).is_err());
    let mut short = vec![1, 0, 0, 0, 0, 0, 0, 0, 5, b'a', b'b'];
    short.extend_from_slice(&[0; 16]);
    assert!(decode_database(&short[..11]).is_err());
}

#[test]
fn query_finds_record_across_the_zero_meridian() {
    let places = vec![raw("West", "GB", "", "", 5_150_000, -1)];
    let g = Geocoder::from_database(Builder::build_database(places, &Vec::new())).ok().unwrap();
    assert_eq!(g.grid_key(5_150_000, -1), (515, -1));
    assert_eq!(query(&g, 51.5, 0.00001).unwrap().city, "West");
}
