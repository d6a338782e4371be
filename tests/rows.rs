use genom::rows::{postal_from_row, same_text};
use genom::Builder;

fn row(parts: &[&str]) -> Vec<String> {
    parts.iter().map(|s| s.to_string()).collect()
}

fn geonames_row(name: &str, feature: &str, admin1: &str, admin2: &str) -> Vec<String> {
    let mut v = vec![String::new(); 18];
    v[2] = name.to_string();
    v[7] = feature.to_string();
    v[10] = admin1.to_string();
    v[11] = admin2.to_string();
    v[17] = "America/Los_Angeles".to_string();
    v
}

fn builder() -> Builder {
    let mut b = Builder::new();
    Builder::add_admin_row(&mut b.admin1, &row(&["US.CA", "California", "California", "5332921"]));
    Builder::add_admin_row(&mut b.admin1, &row(&["US.NV", "Nevada", "Nevada", "x12"]));
    Builder::add_admin_row(&mut b.admin1, &row(&["US.TX", "Texas"]));
    Builder::add_admin_row(
        &mut b.admin2,
        &row(&["US.CA.037", "Los Angeles County", "Los Angeles County", "5368381"]),
    );
    b.add_iso_row(&row(&["1", "5332921", "abbr", "CA"]));
    b.add_iso_row(&row(&["2", "5332921", "post", "Calif."]));
    b.add_iso_row(&row(&["3", "-1", "abbr", "ZZ"]));
    b
}

#[test]
fn admin_tables_hold_names_and_ids() {
    let b = builder();
    assert_eq!(b.admin1.get("US.CA").unwrap(), "California");
    assert_eq!(b.admin1.get("US.CA:gid").unwrap(), "5332921");
    assert!(b.admin1.get("US.TX").is_none());
    assert_eq!(b.admin1_iso.get(&5332921).unwrap(), "CA");
    assert_eq!(b.admin1_iso.len(), 1);
}

#[test]
fn place_row_resolves_region_district_and_iso_code() {
    let b = builder();
    let p = b.place_from_row("US", &geonames_row("Los Angeles", "PPLA2", "CA", "037"), 3_405_223, -11_824_368).unwrap();
    assert_eq!(p.city, "Los Angeles");
    assert_eq!(p.region, "California");
    assert_eq!(p.region_code, "CA");
    assert_eq!(p.district, "Los Angeles County");
    assert_eq!(p.country_code, "US");
    assert_eq!(p.postal_code, "");
    assert_eq!(p.timezone, "America/Los_Angeles");
    assert_eq!((p.lat, p.lon), (3_405_223, -11_824_368));
}

#[test]
fn region_code_falls_back_to_admin1_code() {
    let b = builder();
    let nv = b.place_from_row("US", &geonames_row("Reno", "PPL", "NV", "031"), 1, 2).unwrap();
    assert_eq!(nv.region, "Nevada");
    assert_eq!(nv.region_code, "NV");
    assert_eq!(nv.district, "");
    let none = b.place_from_row("US", &geonames_row("Nowhere", "PPL", "00", ""), 1, 2).unwrap();
    assert_eq!(none.region_code, "");
    assert_eq!(none.region, "");
    let empty = b.place_from_row("US", &geonames_row("Blank", "PPLC", "", ""), 1, 2).unwrap();
    assert_eq!(empty.region_code, "");
}

#[test]
fn rows_that_are_not_populated_places_are_dropped() {
    let b = builder();
    assert!(b.place_from_row("US", &geonames_row("Lake", "LK", "CA", ""), 1, 2).is_none());
    assert!(b.place_from_row("US", &geonames_row("Ppl", "ppl", "CA", ""), 1, 2).is_none());
    let mut short = geonames_row("Town", "PPL", "CA", "");
    short.pop();
    assert!(b.place_from_row("US", &short, 1, 2).is_none());
    for code in ["PPL", "PPLA", "PPLA2", "PPLA3", "PPLA4", "PPLC", "PPLG", "PPLS"] {
        assert!(b.place_from_row("US", &geonames_row("Town", code, "CA", ""), 1, 2).is_some());
    }
}

#[test]
fn postal_row_needs_eleven_fields() {
    let parts = row(&["FR", "75001", "Paris", "Île-de-France", "11", "Paris", "75", "", "", "48.8625", "2.3364"]);
    let c = postal_from_row(&parts, 4_886_250, 233_640).unwrap();
    assert_eq!(c.country, "FR");
    assert_eq!(c.code, "75001");
    assert_eq!(c.district, "Paris");
    assert_eq!((c.lat, c.lon), (4_886_250, 233_640));
    assert!(postal_from_row(&parts[..10].to_vec(), 0, 0).is_none());
}

#[test]
fn same_text_compares_characters() {
    assert!(same_text("Zürich", "Zürich"));
    assert!(!same_text("Zürich", "Zurich"));
    assert!(!same_text("ab", "abc"));
    assert!(same_text("", ""));
}
