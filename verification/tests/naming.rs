use std::path::PathBuf;

use gps_cluster::cluster::{Cluster, Coordinate, Image};
use gps_cluster::naming::{AddressComponent, Geocoding, GeocodingResponse};

fn point(latitude: f64, longitude: f64) -> Coordinate {
    Coordinate::new(latitude.to_bits(), longitude.to_bits())
}

fn member(name: &str, location: Option<Coordinate>) -> Image {
    Image { path: PathBuf::from(name), timestamp: None, location }
}

fn classified() -> Cluster {
    Cluster {
        location: point(45.5, 7.25),
        images: vec![member("a", Some(point(45.5, 7.25)))],
        location_string: None,
    }
}

fn place(names: &[&str]) -> Geocoding {
    Geocoding {
        address_components: names
            .iter()
            .map(|name| AddressComponent { short_name: name.to_string() })
            .collect(),
    }
}

fn text(latitude: f64, longitude: f64) -> (String, String) {
    (latitude.to_string(), longitude.to_string())
}

#[test]
fn the_bucket_is_called_unclassified() {
    let mut bucket = Cluster::default();
    assert!(!bucket.awaits_lookup());
    let answer = GeocodingResponse { results: vec![place(&["Null Island"])] };
    bucket.update_location(Some(&answer), "0", "0");
    assert_eq!(bucket.location_string.as_deref(), Some("UNCLASSIFIED"));

    let mut nowhere = Cluster { location: point(f64::NAN, 7.0), ..Cluster::default() };
    nowhere.update_location(None, "NaN", "7");
    assert_eq!(nowhere.location_string.as_deref(), Some("UNCLASSIFIED"));
}

#[test]
fn without_an_answer_the_name_is_made_of_the_ordinates() {
    let mut cluster = classified();
    assert!(cluster.awaits_lookup());
    let (latitude, longitude) = text(45.5, 7.25);
    cluster.update_location(None, &latitude, &longitude);
    assert_eq!(cluster.location_string.as_deref(), Some("45.5_7.25"));
    assert!(!cluster.awaits_lookup());
    assert_eq!(cluster.location, point(45.5, 7.25));
    assert_eq!(cluster.images.len(), 1);
}

#[test]
fn an_answer_is_joined_from_its_short_names() {
    let mut cluster = classified();
    let answer = GeocodingResponse {
        results: vec![place(&["Mole Antonelliana", "TO"]), place(&[]), place(&["IT"])],
    };
    cluster.update_location(Some(&answer), "45.5", "7.25");
    assert_eq!(cluster.location_string.as_deref(), Some("Mole Antonelliana  - TO  - IT "));

    let expected = answer
        .results
        .iter()
        .flat_map(|result| {
            result.address_components.iter().map(|component| {
                let mut string = component.short_name.to_string();
                string.push(' ');
                string
            })
        })
        .collect::<Vec<String>>()
        .join(" - ");
    assert_eq!(cluster.location_string, Some(expected));
}

#[test]
fn an_answer_of_one_name_has_no_dash() {
    let mut cluster = classified();
    let answer = GeocodingResponse { results: vec![place(&["Torino"])] };
    cluster.update_location(Some(&answer), "45.5", "7.25");
    assert_eq!(cluster.location_string.as_deref(), Some("Torino "));
}

#[test]
fn an_answer_without_names_gives_an_empty_name() {
    let mut cluster = classified();
    let answer = GeocodingResponse { results: vec![place(&[]), place(&[])] };
    cluster.update_location(Some(&answer), "45.5", "7.25");
    assert_eq!(cluster.location_string.as_deref(), Some(""));

    let mut cluster = classified();
    let answer = GeocodingResponse { results: Vec::new() };
    cluster.update_location(Some(&answer), "45.5", "7.25");
    assert_eq!(cluster.location_string.as_deref(), Some(""));
}

#[test]
fn an_empty_short_name_still_counts() {
    let mut cluster = classified();
    let answer = GeocodingResponse { results: vec![place(&["", "", "x"])] };
    cluster.update_location(Some(&answer), "45.5", "7.25");
    assert_eq!(cluster.location_string.as_deref(), Some("  -   - x "));
}

#[test]
fn a_cluster_is_named_once() {
    let mut cluster = classified();
    cluster.update_location(None, "45.5", "7.25");
    let answer = GeocodingResponse { results: vec![place(&["Torino"])] };
    cluster.update_location(Some(&answer), "1", "2");
    assert_eq!(cluster.location_string.as_deref(), Some("45.5_7.25"));
    assert!(!cluster.awaits_lookup());

    let mut named = Cluster { location_string: Some("home".to_string()), ..classified() };
    assert!(!named.awaits_lookup());
    named.update_location(Some(&answer), "1", "2");
    assert_eq!(named.location_string.as_deref(), Some("home"));
}

#[test]
fn geocoding_asks_about_the_members_in_order() {
    let cluster = Cluster {
        location: point(1.0, 2.0),
        images: vec![
            member("a", None),
            member("b", Some(point(1.0, 2.0))),
            member("c", None),
            member("d", Some(point(3.0, 4.0))),
            member("e", None),
        ],
        location_string: None,
    };
    assert_eq!(cluster.reverse_geocoding(0), Some((1, point(1.0, 2.0))));
    assert_eq!(cluster.reverse_geocoding(1), Some((1, point(1.0, 2.0))));
    assert_eq!(cluster.reverse_geocoding(2), Some((3, point(3.0, 4.0))));
    assert_eq!(cluster.reverse_geocoding(3), Some((3, point(3.0, 4.0))));
    assert_eq!(cluster.reverse_geocoding(4), None);
    assert_eq!(cluster.reverse_geocoding(5), None);
    assert_eq!(cluster.reverse_geocoding(usize::MAX), None);
    assert_eq!(Cluster::default().reverse_geocoding(0), None);
}
