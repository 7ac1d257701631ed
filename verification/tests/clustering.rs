use std::cell::Cell;
use std::path::PathBuf;

use geoutils::Location;
use gps_cluster::cluster::{Cluster, Coordinate, Image};
use gps_cluster::features::{classify, find_first_fit, generate_clusters, place_image, within};
use gps_cluster::model::Placement;

fn point(latitude: f64, longitude: f64) -> Coordinate {
    Coordinate::new(latitude.to_bits(), longitude.to_bits())
}

fn location(point: Coordinate) -> Location {
    Location::new(f64::from_bits(point.latitude), f64::from_bits(point.longitude))
}

/// The distance that geoutils finds between two points, in metres.
fn metres(from: Coordinate, to: Coordinate) -> Option<f64> {
    location(from).distance_to(&location(to)).ok().map(|distance| distance.meters())
}

fn measure(from: Coordinate, to: Coordinate) -> Option<u64> {
    metres(from, to).map(f64::to_bits)
}

fn image(name: &str, latitude: f64, longitude: f64) -> Image {
    Image { path: PathBuf::from(name), timestamp: None, location: Some(point(latitude, longitude)) }
}

fn lost(name: &str) -> Image {
    Image { path: PathBuf::from(name), timestamp: None, location: None }
}

fn names(cluster: &Cluster) -> Vec<String> {
    cluster.images.iter().map(|image| image.path.display().to_string()).collect()
}

fn run(images: Vec<Image>, threshold: f64) -> (Vec<Cluster>, Cluster) {
    let mut clusters = Vec::new();
    let mut bucket = Cluster::default();
    generate_clusters(images, &mut clusters, &mut bucket, threshold.to_bits(), &measure);
    (clusters, bucket)
}

#[test]
fn near_images_share_a_cluster_and_far_ones_do_not() {
    let images = vec![
        image("a", 10.0, 10.0),
        image("b", 10.0001, 10.0001),
        image("c", 50.0, 50.0),
    ];
    let apart = metres(point(10.0001, 10.0001), point(10.0, 10.0)).unwrap();
    assert!(apart > 10.0 && apart < 20.0, "{apart}");

    let (clusters, bucket) = run(images, 100.0);

    assert_eq!(clusters.len(), 2);
    assert_eq!(names(&clusters[0]), ["a", "b"]);
    assert_eq!(names(&clusters[1]), ["c"]);
    assert_eq!(clusters[0].location, point(10.0, 10.0));
    assert_eq!(clusters[1].location, point(50.0, 50.0));
    assert!(clusters[0].location_string.is_none());
    assert!(clusters[0].is_classified());
    assert!(bucket.images.is_empty());
    assert!(!bucket.is_classified());
}

#[test]
fn the_anchor_is_the_first_member_and_never_moves() {
    let images = vec![
        image("a", 45.0, 7.0),
        image("b", 45.0003, 7.0),
        image("c", 45.0006, 7.0),
    ];
    let (clusters, _) = run(images, 50.0);
    // b is about 33 m from a and joins it; c is about 67 m from a, though
    // only 33 m from b, and is on its own.
    assert_eq!(clusters.len(), 2);
    assert_eq!(names(&clusters[0]), ["a", "b"]);
    assert_eq!(clusters[0].location, point(45.0, 7.0));
    assert_eq!(names(&clusters[1]), ["c"]);
    assert_eq!(clusters[1].location, point(45.0006, 7.0));
}

#[test]
fn the_first_cluster_that_fits_wins_over_a_nearer_one() {
    let images = vec![
        image("west", 45.0, 7.0),
        image("east", 45.0, 7.002),
        image("middle", 45.0, 7.0015),
    ];
    let to_west = metres(point(45.0, 7.0015), point(45.0, 7.0)).unwrap();
    let to_east = metres(point(45.0, 7.0015), point(45.0, 7.002)).unwrap();
    assert!(to_east < to_west && to_west < 130.0);
    assert!(metres(point(45.0, 7.002), point(45.0, 7.0)).unwrap() > 130.0);

    let (clusters, _) = run(images, 130.0);

    assert_eq!(clusters.len(), 2);
    assert_eq!(names(&clusters[0]), ["west", "middle"]);
    assert_eq!(names(&clusters[1]), ["east"]);
}

#[test]
fn a_distance_equal_to_the_threshold_is_inside() {
    let anchor = point(10.0, 10.0);
    let other = point(10.0001, 10.0001);
    let apart = metres(other, anchor).unwrap();
    let just_less = f64::from_bits(apart.to_bits() - 1);
    let just_more = f64::from_bits(apart.to_bits() + 1);

    let pair = || vec![image("a", 10.0, 10.0), image("b", 10.0001, 10.0001)];

    let (exact, _) = run(pair(), apart);
    assert_eq!(exact.len(), 1);
    assert_eq!(names(&exact[0]), ["a", "b"]);

    let (wider, _) = run(pair(), just_more);
    assert_eq!(wider.len(), 1);

    let (tighter, _) = run(pair(), just_less);
    assert_eq!(tighter.len(), 2);
    assert_eq!(names(&tighter[0]), ["a"]);
    assert_eq!(names(&tighter[1]), ["b"]);
}

#[test]
fn within_is_inclusive() {
    let limit = 100.0f64.to_bits();
    assert!(within(Some(limit), limit));
    assert!(within(Some(limit - 1), limit));
    assert!(!within(Some(limit + 1), limit));
    assert!(within(Some(0.0f64.to_bits()), limit));
    assert!(!within(None, limit));
    assert!(!within(Some(f64::NAN.to_bits()), limit));
    assert!(!within(Some(limit), f64::NAN.to_bits()));
    assert!(within(Some(limit), f64::INFINITY.to_bits()));
}

#[test]
fn images_without_a_usable_position_go_to_the_bucket() {
    let images = vec![
        lost("nowhere"),
        image("origin", 0.0, 0.0),
        image("signed origin", -0.0, 0.0),
        image("nan latitude", f64::NAN, 10.0),
        image("nan longitude", 10.0, f64::NAN),
        image("on the equator", 0.0, 10.0),
        image("on the meridian", 10.0, 0.0),
    ];
    let (clusters, bucket) = run(images, 100.0);
    assert_eq!(
        names(&bucket),
        ["nowhere", "origin", "signed origin", "nan latitude", "nan longitude"]
    );
    assert_eq!(clusters.len(), 2);
    assert_eq!(names(&clusters[0]), ["on the equator"]);
    assert_eq!(names(&clusters[1]), ["on the meridian"]);
    assert_eq!(bucket.location, Coordinate::new(0, 0));
    assert!(bucket.location_string.is_none());
}

#[test]
fn classifiable_means_a_usable_position() {
    assert!(image("a", 10.0, 10.0).is_classifiable());
    assert!(image("a", -33.9, 151.2).is_classifiable());
    assert!(image("a", 0.0, 1.0e-300).is_classifiable());
    assert!(!image("a", 0.0, 0.0).is_classifiable());
    assert!(!image("a", -0.0, -0.0).is_classifiable());
    assert!(!image("a", f64::NAN, f64::NAN).is_classifiable());
    assert!(!image("a", 1.0, f64::NAN).is_classifiable());
    assert!(!lost("a").is_classifiable());
    assert!(image("a", f64::INFINITY, 1.0).is_classifiable());
    assert!(point(0.0, -0.0).is_center());
    assert!(!point(0.0, 1.0).is_center());
    assert!(point(1.0, 0.0).is_usable());
}

#[test]
fn clustering_twice_gives_the_same_clusters() {
    let images = || {
        vec![
            image("a", 48.8584, 2.2945),
            lost("b"),
            image("c", 48.8585, 2.2946),
            image("d", 41.8902, 12.4922),
            image("e", 41.8903, 12.4923),
            image("f", 48.8606, 2.3376),
            image("g", 0.0, 0.0),
        ]
    };
    let (first, first_bucket) = run(images(), 250.0);
    let (second, second_bucket) = run(images(), 250.0);
    assert_eq!(first.len(), 3);
    assert_eq!(first.len(), second.len());
    for (one, other) in first.iter().zip(second.iter()) {
        assert_eq!(one.location, other.location);
        assert_eq!(names(one), names(other));
    }
    assert_eq!(names(&first_bucket), names(&second_bucket));
    assert_eq!(names(&first[0]), ["a", "c"]);
    assert_eq!(names(&first[1]), ["d", "e"]);
    assert_eq!(names(&first[2]), ["f"]);
    assert_eq!(names(&first_bucket), ["b", "g"]);
}

#[test]
fn every_member_was_within_the_threshold_of_its_anchor() {
    let mut images = Vec::new();
    for step in 0..40u32 {
        let shift = f64::from(step) * 0.0004;
        images.push(image(&format!("n{step}"), 45.0 + shift, 7.0));
        images.push(image(&format!("e{step}"), 45.0, 7.0 + shift));
    }
    let threshold = 120.0;
    let (clusters, bucket) = run(images, threshold);
    assert!(bucket.images.is_empty());
    assert!(clusters.len() > 1);
    let mut members = 0;
    for cluster in &clusters {
        assert_eq!(cluster.images[0].location, Some(cluster.location));
        for member in cluster.images.iter().skip(1) {
            let apart = metres(member.location.unwrap(), cluster.location).unwrap();
            assert!(apart <= threshold, "{apart}");
        }
        members += cluster.images.len();
    }
    assert_eq!(members, 80);
}

#[test]
fn measuring_stops_at_the_first_cluster_that_fits() {
    let asked = Cell::new(0usize);
    let counting = |from: Coordinate, to: Coordinate| {
        asked.set(asked.get() + 1);
        measure(from, to)
    };
    let mut clusters = Vec::new();
    let mut bucket = Cluster::default();
    let threshold = 100.0f64.to_bits();

    let first = classify(image("a", 10.0, 10.0), &mut clusters, &mut bucket, threshold, &counting);
    assert_eq!(first, Placement::Founded(0));
    assert_eq!(asked.get(), 0);

    let second = classify(image("b", 20.0, 20.0), &mut clusters, &mut bucket, threshold, &counting);
    assert_eq!(second, Placement::Founded(1));
    assert_eq!(asked.get(), 1);

    let third = classify(image("c", 10.0, 10.0001), &mut clusters, &mut bucket, threshold, &counting);
    assert_eq!(third, Placement::Joined(0));
    assert_eq!(asked.get(), 2);

    let fourth = classify(image("d", 20.0, 20.0001), &mut clusters, &mut bucket, threshold, &counting);
    assert_eq!(fourth, Placement::Joined(1));
    assert_eq!(asked.get(), 4);

    let fifth = classify(lost("e"), &mut clusters, &mut bucket, threshold, &counting);
    assert_eq!(fifth, Placement::Unclassified);
    assert_eq!(asked.get(), 4);

    assert_eq!(names(&clusters[0]), ["a", "c"]);
    assert_eq!(names(&clusters[1]), ["b", "d"]);
    assert_eq!(names(&bucket), ["e"]);
}

#[test]
fn a_failed_measurement_is_passed_over() {
    let failing_for_first = |from: Coordinate, to: Coordinate| {
        if to == point(10.0, 10.0) {
            None
        } else {
            measure(from, to)
        }
    };
    let mut clusters = Vec::new();
    let mut bucket = Cluster::default();
    let threshold = 100.0f64.to_bits();
    classify(image("a", 10.0, 10.0), &mut clusters, &mut bucket, threshold, &failing_for_first);
    classify(image("b", 10.0, 10.0002), &mut clusters, &mut bucket, threshold, &failing_for_first);
    classify(image("c", 10.0, 10.0001), &mut clusters, &mut bucket, threshold, &failing_for_first);
    // Neither b nor c can be compared with a, so b founds a second cluster,
    // which c joins.
    assert_eq!(clusters.len(), 2);
    assert_eq!(names(&clusters[0]), ["a"]);
    assert_eq!(names(&clusters[1]), ["b", "c"]);
}

#[test]
fn place_image_follows_the_given_distances() {
    let threshold = 100.0f64.to_bits();
    let near = Some(50.0f64.to_bits());
    let far = Some(150.0f64.to_bits());
    let mut clusters = Vec::new();
    let mut bucket = Cluster::default();

    let placed = place_image(image("a", 1.0, 1.0), &mut clusters, &mut bucket, &vec![], threshold);
    assert_eq!(placed, Placement::Founded(0));
    let placed = place_image(image("b", 2.0, 2.0), &mut clusters, &mut bucket, &vec![far], threshold);
    assert_eq!(placed, Placement::Founded(1));
    let placed =
        place_image(image("c", 3.0, 3.0), &mut clusters, &mut bucket, &vec![far, near], threshold);
    assert_eq!(placed, Placement::Joined(1));
    let placed =
        place_image(image("d", 4.0, 4.0), &mut clusters, &mut bucket, &vec![near, near], threshold);
    assert_eq!(placed, Placement::Joined(0));
    let placed =
        place_image(image("e", 5.0, 5.0), &mut clusters, &mut bucket, &vec![None, near], threshold);
    assert_eq!(placed, Placement::Joined(1));
    let placed =
        place_image(image("f", 6.0, 6.0), &mut clusters, &mut bucket, &vec![None, None], threshold);
    assert_eq!(placed, Placement::Founded(2));
    let placed = place_image(lost("g"), &mut clusters, &mut bucket, &vec![near, near, near], threshold);
    assert_eq!(placed, Placement::Unclassified);

    assert_eq!(names(&clusters[0]), ["a", "d"]);
    assert_eq!(names(&clusters[1]), ["b", "c", "e"]);
    assert_eq!(names(&clusters[2]), ["f"]);
    assert_eq!(clusters[2].location, point(6.0, 6.0));
    assert_eq!(names(&bucket), ["g"]);
}

#[test]
fn place_image_passes_over_what_has_no_counterpart() {
    let threshold = 100.0f64.to_bits();
    let near = Some(50.0f64.to_bits());
    let far = Some(150.0f64.to_bits());
    let mut clusters = Vec::new();
    let mut bucket = Cluster::default();
    place_image(image("a", 1.0, 1.0), &mut clusters, &mut bucket, &vec![], threshold);
    place_image(image("b", 2.0, 2.0), &mut clusters, &mut bucket, &vec![far], threshold);

    // A distance for a cluster that does not exist is not looked at.
    let placed =
        place_image(image("c", 3.0, 3.0), &mut clusters, &mut bucket, &vec![far, far, near], threshold);
    assert_eq!(placed, Placement::Founded(2));
    // A cluster without a distance cannot fit.
    let placed = place_image(image("d", 4.0, 4.0), &mut clusters, &mut bucket, &vec![far], threshold);
    assert_eq!(placed, Placement::Founded(3));
    assert_eq!(clusters.len(), 4);
}

#[test]
fn find_first_fit_finds_the_earliest() {
    let threshold = 10.0f64.to_bits();
    let near = Some(5.0f64.to_bits());
    let edge = Some(10.0f64.to_bits());
    let far = Some(10.5f64.to_bits());
    assert_eq!(find_first_fit(&vec![far, near, edge], threshold, 3), Some(1));
    assert_eq!(find_first_fit(&vec![far, edge, near], threshold, 3), Some(1));
    assert_eq!(find_first_fit(&vec![far, far, edge], threshold, 3), Some(2));
    assert_eq!(find_first_fit(&vec![far, far, edge], threshold, 2), None);
    assert_eq!(find_first_fit(&vec![far, None, far], threshold, 3), None);
    assert_eq!(find_first_fit(&vec![], threshold, 3), None);
    assert_eq!(find_first_fit(&vec![near], threshold, 0), None);
    assert_eq!(find_first_fit(&vec![near], threshold, usize::MAX), Some(0));
}

#[test]
fn a_threshold_that_is_no_number_keeps_every_image_apart() {
    let images = vec![image("a", 10.0, 10.0), image("b", 10.0, 10.0), image("c", 10.0, 10.0)];
    let (clusters, _) = run(images, f64::NAN);
    assert_eq!(clusters.len(), 3);

    let images = vec![image("a", 10.0, 10.0), image("b", 10.0, 10.0), image("c", 10.0, 10.0)];
    let (clusters, _) = run(images, 0.0);
    assert_eq!(clusters.len(), 1);
    assert_eq!(names(&clusters[0]), ["a", "b", "c"]);

    let images = vec![image("a", 10.0, 10.0), image("b", 10.0, 10.0)];
    let (clusters, _) = run(images, -1.0);
    assert_eq!(clusters.len(), 2);
}

#[test]
fn clustering_adds_to_the_clusters_that_are_there() {
    let mut clusters = Vec::new();
    let mut bucket = Cluster::default();
    let threshold = 100.0f64.to_bits();
    generate_clusters(
        vec![image("a", 10.0, 10.0), lost("x")],
        &mut clusters,
        &mut bucket,
        threshold,
        &measure,
    );
    generate_clusters(
        vec![image("b", 10.0001, 10.0001), lost("y"), image("c", 50.0, 50.0)],
        &mut clusters,
        &mut bucket,
        threshold,
        &measure,
    );
    assert_eq!(clusters.len(), 2);
    assert_eq!(names(&clusters[0]), ["a", "b"]);
    assert_eq!(names(&clusters[1]), ["c"]);
    assert_eq!(names(&bucket), ["x", "y"]);
}

#[test]
fn no_images_make_no_clusters() {
    let (clusters, bucket) = run(Vec::new(), 100.0);
    assert!(clusters.is_empty());
    assert!(bucket.images.is_empty());
}

#[test]
fn a_copy_holds_what_the_cluster_holds() {
    let (clusters, bucket) = run(vec![image("a", 10.0, 10.0), image("b", 10.0, 10.0001), lost("c")], 100.0);
    let copy = clusters[0].clone();
    assert_eq!(copy.location, clusters[0].location);
    assert_eq!(names(&copy), ["a", "b"]);
    assert_eq!(copy.location_string, clusters[0].location_string);
    let member = bucket.images[0].clone();
    assert_eq!(member.path, PathBuf::from("c"));
    assert_eq!(member.timestamp, None);
    assert_eq!(member.location, None);
}
