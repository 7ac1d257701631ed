use std::path::PathBuf;

use geoutils::Location;
use gps_cluster::cluster::{Cluster, Coordinate, Image, ReliabilityScore};
use gps_cluster::features::{choose_cluster, generate_clusters, relocate, sweep};
use gps_cluster::model::Policy;
use gps_cluster::utils::try_guess;

fn point(latitude: f64, longitude: f64) -> Coordinate {
    Coordinate::new(latitude.to_bits(), longitude.to_bits())
}

fn measure(from: Coordinate, to: Coordinate) -> Option<u64> {
    let from = Location::new(f64::from_bits(from.latitude), f64::from_bits(from.longitude));
    let to = Location::new(f64::from_bits(to.latitude), f64::from_bits(to.longitude));
    from.distance_to(&to).ok().map(|distance| distance.meters().to_bits())
}

/// An image taken at `anchor` at the moment `taken`.
fn placed(name: &str, taken: Option<i64>) -> Image {
    Image { path: PathBuf::from(name), timestamp: taken, location: Some(point(45.0, 7.0)) }
}

/// An image without a position.
fn lost(name: &str, taken: Option<i64>) -> Image {
    Image { path: PathBuf::from(name), timestamp: taken, location: None }
}

fn cluster(anchor: Coordinate, images: Vec<Image>) -> Cluster {
    Cluster { location: anchor, images, location_string: None }
}

fn bucket(images: Vec<Image>) -> Cluster {
    Cluster { images, ..Cluster::default() }
}

fn names(cluster: &Cluster) -> Vec<String> {
    cluster.images.iter().map(|image| image.path.display().to_string()).collect()
}

/// A cluster of `members` images of which the first `near` were taken at the
/// moment 1000 and the others a day later.
fn mixed(prefix: &str, near: usize, members: usize) -> Cluster {
    let images = (0..members)
        .map(|k| placed(&format!("{prefix}{k}"), Some(if k < near { 1000 } else { 87_400 })))
        .collect();
    cluster(point(45.0, 7.0), images)
}

#[test]
fn three_of_ten_is_a_reliability_of_three_tenths() {
    let ten = mixed("m", 3, 10);
    let score = ten.reliability(60, 1010);
    assert_eq!(score, ReliabilityScore { matching: 3, members: 10 });
    assert_eq!(score.matching as f32 / score.members as f32, 0.3f32);
    assert_eq!(score.matching as f64 / score.members as f64, 0.3f64);
    assert!(!score.is_zero());
}

#[test]
fn reliability_counts_members_with_time_and_place_only() {
    let members = vec![
        placed("near", Some(1000)),
        placed("no time", None),
        lost("no place", Some(1000)),
        Image {
            path: PathBuf::from("at the center"),
            timestamp: Some(1000),
            location: Some(point(0.0, 0.0)),
        },
        Image {
            path: PathBuf::from("nan"),
            timestamp: Some(1000),
            location: Some(point(f64::NAN, 7.0)),
        },
        placed("far", Some(5000)),
    ];
    let score = cluster(point(45.0, 7.0), members).reliability(60, 1000);
    assert_eq!(score, ReliabilityScore { matching: 1, members: 6 });
}

#[test]
fn the_window_is_open_at_its_end() {
    let alone = cluster(point(45.0, 7.0), vec![placed("a", Some(1000))]);
    assert_eq!(alone.reliability(60, 1059).matching, 1);
    assert_eq!(alone.reliability(60, 941).matching, 1);
    assert_eq!(alone.reliability(60, 1060).matching, 0);
    assert_eq!(alone.reliability(60, 940).matching, 0);
    assert_eq!(alone.reliability(1, 1000).matching, 1);
    assert_eq!(alone.reliability(1, 1001).matching, 0);
    assert_eq!(alone.reliability(0, 1000).matching, 0);
    assert_eq!(alone.reliability(-5, 1000).matching, 0);
}

#[test]
fn moments_far_apart_do_not_overflow() {
    let early = cluster(point(45.0, 7.0), vec![placed("a", Some(i64::MIN))]);
    assert_eq!(early.reliability(i64::MAX, i64::MAX).matching, 0);
    assert_eq!(early.reliability(i64::MAX, i64::MIN).matching, 1);
    assert_eq!(early.reliability(i64::MAX, -2).matching, 1);
    assert_eq!(early.reliability(i64::MAX, -1).matching, 0);
    let image = placed("a", Some(i64::MAX));
    assert!(image.taken_within(1, i64::MAX));
    assert!(!image.taken_within(i64::MAX, i64::MIN));
}

#[test]
fn an_empty_cluster_has_reliability_zero() {
    let empty = cluster(point(45.0, 7.0), Vec::new());
    let score = empty.reliability(60, 1000);
    assert_eq!(score, ReliabilityScore { matching: 0, members: 0 });
    assert!(score.is_zero());
    let one_of_ten = ReliabilityScore { matching: 1, members: 10 };
    assert!(one_of_ten.exceeds(&score));
    assert!(!score.exceeds(&one_of_ten));
    assert!(!score.exceeds(&score));
}

#[test]
fn scores_compare_as_fractions() {
    let score = |matching, members| ReliabilityScore { matching, members };
    assert!(score(1, 2).exceeds(&score(1, 3)));
    assert!(!score(1, 3).exceeds(&score(1, 2)));
    assert!(!score(1, 2).exceeds(&score(2, 4)));
    assert!(!score(2, 4).exceeds(&score(1, 2)));
    assert!(score(2, 3).exceeds(&score(3, 5)));
    assert!(score(1, 1).exceeds(&score(999, 1000)));
    assert!(score(1, 1000).exceeds(&score(0, 1)));
    assert!(score(usize::MAX, usize::MAX).exceeds(&score(usize::MAX - 1, usize::MAX)));
    assert!(!score(usize::MAX - 1, usize::MAX).exceeds(&score(usize::MAX, usize::MAX)));
    // Closer than single precision can tell apart.
    assert!(score(10_000_001, 20_000_000).exceeds(&score(1, 2)));
}

#[test]
fn an_image_goes_to_the_most_reliable_cluster() {
    let mut clusters = vec![mixed("a", 1, 4), mixed("b", 3, 4), mixed("c", 2, 4)];
    let mut unclassified = bucket(vec![lost("x", Some(1010))]);
    relocate(&mut clusters, &mut unclassified, 60);
    assert!(unclassified.images.is_empty());
    assert_eq!(clusters[0].images.len(), 4);
    assert_eq!(clusters[1].images.len(), 5);
    assert_eq!(clusters[2].images.len(), 4);
    assert_eq!(names(&clusters[1]).last().unwrap(), "x");
}

#[test]
fn of_two_clusters_that_are_level_the_earlier_wins() {
    let mut clusters = vec![mixed("a", 1, 4), mixed("b", 2, 4), mixed("c", 3, 6), mixed("d", 1, 2)];
    let mut unclassified = bucket(vec![lost("x", Some(1010))]);
    relocate(&mut clusters, &mut unclassified, 60);
    assert!(unclassified.images.is_empty());
    assert_eq!(names(&clusters[1]).last().unwrap(), "x");
    assert_eq!(clusters[0].images.len(), 4);
    assert_eq!(clusters[2].images.len(), 6);
    assert_eq!(clusters[3].images.len(), 2);

    let mut clusters = vec![mixed("a", 2, 2), mixed("b", 3, 3)];
    let mut unclassified = bucket(vec![lost("x", Some(1010))]);
    relocate(&mut clusters, &mut unclassified, 60);
    assert_eq!(names(&clusters[0]), ["a0", "a1", "x"]);
    assert_eq!(clusters[1].images.len(), 3);
}

#[test]
fn an_image_that_nothing_speaks_for_stays() {
    let mut clusters = vec![mixed("a", 3, 10), mixed("b", 1, 1)];
    let mut unclassified = bucket(vec![
        lost("too late", Some(500_000)),
        lost("no time", None),
        lost("in time", Some(1010)),
    ]);
    relocate(&mut clusters, &mut unclassified, 60);
    assert_eq!(names(&unclassified), ["too late", "no time"]);
    assert_eq!(clusters[0].images.len(), 10);
    assert_eq!(names(&clusters[1]), ["b0", "in time"]);
}

#[test]
fn relocation_without_clusters_moves_nothing() {
    let mut clusters = Vec::new();
    let mut unclassified = bucket(vec![lost("a", Some(1)), lost("b", None)]);
    relocate(&mut clusters, &mut unclassified, 60);
    assert_eq!(names(&unclassified), ["a", "b"]);
    assert!(clusters.is_empty());
}

#[test]
fn a_window_of_nothing_moves_nothing() {
    for time in [0, -1, i64::MIN] {
        let mut clusters = vec![mixed("a", 4, 4)];
        let mut unclassified = bucket(vec![lost("x", Some(1000))]);
        relocate(&mut clusters, &mut unclassified, time);
        assert_eq!(names(&unclassified), ["x"]);
        assert_eq!(clusters[0].images.len(), 4);
    }
}

#[test]
fn images_moved_earlier_in_the_sweep_count_as_members() {
    // a: 1 of 1; b: 2 of 3. The first image goes to a, which then holds 1 of
    // 2; the second therefore goes to b, and the third, b then holding 2 of
    // 4, goes to a again, the earlier of two that are level.
    let mut clusters = vec![mixed("a", 1, 1), mixed("b", 2, 3)];
    let mut unclassified = bucket(vec![
        lost("first", Some(1001)),
        lost("second", Some(1002)),
        lost("third", Some(1003)),
        lost("fourth", Some(1004)),
    ]);
    relocate(&mut clusters, &mut unclassified, 60);
    assert!(unclassified.images.is_empty());
    assert_eq!(names(&clusters[0]), ["a0", "first", "third"]);
    assert_eq!(names(&clusters[1]), ["b0", "b1", "b2", "second", "fourth"]);
}

#[test]
fn what_stays_keeps_its_order_and_nothing_is_lost() {
    let mut clusters = vec![mixed("a", 2, 2), mixed("b", 0, 2)];
    let mut unclassified = bucket(vec![
        lost("s1", None),
        lost("m1", Some(1000)),
        lost("s2", Some(900_000)),
        lost("m2", Some(1001)),
        lost("m3", Some(1002)),
        lost("s3", None),
    ]);
    let before = clusters.iter().map(|c| c.images.len()).sum::<usize>() + unclassified.images.len();
    relocate(&mut clusters, &mut unclassified, 60);
    let after = clusters.iter().map(|c| c.images.len()).sum::<usize>() + unclassified.images.len();
    assert_eq!(before, after);
    assert_eq!(names(&unclassified), ["s1", "s2", "s3"]);
    assert_eq!(names(&clusters[0]), ["a0", "a1", "m1", "m2", "m3"]);
    assert_eq!(names(&clusters[1]), ["b0", "b1"]);
    assert_eq!(unclassified.location, Coordinate::new(0, 0));
}

#[test]
fn a_located_image_in_the_bucket_is_moved_like_any_other() {
    let mut clusters = vec![mixed("a", 1, 1)];
    let mut unclassified = bucket(vec![placed("x", Some(1000))]);
    relocate(&mut clusters, &mut unclassified, 60);
    assert_eq!(names(&clusters[0]), ["a0", "x"]);
}

#[test]
fn try_guess_takes_the_first_cluster_with_a_neighbour() {
    let mut clusters = vec![mixed("a", 0, 3), mixed("b", 1, 9), mixed("c", 5, 5)];
    let mut unclassified = bucket(vec![
        lost("x", Some(1010)),
        lost("no time", None),
        lost("too early", Some(-500_000)),
    ]);
    try_guess(&mut clusters, &mut unclassified, 60);
    assert_eq!(names(&unclassified), ["no time", "too early"]);
    assert_eq!(clusters[0].images.len(), 3);
    assert_eq!(names(&clusters[1]).last().unwrap(), "x");
    assert_eq!(clusters[2].images.len(), 5);
}

#[test]
fn try_guess_counts_members_without_a_place() {
    // The first image joins a, next to a member that has a time and no
    // place; the second is then next to the first.
    let mut clusters = vec![cluster(point(45.0, 7.0), vec![lost("a0", Some(1000))])];
    let mut unclassified = bucket(vec![lost("x", Some(1050)), lost("y", Some(1100))]);
    try_guess(&mut clusters, &mut unclassified, 60);
    assert_eq!(names(&clusters[0]), ["a0", "x", "y"]);
    assert!(unclassified.images.is_empty());

    // By reliability nothing speaks for either.
    let mut clusters = vec![cluster(point(45.0, 7.0), vec![lost("a0", Some(1000))])];
    let mut unclassified = bucket(vec![lost("x", Some(1050)), lost("y", Some(1100))]);
    relocate(&mut clusters, &mut unclassified, 60);
    assert_eq!(names(&clusters[0]), ["a0"]);
    assert_eq!(names(&unclassified), ["x", "y"]);
}

#[test]
fn the_choice_follows_the_policy() {
    let clusters = vec![mixed("a", 0, 2), mixed("b", 1, 5), mixed("c", 4, 5), mixed("d", 4, 5)];
    assert_eq!(choose_cluster(Policy::MostReliable, &clusters, 60, 1010), Some(2));
    assert_eq!(choose_cluster(Policy::FirstNeighbour, &clusters, 60, 1010), Some(1));
    assert_eq!(choose_cluster(Policy::MostReliable, &clusters, 60, 87_410), Some(0));
    assert_eq!(choose_cluster(Policy::FirstNeighbour, &clusters, 60, 87_410), Some(0));
    assert_eq!(choose_cluster(Policy::MostReliable, &clusters, 60, 50_000), None);
    assert_eq!(choose_cluster(Policy::FirstNeighbour, &clusters, 60, 50_000), None);
    assert_eq!(choose_cluster(Policy::MostReliable, &Vec::new(), 60, 1010), None);
    assert_eq!(choose_cluster(Policy::FirstNeighbour, &Vec::new(), 60, 1010), None);
}

#[test]
fn sweep_follows_its_policy() {
    let start = || (vec![mixed("a", 1, 5), mixed("b", 4, 5)], bucket(vec![lost("x", Some(1010))]));

    let (mut clusters, mut unclassified) = start();
    sweep(Policy::MostReliable, &mut clusters, &mut unclassified, 60);
    assert_eq!(clusters[1].images.len(), 6);

    let (mut clusters, mut unclassified) = start();
    sweep(Policy::FirstNeighbour, &mut clusters, &mut unclassified, 60);
    assert_eq!(clusters[0].images.len(), 6);
}

#[test]
fn an_image_without_a_place_joins_by_time_within_the_window_only() {
    let hour = 3600;
    let run = |window: i64| {
        let images = vec![
            Image {
                path: PathBuf::from("first"),
                timestamp: Some(1_600_000_000),
                location: Some(point(10.0, 10.0)),
            },
            Image {
                path: PathBuf::from("second"),
                timestamp: None,
                location: Some(point(10.0001, 10.0001)),
            },
            Image { path: PathBuf::from("third"), timestamp: None, location: Some(point(50.0, 50.0)) },
            Image {
                path: PathBuf::from("fourth"),
                timestamp: Some(1_600_000_000 + hour - 1),
                location: None,
            },
        ];
        let mut clusters = Vec::new();
        let mut unclassified = Cluster::default();
        generate_clusters(images, &mut clusters, &mut unclassified, 100.0f64.to_bits(), &measure);
        assert_eq!(clusters.len(), 2);
        assert_eq!(names(&clusters[0]), ["first", "second"]);
        assert_eq!(names(&clusters[1]), ["third"]);
        assert_eq!(names(&unclassified), ["fourth"]);
        relocate(&mut clusters, &mut unclassified, window);
        (clusters, unclassified)
    };

    let (clusters, unclassified) = run(hour);
    assert_eq!(names(&clusters[0]), ["first", "second", "fourth"]);
    assert_eq!(names(&clusters[1]), ["third"]);
    assert!(unclassified.images.is_empty());

    let (clusters, unclassified) = run(1);
    assert_eq!(names(&clusters[0]), ["first", "second"]);
    assert_eq!(names(&clusters[1]), ["third"]);
    assert_eq!(names(&unclassified), ["fourth"]);
}
