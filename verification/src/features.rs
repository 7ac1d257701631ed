//! Clustering by position, and the move of images without a position into
//! the cluster that is closest in time.
//!
//! The library measures no distance itself. The functions that have to
//! measure take a function `measure` for it, which gives the distance
//! between two points in metres, as a binary64 bit pattern, or `None` where
//! it cannot tell; what they compute is stated for whatever it returned.

use crate::cluster::{views, Cluster, ClusterView, Coordinate, Image, ReliabilityScore};
use crate::ieee;
use crate::laws::{
    all_grounded, lemma_destination_is_a_cluster, lemma_first_fit, lemma_place_keeps_grounded,
    lemma_run_keeps_grounded,
};
use crate::metadata::{image_from, Metadata, UnreadableItem};
use crate::model::{
    choice, first_fit, first_neighbour, has_neighbour, measured, measured_for, most_reliable,
    place_model, placement_model, relocate_model, run_model, scanned, spec_within, sweep_model,
    Placement, Policy,
};
use std::path::PathBuf;
use vstd::prelude::*;

verus! {

/// Whether a measured distance lies within the threshold, the boundary
/// included.
pub fn within(distance: Option<u64>, threshold: u64) -> (r: bool)
    ensures
        r == spec_within(distance, threshold),
{
    match distance {
        Some(metres) => ieee::le(metres, threshold),
        None => false,
    }
}

/// Finds the first of the clusters `0 .. limit` whose measured distance is
/// within the threshold.
pub fn find_first_fit(distances: &Vec<Option<u64>>, threshold: u64, limit: usize) -> (found:
    Option<usize>)
    ensures
        match found {
            Some(k) => first_fit(distances@, threshold, limit as int) == Some(k as int),
            None => first_fit(distances@, threshold, limit as int) is None,
        },
{
    let mut k: usize = 0;
    while k < limit && k < distances.len()
        invariant
            k <= limit,
            first_fit(distances@, threshold, k as int) is None,
        decreases limit - k,
    {
        if within(distances[k], threshold) {
            proof {
                lemma_first_fit_extends(distances@, threshold, k as int + 1, limit as int);
            }
            return Some(k);
        }
        k += 1;
    }
    proof {
        lemma_first_fit(distances@, threshold, k as int);
        lemma_first_fit(distances@, threshold, limit as int);
    }
    None
}

/// Once a cluster is found among the first `some`, looking at more clusters
/// finds the same one.
proof fn lemma_first_fit_extends(
    distances: Seq<Option<u64>>,
    threshold: u64,
    some: int,
    more: int,
)
    requires
        some <= more,
        first_fit(distances, threshold, some) is Some,
    ensures
        first_fit(distances, threshold, more) == first_fit(distances, threshold, some),
    decreases more - some,
{
    if some < more {
        lemma_first_fit_extends(distances, threshold, some, more - 1);
    }
}

/// What is found among the first `limit` clusters depends on their
/// measurements only.
proof fn lemma_first_fit_prefix(
    short: Seq<Option<u64>>,
    long: Seq<Option<u64>>,
    threshold: u64,
    limit: int,
)
    requires
        limit <= short.len() <= long.len(),
        forall|k: int| 0 <= k < limit ==> short[k] == long[k],
    ensures
        first_fit(short, threshold, limit) == first_fit(long, threshold, limit),
    decreases limit,
{
    if limit > 0 {
        lemma_first_fit_prefix(short, long, threshold, limit - 1);
    }
}

/// Places one image, given the distances measured from it to the anchors of
/// the clusters: `distances[k]` belongs to `image_clusters[k]`, and `None`
/// stands for a measurement that failed. Clusters without a measurement are
/// passed over, as are measurements without a cluster.
pub fn place_image(
    image: Image,
    image_clusters: &mut Vec<Cluster>,
    unclassified_cluster: &mut Cluster,
    distances: &Vec<Option<u64>>,
    threshold: u64,
) -> (placement: Placement)
    ensures
        (views(final(image_clusters)@), final(unclassified_cluster)@) == place_model(
            views(old(image_clusters)@),
            old(unclassified_cluster)@,
            image,
            distances@,
            threshold,
        ),
        placement == placement_model(views(old(image_clusters)@), image, distances@, threshold),
{
    if !image.is_classifiable() {
        unclassified_cluster.images.push(image);
        return Placement::Unclassified;
    }
    let anchor = image.location.unwrap();
    match find_first_fit(distances, threshold, image_clusters.len()) {
        Some(k) => {
            proof {
                lemma_first_fit(distances@, threshold, image_clusters.len() as int);
            }
            image_clusters[k].images.push(image);
            assert(views(image_clusters@) =~= views(old(image_clusters)@).update(
                k as int,
                views(old(image_clusters)@)[k as int].joined_by(image),
            ));
            Placement::Joined(k)
        },
        None => {
            let founded = image_clusters.len();
            let mut images: Vec<Image> = Vec::new();
            images.push(image);
            image_clusters.push(Cluster { location: anchor, images, location_string: None });
            assert(image_clusters@.last()@ =~= ClusterView::founded_by(image));
            assert(views(image_clusters@) =~= views(old(image_clusters)@).push(
                ClusterView::founded_by(image),
            ));
            Placement::Founded(founded)
        },
    }
}

/// Measures from `point` to the anchors of the clusters, in order, up to and
/// including the first that is within the threshold.
fn scan<F: Fn(Coordinate, Coordinate) -> Option<u64>>(
    point: Coordinate,
    image_clusters: &Vec<Cluster>,
    threshold: u64,
    measure: &F,
) -> (row: Vec<Option<u64>>)
    requires
        forall|a: Coordinate, b: Coordinate| call_requires(measure, (a, b)),
    ensures
        scanned(*measure, point, views(image_clusters@), row@, threshold),
{
    let mut row: Vec<Option<u64>> = Vec::new();
    let mut k: usize = 0;
    while k < image_clusters.len()
        invariant
            k <= image_clusters.len(),
            row.len() == k,
            forall|a: Coordinate, b: Coordinate| call_requires(measure, (a, b)),
            forall|j: int|
                0 <= j < k ==> call_ensures(
                    *measure,
                    (point, views(image_clusters@)[j].location),
                    #[trigger] row[j],
                ),
            first_fit(row@, threshold, k as int) is None,
        decreases image_clusters.len() - k,
    {
        let ghost shorter = row@;
        let distance = measure(point, image_clusters[k].location);
        row.push(distance);
        proof {
            lemma_first_fit_prefix(shorter, row@, threshold, k as int);
        }
        k += 1;
        if within(distance, threshold) {
            proof {
                lemma_first_fit_extends(
                    row@,
                    threshold,
                    k as int,
                    image_clusters.len() as int,
                );
            }
            return row;
        }
    }
    row
}

/// Measures what placing the image takes: a scan of the clusters for an
/// image with a usable position, nothing for any other.
fn measure_for<F: Fn(Coordinate, Coordinate) -> Option<u64>>(
    image: &Image,
    image_clusters: &Vec<Cluster>,
    threshold: u64,
    measure: &F,
) -> (row: Vec<Option<u64>>)
    requires
        forall|a: Coordinate, b: Coordinate| call_requires(measure, (a, b)),
    ensures
        measured_for(*measure, *image, views(image_clusters@), row@, threshold),
{
    match image.location {
        Some(point) => if point.is_usable() {
            scan(point, image_clusters, threshold, measure)
        } else {
            Vec::new()
        },
        None => Vec::new(),
    }
}

/// Places one image: measures from it to the anchor of each cluster in turn,
/// until one is within the threshold, and puts it there; where none is, it
/// gets a cluster of its own. An image without a usable position is put in
/// the bucket and nothing is measured.
pub fn classify<F: Fn(Coordinate, Coordinate) -> Option<u64>>(
    image: Image,
    image_clusters: &mut Vec<Cluster>,
    unclassified_cluster: &mut Cluster,
    threshold: u64,
    measure: &F,
) -> (placement: Placement)
    requires
        forall|a: Coordinate, b: Coordinate| call_requires(measure, (a, b)),
    ensures
        exists|row: Seq<Option<u64>>|
            {
                &&& #[trigger] measured_for(
                    *measure,
                    image,
                    views(old(image_clusters)@),
                    row,
                    threshold,
                )
                &&& (views(final(image_clusters)@), final(unclassified_cluster)@) == place_model(
                    views(old(image_clusters)@),
                    old(unclassified_cluster)@,
                    image,
                    row,
                    threshold,
                )
                &&& placement == placement_model(
                    views(old(image_clusters)@),
                    image,
                    row,
                    threshold,
                )
            },
        all_grounded(*measure, views(old(image_clusters)@), threshold) ==> all_grounded(
            *measure,
            views(final(image_clusters)@),
            threshold,
        ),
{
    let row = measure_for(&image, image_clusters, threshold, measure);
    proof {
        if all_grounded(*measure, views(image_clusters@), threshold) {
            lemma_place_keeps_grounded(
                *measure,
                views(image_clusters@),
                unclassified_cluster@,
                image,
                row@,
                threshold,
            );
        }
    }
    place_image(image, image_clusters, unclassified_cluster, &row, threshold)
}

/// The image that a file stands for: the one that its metadata describes,
/// if it has metadata that could be read.
pub open spec fn file_image(input: PathBuf, exif: Option<&Metadata>) -> Result<
    Image,
    UnreadableItem,
> {
    match exif {
        Some(fields) => image_from(input, *fields),
        None => Err(UnreadableItem::UnknownFormat),
    }
}

/// Takes in one image file: reads the image from the file's metadata and
/// places it. A file without metadata, or with a date that cannot be read,
/// is passed over, and clusters and bucket stay as they are.
pub fn parse_file<F: Fn(Coordinate, Coordinate) -> Option<u64>>(
    input: PathBuf,
    exif: Option<&Metadata>,
    image_clusters: &mut Vec<Cluster>,
    unclassified_cluster: &mut Cluster,
    threshold: u64,
    measure: &F,
) -> (taken: Result<Placement, UnreadableItem>)
    requires
        forall|a: Coordinate, b: Coordinate| call_requires(measure, (a, b)),
    ensures
        match file_image(input, exif) {
            Ok(image) => exists|row: Seq<Option<u64>>|
                {
                    &&& #[trigger] measured_for(
                        *measure,
                        image,
                        views(old(image_clusters)@),
                        row,
                        threshold,
                    )
                    &&& (views(final(image_clusters)@), final(unclassified_cluster)@)
                        == place_model(
                        views(old(image_clusters)@),
                        old(unclassified_cluster)@,
                        image,
                        row,
                        threshold,
                    )
                    &&& taken == Ok::<Placement, UnreadableItem>(
                        placement_model(views(old(image_clusters)@), image, row, threshold),
                    )
                },
            Err(why) => {
                &&& taken == Err::<Placement, UnreadableItem>(why)
                &&& final(image_clusters)@ == old(image_clusters)@
                &&& *final(unclassified_cluster) == *old(unclassified_cluster)
            },
        },
        all_grounded(*measure, views(old(image_clusters)@), threshold) ==> all_grounded(
            *measure,
            views(final(image_clusters)@),
            threshold,
        ),
{
    let fields = match exif {
        Some(fields) => fields,
        None => {
            return Err(UnreadableItem::UnknownFormat);
        },
    };
    match Image::read(input, fields) {
        Ok(image) => Ok(classify(image, image_clusters, unclassified_cluster, threshold, measure)),
        Err(why) => Err(why),
    }
}

/// Places the images one after the other, in their order: each goes to the
/// first cluster whose anchor is measured within the threshold of it, or
/// founds a cluster, or, without a usable position, goes to the bucket.
pub fn generate_clusters<F: Fn(Coordinate, Coordinate) -> Option<u64>>(
    images: Vec<Image>,
    image_clusters: &mut Vec<Cluster>,
    unclassified_cluster: &mut Cluster,
    threshold: u64,
    measure: &F,
)
    requires
        forall|a: Coordinate, b: Coordinate| call_requires(measure, (a, b)),
    ensures
        exists|rows: Seq<Seq<Option<u64>>>|
            {
                &&& #[trigger] measured(
                    *measure,
                    views(old(image_clusters)@),
                    old(unclassified_cluster)@,
                    images@,
                    rows,
                    threshold,
                )
                &&& (views(final(image_clusters)@), final(unclassified_cluster)@) == run_model(
                    views(old(image_clusters)@),
                    old(unclassified_cluster)@,
                    images@,
                    rows,
                    threshold,
                )
            },
        all_grounded(*measure, views(old(image_clusters)@), threshold) ==> all_grounded(
            *measure,
            views(final(image_clusters)@),
            threshold,
        ),
{
    let ghost all = images@;
    let ghost clusters_before = views(image_clusters@);
    let ghost bucket_before = unclassified_cluster@;
    let ghost mut rows: Seq<Seq<Option<u64>>> = Seq::empty();
    for image in it: images.into_iter()
        invariant
            forall|a: Coordinate, b: Coordinate| call_requires(measure, (a, b)),
            it.seq() == all,
            rows.len() == it.index(),
            measured(
                *measure,
                clusters_before,
                bucket_before,
                all.take(it.index()),
                rows,
                threshold,
            ),
            (views(image_clusters@), unclassified_cluster@) == run_model(
                clusters_before,
                bucket_before,
                all.take(it.index()),
                rows,
                threshold,
            ),
    {
        let row = measure_for(&image, image_clusters, threshold, measure);
        proof {
            lemma_run_extends(
                *measure,
                clusters_before,
                bucket_before,
                all.take(it.index()),
                rows,
                threshold,
                image,
                row@,
            );
            assert(all.take(it.index()).push(image) =~= all.take(it.index() + 1));
            rows = rows.push(row@);
        }
        place_image(image, image_clusters, unclassified_cluster, &row, threshold);
    }
    proof {
        assert(all.take(all.len() as int) =~= all);
        if all_grounded(*measure, clusters_before, threshold) {
            lemma_run_keeps_grounded(
                *measure,
                clusters_before,
                bucket_before,
                all,
                rows,
                threshold,
            );
        }
    }
}

/// A run stays faithfully measured when one more image is placed with what
/// was measured for it.
proof fn lemma_run_extends<F: Fn(Coordinate, Coordinate) -> Option<u64>>(
    measure: F,
    clusters: Seq<ClusterView>,
    unclassified: ClusterView,
    images: Seq<Image>,
    rows: Seq<Seq<Option<u64>>>,
    threshold: u64,
    image: Image,
    row: Seq<Option<u64>>,
)
    requires
        measured(measure, clusters, unclassified, images, rows, threshold),
        measured_for(
            measure,
            image,
            run_model(clusters, unclassified, images, rows, threshold).0,
            row,
            threshold,
        ),
    ensures
        measured(measure, clusters, unclassified, images.push(image), rows.push(row), threshold),
        run_model(clusters, unclassified, images.push(image), rows.push(row), threshold)
            == place_model(
            run_model(clusters, unclassified, images, rows, threshold).0,
            run_model(clusters, unclassified, images, rows, threshold).1,
            image,
            row,
            threshold,
        ),
{
    let longer = images.push(image);
    let more = rows.push(row);
    assert(longer.drop_last() =~= images);
    assert(more.drop_last() =~= rows);
    assert forall|i: int| 0 <= i < longer.len() implies measured_for(
        measure,
        longer[i],
        run_model(clusters, unclassified, longer.take(i), more.take(i), threshold).0,
        #[trigger] more[i],
        threshold,
    ) by {
        if i < images.len() {
            assert(longer.take(i) =~= images.take(i));
            assert(more.take(i) =~= rows.take(i));
            assert(more[i] == rows[i]);
        } else {
            assert(longer.take(i) =~= images);
            assert(more.take(i) =~= rows);
        }
    }
}

/// Whether some member of the cluster was taken within the window.
fn any_neighbour(cluster: &Cluster, time: i64, moment: i64) -> (found: bool)
    ensures
        found == has_neighbour(cluster@, time, moment),
{
    let mut j: usize = 0;
    while j < cluster.images.len()
        invariant
            j <= cluster.images.len(),
            forall|i: int|
                0 <= i < j ==> !(#[trigger] cluster.images@[i]).spec_taken_within(time, moment),
        decreases cluster.images.len() - j,
    {
        if cluster.images[j].taken_within(time, moment) {
            assert(cluster@.images[j as int].spec_taken_within(time, moment));
            return true;
        }
        j += 1;
    }
    false
}

/// Finds the cluster of the greatest reliability for an image taken at
/// `moment`, the earliest of them where several are level.
fn find_most_reliable(image_clusters: &Vec<Cluster>, time: i64, moment: i64) -> (found: Option<
    usize,
>)
    ensures
        match found {
            Some(k) => most_reliable(
                views(image_clusters@),
                time,
                moment,
                image_clusters.len() as int,
            ) == Some(k as int),
            None => most_reliable(
                views(image_clusters@),
                time,
                moment,
                image_clusters.len() as int,
            ) is None,
        },
{
    let mut best: Option<usize> = None;
    let mut best_score = ReliabilityScore { matching: 0, members: 0 };
    let mut k: usize = 0;
    while k < image_clusters.len()
        invariant
            k <= image_clusters.len(),
            match best {
                Some(b) => {
                    &&& b < k
                    &&& most_reliable(views(image_clusters@), time, moment, k as int) == Some(
                        b as int,
                    )
                    &&& best_score@ == views(image_clusters@)[b as int].reliability(time, moment)
                },
                None => most_reliable(views(image_clusters@), time, moment, k as int) is None,
            },
        decreases image_clusters.len() - k,
    {
        let score = image_clusters[k].reliability(time, moment);
        let better = match best {
            Some(_) => score.exceeds(&best_score),
            None => !score.is_zero(),
        };
        if better {
            best = Some(k);
            best_score = score;
        }
        k += 1;
    }
    best
}

/// Finds the first cluster with a member taken within the window around
/// `moment`.
fn find_first_neighbour(image_clusters: &Vec<Cluster>, time: i64, moment: i64) -> (found: Option<
    usize,
>)
    ensures
        match found {
            Some(k) => first_neighbour(
                views(image_clusters@),
                time,
                moment,
                image_clusters.len() as int,
            ) == Some(k as int),
            None => first_neighbour(
                views(image_clusters@),
                time,
                moment,
                image_clusters.len() as int,
            ) is None,
        },
{
    let mut k: usize = 0;
    while k < image_clusters.len()
        invariant
            k <= image_clusters.len(),
            first_neighbour(views(image_clusters@), time, moment, k as int) is None,
        decreases image_clusters.len() - k,
    {
        assert(views(image_clusters@)[k as int] == image_clusters@[k as int]@);
        if any_neighbour(&image_clusters[k], time, moment) {
            proof {
                assert(first_neighbour(views(image_clusters@), time, moment, k as int + 1) == Some(
                    k as int,
                ));
                lemma_first_neighbour_extends(
                    views(image_clusters@),
                    time,
                    moment,
                    k as int + 1,
                    image_clusters.len() as int,
                );
            }
            return Some(k);
        }
        k += 1;
    }
    None
}

/// Once a neighbour is found among the first `some` clusters, looking at
/// more clusters finds the same one.
proof fn lemma_first_neighbour_extends(
    clusters: Seq<ClusterView>,
    time: i64,
    moment: i64,
    some: int,
    more: int,
)
    requires
        some <= more,
        first_neighbour(clusters, time, moment, some) is Some,
    ensures
        first_neighbour(clusters, time, moment, more) == first_neighbour(
            clusters,
            time,
            moment,
            some,
        ),
    decreases more - some,
{
    if some < more {
        lemma_first_neighbour_extends(clusters, time, moment, some, more - 1);
    }
}

/// Picks the cluster for an image taken at `moment`.
pub fn choose_cluster(policy: Policy, image_clusters: &Vec<Cluster>, time: i64, moment: i64) -> (chosen:
    Option<usize>)
    ensures
        match chosen {
            Some(k) => choice(policy, views(image_clusters@), time, moment) == Some(k as int),
            None => choice(policy, views(image_clusters@), time, moment) is None,
        },
{
    match policy {
        Policy::MostReliable => find_most_reliable(image_clusters, time, moment),
        Policy::FirstNeighbour => find_first_neighbour(image_clusters, time, moment),
    }
}

/// Sweeps the bucket once, front to back, and moves each image that the
/// policy sends somewhere to the end of that cluster.
pub fn sweep(
    policy: Policy,
    image_clusters: &mut Vec<Cluster>,
    unclassified_cluster: &mut Cluster,
    time: i64,
)
    ensures
        (views(final(image_clusters)@), final(unclassified_cluster)@) == relocate_model(
            policy,
            views(old(image_clusters)@),
            old(unclassified_cluster)@,
            time,
        ),
        final(image_clusters)@.len() == old(image_clusters)@.len(),
{
    let ghost goal = sweep_model(
        policy,
        views(image_clusters@),
        unclassified_cluster@.images,
        time,
    );
    let mut i: usize = 0;
    assert(unclassified_cluster.images@.skip(0) =~= unclassified_cluster.images@);
    while i < unclassified_cluster.images.len()
        invariant
            i <= unclassified_cluster.images.len(),
            image_clusters@.len() == old(image_clusters)@.len(),
            unclassified_cluster.location == old(unclassified_cluster).location,
            unclassified_cluster.location_string == old(unclassified_cluster).location_string,
            ({
                let later = sweep_model(
                    policy,
                    views(image_clusters@),
                    unclassified_cluster.images@.skip(i as int),
                    time,
                );
                goal == (later.0, unclassified_cluster.images@.take(i as int) + later.1)
            }),
        decreases unclassified_cluster.images.len() - i,
    {
        let ghost pending = unclassified_cluster.images@;
        let ghost clusters = views(image_clusters@);
        proof {
            assert(pending.skip(i as int).drop_first() =~= pending.skip(i as int + 1));
            assert(pending.skip(i as int).first() == pending[i as int]);
            lemma_destination_is_a_cluster(policy, clusters, pending[i as int], time);
        }
        let chosen = match unclassified_cluster.images[i].timestamp {
            Some(moment) => choose_cluster(policy, image_clusters, time, moment),
            None => None,
        };
        match chosen {
            Some(k) => {
                let image = unclassified_cluster.images.remove(i);
                image_clusters[k].images.push(image);
                proof {
                    assert(views(image_clusters@) =~= clusters.update(
                        k as int,
                        clusters[k as int].joined_by(image),
                    ));
                    assert(unclassified_cluster.images@.skip(i as int) =~= pending.skip(
                        i as int + 1,
                    ));
                    assert(unclassified_cluster.images@.take(i as int) =~= pending.take(
                        i as int,
                    ));
                }
            },
            None => {
                proof {
                    let later = sweep_model(policy, clusters, pending.skip(i as int + 1), time);
                    assert(pending.take(i as int) + (seq![pending[i as int]] + later.1)
                        =~= pending.take(i as int + 1) + later.1);
                }
                i += 1;
            },
        }
    }
    proof {
        assert(unclassified_cluster.images@.take(i as int) =~= unclassified_cluster.images@);
        assert(unclassified_cluster.images@.take(i as int) + Seq::<Image>::empty()
            =~= unclassified_cluster.images@);
    }
}

/// Moves each image of the bucket that has a timestamp into the cluster of
/// the greatest reliability for it, within a window of `time` seconds: the
/// cluster of which the greatest part of the members, counting all of them,
/// has a usable position and was taken less than `time` seconds before or
/// after the image. Where two clusters are level the earlier is taken. An
/// image for which every cluster has reliability zero stays in the bucket,
/// as does one without a timestamp.
pub fn relocate(image_clusters: &mut Vec<Cluster>, unclassified_cluster: &mut Cluster, time: i64)
    ensures
        (views(final(image_clusters)@), final(unclassified_cluster)@) == relocate_model(
            Policy::MostReliable,
            views(old(image_clusters)@),
            old(unclassified_cluster)@,
            time,
        ),
        final(image_clusters)@.len() == old(image_clusters)@.len(),
{
    sweep(Policy::MostReliable, image_clusters, unclassified_cluster, time)
}

} // verus!
