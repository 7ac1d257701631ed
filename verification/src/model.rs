//! What clustering and relocation compute, as functions on sequences.
//!
//! The clusters are a sequence in creation order, the bucket holds the
//! images without a usable position, and distances are metres as binary64
//! bit patterns (see [`crate::ieee`]), `None` for a measurement that failed.

use crate::cluster::{ClusterView, Coordinate, Image};
use crate::ieee;
use vstd::prelude::*;

verus! {

/// Whether a measured distance lies within the threshold, the boundary
/// included. A measurement that failed is within nothing.
pub open spec fn spec_within(distance: Option<u64>, threshold: u64) -> bool {
    match distance {
        Some(metres) => ieee::spec_le(metres, threshold),
        None => false,
    }
}

/// Whether cluster `k` was measured, and measured within the threshold.
/// `distances[k]` is the distance to the anchor of cluster `k`.
pub open spec fn fits(distances: Seq<Option<u64>>, threshold: u64, k: int) -> bool {
    0 <= k < distances.len() && spec_within(distances[k], threshold)
}

/// The first of the clusters `0 .. limit` that fits, if any does.
pub open spec fn first_fit(distances: Seq<Option<u64>>, threshold: u64, limit: int) -> Option<int>
    decreases limit,
{
    if limit <= 0 {
        None
    } else {
        match first_fit(distances, threshold, limit - 1) {
            Some(k) => Some(k),
            None => if fits(distances, threshold, limit - 1) {
                Some(limit - 1)
            } else {
                None
            },
        }
    }
}

/// Where one image went.
#[derive(Clone, Copy, Debug, PartialEq, Eq, Structural)]
pub enum Placement {
    /// Into the bucket of images without a usable position.
    Unclassified,
    /// Into the existing cluster of this index.
    Joined(usize),
    /// Into a new cluster of this index, made for it.
    Founded(usize),
}

/// The clusters and the bucket after one image has been placed.
///
/// An image without a usable position goes to the end of the bucket. Any
/// other goes to the end of the first cluster that fits, or, where none
/// fits, becomes the only member of a new last cluster anchored at its own
/// position.
pub open spec fn place_model(
    clusters: Seq<ClusterView>,
    unclassified: ClusterView,
    image: Image,
    distances: Seq<Option<u64>>,
    threshold: u64,
) -> (Seq<ClusterView>, ClusterView) {
    if !image.spec_is_classifiable() {
        (clusters, unclassified.joined_by(image))
    } else {
        match first_fit(distances, threshold, clusters.len() as int) {
            Some(k) => (clusters.update(k, clusters[k].joined_by(image)), unclassified),
            None => (clusters.push(ClusterView::founded_by(image)), unclassified),
        }
    }
}

/// Where the image goes when it is placed.
pub open spec fn placement_model(
    clusters: Seq<ClusterView>,
    image: Image,
    distances: Seq<Option<u64>>,
    threshold: u64,
) -> Placement {
    if !image.spec_is_classifiable() {
        Placement::Unclassified
    } else {
        match first_fit(distances, threshold, clusters.len() as int) {
            Some(k) => Placement::Joined(k as usize),
            None => Placement::Founded(clusters.len() as usize),
        }
    }
}

/// The clusters and the bucket after a run of images has been placed one
/// after the other, image `i` with the measurements `rows[i]`.
pub open spec fn run_model(
    clusters: Seq<ClusterView>,
    unclassified: ClusterView,
    images: Seq<Image>,
    rows: Seq<Seq<Option<u64>>>,
    threshold: u64,
) -> (Seq<ClusterView>, ClusterView)
    decreases images.len(),
{
    if images.len() == 0 {
        (clusters, unclassified)
    } else {
        let before = run_model(
            clusters,
            unclassified,
            images.drop_last(),
            rows.drop_last(),
            threshold,
        );
        place_model(before.0, before.1, images.last(), rows.last(), threshold)
    }
}

/// Whether `row` is what a scan of the clusters from `point` can have
/// measured: one measurement per cluster, in order, each of them one that
/// `measure` can return for the point and the cluster's anchor, and none
/// after the first that is within the threshold.
pub open spec fn scanned<F: Fn(Coordinate, Coordinate) -> Option<u64>>(
    measure: F,
    point: Coordinate,
    clusters: Seq<ClusterView>,
    row: Seq<Option<u64>>,
    threshold: u64,
) -> bool {
    &&& row.len() <= clusters.len()
    &&& forall|k: int|
        0 <= k < row.len() ==> call_ensures(measure, (point, clusters[k].location), #[trigger] row[k])
    &&& match first_fit(row, threshold, clusters.len() as int) {
        Some(k) => row.len() == k + 1,
        None => row.len() == clusters.len(),
    }
}

/// Whether `row` is what placing `image` among `clusters` can have measured:
/// a scan of the clusters where the image has a usable position, nothing
/// where it has none.
pub open spec fn measured_for<F: Fn(Coordinate, Coordinate) -> Option<u64>>(
    measure: F,
    image: Image,
    clusters: Seq<ClusterView>,
    row: Seq<Option<u64>>,
    threshold: u64,
) -> bool {
    if image.spec_is_classifiable() {
        scanned(measure, image.location.unwrap(), clusters, row, threshold)
    } else {
        row.len() == 0
    }
}

/// Whether `rows` is what placing `images` one after the other can have
/// measured, each image among the clusters as they stood when its turn came.
pub open spec fn measured<F: Fn(Coordinate, Coordinate) -> Option<u64>>(
    measure: F,
    clusters: Seq<ClusterView>,
    unclassified: ClusterView,
    images: Seq<Image>,
    rows: Seq<Seq<Option<u64>>>,
    threshold: u64,
) -> bool {
    &&& rows.len() == images.len()
    &&& forall|i: int|
        0 <= i < images.len() ==> measured_for(
            measure,
            images[i],
            run_model(clusters, unclassified, images.take(i), rows.take(i), threshold).0,
            #[trigger] rows[i],
            threshold,
        )
}

/// How an image without a position finds its cluster by time.
#[derive(Clone, Copy, Debug, PartialEq, Eq, Structural)]
pub enum Policy {
    /// The cluster of the greatest reliability, the earlier one where two
    /// are level; none where every reliability is zero.
    MostReliable,
    /// The first cluster that has a member taken within the time window.
    FirstNeighbour,
}

/// Whether some member of the cluster was taken less than `time` seconds
/// before or after `moment`.
pub open spec fn has_neighbour(cluster: ClusterView, time: i64, moment: i64) -> bool {
    exists|j: int|
        0 <= j < cluster.images.len() && (#[trigger] cluster.images[j]).spec_taken_within(
            time,
            moment,
        )
}

/// The most reliable of the clusters `0 .. limit` for an image taken at
/// `moment`: a later cluster replaces an earlier one only with a greater
/// score, and a score of zero is never enough.
pub open spec fn most_reliable(clusters: Seq<ClusterView>, time: i64, moment: i64, limit: int)
    -> Option<int>
    decreases limit,
{
    if limit <= 0 {
        None
    } else {
        let candidate = clusters[limit - 1].reliability(time, moment);
        match most_reliable(clusters, time, moment, limit - 1) {
            Some(k) => if candidate.exceeds(clusters[k].reliability(time, moment)) {
                Some(limit - 1)
            } else {
                Some(k)
            },
            None => if candidate.is_zero() {
                None
            } else {
                Some(limit - 1)
            },
        }
    }
}

/// The first of the clusters `0 .. limit` with a member taken within the
/// window around `moment`.
pub open spec fn first_neighbour(clusters: Seq<ClusterView>, time: i64, moment: i64, limit: int)
    -> Option<int>
    decreases limit,
{
    if limit <= 0 {
        None
    } else {
        match first_neighbour(clusters, time, moment, limit - 1) {
            Some(k) => Some(k),
            None => if has_neighbour(clusters[limit - 1], time, moment) {
                Some(limit - 1)
            } else {
                None
            },
        }
    }
}

/// The cluster that the policy picks for an image taken at `moment`.
pub open spec fn choice(policy: Policy, clusters: Seq<ClusterView>, time: i64, moment: i64)
    -> Option<int> {
    match policy {
        Policy::MostReliable => most_reliable(clusters, time, moment, clusters.len() as int),
        Policy::FirstNeighbour => first_neighbour(clusters, time, moment, clusters.len() as int),
    }
}

/// The cluster that the policy sends an image to, if it sends it anywhere.
/// An image without a timestamp stays where it is.
pub open spec fn destination(policy: Policy, clusters: Seq<ClusterView>, image: Image, time: i64)
    -> Option<int> {
    match image.timestamp {
        Some(moment) => choice(policy, clusters, time, moment),
        None => None,
    }
}

/// The clusters and what is left of `pending` after one sweep over it, front
/// to back. Each image is sent to its destination among the clusters as they
/// stand when its turn comes, the images sent before it included; an image
/// without a destination stays, in its place among those that stay.
pub open spec fn sweep_model(
    policy: Policy,
    clusters: Seq<ClusterView>,
    pending: Seq<Image>,
    time: i64,
) -> (Seq<ClusterView>, Seq<Image>)
    decreases pending.len(),
{
    if pending.len() == 0 {
        (clusters, pending)
    } else {
        let image = pending.first();
        match destination(policy, clusters, image, time) {
            Some(k) => sweep_model(
                policy,
                clusters.update(k, clusters[k].joined_by(image)),
                pending.drop_first(),
                time,
            ),
            None => {
                let later = sweep_model(policy, clusters, pending.drop_first(), time);
                (later.0, seq![image] + later.1)
            },
        }
    }
}

/// The clusters and the bucket after the images of the bucket have been
/// swept into the clusters.
pub open spec fn relocate_model(
    policy: Policy,
    clusters: Seq<ClusterView>,
    unclassified: ClusterView,
    time: i64,
) -> (Seq<ClusterView>, ClusterView) {
    let swept = sweep_model(policy, clusters, unclassified.images, time);
    (swept.0, ClusterView { images: swept.1, ..unclassified })
}

} // verus!
