//! The center point, and relocation by the nearest moment.

use crate::cluster::{views, Cluster, Coordinate};
use crate::features::sweep;
use crate::model::{relocate_model, Policy};
use vstd::prelude::*;

verus! {

/// The center of the axes, where the prime meridian crosses the equator. It
/// stands for "no position".
pub open spec fn spec_center() -> Coordinate {
    Coordinate { latitude: 0, longitude: 0 }
}

/// The center of the axes.
#[verifier::when_used_as_spec(spec_center)]
pub fn center() -> (point: Coordinate)
    ensures
        point == spec_center(),
        point.spec_is_center(),
{
    Coordinate::new(0, 0)
}

/// Moves each image of the bucket that has a timestamp into the first
/// cluster with a member taken less than `time` seconds before or after it.
/// An image for which there is no such cluster stays in the bucket, as does
/// one without a timestamp.
pub fn try_guess(image_clusters: &mut Vec<Cluster>, unclassified_cluster: &mut Cluster, time: i64)
    ensures
        (views(final(image_clusters)@), final(unclassified_cluster)@) == relocate_model(
            Policy::FirstNeighbour,
            views(old(image_clusters)@),
            old(unclassified_cluster)@,
            time,
        ),
        final(image_clusters)@.len() == old(image_clusters)@.len(),
{
    sweep(Policy::FirstNeighbour, image_clusters, unclassified_cluster, time)
}

} // verus!
