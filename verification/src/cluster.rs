//! The shared records: a coordinate, an image, a cluster of images.

use crate::ieee;
use crate::utils::center;
use std::path::PathBuf;
use vstd::prelude::*;

verus! {

/// `std::path::PathBuf`, which the library only carries: nothing here looks
/// inside a path.
#[verifier::external_type_specification]
#[verifier::external_body]
pub struct ExPathBuf(PathBuf);

/// `PathBuf::clone` returns a path equal to the one it was given.
pub assume_specification[ <PathBuf as Clone>::clone ](path: &PathBuf) -> (copy: PathBuf)
    ensures
        copy == *path,
;

/// A point on the globe. Both ordinates are decimal degrees, held as binary64
/// bit patterns (see [`crate::ieee`]). Two coordinates are equal when their
/// patterns are: a zero and its negative differ, and a NaN equals itself.
#[derive(Clone, Copy, Debug, PartialEq, Eq, Structural)]
pub struct Coordinate {
    pub latitude: u64,
    pub longitude: u64,
}

impl Coordinate {
    /// The point at the given latitude and longitude.
    pub fn new(latitude: u64, longitude: u64) -> (point: Coordinate)
        ensures
            point.latitude == latitude,
            point.longitude == longitude,
    {
        Coordinate { latitude, longitude }
    }

    /// The crossing of the equator and the prime meridian, which stands for
    /// "no position": both ordinates are zero, of either sign.
    pub open spec fn spec_is_center(&self) -> bool {
        ieee::spec_is_zero(self.latitude) && ieee::spec_is_zero(self.longitude)
    }

    /// A coordinate to cluster by: not the center, and neither ordinate a NaN.
    pub open spec fn spec_is_usable(&self) -> bool {
        !self.spec_is_center() && !ieee::spec_is_nan(self.latitude) && !ieee::spec_is_nan(
            self.longitude,
        )
    }

    /// Whether this is the center point.
    #[verifier::when_used_as_spec(spec_is_center)]
    pub fn is_center(&self) -> (r: bool)
        ensures
            r == self.spec_is_center(),
    {
        ieee::is_zero(self.latitude) && ieee::is_zero(self.longitude)
    }

    /// Whether the coordinate names a place.
    #[verifier::when_used_as_spec(spec_is_usable)]
    pub fn is_usable(&self) -> (r: bool)
        ensures
            r == self.spec_is_usable(),
    {
        !self.is_center() && !ieee::is_nan(self.latitude) && !ieee::is_nan(self.longitude)
    }
}

/// One photograph: where the file is, and when and where it was taken as far
/// as its metadata told.
#[derive(Debug)]
pub struct Image {
    pub path: PathBuf,
    /// Seconds since 1970-01-01 00:00:00, without time zone.
    pub timestamp: Option<i64>,
    pub location: Option<Coordinate>,
}

impl Clone for Image {
    fn clone(&self) -> (copy: Image)
        ensures
            copy == *self,
    {
        Image { path: self.path.clone(), timestamp: self.timestamp, location: self.location }
    }
}

impl Image {
    /// An image has a place among the clusters when it has a usable
    /// coordinate.
    pub open spec fn spec_is_classifiable(&self) -> bool {
        match self.location {
            Some(point) => point.spec_is_usable(),
            None => false,
        }
    }

    /// Whether the image can be clustered by position.
    #[verifier::when_used_as_spec(spec_is_classifiable)]
    pub fn is_classifiable(&self) -> (r: bool)
        ensures
            r == self.spec_is_classifiable(),
    {
        match self.location {
            Some(point) => point.is_usable(),
            None => false,
        }
    }

    /// Whether the image was taken less than `time` seconds before or after
    /// the moment `moment`. An image without a timestamp never was.
    pub open spec fn spec_taken_within(&self, time: i64, moment: i64) -> bool {
        match self.timestamp {
            Some(taken) => if taken >= moment {
                taken - moment < time
            } else {
                moment - taken < time
            },
            None => false,
        }
    }

    /// Whether the image speaks for its cluster at `moment`: it has a usable
    /// position and was taken less than `time` seconds from `moment`.
    pub open spec fn vouches(&self, time: i64, moment: i64) -> bool {
        self.spec_is_classifiable() && self.spec_taken_within(time, moment)
    }

    /// Whether the image was taken less than `time` seconds from `moment`.
    #[verifier::when_used_as_spec(spec_taken_within)]
    pub fn taken_within(&self, time: i64, moment: i64) -> (r: bool)
        ensures
            r == self.spec_taken_within(time, moment),
    {
        match self.timestamp {
            Some(taken) => {
                let apart: i128 = if taken >= moment {
                    taken as i128 - moment as i128
                } else {
                    moment as i128 - taken as i128
                };
                apart < time as i128
            },
            None => false,
        }
    }
}

/// The test by which members are counted for a cluster's reliability.
pub open spec fn vouching(time: i64, moment: i64) -> spec_fn(Image) -> bool {
    |image: Image| image.vouches(time, moment)
}

/// A reliability score as a fraction: `matching` of the `members` of a cluster
/// speak for it. It stands for `matching / members`, a number from 0 to 1;
/// the score of a cluster without members is 0.
pub struct Score {
    pub matching: nat,
    pub members: nat,
}

impl Score {
    /// The denominator that scores are compared by: never zero.
    pub open spec fn basis(self) -> nat {
        if self.members == 0 {
            1
        } else {
            self.members
        }
    }

    /// Whether this score is the greater of the two, as fractions compare.
    pub open spec fn exceeds(self, other: Score) -> bool {
        self.matching * other.basis() > other.matching * self.basis()
    }

    /// Whether no member speaks for the cluster.
    pub open spec fn is_zero(self) -> bool {
        self.matching == 0
    }
}

/// The reliability of a cluster for one moment in time: how many of its
/// members speak for it, and how many it has in all.
#[derive(Clone, Copy, Debug, PartialEq, Eq, Structural)]
pub struct ReliabilityScore {
    pub matching: usize,
    pub members: usize,
}

impl View for ReliabilityScore {
    type V = Score;

    open spec fn view(&self) -> Score {
        Score { matching: self.matching as nat, members: self.members as nat }
    }
}

impl ReliabilityScore {
    /// Whether this score is the greater of the two, as fractions compare.
    pub fn exceeds(&self, other: &ReliabilityScore) -> (r: bool)
        ensures
            r == self@.exceeds(other@),
    {
        let own_basis: u128 = if self.members == 0 {
            1
        } else {
            self.members as u128
        };
        let other_basis: u128 = if other.members == 0 {
            1
        } else {
            other.members as u128
        };
        assert(self.matching * other_basis <= u128::MAX && other.matching * own_basis
            <= u128::MAX) by (nonlinear_arith)
            requires
                self.matching <= u64::MAX,
                other.matching <= u64::MAX,
                own_basis <= u64::MAX,
                other_basis <= u64::MAX,
        ;
        self.matching as u128 * other_basis > other.matching as u128 * own_basis
    }

    /// Whether no member speaks for the cluster.
    pub fn is_zero(&self) -> (r: bool)
        ensures
            r == self@.is_zero(),
    {
        self.matching == 0
    }
}

/// A group of images around one place.
#[derive(Debug)]
pub struct Cluster {
    /// The anchor: the position of the image that the cluster was made for.
    pub location: Coordinate,
    /// The members, in the order in which they joined.
    pub images: Vec<Image>,
    /// The name of the place, once it has been looked for.
    pub location_string: Option<String>,
}

/// A cluster as contracts speak of it: its members as a sequence.
#[verifier::ext_equal]
pub struct ClusterView {
    pub location: Coordinate,
    pub images: Seq<Image>,
    pub location_string: Option<String>,
}

impl View for Cluster {
    type V = ClusterView;

    open spec fn view(&self) -> ClusterView {
        ClusterView {
            location: self.location,
            images: self.images@,
            location_string: self.location_string,
        }
    }
}

/// The views of a row of clusters.
pub open spec fn views(clusters: Seq<Cluster>) -> Seq<ClusterView> {
    clusters.map_values(|cluster: Cluster| cluster@)
}

impl ClusterView {
    /// The cluster that is made for an image which fits no other: anchored at
    /// the image's own position, with the image as its only member.
    pub open spec fn founded_by(image: Image) -> ClusterView {
        ClusterView {
            location: image.location.unwrap(),
            images: seq![image],
            location_string: None,
        }
    }

    /// The same cluster with one more member at the end.
    pub open spec fn joined_by(self, image: Image) -> ClusterView {
        ClusterView { images: self.images.push(image), ..self }
    }

    /// A cluster is classified when its anchor is a usable coordinate.
    pub open spec fn is_classified(self) -> bool {
        self.location.spec_is_usable()
    }

    /// The reliability of the cluster for an image taken at `moment`: the
    /// members that have a usable position and were taken less than `time`
    /// seconds from `moment`, out of all members.
    pub open spec fn reliability(self, time: i64, moment: i64) -> Score {
        Score {
            matching: self.images.filter(vouching(time, moment)).len(),
            members: self.images.len(),
        }
    }
}

impl Cluster {
    /// A cluster is classified when its anchor is a usable coordinate: the
    /// bucket of images without a position is anchored at the center and is
    /// not.
    pub open spec fn spec_is_classified(&self) -> bool {
        self.location.spec_is_usable()
    }

    /// Whether the cluster stands for a place.
    #[verifier::when_used_as_spec(spec_is_classified)]
    pub fn is_classified(&self) -> (r: bool)
        ensures
            r == self.spec_is_classified(),
    {
        self.location.is_usable()
    }

    /// The reliability of the cluster for an image taken at the moment
    /// `unclassified_image_timestamp`, with a window of `time` seconds.
    pub fn reliability(&self, time: i64, unclassified_image_timestamp: i64) -> (score:
        ReliabilityScore)
        ensures
            score@ == self@.reliability(time, unclassified_image_timestamp),
            score.matching <= score.members,
    {
        let ghost counted = vouching(time, unclassified_image_timestamp);
        let mut matching: usize = 0;
        let mut k: usize = 0;
        while k < self.images.len()
            invariant
                k <= self.images.len(),
                matching <= k,
                counted == vouching(time, unclassified_image_timestamp),
                matching == self.images@.take(k as int).filter(counted).len(),
            decreases self.images.len() - k,
        {
            let image = &self.images[k];
            proof {
                reveal(Seq::filter);
                assert(self.images@.take(k as int + 1).drop_last() =~= self.images@.take(
                    k as int,
                ));
            }
            if image.is_classifiable() && image.taken_within(time, unclassified_image_timestamp) {
                matching += 1;
            }
            k += 1;
        }
        proof {
            assert(self.images@.take(k as int) =~= self.images@);
        }
        ReliabilityScore { matching, members: self.images.len() }
    }
}

impl Clone for Cluster {
    fn clone(&self) -> (copy: Cluster)
        ensures
            copy@ == self@,
    {
        Cluster {
            location: self.location,
            images: self.images.clone(),
            location_string: self.location_string.clone(),
        }
    }
}

impl Default for Cluster {
    /// The empty bucket for images without a position: anchored at the
    /// center, not yet named.
    fn default() -> (bucket: Cluster)
        ensures
            bucket.location == center(),
            bucket.images@.len() == 0,
            bucket.location_string is None,
            !bucket.spec_is_classified(),
    {
        Cluster { location: center(), images: Vec::new(), location_string: None }
    }
}

} // verus!
