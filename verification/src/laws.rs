//! What holds of every clustering and of every relocation.

use crate::cluster::{ClusterView, Coordinate, Image, Score};
use crate::ieee;
use crate::model::{
    destination, first_fit, first_neighbour, fits, has_neighbour, measured, measured_for,
    most_reliable, place_model, run_model, scanned, spec_within, sweep_model, Policy,
};
use vstd::multiset::Multiset;
use vstd::prelude::*;

verus! {

/// The circle test is inclusive: a distance equal to the threshold is within
/// it.
pub proof fn lemma_boundary_is_within(metres: u64)
    requires
        !ieee::spec_is_nan(metres),
    ensures
        spec_within(Some(metres), metres),
{
}

/// `first_fit` names a cluster that fits and that no fitting cluster
/// precedes; it names none only where none fits.
pub proof fn lemma_first_fit(distances: Seq<Option<u64>>, threshold: u64, limit: int)
    ensures
        match first_fit(distances, threshold, limit) {
            Some(k) => 0 <= k < limit && fits(distances, threshold, k) && forall|j: int|
                0 <= j < k ==> !fits(distances, threshold, j),
            None => forall|j: int| 0 <= j < limit ==> !fits(distances, threshold, j),
        },
    decreases limit,
{
    if limit > 0 {
        lemma_first_fit(distances, threshold, limit - 1);
    }
}

/// Whether `measure` can have found `point` within the threshold of `anchor`.
pub open spec fn measured_within<F: Fn(Coordinate, Coordinate) -> Option<u64>>(
    measure: F,
    point: Coordinate,
    anchor: Coordinate,
    threshold: u64,
) -> bool {
    exists|metres: u64| #[trigger]
        call_ensures(measure, (point, anchor), Some(metres)) && ieee::spec_le(metres, threshold)
}

/// Whether each member of the cluster that has a usable position was found
/// within the threshold of the anchor, or is the first member and stands on
/// the anchor. Nothing is said of two members' distance from each other.
pub open spec fn grounded<F: Fn(Coordinate, Coordinate) -> Option<u64>>(
    measure: F,
    cluster: ClusterView,
    threshold: u64,
) -> bool {
    forall|j: int|
        0 <= j < cluster.images.len() && (#[trigger] cluster.images[j]).spec_is_classifiable() ==> {
            ||| j == 0 && cluster.images[j].location == Some(cluster.location)
            ||| measured_within(
                measure,
                cluster.images[j].location.unwrap(),
                cluster.location,
                threshold,
            )
        }
}

/// Whether every cluster is grounded.
pub open spec fn all_grounded<F: Fn(Coordinate, Coordinate) -> Option<u64>>(
    measure: F,
    clusters: Seq<ClusterView>,
    threshold: u64,
) -> bool {
    forall|k: int| 0 <= k < clusters.len() ==> grounded(measure, #[trigger] clusters[k], threshold)
}

/// Placing an image with a faithful scan keeps the clusters grounded: the
/// image joins a cluster only where it was found within the threshold of the
/// anchor, and a cluster made for it is anchored where it stands.
pub proof fn lemma_place_keeps_grounded<F: Fn(Coordinate, Coordinate) -> Option<u64>>(
    measure: F,
    clusters: Seq<ClusterView>,
    unclassified: ClusterView,
    image: Image,
    row: Seq<Option<u64>>,
    threshold: u64,
)
    requires
        all_grounded(measure, clusters, threshold),
        measured_for(measure, image, clusters, row, threshold),
    ensures
        all_grounded(measure, place_model(clusters, unclassified, image, row, threshold).0, threshold),
{
    let after = place_model(clusters, unclassified, image, row, threshold).0;
    if image.spec_is_classifiable() {
        lemma_first_fit(row, threshold, clusters.len() as int);
        match first_fit(row, threshold, clusters.len() as int) {
            Some(k) => {
                assert(fits(row, threshold, k));
                assert(call_ensures(
                    measure,
                    (image.location.unwrap(), clusters[k].location),
                    Some(row[k].unwrap()),
                ));
                lemma_joined_stays_grounded(measure, clusters[k], image, threshold);
                assert forall|c: int| 0 <= c < after.len() implies grounded(
                    measure,
                    #[trigger] after[c],
                    threshold,
                ) by {
                    if c != k {
                        assert(after[c] == clusters[c]);
                    }
                }
            },
            None => {
                assert forall|c: int| 0 <= c < after.len() implies grounded(
                    measure,
                    #[trigger] after[c],
                    threshold,
                ) by {
                    if c < clusters.len() {
                        assert(after[c] == clusters[c]);
                    }
                }
            },
        }
    }
}

/// A grounded cluster stays grounded when it is joined by an image that has
/// no usable position, or that was found within the threshold of the anchor.
proof fn lemma_joined_stays_grounded<F: Fn(Coordinate, Coordinate) -> Option<u64>>(
    measure: F,
    cluster: ClusterView,
    image: Image,
    threshold: u64,
)
    requires
        grounded(measure, cluster, threshold),
        image.spec_is_classifiable() ==> measured_within(
            measure,
            image.location.unwrap(),
            cluster.location,
            threshold,
        ),
    ensures
        grounded(measure, cluster.joined_by(image), threshold),
{
    let joined = cluster.joined_by(image);
    assert forall|j: int|
        0 <= j < joined.images.len() && (
        #[trigger] joined.images[j]).spec_is_classifiable() implies {
        ||| j == 0 && joined.images[j].location == Some(joined.location)
        ||| measured_within(
            measure,
            joined.images[j].location.unwrap(),
            joined.location,
            threshold,
        )
    } by {
        if j < cluster.images.len() {
            assert(joined.images[j] == cluster.images[j]);
        }
    }
}

/// Every member with a usable position was within the threshold of its
/// cluster's anchor when it was placed: a run of placements with faithful
/// scans keeps the clusters grounded.
pub proof fn lemma_run_keeps_grounded<F: Fn(Coordinate, Coordinate) -> Option<u64>>(
    measure: F,
    clusters: Seq<ClusterView>,
    unclassified: ClusterView,
    images: Seq<Image>,
    rows: Seq<Seq<Option<u64>>>,
    threshold: u64,
)
    requires
        all_grounded(measure, clusters, threshold),
        measured(measure, clusters, unclassified, images, rows, threshold),
    ensures
        all_grounded(
            measure,
            run_model(clusters, unclassified, images, rows, threshold).0,
            threshold,
        ),
    decreases images.len(),
{
    if images.len() > 0 {
        lemma_measured_prefix(measure, clusters, unclassified, images, rows, threshold);
        lemma_run_keeps_grounded(
            measure,
            clusters,
            unclassified,
            images.drop_last(),
            rows.drop_last(),
            threshold,
        );
        let before = run_model(
            clusters,
            unclassified,
            images.drop_last(),
            rows.drop_last(),
            threshold,
        );
        let last = images.len() - 1;
        assert(images.take(last) =~= images.drop_last());
        assert(rows.take(last) =~= rows.drop_last());
        assert(rows[last] == rows.last());
        lemma_place_keeps_grounded(
            measure,
            before.0,
            before.1,
            images.last(),
            rows.last(),
            threshold,
        );
    }
}

/// What was measured for a run was measured for the run without its last
/// image.
proof fn lemma_measured_prefix<F: Fn(Coordinate, Coordinate) -> Option<u64>>(
    measure: F,
    clusters: Seq<ClusterView>,
    unclassified: ClusterView,
    images: Seq<Image>,
    rows: Seq<Seq<Option<u64>>>,
    threshold: u64,
)
    requires
        images.len() > 0,
        measured(measure, clusters, unclassified, images, rows, threshold),
    ensures
        measured(
            measure,
            clusters,
            unclassified,
            images.drop_last(),
            rows.drop_last(),
            threshold,
        ),
{
    let fewer = images.drop_last();
    let less = rows.drop_last();
    assert forall|i: int| 0 <= i < fewer.len() implies measured_for(
        measure,
        fewer[i],
        run_model(clusters, unclassified, fewer.take(i), less.take(i), threshold).0,
        #[trigger] less[i],
        threshold,
    ) by {
        assert(fewer.take(i) =~= images.take(i));
        assert(less.take(i) =~= rows.take(i));
        assert(less[i] == rows[i]);
    }
}

/// Whether `measure` gives one answer for each pair of points.
pub open spec fn single_valued<F: Fn(Coordinate, Coordinate) -> Option<u64>>(measure: F) -> bool {
    forall|a: Coordinate, b: Coordinate, one: Option<u64>, other: Option<u64>|
        #![trigger call_ensures(measure, (a, b), one), call_ensures(measure, (a, b), other)]
        call_ensures(measure, (a, b), one) && call_ensures(measure, (a, b), other) ==> one
            == other
}

/// Two scans of the same clusters from the same point measure the same.
pub proof fn lemma_scans_agree<F: Fn(Coordinate, Coordinate) -> Option<u64>>(
    measure: F,
    point: Coordinate,
    clusters: Seq<ClusterView>,
    one: Seq<Option<u64>>,
    other: Seq<Option<u64>>,
    threshold: u64,
)
    requires
        single_valued(measure),
        scanned(measure, point, clusters, one, threshold),
        scanned(measure, point, clusters, other, threshold),
    ensures
        one == other,
{
    lemma_first_fit(one, threshold, clusters.len() as int);
    lemma_first_fit(other, threshold, clusters.len() as int);
    assert forall|k: int| 0 <= k < one.len() && k < other.len() implies one[k] == other[k] by {
        assert(call_ensures(measure, (point, clusters[k].location), one[k]));
        assert(call_ensures(measure, (point, clusters[k].location), other[k]));
    }
    if one.len() < other.len() {
        let k = one.len() - 1;
        assert(fits(one, threshold, k));
        assert(fits(other, threshold, k));
    } else if other.len() < one.len() {
        let k = other.len() - 1;
        assert(fits(other, threshold, k));
        assert(fits(one, threshold, k));
    }
    assert(one =~= other);
}

/// Clustering is determined by its input: two runs over the same images, in
/// the same order, from the same clusters and with the same threshold, end in
/// the same clusters and the same bucket, as long as measuring gives one
/// answer for each pair of points.
pub proof fn lemma_runs_agree<F: Fn(Coordinate, Coordinate) -> Option<u64>>(
    measure: F,
    clusters: Seq<ClusterView>,
    unclassified: ClusterView,
    images: Seq<Image>,
    one: Seq<Seq<Option<u64>>>,
    other: Seq<Seq<Option<u64>>>,
    threshold: u64,
)
    requires
        single_valued(measure),
        measured(measure, clusters, unclassified, images, one, threshold),
        measured(measure, clusters, unclassified, images, other, threshold),
    ensures
        one == other,
        run_model(clusters, unclassified, images, one, threshold) == run_model(
            clusters,
            unclassified,
            images,
            other,
            threshold,
        ),
    decreases images.len(),
{
    if images.len() > 0 {
        lemma_measured_prefix(measure, clusters, unclassified, images, one, threshold);
        lemma_measured_prefix(measure, clusters, unclassified, images, other, threshold);
        lemma_runs_agree(
            measure,
            clusters,
            unclassified,
            images.drop_last(),
            one.drop_last(),
            other.drop_last(),
            threshold,
        );
        let last = images.len() - 1;
        assert(images.take(last) =~= images.drop_last());
        assert(one.take(last) =~= one.drop_last());
        assert(other.take(last) =~= other.drop_last());
        if images[last].spec_is_classifiable() {
            lemma_scans_agree(
                measure,
                images[last].location.unwrap(),
                run_model(clusters, unclassified, images.take(last), one.take(last), threshold).0,
                one[last],
                other[last],
                threshold,
            );
        } else {
            assert(one[last] =~= other[last]);
        }
        assert(one =~= one.drop_last().push(one[last]));
        assert(other =~= other.drop_last().push(other[last]));
    } else {
        assert(one =~= other);
    }
}

/// Fractions compare transitively: what is not above a score is below
/// whatever exceeds that score.
pub proof fn lemma_exceeds_chains(low: Score, middle: Score, high: Score)
    requires
        !low.exceeds(middle),
        high.exceeds(middle),
    ensures
        high.exceeds(low),
{
    let (a, x) = (low.matching as int, low.basis() as int);
    let (b, y) = (middle.matching as int, middle.basis() as int);
    let (c, z) = (high.matching as int, high.basis() as int);
    assert(c * x > a * z) by (nonlinear_arith)
        requires
            a * y <= b * x,
            c * y > b * z,
            x >= 1,
            y >= 1,
            z >= 1,
            a >= 0,
            b >= 0,
            c >= 0,
    ;
}

/// The cluster chosen for an image is one of the greatest reliability, that
/// reliability is above zero, and every cluster before it has a smaller one:
/// where two clusters are level, the earlier wins. No cluster is chosen only
/// where every reliability is zero.
pub proof fn lemma_most_reliable(clusters: Seq<ClusterView>, time: i64, moment: i64, limit: int)
    requires
        limit <= clusters.len(),
    ensures
        match most_reliable(clusters, time, moment, limit) {
            Some(k) => {
                &&& 0 <= k < limit
                &&& !clusters[k].reliability(time, moment).is_zero()
                &&& forall|j: int|
                    0 <= j < limit ==> !(#[trigger] clusters[j]).reliability(time, moment).exceeds(
                        clusters[k].reliability(time, moment),
                    )
                &&& forall|j: int|
                    0 <= j < k ==> clusters[k].reliability(time, moment).exceeds(
                        (#[trigger] clusters[j]).reliability(time, moment),
                    )
            },
            None => forall|j: int|
                0 <= j < limit ==> (#[trigger] clusters[j]).reliability(time, moment).is_zero(),
        },
    decreases limit,
{
    if limit > 0 {
        lemma_most_reliable(clusters, time, moment, limit - 1);
        let candidate = clusters[limit - 1].reliability(time, moment);
        match most_reliable(clusters, time, moment, limit - 1) {
            Some(k) => {
                let held = clusters[k].reliability(time, moment);
                if candidate.exceeds(held) {
                    assert forall|j: int| 0 <= j < limit - 1 implies candidate.exceeds(
                        (#[trigger] clusters[j]).reliability(time, moment),
                    ) by {
                        lemma_exceeds_chains(clusters[j].reliability(time, moment), held, candidate);
                    }
                    assert forall|j: int| 0 <= j < limit implies !(
                    #[trigger] clusters[j]).reliability(time, moment).exceeds(candidate) by {
                        if j < limit - 1 {
                            lemma_exceeds_is_one_way(
                                candidate,
                                clusters[j].reliability(time, moment),
                            );
                        }
                    }
                    lemma_exceeding_is_not_zero(candidate, held);
                }
            },
            None => {
                if !candidate.is_zero() {
                    assert forall|j: int| 0 <= j < limit - 1 implies candidate.exceeds(
                        (#[trigger] clusters[j]).reliability(time, moment),
                    ) by {
                        lemma_exceeds_zero(candidate, clusters[j].reliability(time, moment));
                    }
                    assert forall|j: int| 0 <= j < limit implies !(
                    #[trigger] clusters[j]).reliability(time, moment).exceeds(candidate) by {
                        if j < limit - 1 {
                            lemma_exceeds_zero(candidate, clusters[j].reliability(time, moment));
                            lemma_exceeds_is_one_way(
                                candidate,
                                clusters[j].reliability(time, moment),
                            );
                        }
                    }
                }
            },
        }
    }
}

/// Of two scores at most one exceeds the other.
proof fn lemma_exceeds_is_one_way(high: Score, low: Score)
    requires
        high.exceeds(low),
    ensures
        !low.exceeds(high),
{
}

/// A score that exceeds another is above zero.
proof fn lemma_exceeding_is_not_zero(high: Score, low: Score)
    requires
        high.exceeds(low),
    ensures
        !high.is_zero(),
{
    assert(high.matching != 0) by (nonlinear_arith)
        requires
            high.matching * low.basis() > low.matching * high.basis(),
    ;
}

/// A score above zero exceeds a score of zero.
proof fn lemma_exceeds_zero(high: Score, zero: Score)
    requires
        !high.is_zero(),
        zero.is_zero(),
    ensures
        high.exceeds(zero),
{
    assert(high.matching * zero.basis() > zero.matching * high.basis()) by (nonlinear_arith)
        requires
            high.matching > 0,
            zero.basis() >= 1,
            zero.matching == 0,
    ;
}

/// Whether `after` is the cluster `before` with nothing changed but members
/// added at the end.
pub open spec fn continues(after: ClusterView, before: ClusterView) -> bool {
    &&& after.location == before.location
    &&& after.location_string == before.location_string
    &&& before.images.is_prefix_of(after.images)
}

/// Whether the clusters `after` are the clusters `before`, each with
/// nothing changed but members added at the end, and then perhaps further
/// clusters.
pub open spec fn all_continue(after: Seq<ClusterView>, before: Seq<ClusterView>) -> bool {
    &&& before.len() <= after.len()
    &&& forall|k: int| 0 <= k < before.len() ==> continues(#[trigger] after[k], before[k])
}

/// Placing an image takes nothing away: clusters and bucket keep their
/// anchors, their names and their members, in order.
pub proof fn lemma_place_continues(
    clusters: Seq<ClusterView>,
    unclassified: ClusterView,
    image: Image,
    row: Seq<Option<u64>>,
    threshold: u64,
)
    ensures
        all_continue(place_model(clusters, unclassified, image, row, threshold).0, clusters),
        continues(place_model(clusters, unclassified, image, row, threshold).1, unclassified),
{
    lemma_first_fit(row, threshold, clusters.len() as int);
}

/// A run of placements takes nothing away.
pub proof fn lemma_run_continues(
    clusters: Seq<ClusterView>,
    unclassified: ClusterView,
    images: Seq<Image>,
    rows: Seq<Seq<Option<u64>>>,
    threshold: u64,
)
    ensures
        all_continue(run_model(clusters, unclassified, images, rows, threshold).0, clusters),
        continues(run_model(clusters, unclassified, images, rows, threshold).1, unclassified),
    decreases images.len(),
{
    if images.len() > 0 {
        lemma_run_continues(
            clusters,
            unclassified,
            images.drop_last(),
            rows.drop_last(),
            threshold,
        );
        let before = run_model(
            clusters,
            unclassified,
            images.drop_last(),
            rows.drop_last(),
            threshold,
        );
        lemma_place_continues(before.0, before.1, images.last(), rows.last(), threshold);
        let after = place_model(before.0, before.1, images.last(), rows.last(), threshold);
        assert forall|k: int| 0 <= k < clusters.len() implies continues(
            #[trigger] after.0[k],
            clusters[k],
        ) by {
            assert(continues(after.0[k], before.0[k]));
            assert(continues(before.0[k], clusters[k]));
        }
    }
}

/// A destination is one of the clusters.
pub proof fn lemma_destination_is_a_cluster(
    policy: Policy,
    clusters: Seq<ClusterView>,
    image: Image,
    time: i64,
)
    ensures
        match destination(policy, clusters, image, time) {
            Some(k) => 0 <= k < clusters.len(),
            None => true,
        },
{
    if let Some(moment) = image.timestamp {
        lemma_most_reliable(clusters, time, moment, clusters.len() as int);
        lemma_first_neighbour(clusters, time, moment, clusters.len() as int);
    }
}

/// The cluster found for an image has a member taken within the window, and
/// no cluster before it has one; none is found only where no cluster has one.
pub proof fn lemma_first_neighbour(clusters: Seq<ClusterView>, time: i64, moment: i64, limit: int)
    ensures
        match first_neighbour(clusters, time, moment, limit) {
            Some(k) => {
                &&& 0 <= k < limit
                &&& has_neighbour(clusters[k], time, moment)
                &&& forall|j: int| 0 <= j < k ==> !has_neighbour(#[trigger] clusters[j], time, moment)
            },
            None => forall|j: int|
                0 <= j < limit ==> !has_neighbour(#[trigger] clusters[j], time, moment),
        },
    decreases limit,
{
    if limit > 0 {
        lemma_first_neighbour(clusters, time, moment, limit - 1);
    }
}

/// A sweep neither makes nor drops a cluster, and takes nothing away from
/// one: each keeps its anchor, its name and its members, in order.
pub proof fn lemma_sweep_continues(
    policy: Policy,
    clusters: Seq<ClusterView>,
    pending: Seq<Image>,
    time: i64,
)
    ensures
        sweep_model(policy, clusters, pending, time).0.len() == clusters.len(),
        all_continue(sweep_model(policy, clusters, pending, time).0, clusters),
    decreases pending.len(),
{
    if pending.len() > 0 {
        let image = pending.first();
        lemma_destination_is_a_cluster(policy, clusters, image, time);
        match destination(policy, clusters, image, time) {
            Some(k) => {
                let joined = clusters.update(k, clusters[k].joined_by(image));
                lemma_sweep_continues(policy, joined, pending.drop_first(), time);
                let after = sweep_model(policy, joined, pending.drop_first(), time).0;
                assert forall|c: int| 0 <= c < clusters.len() implies continues(
                    #[trigger] after[c],
                    clusters[c],
                ) by {
                    assert(continues(after[c], joined[c]));
                    assert(continues(joined[c], clusters[c]));
                }
            },
            None => {
                lemma_sweep_continues(policy, clusters, pending.drop_first(), time);
            },
        }
    }
}

/// An image without a timestamp stays in the bucket: those that a sweep
/// leaves behind hold all of them, in their order.
pub proof fn lemma_sweep_leaves_untimed(
    policy: Policy,
    clusters: Seq<ClusterView>,
    pending: Seq<Image>,
    time: i64,
)
    ensures
        sweep_model(policy, clusters, pending, time).1.filter(untimed()) == pending.filter(
            untimed(),
        ),
    decreases pending.len(),
{
    reveal_with_fuel(Seq::filter, 2);
    if pending.len() > 0 {
        let image = pending.first();
        let rest = pending.drop_first();
        assert(pending =~= seq![image] + rest);
        Seq::filter_distributes_over_add(seq![image], rest, untimed());
        assert(seq![image].drop_last() =~= Seq::<Image>::empty());
        assert(seq![image].last() == image);
        match destination(policy, clusters, image, time) {
            Some(k) => {
                let joined = clusters.update(k, clusters[k].joined_by(image));
                lemma_sweep_leaves_untimed(policy, joined, rest, time);
                assert(seq![image].filter(untimed()) =~= Seq::<Image>::empty());
            },
            None => {
                lemma_sweep_leaves_untimed(policy, clusters, rest, time);
                let later = sweep_model(policy, clusters, rest, time);
                Seq::filter_distributes_over_add(seq![image], later.1, untimed());
            },
        }
    }
}

/// The test for an image without a timestamp.
pub open spec fn untimed() -> spec_fn(Image) -> bool {
    |image: Image| image.timestamp is None
}

/// All the members of all the clusters, each as often as it is a member.
pub open spec fn members(clusters: Seq<ClusterView>) -> Multiset<Image>
    decreases clusters.len(),
{
    if clusters.len() == 0 {
        Multiset::empty()
    } else {
        members(clusters.drop_last()).add(clusters.last().images.to_multiset())
    }
}

/// One more member in one cluster is one more member in all.
proof fn lemma_members_joined(clusters: Seq<ClusterView>, k: int, image: Image)
    requires
        0 <= k < clusters.len(),
    ensures
        members(clusters.update(k, clusters[k].joined_by(image))) == members(clusters).insert(
            image,
        ),
    decreases clusters.len(),
{
    broadcast use {vstd::seq_lib::group_to_multiset_ensures, vstd::multiset::group_multiset_axioms};

    let joined = clusters.update(k, clusters[k].joined_by(image));
    if k == clusters.len() - 1 {
        assert(joined.drop_last() =~= clusters.drop_last());
    } else {
        lemma_members_joined(clusters.drop_last(), k, image);
        assert(joined.drop_last() =~= clusters.drop_last().update(
            k,
            clusters[k].joined_by(image),
        ));
    }
    assert(members(joined) =~= members(clusters).insert(image));
}

/// Placing an image adds that image and nothing else: clusters and bucket
/// together hold what they held, and the image once more.
pub proof fn lemma_place_conserves(
    clusters: Seq<ClusterView>,
    unclassified: ClusterView,
    image: Image,
    row: Seq<Option<u64>>,
    threshold: u64,
)
    ensures
        ({
            let after = place_model(clusters, unclassified, image, row, threshold);
            members(after.0).add(after.1.images.to_multiset()) == members(clusters).add(
                unclassified.images.to_multiset(),
            ).insert(image)
        }),
{
    broadcast use {vstd::seq_lib::group_to_multiset_ensures, vstd::multiset::group_multiset_axioms};

    let after = place_model(clusters, unclassified, image, row, threshold);
    if image.spec_is_classifiable() {
        lemma_first_fit(row, threshold, clusters.len() as int);
        match first_fit(row, threshold, clusters.len() as int) {
            Some(k) => {
                lemma_members_joined(clusters, k, image);
            },
            None => {
                let founded = ClusterView::founded_by(image);
                assert(clusters.push(founded).drop_last() =~= clusters);
                assert(seq![image] =~= Seq::<Image>::empty().push(image));
                assert(Seq::<Image>::empty().to_multiset() =~= Multiset::<Image>::empty());
            },
        }
    }
    assert(members(after.0).add(after.1.images.to_multiset()) =~= members(clusters).add(
        unclassified.images.to_multiset(),
    ).insert(image));
}

/// A sweep moves images and neither copies nor drops one: the clusters and
/// what is left behind together hold what the clusters and the bucket held.
pub proof fn lemma_sweep_conserves(
    policy: Policy,
    clusters: Seq<ClusterView>,
    pending: Seq<Image>,
    time: i64,
)
    ensures
        ({
            let after = sweep_model(policy, clusters, pending, time);
            members(after.0).add(after.1.to_multiset()) == members(clusters).add(
                pending.to_multiset(),
            )
        }),
    decreases pending.len(),
{
    broadcast use {vstd::seq_lib::group_to_multiset_ensures, vstd::multiset::group_multiset_axioms};

    let after = sweep_model(policy, clusters, pending, time);
    if pending.len() > 0 {
        let image = pending.first();
        let rest = pending.drop_first();
        assert(rest =~= pending.remove(0));
        assert(pending.to_multiset() =~= rest.to_multiset().insert(image));
        lemma_destination_is_a_cluster(policy, clusters, image, time);
        match destination(policy, clusters, image, time) {
            Some(k) => {
                let joined = clusters.update(k, clusters[k].joined_by(image));
                lemma_members_joined(clusters, k, image);
                lemma_sweep_conserves(policy, joined, rest, time);
                assert(members(clusters).insert(image).add(rest.to_multiset()) =~= members(
                    clusters,
                ).add(rest.to_multiset().insert(image)));
            },
            None => {
                lemma_sweep_conserves(policy, clusters, rest, time);
                let later = sweep_model(policy, clusters, rest, time);
                assert(seq![image] + later.1 =~= later.1.insert(0, image));
                assert(later.1.insert(0, image).to_multiset() == later.1.to_multiset().insert(
                    image,
                ));
                assert(members(later.0).add(later.1.to_multiset().insert(image)) =~= members(
                    later.0,
                ).add(later.1.to_multiset()).insert(image));
                assert(members(clusters).add(rest.to_multiset().insert(image)) =~= members(
                    clusters,
                ).add(rest.to_multiset()).insert(image));
            },
        }
    }
}

/// Whether none of the images has a usable position.
pub open spec fn adrift(images: Seq<Image>) -> bool {
    forall|i: int| 0 <= i < images.len() ==> !(#[trigger] images[i]).spec_is_classifiable()
}

/// Placing an image puts no image with a usable position into the bucket.
pub proof fn lemma_place_keeps_adrift(
    clusters: Seq<ClusterView>,
    unclassified: ClusterView,
    image: Image,
    row: Seq<Option<u64>>,
    threshold: u64,
)
    requires
        adrift(unclassified.images),
    ensures
        adrift(place_model(clusters, unclassified, image, row, threshold).1.images),
{
}

/// A run of placements puts no image with a usable position into the
/// bucket.
pub proof fn lemma_run_keeps_adrift(
    clusters: Seq<ClusterView>,
    unclassified: ClusterView,
    images: Seq<Image>,
    rows: Seq<Seq<Option<u64>>>,
    threshold: u64,
)
    requires
        adrift(unclassified.images),
    ensures
        adrift(run_model(clusters, unclassified, images, rows, threshold).1.images),
    decreases images.len(),
{
    if images.len() > 0 {
        lemma_run_keeps_adrift(
            clusters,
            unclassified,
            images.drop_last(),
            rows.drop_last(),
            threshold,
        );
        let before = run_model(
            clusters,
            unclassified,
            images.drop_last(),
            rows.drop_last(),
            threshold,
        );
        lemma_place_keeps_adrift(before.0, before.1, images.last(), rows.last(), threshold);
    }
}

/// A sweep over a bucket without usable positions keeps the clusters
/// grounded: what it adds to a cluster has no position to be measured.
pub proof fn lemma_sweep_keeps_grounded<F: Fn(Coordinate, Coordinate) -> Option<u64>>(
    measure: F,
    policy: Policy,
    clusters: Seq<ClusterView>,
    pending: Seq<Image>,
    time: i64,
    threshold: u64,
)
    requires
        all_grounded(measure, clusters, threshold),
        adrift(pending),
    ensures
        all_grounded(measure, sweep_model(policy, clusters, pending, time).0, threshold),
        adrift(sweep_model(policy, clusters, pending, time).1),
    decreases pending.len(),
{
    if pending.len() > 0 {
        let image = pending.first();
        let rest = pending.drop_first();
        assert(!image.spec_is_classifiable());
        assert forall|i: int| 0 <= i < rest.len() implies !(
        #[trigger] rest[i]).spec_is_classifiable() by {
            assert(rest[i] == pending[i + 1]);
        }
        lemma_destination_is_a_cluster(policy, clusters, image, time);
        match destination(policy, clusters, image, time) {
            Some(k) => {
                let joined = clusters.update(k, clusters[k].joined_by(image));
                lemma_joined_stays_grounded(measure, clusters[k], image, threshold);
                assert forall|c: int| 0 <= c < joined.len() implies grounded(
                    measure,
                    #[trigger] joined[c],
                    threshold,
                ) by {
                    if c != k {
                        assert(joined[c] == clusters[c]);
                    }
                }
                lemma_sweep_keeps_grounded(measure, policy, joined, rest, time, threshold);
            },
            None => {
                lemma_sweep_keeps_grounded(measure, policy, clusters, rest, time, threshold);
            },
        }
    }
}

/// Whether the cluster stands where its first member stands: it has a
/// member, and its anchor is a usable position and is the position of the
/// first member.
pub open spec fn anchored(cluster: ClusterView) -> bool {
    &&& cluster.is_classified()
    &&& cluster.images.len() > 0
    &&& cluster.images[0].location == Some(cluster.location)
}

/// Whether every cluster is anchored.
pub open spec fn all_anchored(clusters: Seq<ClusterView>) -> bool {
    forall|k: int| 0 <= k < clusters.len() ==> anchored(#[trigger] clusters[k])
}

/// A cluster that gets more members stays anchored.
pub proof fn lemma_continuing_stays_anchored(after: ClusterView, before: ClusterView)
    requires
        anchored(before),
        continues(after, before),
    ensures
        anchored(after),
{
    assert(after.images.subrange(0, before.images.len() as int)[0] == after.images[0]);
}

/// Placing an image keeps the clusters anchored: a cluster is made at the
/// position of its first member and keeps its anchor from then on.
pub proof fn lemma_place_keeps_anchored(
    clusters: Seq<ClusterView>,
    unclassified: ClusterView,
    image: Image,
    row: Seq<Option<u64>>,
    threshold: u64,
)
    requires
        all_anchored(clusters),
    ensures
        all_anchored(place_model(clusters, unclassified, image, row, threshold).0),
{
    let after = place_model(clusters, unclassified, image, row, threshold).0;
    lemma_place_continues(clusters, unclassified, image, row, threshold);
    lemma_first_fit(row, threshold, clusters.len() as int);
    assert forall|k: int| 0 <= k < after.len() implies anchored(#[trigger] after[k]) by {
        if k < clusters.len() {
            assert(anchored(clusters[k]));
            lemma_continuing_stays_anchored(after[k], clusters[k]);
        } else {
            assert(after[k] == ClusterView::founded_by(image));
            assert(image.spec_is_classifiable());
        }
    }
}

/// A run of placements keeps the clusters anchored.
pub proof fn lemma_run_keeps_anchored(
    clusters: Seq<ClusterView>,
    unclassified: ClusterView,
    images: Seq<Image>,
    rows: Seq<Seq<Option<u64>>>,
    threshold: u64,
)
    requires
        all_anchored(clusters),
    ensures
        all_anchored(run_model(clusters, unclassified, images, rows, threshold).0),
    decreases images.len(),
{
    if images.len() > 0 {
        lemma_run_keeps_anchored(
            clusters,
            unclassified,
            images.drop_last(),
            rows.drop_last(),
            threshold,
        );
        let before = run_model(
            clusters,
            unclassified,
            images.drop_last(),
            rows.drop_last(),
            threshold,
        );
        lemma_place_keeps_anchored(before.0, before.1, images.last(), rows.last(), threshold);
    }
}

/// A sweep keeps the clusters anchored.
pub proof fn lemma_sweep_keeps_anchored(
    policy: Policy,
    clusters: Seq<ClusterView>,
    pending: Seq<Image>,
    time: i64,
)
    requires
        all_anchored(clusters),
    ensures
        all_anchored(sweep_model(policy, clusters, pending, time).0),
{
    let after = sweep_model(policy, clusters, pending, time).0;
    lemma_sweep_continues(policy, clusters, pending, time);
    assert forall|k: int| 0 <= k < after.len() implies anchored(#[trigger] after[k]) by {
        assert(anchored(clusters[k]));
        lemma_continuing_stays_anchored(after[k], clusters[k]);
    }
}

} // verus!
