//! Merging clusters whose anchors are close to each other.
//!
//! Clustering is greedy: which clusters there are depends on the order of
//! the images. Merging mends this afterwards. Two clusters are close when
//! each anchor lies within the threshold of the other, and clusters that a
//! chain of close pairs connects become one.

use crate::cluster::{views, Cluster, ClusterView, Coordinate, Image};
use crate::features::within;
use crate::laws::{all_anchored, anchored, members};
use crate::model::fits;
use vstd::prelude::*;

verus! {

/// Whether clusters `a` and `b` are close: each of the two anchors was
/// measured within the threshold of the other. `table[a][b]` is the distance
/// measured from the anchor of cluster `a` to the anchor of cluster `b`.
pub open spec fn close(table: Seq<Seq<Option<u64>>>, threshold: u64, a: int, b: int) -> bool {
    &&& 0 <= a < table.len()
    &&& 0 <= b < table.len()
    &&& fits(table[a], threshold, b)
    &&& fits(table[b], threshold, a)
}

/// Whether each cluster of the chain is close to the next.
pub open spec fn chained(table: Seq<Seq<Option<u64>>>, threshold: u64, chain: Seq<int>) -> bool {
    forall|i: int|
        0 <= i < chain.len() - 1 ==> close(table, threshold, #[trigger] chain[i], chain[i + 1])
}

/// Whether a chain of close pairs leads from cluster `a` to cluster `b`.
/// Every cluster is linked to itself.
pub open spec fn linked(table: Seq<Seq<Option<u64>>>, threshold: u64, a: int, b: int) -> bool {
    exists|chain: Seq<int>|
        chain.len() > 0 && chain.first() == a && chain.last() == b && #[trigger] chained(
            table,
            threshold,
            chain,
        )
}

/// Whether cluster `a` is linked to no cluster before it: the merged cluster
/// that it goes into starts with it.
pub open spec fn is_first(table: Seq<Seq<Option<u64>>>, threshold: u64, a: int) -> bool {
    forall|b: int| 0 <= b < a ==> !linked(table, threshold, b, a)
}

/// Those of the clusters `0 .. limit` that are linked to no cluster before
/// them, in order.
pub open spec fn firsts(table: Seq<Seq<Option<u64>>>, threshold: u64, limit: int) -> Seq<int>
    decreases limit,
{
    if limit <= 0 {
        Seq::empty()
    } else {
        let before = firsts(table, threshold, limit - 1);
        if is_first(table, threshold, limit - 1) {
            before.push(limit - 1)
        } else {
            before
        }
    }
}

/// The members of those of the clusters `0 .. limit` that are linked to
/// cluster `first`, cluster after cluster, each cluster's members in their
/// order.
pub open spec fn gathered(
    clusters: Seq<ClusterView>,
    table: Seq<Seq<Option<u64>>>,
    threshold: u64,
    first: int,
    limit: int,
) -> Seq<Image>
    decreases limit,
{
    if limit <= 0 {
        Seq::empty()
    } else {
        let before = gathered(clusters, table, threshold, first, limit - 1);
        if linked(table, threshold, first, limit - 1) {
            before + clusters[limit - 1].images
        } else {
            before
        }
    }
}

/// The cluster that those of the clusters `0 .. limit` that are linked to
/// cluster `first` become: it keeps the anchor and the name of `first`.
pub open spec fn merged(
    clusters: Seq<ClusterView>,
    table: Seq<Seq<Option<u64>>>,
    threshold: u64,
    first: int,
    limit: int,
) -> ClusterView {
    ClusterView {
        images: gathered(clusters, table, threshold, first, limit),
        ..clusters[first]
    }
}

/// The clusters that the clusters `0 .. limit` become when linked clusters
/// are made one, in the order of the first cluster of each.
pub open spec fn assembled(
    clusters: Seq<ClusterView>,
    table: Seq<Seq<Option<u64>>>,
    threshold: u64,
    limit: int,
) -> Seq<ClusterView> {
    Seq::new(
        firsts(table, threshold, limit).len(),
        |p: int| merged(clusters, table, threshold, firsts(table, threshold, limit)[p], limit),
    )
}

/// The clusters after merging, given the distances between their anchors.
/// Rows of the table that belong to no cluster are not looked at, and a
/// cluster without a row is close to none.
pub open spec fn merge_model(
    clusters: Seq<ClusterView>,
    table: Seq<Seq<Option<u64>>>,
    threshold: u64,
) -> Seq<ClusterView> {
    assembled(
        clusters,
        trimmed(table, clusters.len() as int),
        threshold,
        clusters.len() as int,
    )
}

/// The table as contracts speak of it: its rows as sequences.
pub open spec fn rows(table: Seq<Vec<Option<u64>>>) -> Seq<Seq<Option<u64>>> {
    table.map_values(|row: Vec<Option<u64>>| row@)
}

/// The table without the rows that belong to no cluster, where there are
/// `count` clusters.
pub open spec fn trimmed(table: Seq<Seq<Option<u64>>>, count: int) -> Seq<Seq<Option<u64>>> {
    if 0 <= count < table.len() {
        table.take(count)
    } else {
        table
    }
}

/// Whether `table` is what measuring between the anchors of the clusters
/// can have given: a row for each cluster with an entry for each cluster,
/// each entry one that `measure` can return for the anchors of the two, and
/// none for a cluster and itself.
pub open spec fn gauged<F: Fn(Coordinate, Coordinate) -> Option<u64>>(
    measure: F,
    clusters: Seq<ClusterView>,
    table: Seq<Seq<Option<u64>>>,
) -> bool {
    &&& table.len() == clusters.len()
    &&& forall|a: int| 0 <= a < table.len() ==> (#[trigger] table[a]).len() == clusters.len()
    &&& forall|a: int, b: int|
        0 <= a < clusters.len() && 0 <= b < clusters.len() ==> if a == b {
            (#[trigger] table[a][b]) is None
        } else {
            call_ensures(measure, (clusters[a].location, clusters[b].location), table[a][b])
        }
}

/// Whether a labelling of the clusters gives close clusters the same label.
spec fn respects(label: spec_fn(int) -> int, table: Seq<Seq<Option<u64>>>, threshold: u64)
    -> bool {
    forall|a: int, b: int| #[trigger] close(table, threshold, a, b) ==> label(a) == label(b)
}

/// Whether every labelling that gives close clusters the same label gives
/// `a` and `b` the same label.
spec fn inseparable(table: Seq<Seq<Option<u64>>>, threshold: u64, a: int, b: int) -> bool {
    forall|label: spec_fn(int) -> int| #[trigger]
        respects(label, table, threshold) ==> label(a) == label(b)
}

/// Along a chain the label does not change.
proof fn lemma_chain_keeps_label(
    label: spec_fn(int) -> int,
    table: Seq<Seq<Option<u64>>>,
    threshold: u64,
    chain: Seq<int>,
)
    requires
        chain.len() > 0,
        chained(table, threshold, chain),
        respects(label, table, threshold),
    ensures
        label(chain.first()) == label(chain.last()),
    decreases chain.len(),
{
    if chain.len() > 1 {
        let shorter = chain.drop_last();
        assert forall|i: int| 0 <= i < shorter.len() - 1 implies close(
            table,
            threshold,
            #[trigger] shorter[i],
            shorter[i + 1],
        ) by {
            assert(close(table, threshold, chain[i], chain[i + 1]));
        }
        lemma_chain_keeps_label(label, table, threshold, shorter);
        let i = chain.len() - 2;
        assert(close(table, threshold, chain[i], chain[i + 1]));
    }
}

/// Linked clusters cannot be told apart by a labelling that gives close
/// clusters the same label.
proof fn lemma_linked_is_inseparable(
    table: Seq<Seq<Option<u64>>>,
    threshold: u64,
    a: int,
    b: int,
)
    requires
        linked(table, threshold, a, b),
    ensures
        inseparable(table, threshold, a, b),
{
    let chain = choose|chain: Seq<int>|
        chain.len() > 0 && chain.first() == a && chain.last() == b && #[trigger] chained(
            table,
            threshold,
            chain,
        );
    assert forall|label: spec_fn(int) -> int| #[trigger]
        respects(label, table, threshold) implies label(a) == label(b) by {
        lemma_chain_keeps_label(label, table, threshold, chain);
    }
}

/// A chain can be made longer by a cluster that is close to its last.
proof fn lemma_chain_grows(
    table: Seq<Seq<Option<u64>>>,
    threshold: u64,
    a: int,
    b: int,
    c: int,
)
    requires
        linked(table, threshold, a, b),
        close(table, threshold, b, c),
    ensures
        linked(table, threshold, a, c),
{
    let chain = choose|chain: Seq<int>|
        chain.len() > 0 && chain.first() == a && chain.last() == b && #[trigger] chained(
            table,
            threshold,
            chain,
        );
    let longer = chain.push(c);
    assert forall|i: int| 0 <= i < longer.len() - 1 implies close(
        table,
        threshold,
        #[trigger] longer[i],
        longer[i + 1],
    ) by {
        if i < chain.len() - 1 {
            assert(close(table, threshold, chain[i], chain[i + 1]));
        }
    }
    assert(longer.first() == a && longer.last() == c && chained(table, threshold, longer));
}

/// Every cluster is linked to itself.
pub proof fn lemma_linked_to_itself(table: Seq<Seq<Option<u64>>>, threshold: u64, a: int)
    ensures
        linked(table, threshold, a, a),
{
    let chain = seq![a];
    assert(chain.first() == a && chain.last() == a && chained(table, threshold, chain));
}

/// Clusters that no such labelling tells apart are linked.
proof fn lemma_inseparable_is_linked(
    table: Seq<Seq<Option<u64>>>,
    threshold: u64,
    a: int,
    b: int,
)
    requires
        inseparable(table, threshold, a, b),
    ensures
        linked(table, threshold, a, b),
{
    let label = |x: int| if linked(table, threshold, a, x) { 1int } else { 0int };
    assert forall|x: int, y: int| #[trigger] close(table, threshold, x, y) implies label(x)
        == label(y) by {
        assert(close(table, threshold, y, x));
        if linked(table, threshold, a, x) {
            lemma_chain_grows(table, threshold, a, x, y);
        }
        if linked(table, threshold, a, y) {
            lemma_chain_grows(table, threshold, a, y, x);
        }
    }
    assert(respects(label, table, threshold));
    lemma_linked_to_itself(table, threshold, a);
    assert(label(a) == label(b));
}

/// Being linked goes both ways.
pub proof fn lemma_linked_is_symmetric(
    table: Seq<Seq<Option<u64>>>,
    threshold: u64,
    a: int,
    b: int,
)
    requires
        linked(table, threshold, a, b),
    ensures
        linked(table, threshold, b, a),
{
    lemma_linked_is_inseparable(table, threshold, a, b);
    lemma_inseparable_is_linked(table, threshold, b, a);
}

/// What is linked to a linked cluster is linked.
pub proof fn lemma_linked_is_transitive(
    table: Seq<Seq<Option<u64>>>,
    threshold: u64,
    a: int,
    b: int,
    c: int,
)
    requires
        linked(table, threshold, a, b),
        linked(table, threshold, b, c),
    ensures
        linked(table, threshold, a, c),
{
    lemma_linked_is_inseparable(table, threshold, a, b);
    lemma_linked_is_inseparable(table, threshold, b, c);
    lemma_inseparable_is_linked(table, threshold, a, c);
}

/// Whether clusters `a` and `b` are close.
fn is_close(table: &Vec<Vec<Option<u64>>>, threshold: u64, count: usize, a: usize, b: usize) -> (r:
    bool)
    requires
        a < count,
        b < count,
    ensures
        r == close(trimmed(rows(table@), count as int), threshold, a as int, b as int),
{
    a < table.len() && b < table.len() && b < table[a].len() && a < table[b].len() && within(
        table[a][b],
        threshold,
    ) && within(table[b][a], threshold)
}

/// Whether `roots` names, for each of `count` clusters, the first cluster
/// that it is linked to.
spec fn are_roots(
    roots: Seq<usize>,
    table: Seq<Seq<Option<u64>>>,
    threshold: u64,
    count: int,
) -> bool {
    &&& roots.len() == count
    &&& forall|i: int| 0 <= i < count ==> #[trigger] roots[i] <= i
    &&& forall|i: int| 0 <= i < count ==> roots[#[trigger] roots[i] as int] == roots[i]
    &&& forall|i: int, j: int|
        0 <= i < count && 0 <= j < count ==> (#[trigger] roots[i] == #[trigger] roots[j] <==> linked(
            table,
            threshold,
            i,
            j,
        ))
}

/// Whether every pair of close clusters that comes before the pair `(a, b)`
/// has one root. The pairs are taken with the smaller index first, in
/// lexical order.
spec fn settled(
    roots: Seq<usize>,
    table: Seq<Seq<Option<u64>>>,
    threshold: u64,
    a: int,
    b: int,
) -> bool {
    forall|x: int, y: int|
        0 <= x < y < roots.len() && (x < a || (x == a && y < b)) && #[trigger] close(
            table,
            threshold,
            x,
            y,
        ) ==> roots[x] == roots[y]
}

/// Whether clusters of one root are inseparable.
spec fn sound(roots: Seq<usize>, table: Seq<Seq<Option<u64>>>, threshold: u64) -> bool {
    forall|i: int, j: int|
        0 <= i < roots.len() && 0 <= j < roots.len() && #[trigger] roots[i] == #[trigger] roots[j]
            ==> inseparable(table, threshold, i, j)
}

/// Whether each root is a cluster at or before the one it stands for, and
/// stands for itself.
spec fn rooted(roots: Seq<usize>) -> bool {
    &&& forall|i: int| 0 <= i < roots.len() ==> #[trigger] roots[i] <= i
    &&& forall|i: int| 0 <= i < roots.len() ==> roots[#[trigger] roots[i] as int] == roots[i]
}

/// The roots after the clusters of root `drop` have been given the root
/// `keep`.
spec fn relabelled(roots: Seq<usize>, drop: usize, keep: usize) -> Seq<usize> {
    roots.map_values(
        |root: usize|
            if root == drop {
                keep
            } else {
                root
            },
    )
}

/// Finds, for each of `count` clusters, the first cluster that it is linked
/// to.
fn find_roots(table: &Vec<Vec<Option<u64>>>, threshold: u64, count: usize) -> (roots: Vec<usize>)
    ensures
        are_roots(roots@, trimmed(rows(table@), count as int), threshold, count as int),
{
    let ghost known = trimmed(rows(table@), count as int);
    let mut roots: Vec<usize> = Vec::new();
    let mut i: usize = 0;
    while i < count
        invariant
            i <= count,
            roots.len() == i,
            forall|k: int| 0 <= k < i ==> roots[k] == k,
        decreases count - i,
    {
        roots.push(i);
        i += 1;
    }
    proof {
        assert forall|i: int, j: int|
            0 <= i < roots.len() && 0 <= j < roots.len() && #[trigger] roots[i]
                == #[trigger] roots[j] implies inseparable(known, threshold, i, j) by {
            lemma_linked_to_itself(known, threshold, i);
            lemma_linked_is_inseparable(known, threshold, i, i);
        }
    }
    let mut a: usize = 0;
    while a < count
        invariant
            a <= count,
            roots.len() == count,
            known == trimmed(rows(table@), count as int),
            rooted(roots@),
            sound(roots@, known, threshold),
            settled(roots@, known, threshold, a as int, 0),
        decreases count - a,
    {
        let mut b: usize = a + 1;
        while b < count
            invariant
                a < count,
                a < b <= count,
                roots.len() == count,
                known == trimmed(rows(table@), count as int),
                rooted(roots@),
                sound(roots@, known, threshold),
                settled(roots@, known, threshold, a as int, b as int),
            decreases count - b,
        {
            if is_close(table, threshold, count, a, b) && roots[a] != roots[b] {
                let (keep, drop) = if roots[a] < roots[b] {
                    (roots[a], roots[b])
                } else {
                    (roots[b], roots[a])
                };
                let ghost before = roots@;
                let mut k: usize = 0;
                while k < count
                    invariant
                        k <= count,
                        roots.len() == count,
                        before.len() == count,
                        forall|i: int| 0 <= i < k ==> roots[i] == relabelled(before, drop, keep)[i],
                        forall|i: int| k <= i < count ==> roots[i] == before[i],
                    decreases count - k,
                {
                    if roots[k] == drop {
                        roots[k] = keep;
                    }
                    k += 1;
                }
                proof {
                    assert(roots@ =~= relabelled(before, drop, keep));
                    lemma_union_keeps_order(before, known, threshold, a as int, b as int);
                }
            }
            b += 1;
        }
        a += 1;
    }
    proof {
        lemma_settled_roots(roots@, known, threshold);
    }
    roots
}

/// Giving the clusters of two close clusters' roots one root, the smaller
/// of the two, keeps the roots in order and settles the pair.
proof fn lemma_union_keeps_order(
    roots: Seq<usize>,
    table: Seq<Seq<Option<u64>>>,
    threshold: u64,
    a: int,
    b: int,
)
    requires
        0 <= a < b < roots.len(),
        rooted(roots),
        sound(roots, table, threshold),
        settled(roots, table, threshold, a, b),
        close(table, threshold, a, b),
        roots[a] != roots[b],
    ensures
        ({
            let (keep, drop) = if roots[a] < roots[b] {
                (roots[a], roots[b])
            } else {
                (roots[b], roots[a])
            };
            let after = relabelled(roots, drop, keep);
            &&& rooted(after)
            &&& sound(after, table, threshold)
            &&& settled(after, table, threshold, a, b + 1)
        }),
{
    let (keep, drop) = if roots[a] < roots[b] {
        (roots[a], roots[b])
    } else {
        (roots[b], roots[a])
    };
    let (kept, dropped) = if roots[a] < roots[b] {
        (a, b)
    } else {
        (b, a)
    };
    let after = relabelled(roots, drop, keep);
    assert(roots[kept] == keep && roots[dropped] == drop);
    assert(close(table, threshold, kept, dropped) && close(table, threshold, dropped, kept));
    assert(roots[roots[kept] as int] == roots[kept]);
    assert forall|i: int| 0 <= i < after.len() implies #[trigger] after[i] <= i by {
        assert(roots[i] <= i);
    }
    assert forall|i: int| 0 <= i < after.len() implies after[#[trigger] after[i] as int]
        == after[i] by {
        assert(roots[roots[i] as int] == roots[i]);
    }
    assert forall|i: int, j: int|
        0 <= i < after.len() && 0 <= j < after.len() && #[trigger] after[i]
            == #[trigger] after[j] implies inseparable(table, threshold, i, j) by {
        if roots[i] == roots[j] {
            assert(inseparable(table, threshold, i, j));
        } else {
            let (low, high) = if roots[i] == drop {
                (j, i)
            } else {
                (i, j)
            };
            assert(roots[low] == roots[kept] && roots[high] == roots[dropped]);
            assert(inseparable(table, threshold, low, kept));
            assert(inseparable(table, threshold, high, dropped));
            assert forall|label: spec_fn(int) -> int| #[trigger]
                respects(label, table, threshold) implies label(i) == label(j) by {
                assert(label(kept) == label(dropped));
            }
        }
    }
    assert forall|x: int, y: int|
        0 <= x < y < after.len() && (x < a || (x == a && y < b + 1)) && #[trigger] close(
            table,
            threshold,
            x,
            y,
        ) implies after[x] == after[y] by {
        if x == a && y == b {
        } else {
            assert(roots[x] == roots[y]);
        }
    }
}

/// Once every pair of close clusters has one root, the clusters of one root
/// are those that are linked.
proof fn lemma_settled_roots(roots: Seq<usize>, table: Seq<Seq<Option<u64>>>, threshold: u64)
    requires
        table.len() <= roots.len(),
        rooted(roots),
        sound(roots, table, threshold),
        settled(roots, table, threshold, roots.len() as int, 0),
    ensures
        are_roots(roots, table, threshold, roots.len() as int),
{
    let label = |x: int|
        if 0 <= x < roots.len() {
            roots[x] as int
        } else {
            -1
        };
    assert forall|x: int, y: int| #[trigger] close(table, threshold, x, y) implies label(x)
        == label(y) by {
        assert(close(table, threshold, y, x));
        if x < y {
            assert(roots[x] == roots[y]);
        } else if y < x {
            assert(roots[y] == roots[x]);
        }
    }
    assert(respects(label, table, threshold));
    assert forall|i: int, j: int| 0 <= i < roots.len() && 0 <= j < roots.len() implies (
    #[trigger] roots[i] == #[trigger] roots[j] <==> linked(table, threshold, i, j)) by {
        if roots[i] == roots[j] {
            lemma_inseparable_is_linked(table, threshold, i, j);
        }
        if linked(table, threshold, i, j) {
            lemma_linked_is_inseparable(table, threshold, i, j);
            assert(label(i) == label(j));
        }
    }
}

/// The firsts are clusters below the limit, in rising order, and each is
/// linked to no cluster before it.
proof fn lemma_firsts(table: Seq<Seq<Option<u64>>>, threshold: u64, limit: int)
    ensures
        forall|p: int|
            0 <= p < firsts(table, threshold, limit).len() ==> {
                &&& 0 <= #[trigger] firsts(table, threshold, limit)[p] < limit
                &&& is_first(table, threshold, firsts(table, threshold, limit)[p])
            },
        forall|p: int, q: int|
            0 <= p < q < firsts(table, threshold, limit).len() ==> #[trigger] firsts(
                table,
                threshold,
                limit,
            )[p] < #[trigger] firsts(table, threshold, limit)[q],
    decreases limit,
{
    if limit > 0 {
        lemma_firsts(table, threshold, limit - 1);
        let before = firsts(table, threshold, limit - 1);
        let now = firsts(table, threshold, limit);
        assert forall|p: int| 0 <= p < now.len() implies {
            &&& 0 <= #[trigger] now[p] < limit
            &&& is_first(table, threshold, now[p])
        } by {
            if p < before.len() {
                assert(now[p] == before[p]);
            }
        }
        assert forall|p: int, q: int| 0 <= p < q < now.len() implies #[trigger] now[p]
            < #[trigger] now[q] by {
            assert(now[p] == before[p]);
            if q < before.len() {
                assert(now[q] == before[q]);
            }
        }
    }
}

/// Nothing is gathered for a cluster from the clusters before it when it is
/// linked to none of them.
proof fn lemma_nothing_gathered(
    clusters: Seq<ClusterView>,
    table: Seq<Seq<Option<u64>>>,
    threshold: u64,
    first: int,
    limit: int,
)
    requires
        forall|b: int| 0 <= b < limit ==> !linked(table, threshold, first, b),
    ensures
        gathered(clusters, table, threshold, first, limit) == Seq::<Image>::empty(),
    decreases limit,
{
    if limit > 0 {
        lemma_nothing_gathered(clusters, table, threshold, first, limit - 1);
    }
}

/// Makes linked clusters one, given the distances between the anchors:
/// `table[a][b]` is the distance measured from the anchor of cluster `a` to
/// the anchor of cluster `b`, `None` where measuring failed. Two clusters
/// are close when each anchor is within the threshold of the other, and
/// clusters that a chain of close pairs connects become one cluster. It has
/// the anchor and the name of the first of them, and the members of all of
/// them, cluster after cluster, each cluster's members in their order.
pub fn merge_measured(
    image_clusters: Vec<Cluster>,
    table: &Vec<Vec<Option<u64>>>,
    threshold: u64,
) -> (merged_clusters: Vec<Cluster>)
    ensures
        views(merged_clusters@) == merge_model(views(image_clusters@), rows(table@), threshold),
{
    let count = image_clusters.len();
    let roots = find_roots(table, threshold, count);
    let ghost clusters = views(image_clusters@);
    let ghost known = trimmed(rows(table@), count as int);
    let mut merged_clusters: Vec<Cluster> = Vec::new();
    let mut slots: Vec<usize> = Vec::new();
    for cluster in it: image_clusters.into_iter()
        invariant
            count == clusters.len(),
            it.seq().len() == count,
            views(it.seq()) == clusters,
            are_roots(roots@, known, threshold, count as int),
            slots.len() == it.index(),
            views(merged_clusters@) == assembled(clusters, known, threshold, it.index()),
            forall|j: int|
                0 <= j < it.index() ==> {
                    &&& (#[trigger] slots[j]) < merged_clusters.len()
                    &&& firsts(known, threshold, it.index())[slots[j] as int] == roots[j]
                },
    {
        let k = slots.len();
        let ghost done = views(merged_clusters@);
        proof {
            lemma_roots_are_firsts(roots@, known, threshold, count as int, k as int);
            assert(cluster@ == clusters[k as int]);
        }
        if roots[k] == k {
            slots.push(merged_clusters.len());
            merged_clusters.push(cluster);
            proof {
                lemma_first_starts(clusters, known, threshold, k as int);
                assert(views(merged_clusters@) =~= done.push(clusters[k as int]));
            }
        } else {
            let slot = slots[roots[k]];
            proof {
                assert(done.len() == firsts(known, threshold, k as int).len());
                lemma_linked_joins(clusters, known, threshold, k as int, slot as int);
            }
            slots.push(slot);
            let mut cluster = cluster;
            merged_clusters[slot].images.append(&mut cluster.images);
            proof {
                assert(views(merged_clusters@) =~= done.update(
                    slot as int,
                    ClusterView {
                        images: done[slot as int].images + clusters[k as int].images,
                        ..done[slot as int]
                    },
                ));
            }
        }
    }
    merged_clusters
}

/// A cluster that is linked to no cluster before it starts a merged cluster
/// of its own.
proof fn lemma_first_starts(
    clusters: Seq<ClusterView>,
    table: Seq<Seq<Option<u64>>>,
    threshold: u64,
    k: int,
)
    requires
        0 <= k,
        is_first(table, threshold, k),
    ensures
        assembled(clusters, table, threshold, k + 1) == assembled(clusters, table, threshold, k).push(
            clusters[k],
        ),
{
    lemma_firsts(table, threshold, k);
    let before = assembled(clusters, table, threshold, k);
    let after = assembled(clusters, table, threshold, k + 1);
    lemma_linked_to_itself(table, threshold, k);
    assert forall|b: int| 0 <= b < k implies !linked(table, threshold, k, b) by {
        if linked(table, threshold, k, b) {
            lemma_linked_is_symmetric(table, threshold, k, b);
        }
    }
    lemma_nothing_gathered(clusters, table, threshold, k, k);
    assert(Seq::<Image>::empty() + clusters[k].images =~= clusters[k].images);
    assert(merged(clusters, table, threshold, k, k + 1) == clusters[k]);
    assert forall|p: int| 0 <= p < before.len() implies after[p] == before[p] by {
        let head = firsts(table, threshold, k)[p];
        assert(0 <= head < k);
        if linked(table, threshold, head, k) {
        }
    }
    assert(after =~= before.push(clusters[k]));
}

/// A cluster that is linked to the first cluster of a merged cluster adds
/// its members to that merged cluster, and changes no other.
proof fn lemma_linked_joins(
    clusters: Seq<ClusterView>,
    table: Seq<Seq<Option<u64>>>,
    threshold: u64,
    k: int,
    p: int,
)
    requires
        0 <= k,
        0 <= p < firsts(table, threshold, k).len(),
        linked(table, threshold, firsts(table, threshold, k)[p], k),
    ensures
        firsts(table, threshold, k + 1) == firsts(table, threshold, k),
        assembled(clusters, table, threshold, k + 1) == assembled(
            clusters,
            table,
            threshold,
            k,
        ).update(
            p,
            ClusterView {
                images: assembled(clusters, table, threshold, k)[p].images + clusters[k].images,
                ..assembled(clusters, table, threshold, k)[p]
            },
        ),
{
    lemma_firsts(table, threshold, k);
    let heads = firsts(table, threshold, k);
    let before = assembled(clusters, table, threshold, k);
    let after = assembled(clusters, table, threshold, k + 1);
    let grown = before.update(
        p,
        ClusterView { images: before[p].images + clusters[k].images, ..before[p] },
    );
    assert(0 <= heads[p] < k);
    assert(!is_first(table, threshold, k));
    assert forall|q: int| 0 <= q < after.len() implies after[q] == grown[q] by {
        if q != p && linked(table, threshold, heads[q], k) {
            lemma_linked_is_symmetric(table, threshold, heads[q], k);
            lemma_linked_is_symmetric(table, threshold, heads[p], k);
            if q < p {
                assert(heads[q] < heads[p]);
                lemma_linked_is_transitive(table, threshold, heads[q], k, heads[p]);
                assert(is_first(table, threshold, heads[p]));
            } else {
                assert(heads[p] < heads[q]);
                lemma_linked_is_transitive(table, threshold, heads[p], k, heads[q]);
                assert(is_first(table, threshold, heads[q]));
            }
        }
    }
    assert(after =~= grown);
}

/// A root is linked to no cluster before it, and only a root is; and every
/// cluster is linked to its root.
proof fn lemma_roots_are_firsts(
    roots: Seq<usize>,
    table: Seq<Seq<Option<u64>>>,
    threshold: u64,
    count: int,
    k: int,
)
    requires
        0 <= k < count,
        are_roots(roots, table, threshold, count),
    ensures
        roots[k] == k <==> is_first(table, threshold, k),
        linked(table, threshold, roots[k] as int, k),
{
    let root = roots[k] as int;
    assert(root <= k);
    assert(roots[root] == roots[k]);
    assert(linked(table, threshold, root, k));
    if root == k {
        assert forall|b: int| 0 <= b < k implies !linked(table, threshold, b, k) by {
            assert(roots[b] <= b);
            if linked(table, threshold, b, k) {
                assert(roots[b] == roots[k]);
            }
        }
    }
}

/// Measures from the anchor of each cluster to the anchor of each other.
fn measure_anchors<F: Fn(Coordinate, Coordinate) -> Option<u64>>(
    image_clusters: &Vec<Cluster>,
    measure: &F,
) -> (table: Vec<Vec<Option<u64>>>)
    requires
        forall|a: Coordinate, b: Coordinate| call_requires(measure, (a, b)),
    ensures
        gauged(*measure, views(image_clusters@), rows(table@)),
{
    let count = image_clusters.len();
    let mut table: Vec<Vec<Option<u64>>> = Vec::new();
    let mut a: usize = 0;
    while a < count
        invariant
            a <= count,
            count == image_clusters.len(),
            table.len() == a,
            forall|a: Coordinate, b: Coordinate| call_requires(measure, (a, b)),
            forall|x: int| 0 <= x < a ==> (#[trigger] table[x]).len() == count,
            forall|x: int, y: int|
                0 <= x < a && 0 <= y < count ==> if x == y {
                    (#[trigger] table[x][y]) is None
                } else {
                    call_ensures(
                        *measure,
                        (image_clusters[x].location, image_clusters[y].location),
                        table[x][y],
                    )
                },
        decreases count - a,
    {
        let mut row: Vec<Option<u64>> = Vec::new();
        let mut b: usize = 0;
        while b < count
            invariant
                a < count,
                b <= count,
                count == image_clusters.len(),
                row.len() == b,
                forall|a: Coordinate, b: Coordinate| call_requires(measure, (a, b)),
                forall|y: int|
                    0 <= y < b ==> if a == y {
                        (#[trigger] row[y]) is None
                    } else {
                        call_ensures(
                            *measure,
                            (image_clusters[a as int].location, image_clusters[y].location),
                            row[y],
                        )
                    },
            decreases count - b,
        {
            if a == b {
                row.push(None);
            } else {
                row.push(measure(image_clusters[a].location, image_clusters[b].location));
            }
            b += 1;
        }
        table.push(row);
        a += 1;
    }
    proof {
        let clusters = views(image_clusters@);
        let measured = rows(table@);
        assert forall|a: int, b: int|
            0 <= a < clusters.len() && 0 <= b < clusters.len() implies if a == b {
            (#[trigger] measured[a][b]) is None
        } else {
            call_ensures(*measure, (clusters[a].location, clusters[b].location), measured[a][b])
        } by {
            assert(measured[a][b] == table[a][b]);
        }
    }
    table
}

/// Whether clusters are merged after clustering.
#[derive(Clone, Copy, Debug, PartialEq, Eq, Structural)]
pub enum MergePolicy {
    /// The clusters stay as they are.
    Identity,
    /// Clusters whose anchors are linked by a chain of close pairs become
    /// one.
    Proximity,
}

impl Default for MergePolicy {
    /// By default nothing is merged.
    fn default() -> (policy: MergePolicy)
        ensures
            policy == MergePolicy::Identity,
    {
        MergePolicy::Identity
    }
}

/// Merges the clusters as the policy says. Under `Proximity` the distance
/// is measured from the anchor of each cluster to the anchor of each other,
/// and clusters that a chain of close pairs connects become one, as
/// [`merge_measured`] makes them; under `Identity` nothing is measured and
/// the clusters are returned as they are.
pub fn merge<F: Fn(Coordinate, Coordinate) -> Option<u64>>(
    image_clusters: Vec<Cluster>,
    policy: MergePolicy,
    threshold: u64,
    measure: &F,
) -> (merged_clusters: Vec<Cluster>)
    requires
        forall|a: Coordinate, b: Coordinate| call_requires(measure, (a, b)),
    ensures
        match policy {
            MergePolicy::Identity => merged_clusters == image_clusters,
            MergePolicy::Proximity => exists|table: Seq<Seq<Option<u64>>>|
                {
                    &&& #[trigger] gauged(*measure, views(image_clusters@), table)
                    &&& views(merged_clusters@) == merge_model(
                        views(image_clusters@),
                        table,
                        threshold,
                    )
                },
        },
{
    match policy {
        MergePolicy::Identity => image_clusters,
        MergePolicy::Proximity => {
            let table = measure_anchors(&image_clusters, measure);
            merge_measured(image_clusters, &table, threshold)
        },
    }
}

/// A cluster that is linked to no cluster before it is one of the firsts.
proof fn lemma_first_is_listed(table: Seq<Seq<Option<u64>>>, threshold: u64, head: int, limit: int)
    -> (p: int)
    requires
        0 <= head < limit,
        is_first(table, threshold, head),
    ensures
        0 <= p < firsts(table, threshold, limit).len(),
        firsts(table, threshold, limit)[p] == head,
    decreases limit,
{
    if head == limit - 1 {
        firsts(table, threshold, limit - 1).len() as int
    } else {
        lemma_first_is_listed(table, threshold, head, limit - 1)
    }
}

/// A cluster that is linked to a cluster before it is linked to one of the
/// firsts before it.
proof fn lemma_head_exists(table: Seq<Seq<Option<u64>>>, threshold: u64, k: int) -> (p: int)
    requires
        0 <= k,
        !is_first(table, threshold, k),
    ensures
        0 <= p < firsts(table, threshold, k).len(),
        linked(table, threshold, firsts(table, threshold, k)[p], k),
    decreases k,
{
    let b = choose|b: int| 0 <= b < k && linked(table, threshold, b, k);
    if is_first(table, threshold, b) {
        lemma_first_is_listed(table, threshold, b, k)
    } else {
        let q = lemma_head_exists(table, threshold, b);
        lemma_firsts(table, threshold, b);
        let head = firsts(table, threshold, b)[q];
        lemma_linked_is_transitive(table, threshold, head, b, k);
        lemma_first_is_listed(table, threshold, head, k)
    }
}

/// More members in one cluster are as many more members in all.
proof fn lemma_members_grown(clusters: Seq<ClusterView>, p: int, more: Seq<Image>)
    requires
        0 <= p < clusters.len(),
    ensures
        members(
            clusters.update(p, ClusterView { images: clusters[p].images + more, ..clusters[p] }),
        ) == members(clusters).add(more.to_multiset()),
    decreases clusters.len(),
{
    broadcast use vstd::multiset::group_multiset_axioms;

    let grown = clusters.update(
        p,
        ClusterView { images: clusters[p].images + more, ..clusters[p] },
    );
    if p == clusters.len() - 1 {
        assert(grown.drop_last() =~= clusters.drop_last());
        vstd::seq_lib::lemma_multiset_commutative(clusters[p].images, more);
    } else {
        lemma_members_grown(clusters.drop_last(), p, more);
        assert(grown.drop_last() =~= clusters.drop_last().update(
            p,
            ClusterView { images: clusters[p].images + more, ..clusters[p] },
        ));
    }
    assert(members(grown) =~= members(clusters).add(more.to_multiset()));
}

/// What the first clusters become holds what they held.
proof fn lemma_assembled_conserves(
    clusters: Seq<ClusterView>,
    table: Seq<Seq<Option<u64>>>,
    threshold: u64,
    limit: int,
)
    requires
        0 <= limit <= clusters.len(),
    ensures
        members(assembled(clusters, table, threshold, limit)) == members(clusters.take(limit)),
    decreases limit,
{
    if limit > 0 {
        let k = limit - 1;
        lemma_assembled_conserves(clusters, table, threshold, k);
        let before = assembled(clusters, table, threshold, k);
        assert(clusters.take(limit).drop_last() =~= clusters.take(k));
        assert(clusters.take(limit).last() == clusters[k]);
        if is_first(table, threshold, k) {
            lemma_first_starts(clusters, table, threshold, k);
            assert(before.push(clusters[k]).drop_last() =~= before);
        } else {
            let p = lemma_head_exists(table, threshold, k);
            lemma_linked_joins(clusters, table, threshold, k, p);
            lemma_members_grown(before, p, clusters[k].images);
        }
    }
}

/// Merging moves members and neither copies nor drops one: the merged
/// clusters hold what the clusters held.
pub proof fn lemma_merge_conserves(
    clusters: Seq<ClusterView>,
    table: Seq<Seq<Option<u64>>>,
    threshold: u64,
)
    ensures
        members(merge_model(clusters, table, threshold)) == members(clusters),
{
    lemma_assembled_conserves(
        clusters,
        trimmed(table, clusters.len() as int),
        threshold,
        clusters.len() as int,
    );
    assert(clusters.take(clusters.len() as int) =~= clusters);
}

/// Where no two clusters are close, merging changes nothing.
pub proof fn lemma_apart_stay_apart(
    clusters: Seq<ClusterView>,
    table: Seq<Seq<Option<u64>>>,
    threshold: u64,
)
    requires
        forall|a: int, b: int|
            a != b ==> !#[trigger] close(trimmed(table, clusters.len() as int), threshold, a, b),
    ensures
        merge_model(clusters, table, threshold) == clusters,
{
    let known = trimmed(table, clusters.len() as int);
    lemma_apart_are_firsts(clusters, known, threshold, clusters.len() as int);
    assert(clusters.take(clusters.len() as int) =~= clusters);
}

/// Where no two clusters are close, each cluster is a merged cluster of its
/// own.
proof fn lemma_apart_are_firsts(
    clusters: Seq<ClusterView>,
    table: Seq<Seq<Option<u64>>>,
    threshold: u64,
    limit: int,
)
    requires
        0 <= limit <= clusters.len(),
        forall|a: int, b: int| a != b ==> !#[trigger] close(table, threshold, a, b),
    ensures
        assembled(clusters, table, threshold, limit) == clusters.take(limit),
    decreases limit,
{
    if limit > 0 {
        let k = limit - 1;
        lemma_apart_are_firsts(clusters, table, threshold, k);
        let label = |x: int| x;
        assert(respects(label, table, threshold));
        assert forall|b: int| 0 <= b < k implies !linked(table, threshold, b, k) by {
            if linked(table, threshold, b, k) {
                lemma_linked_is_inseparable(table, threshold, b, k);
                assert(label(b) == label(k));
            }
        }
        lemma_first_starts(clusters, table, threshold, k);
        assert(clusters.take(k).push(clusters[k]) =~= clusters.take(limit));
    } else {
        assert(assembled(clusters, table, threshold, limit) =~= clusters.take(limit));
    }
}

/// What is gathered for a first cluster starts with its own members.
proof fn lemma_gathered_starts(
    clusters: Seq<ClusterView>,
    table: Seq<Seq<Option<u64>>>,
    threshold: u64,
    first: int,
    limit: int,
)
    requires
        0 <= first < limit,
        is_first(table, threshold, first),
    ensures
        clusters[first].images.is_prefix_of(gathered(clusters, table, threshold, first, limit)),
    decreases limit,
{
    if limit == first + 1 {
        assert forall|b: int| 0 <= b < first implies !linked(table, threshold, first, b) by {
            if linked(table, threshold, first, b) {
                lemma_linked_is_symmetric(table, threshold, first, b);
            }
        }
        lemma_nothing_gathered(clusters, table, threshold, first, first);
        lemma_linked_to_itself(table, threshold, first);
        assert(Seq::<Image>::empty() + clusters[first].images =~= clusters[first].images);
    } else {
        lemma_gathered_starts(clusters, table, threshold, first, limit - 1);
    }
}

/// Merging keeps the clusters anchored: a merged cluster stands where the
/// first of its clusters stood, and starts with that cluster's members.
pub proof fn lemma_merge_keeps_anchored(
    clusters: Seq<ClusterView>,
    table: Seq<Seq<Option<u64>>>,
    threshold: u64,
)
    requires
        all_anchored(clusters),
    ensures
        all_anchored(merge_model(clusters, table, threshold)),
{
    let known = trimmed(table, clusters.len() as int);
    let count = clusters.len() as int;
    let after = merge_model(clusters, table, threshold);
    lemma_firsts(known, threshold, count);
    assert forall|p: int| 0 <= p < after.len() implies anchored(#[trigger] after[p]) by {
        let first = firsts(known, threshold, count)[p];
        assert(anchored(clusters[first]));
        lemma_gathered_starts(clusters, known, threshold, first, count);
        assert(after[p].images.subrange(0, clusters[first].images.len() as int)[0]
            == after[p].images[0]);
    }
}

} // verus!
