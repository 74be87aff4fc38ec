//! Clustering pictures by the distance between their fingerprints.
//!
//! The pictures wait in a queue. The last one in the queue is taken out as a seed, and
//! with it every other waiting picture whose fingerprint lies within the threshold of
//! the seed's. A seed that draws at least one companion forms a cluster with them. This
//! repeats until the queue is empty. Members of a cluster are near the seed, not
//! necessarily near one another.

use crate::dhash::{hamming, hamming_distance, lemma_hamming_zero};
use crate::grouping::{
    all_indices, carries, class_of, index_lists, is_full_class, is_grouping, is_rising, lemma_class_members,
    lemma_filter_agree, lemma_filter_rising, lemma_filter_twice,
};
use crate::records::FileRecord;
use vstd::prelude::*;

verus! {

/// The fingerprint of the record at an index; none where it has none, or beyond the list.
pub open spec fn visual_key(records: Seq<FileRecord>) -> spec_fn(usize) -> Option<u64> {
    |i: usize|
        if i < records.len() {
            records[i as int].perceptual_hash
        } else {
            None
        }
}

/// The test "this index has a fingerprint".
pub open spec fn has_fingerprint(key_of: spec_fn(usize) -> Option<u64>) -> spec_fn(usize) -> bool {
    |i: usize| key_of(i) is Some
}

/// The indices of the records that have a fingerprint, in rising order.
pub open spec fn pictures(records: Seq<FileRecord>) -> Seq<usize> {
    all_indices(records.len()).filter(has_fingerprint(visual_key(records)))
}

/// The distance between the fingerprints at two indices.
pub open spec fn distance(key_of: spec_fn(usize) -> Option<u64>, a: usize, b: usize) -> nat {
    hamming(key_of(a)->0, key_of(b)->0)
}

/// The test "within `threshold` of `seed`".
pub open spec fn near(key_of: spec_fn(usize) -> Option<u64>, seed: usize, threshold: u32) -> spec_fn(usize) -> bool {
    |i: usize| distance(key_of, seed, i) <= threshold
}

/// The test "farther than `threshold` from `seed`".
pub open spec fn far(key_of: spec_fn(usize) -> Option<u64>, seed: usize, threshold: u32) -> spec_fn(usize) -> bool {
    |i: usize| distance(key_of, seed, i) > threshold
}

/// The clusters that a queue gives: the last in the queue is the seed; it takes along,
/// in queue order, all that are near it; the others queue on.
pub open spec fn clusters_of(key_of: spec_fn(usize) -> Option<u64>, queue: Seq<usize>, threshold: u32) -> Seq<
    Seq<usize>,
>
    decreases queue.len(),
    via clusters_of_decreases
{
    if queue.len() == 0 {
        Seq::empty()
    } else {
        let seed = queue.last();
        let others = queue.drop_last();
        let companions = others.filter(near(key_of, seed, threshold));
        let later = clusters_of(key_of, others.filter(far(key_of, seed, threshold)), threshold);
        if companions.len() >= 1 {
            seq![seq![seed] + companions] + later
        } else {
            later
        }
    }
}

#[via_fn]
proof fn clusters_of_decreases(key_of: spec_fn(usize) -> Option<u64>, queue: Seq<usize>, threshold: u32) {
    if queue.len() != 0 {
        queue.drop_last().lemma_filter_len(far(key_of, queue.last(), threshold));
    }
}

/// The clusters of look-alikes among the records, for a threshold.
pub open spec fn visual_clusters(records: Seq<FileRecord>, threshold: u32) -> Seq<Seq<usize>> {
    clusters_of(visual_key(records), pictures(records), threshold)
}

/// The indices of the records that have a fingerprint, in rising order.
pub fn picture_indices(records: &Vec<FileRecord>) -> (queue: Vec<usize>)
    ensures
        queue@ == pictures(records@),
        forall|q: int| 0 <= q < queue.len() ==> queue[q] < records.len() && records[queue[q] as int].perceptual_hash is Some,
{
    let ghost key_of = visual_key(records@);
    let ghost all = all_indices(records@.len());
    let mut queue: Vec<usize> = Vec::new();
    let mut i: usize = 0;
    proof {
        assert(all.take(0) =~= Seq::<usize>::empty());
        all.take(0).lemma_filter_len(has_fingerprint(key_of));
        assert(all.take(0).filter(has_fingerprint(key_of)) =~= Seq::<usize>::empty());
    }
    while i < records.len()
        invariant
            i <= records.len(),
            key_of == visual_key(records@),
            all == all_indices(records@.len()),
            queue@ == all.take(i as int).filter(has_fingerprint(key_of)),
            forall|q: int| 0 <= q < queue.len() ==> queue[q] < records.len() && records[queue[q] as int].perceptual_hash is Some,
        decreases records.len() - i,
    {
        proof {
            assert(all.take(i + 1) =~= all.take(i as int).push(i));
            all.take(i as int).lemma_filter_push(i, has_fingerprint(key_of));
        }
        if records[i].perceptual_hash.is_some() {
            queue.push(i);
        }
        i += 1;
    }
    proof {
        assert(all.take(records.len() as int) =~= all);
    }
    queue
}

/// Clusters the records that have a fingerprint. Each cluster lists its seed first, then
/// its companions in the order of the records; the cluster of the last record comes
/// first. A record that is near no seed, or whose seed draws no one, is in no cluster.
pub fn cluster_by_distance(records: &Vec<FileRecord>, threshold: u32) -> (clusters: Vec<Vec<usize>>)
    ensures
        index_lists(clusters@) == visual_clusters(records@, threshold),
{
    let ghost key_of = visual_key(records@);
    let mut queue = picture_indices(records);
    let ghost whole = queue@;
    let mut clusters: Vec<Vec<usize>> = Vec::new();
    proof {
        assert(index_lists(clusters@) =~= Seq::<Seq<usize>>::empty());
    }
    loop
        invariant
            key_of == visual_key(records@),
            forall|q: int| 0 <= q < queue.len() ==> queue[q] < records.len() && records[queue[q] as int].perceptual_hash is Some,
            index_lists(clusters@) + clusters_of(key_of, queue@, threshold) == clusters_of(key_of, whole, threshold),
        ensures
            queue.len() == 0,
            index_lists(clusters@) + clusters_of(key_of, queue@, threshold) == clusters_of(key_of, whole, threshold),
        decreases queue.len(),
    {
        let ghost before = queue@;
        let ghost found = index_lists(clusters@);
        let seed = match queue.pop() {
            Some(seed) => seed,
            None => {
                break ;
            },
        };
        assert(seed == before.last() && queue@ == before.drop_last());
        let seed_hash = match records[seed].perceptual_hash {
            Some(hash) => hash,
            None => 0,
        };
        let mut group: Vec<usize> = Vec::new();
        group.push(seed);
        let mut waiting: Vec<usize> = Vec::new();
        let mut k: usize = 0;
        proof {
            assert(queue@.take(0) =~= Seq::<usize>::empty());
            queue@.take(0).lemma_filter_len(near(key_of, seed, threshold));
            queue@.take(0).lemma_filter_len(far(key_of, seed, threshold));
            assert(group@ =~= seq![seed] + queue@.take(0).filter(near(key_of, seed, threshold)));
            assert(waiting@ =~= queue@.take(0).filter(far(key_of, seed, threshold)));
        }
        while k < queue.len()
            invariant
                k <= queue.len(),
                key_of == visual_key(records@),
                seed < records.len(),
                records[seed as int].perceptual_hash == Some(seed_hash),
                forall|q: int| 0 <= q < queue.len() ==> queue[q] < records.len() && records[queue[q] as int].perceptual_hash is Some,
                forall|q: int| 0 <= q < waiting.len() ==> waiting[q] < records.len() && records[waiting[q] as int].perceptual_hash is Some,
                group@ == seq![seed] + queue@.take(k as int).filter(near(key_of, seed, threshold)),
                waiting@ == queue@.take(k as int).filter(far(key_of, seed, threshold)),
            decreases queue.len() - k,
        {
            let other = queue[k];
            let other_hash = match records[other].perceptual_hash {
                Some(hash) => hash,
                None => 0,
            };
            proof {
                assert(queue@.take(k + 1) =~= queue@.take(k as int).push(other));
                queue@.take(k as int).lemma_filter_push(other, near(key_of, seed, threshold));
                queue@.take(k as int).lemma_filter_push(other, far(key_of, seed, threshold));
                assert(distance(key_of, seed, other) == hamming(seed_hash, other_hash));
            }
            if hamming_distance(seed_hash, other_hash) <= threshold {
                group.push(other);
                assert(group@ =~= seq![seed] + queue@.take(k + 1).filter(near(key_of, seed, threshold)));
            } else {
                waiting.push(other);
            }
            k += 1;
        }
        proof {
            assert(queue@.take(queue.len() as int) =~= queue@);
        }
        queue = waiting;
        if group.len() > 1 {
            clusters.push(group);
            proof {
                assert(index_lists(clusters@) =~= found + seq![group@]);
                assert(found + seq![group@] + clusters_of(key_of, queue@, threshold) =~= found + (seq![group@]
                    + clusters_of(key_of, queue@, threshold)));
            }
        } else {
            proof {
                assert(index_lists(clusters@) =~= found);
            }
        }
    }
    proof {
        assert(queue@ =~= Seq::<usize>::empty());
        assert(index_lists(clusters@) + Seq::<Seq<usize>>::empty() =~= index_lists(clusters@));
    }
    clusters
}

/// Whether every index in the queue has a fingerprint.
pub open spec fn all_fingerprinted(key_of: spec_fn(usize) -> Option<u64>, queue: Seq<usize>) -> bool {
    forall|q: int| 0 <= q < queue.len() ==> key_of(#[trigger] queue[q]) is Some
}

/// Whether `cluster` has a seed and at least one companion, all of them from the queue,
/// every companion within the threshold of the seed, which stands first.
pub open spec fn is_cluster(
    key_of: spec_fn(usize) -> Option<u64>,
    queue: Seq<usize>,
    threshold: u32,
    cluster: Seq<usize>,
) -> bool {
    &&& cluster.len() >= 2
    &&& forall|m: int| 0 <= m < cluster.len() ==> queue.contains(#[trigger] cluster[m])
    &&& forall|m: int| 1 <= m < cluster.len() ==> distance(key_of, cluster[0], #[trigger] cluster[m]) <= threshold
}

/// Every cluster has a seed and at least one companion, all of them from the queue, and
/// every companion lies within the threshold of the seed.
pub proof fn lemma_cluster_members(key_of: spec_fn(usize) -> Option<u64>, queue: Seq<usize>, threshold: u32)
    ensures
        forall|c: int| 0 <= c < clusters_of(key_of, queue, threshold).len() ==> is_cluster(
            key_of,
            queue,
            threshold,
            #[trigger] clusters_of(key_of, queue, threshold)[c],
        ),
    decreases queue.len(),
{
    let clusters = clusters_of(key_of, queue, threshold);
    if queue.len() > 0 {
        let seed = queue.last();
        let others = queue.drop_last();
        let companions = others.filter(near(key_of, seed, threshold));
        let waiting = others.filter(far(key_of, seed, threshold));
        let later = clusters_of(key_of, waiting, threshold);
        let first = companions.len() >= 1;
        lemma_cluster_members(key_of, waiting, threshold);
        assert forall|c: int| 0 <= c < clusters.len() implies is_cluster(key_of, queue, threshold, #[trigger] clusters[c]) by {
            if first && c == 0 {
                let cluster = seq![seed] + companions;
                assert(clusters[0] == cluster);
                assert forall|m: int| 0 <= m < cluster.len() implies queue.contains(#[trigger] cluster[m]) by {
                    if m == 0 {
                        assert(cluster[0] == queue[queue.len() - 1]);
                    } else {
                        assert(cluster[m] == companions[m - 1]);
                        assert(companions.contains(companions[m - 1]));
                        others.lemma_filter_contains_rev(near(key_of, seed, threshold), companions[m - 1]);
                        let at = choose|at: int| 0 <= at < others.len() && others[at] == companions[m - 1];
                        assert(queue[at] == companions[m - 1]);
                    }
                }
                assert forall|m: int| 1 <= m < cluster.len() implies distance(key_of, cluster[0], #[trigger] cluster[m])
                    <= threshold by {
                    assert(cluster[m] == companions[m - 1]);
                    others.lemma_filter_pred(near(key_of, seed, threshold), m - 1);
                }
            } else {
                let l = if first {
                    c - 1
                } else {
                    c
                };
                let cluster = later[l];
                assert(clusters[c] == cluster);
                assert(is_cluster(key_of, waiting, threshold, cluster));
                assert forall|m: int| 0 <= m < cluster.len() implies queue.contains(#[trigger] cluster[m]) by {
                    assert(waiting.contains(cluster[m]));
                    others.lemma_filter_contains_rev(far(key_of, seed, threshold), cluster[m]);
                    let at = choose|at: int| 0 <= at < others.len() && others[at] == cluster[m];
                    assert(queue[at] == cluster[m]);
                }
            }
        }
    }
}

/// A cluster with its seed moved from the front to the back: the order of the queue.
pub open spec fn seed_last(cluster: Seq<usize>) -> Seq<usize> {
    cluster.drop_first().push(cluster[0])
}

/// The clusters, each with its seed moved to the back.
pub open spec fn in_queue_order(clusters: Seq<Seq<usize>>) -> Seq<Seq<usize>> {
    Seq::new(clusters.len(), |c: int| seed_last(clusters[c]))
}

/// With threshold 0 the clusters are the groups of equal fingerprints: every fingerprint
/// that two or more pictures share gives one cluster, made of all the pictures that have
/// it, and there is no other cluster.
pub proof fn lemma_threshold_zero_groups_equal(key_of: spec_fn(usize) -> Option<u64>, queue: Seq<usize>)
    requires
        all_fingerprinted(key_of, queue),
    ensures
        is_grouping(queue, key_of, in_queue_order(clusters_of(key_of, queue, 0))),
    decreases queue.len(),
{
    let clusters = clusters_of(key_of, queue, 0);
    let groups = in_queue_order(clusters);
    if queue.len() == 0 {
        assert forall|key: u64| (#[trigger] class_of(queue, key_of, key)).len() >= 2 implies groups.contains(
            class_of(queue, key_of, key),
        ) by {
            lemma_class_members(queue, key_of, key);
        }
    } else {
        let seed = queue.last();
        let fingerprint = key_of(seed)->0;
        let others = queue.drop_last();
        let companions = others.filter(near(key_of, seed, 0));
        let waiting = others.filter(far(key_of, seed, 0));
        let later = clusters_of(key_of, waiting, 0);
        let later_groups = in_queue_order(later);
        assert(queue =~= others.push(seed));
        assert(key_of(queue[queue.len() - 1]) is Some);

        // Near the seed means carrying its fingerprint.
        assert forall|i: int| 0 <= i < others.len() implies near(key_of, seed, 0)(#[trigger] others[i]) == carries(
            key_of,
            fingerprint,
        )(others[i]) by {
            assert(others[i] == queue[i]);
            assert(key_of(queue[i]) is Some);
            lemma_hamming_zero(fingerprint, key_of(others[i])->0);
        }
        lemma_filter_agree(others, near(key_of, seed, 0), carries(key_of, fingerprint));
        others.lemma_filter_push(seed, carries(key_of, fingerprint));
        assert(class_of(queue, key_of, fingerprint) == companions.push(seed));

        // Those that queue on all have a fingerprint.
        assert forall|q: int| 0 <= q < waiting.len() implies key_of(#[trigger] waiting[q]) is Some by {
            assert(waiting.contains(waiting[q]));
            others.lemma_filter_contains_rev(far(key_of, seed, 0), waiting[q]);
            let at = choose|at: int| 0 <= at < others.len() && others[at] == waiting[q];
            assert(queue[at] == waiting[q]);
        }
        lemma_threshold_zero_groups_equal(key_of, waiting);

        // Any other fingerprint has its whole class among those that queue on.
        assert forall|key: u64| key != fingerprint implies #[trigger] class_of(queue, key_of, key) == class_of(
            waiting,
            key_of,
            key,
        ) by {
            others.lemma_filter_push(seed, carries(key_of, key));
            assert forall|x: usize| #[trigger] carries(key_of, key)(x) == (far(key_of, seed, 0)(x) && carries(key_of, key)(x)) by {
                if key_of(x) == Some(key) {
                    lemma_hamming_zero(fingerprint, key);
                }
            }
            lemma_filter_twice(others, far(key_of, seed, 0), carries(key_of, key), carries(key_of, key));
        }

        let first = companions.len() >= 1;
        if first {
            assert(seed_last(seq![seed] + companions) =~= companions.push(seed));
            assert(groups[0] == class_of(queue, key_of, fingerprint));
            others.lemma_filter_pred(carries(key_of, fingerprint), 0);
            assert(is_full_class(queue, key_of, groups[0]));
        }
        assert forall|l: int| 0 <= l < later.len() implies #[trigger] later_groups[l] == groups[if first {
            l + 1
        } else {
            l
        }] && is_full_class(queue, key_of, later_groups[l]) && key_of(later_groups[l][0]) != Some(fingerprint) by {
            let group = later_groups[l];
            assert(is_full_class(waiting, key_of, group));
            let key = key_of(group[0])->0;
            lemma_class_members(waiting, key_of, key);
            assert(waiting.contains(group[0]));
            let at = choose|at: int| 0 <= at < waiting.len() && waiting[at] == group[0];
            others.lemma_filter_pred(far(key_of, seed, 0), at);
            lemma_hamming_zero(fingerprint, key);
            assert(key != fingerprint);
        }
        assert forall|g: int| 0 <= g < groups.len() implies is_full_class(queue, key_of, #[trigger] groups[g]) by {
            if !(first && g == 0) {
                let l = if first {
                    g - 1
                } else {
                    g
                };
                assert(later_groups[l] == groups[g]);
            }
        }
        assert forall|key: u64| (#[trigger] class_of(queue, key_of, key)).len() >= 2 implies groups.contains(
            class_of(queue, key_of, key),
        ) by {
            if key == fingerprint {
                assert(groups[0] == class_of(queue, key_of, key));
            } else {
                assert(later_groups.contains(class_of(waiting, key_of, key)));
                let l = choose|l: int| 0 <= l < later_groups.len() && later_groups[l] == class_of(waiting, key_of, key);
                assert(later_groups[l] == groups[if first {
                    l + 1
                } else {
                    l
                }]);
            }
        }
        assert forall|g: int, h: int| 0 <= g < h < groups.len() implies #[trigger] groups[g] != #[trigger] groups[h] by {
            if first && g == 0 {
                assert(later_groups[h - 1] == groups[h]);
                assert(key_of(groups[0][0]) == Some(fingerprint));
            } else {
                let lg = if first {
                    g - 1
                } else {
                    g
                };
                let lh = if first {
                    h - 1
                } else {
                    h
                };
                assert(later_groups[lg] == groups[g]);
                assert(later_groups[lh] == groups[h]);
            }
        }
    }
}

/// Whether no index stands in both lists.
pub open spec fn are_disjoint(a: Seq<usize>, b: Seq<usize>) -> bool {
    forall|m: int, n: int| 0 <= m < a.len() && 0 <= n < b.len() ==> a[m] != b[n]
}

/// No picture is in two clusters, and none is twice in one.
pub proof fn lemma_clusters_disjoint(key_of: spec_fn(usize) -> Option<u64>, queue: Seq<usize>, threshold: u32)
    requires
        is_rising(queue),
    ensures
        forall|c: int| 0 <= c < clusters_of(key_of, queue, threshold).len() ==> (#[trigger] clusters_of(
            key_of,
            queue,
            threshold,
        )[c]).no_duplicates(),
        forall|c: int, d: int|
            0 <= c < d < clusters_of(key_of, queue, threshold).len() ==> are_disjoint(
                #[trigger] clusters_of(key_of, queue, threshold)[c],
                #[trigger] clusters_of(key_of, queue, threshold)[d],
            ),
    decreases queue.len(),
{
    let clusters = clusters_of(key_of, queue, threshold);
    if queue.len() > 0 {
        let seed = queue.last();
        let others = queue.drop_last();
        let companions = others.filter(near(key_of, seed, threshold));
        let waiting = others.filter(far(key_of, seed, threshold));
        let later = clusters_of(key_of, waiting, threshold);
        let first = companions.len() >= 1;
        let cluster = seq![seed] + companions;
        assert(is_rising(others));
        lemma_filter_rising(others, near(key_of, seed, threshold));
        lemma_filter_rising(others, far(key_of, seed, threshold));
        lemma_clusters_disjoint(key_of, waiting, threshold);
        lemma_cluster_members(key_of, waiting, threshold);
        // All who stay behind the seed stand before it in the queue.
        assert forall|m: int| 0 <= m < companions.len() implies #[trigger] companions[m] < seed && near(key_of, seed, threshold)(
            companions[m],
        ) by {
            others.lemma_filter_pred(near(key_of, seed, threshold), m);
            assert(companions.contains(companions[m]));
            others.lemma_filter_contains_rev(near(key_of, seed, threshold), companions[m]);
            let at = choose|at: int| 0 <= at < others.len() && others[at] == companions[m];
            assert(queue[at] < queue[queue.len() - 1]);
        }
        assert forall|w: int| 0 <= w < waiting.len() implies #[trigger] waiting[w] < seed && far(key_of, seed, threshold)(
            waiting[w],
        ) by {
            others.lemma_filter_pred(far(key_of, seed, threshold), w);
            assert(waiting.contains(waiting[w]));
            others.lemma_filter_contains_rev(far(key_of, seed, threshold), waiting[w]);
            let at = choose|at: int| 0 <= at < others.len() && others[at] == waiting[w];
            assert(queue[at] < queue[queue.len() - 1]);
        }
        assert(cluster.no_duplicates()) by {
            assert forall|m: int, n: int| 0 <= m < cluster.len() && 0 <= n < cluster.len() && m != n implies cluster[m]
                != cluster[n] by {
                if m > 0 {
                    assert(cluster[m] == companions[m - 1]);
                }
                if n > 0 {
                    assert(cluster[n] == companions[n - 1]);
                }
            }
        }
        assert forall|l: int| 0 <= l < later.len() implies are_disjoint(cluster, #[trigger] later[l]) by {
            assert(is_cluster(key_of, waiting, threshold, later[l]));
            assert forall|m: int, n: int| 0 <= m < cluster.len() && 0 <= n < later[l].len() implies cluster[m] != later[l][n] by {
                assert(waiting.contains(later[l][n]));
                let w = choose|w: int| 0 <= w < waiting.len() && waiting[w] == later[l][n];
                assert(waiting[w] < seed);
                if m > 0 {
                    assert(cluster[m] == companions[m - 1]);
                    assert(near(key_of, seed, threshold)(companions[m - 1]));
                    assert(far(key_of, seed, threshold)(waiting[w]));
                }
            }
        }
        assert forall|c: int| 0 <= c < clusters.len() implies (#[trigger] clusters[c]).no_duplicates() by {
            if !(first && c == 0) {
                assert(clusters[c] == later[if first {
                    c - 1
                } else {
                    c
                }]);
            }
        }
        assert forall|c: int, d: int| 0 <= c < d < clusters.len() implies are_disjoint(
            #[trigger] clusters[c],
            #[trigger] clusters[d],
        ) by {
            if first {
                assert(clusters[d] == later[d - 1]);
                if c > 0 {
                    assert(clusters[c] == later[c - 1]);
                }
            } else {
                assert(clusters[c] == later[c]);
                assert(clusters[d] == later[d]);
            }
        }
    }
}

/// The pictures of a catalogue stand in rising order and all have a fingerprint.
pub proof fn lemma_pictures_rising(records: Seq<FileRecord>)
    requires
        records.len() <= usize::MAX,
    ensures
        is_rising(pictures(records)),
        all_fingerprinted(visual_key(records), pictures(records)),
        forall|q: int| 0 <= q < pictures(records).len() ==> #[trigger] pictures(records)[q] < records.len(),
{
    let all = all_indices(records.len());
    let queue = pictures(records);
    lemma_filter_rising(all, has_fingerprint(visual_key(records)));
    assert forall|q: int| 0 <= q < queue.len() implies visual_key(records)(#[trigger] queue[q]) is Some && queue[q]
        < records.len() by {
        all.lemma_filter_pred(has_fingerprint(visual_key(records)), q);
    }
}

} // verus!
