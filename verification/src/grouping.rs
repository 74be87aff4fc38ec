//! Grouping candidates by a key: the model shared by size bucketing, content-hash
//! grouping and every other "file these under that" step of the scan.
//!
//! Candidates are indices into a list. A key function gives each candidate its key, or
//! none. The class of a key is the candidates that carry it, in their given order. A
//! grouping lists every class of two or more members exactly once.

use crate::buckets::{file_under, filed_under, lists_contents};
use vstd::prelude::*;

verus! {

/// The index lists as sequences.
pub open spec fn index_lists(groups: Seq<Vec<usize>>) -> Seq<Seq<usize>> {
    Seq::new(groups.len(), |g: int| groups[g]@)
}

/// The indices `0, 1, .., n - 1`.
pub open spec fn all_indices(n: nat) -> Seq<usize> {
    Seq::new(n, |i: int| i as usize)
}

/// The test "this candidate carries `key`".
pub open spec fn carries<K>(key_of: spec_fn(usize) -> Option<K>, key: K) -> spec_fn(usize) -> bool {
    |i: usize| key_of(i) == Some(key)
}

/// The candidates that carry `key`, in the order of `candidates`.
pub open spec fn class_of<K>(candidates: Seq<usize>, key_of: spec_fn(usize) -> Option<K>, key: K) -> Seq<
    usize,
> {
    candidates.filter(carries(key_of, key))
}

/// Whether `group` is the whole class of the key that its first member carries, and that
/// class has `least` members or more, at least one.
pub open spec fn is_class_of_size<K>(
    candidates: Seq<usize>,
    key_of: spec_fn(usize) -> Option<K>,
    group: Seq<usize>,
    least: nat,
) -> bool {
    &&& group.len() >= least
    &&& group.len() >= 1
    &&& key_of(group[0]) is Some
    &&& group == class_of(candidates, key_of, key_of(group[0])->0)
}

/// Whether `group` is the whole class of the key that its first member carries, and that
/// class has two members or more.
pub open spec fn is_full_class<K>(
    candidates: Seq<usize>,
    key_of: spec_fn(usize) -> Option<K>,
    group: Seq<usize>,
) -> bool {
    is_class_of_size(candidates, key_of, group, 2)
}

/// Whether `groups` is the grouping of `candidates` by `key_of` into classes of `least`
/// members or more: each group is the whole class of a key and has that many members;
/// every such class is there; none is there twice. The order of the groups is left open.
pub open spec fn is_grouping_from<K>(
    candidates: Seq<usize>,
    key_of: spec_fn(usize) -> Option<K>,
    groups: Seq<Seq<usize>>,
    least: nat,
) -> bool {
    &&& forall|g: int| 0 <= g < groups.len() ==> is_class_of_size(candidates, key_of, #[trigger] groups[g], least)
    &&& forall|key: K|
        (#[trigger] class_of(candidates, key_of, key)).len() >= least && class_of(candidates, key_of, key).len() >= 1
            ==> groups.contains(class_of(candidates, key_of, key))
    &&& forall|g: int, h: int| 0 <= g < h < groups.len() ==> #[trigger] groups[g] != #[trigger] groups[h]
}

/// Whether `groups` is the grouping of `candidates` by `key_of`: each group is the whole
/// class of a key, of two members or more; every such class is there; none is there twice.
/// The order of the groups is left open.
pub open spec fn is_grouping<K>(
    candidates: Seq<usize>,
    key_of: spec_fn(usize) -> Option<K>,
    groups: Seq<Seq<usize>>,
) -> bool {
    is_grouping_from(candidates, key_of, groups, 2)
}

/// Every member of a class is a candidate that carries the key.
pub proof fn lemma_class_members<K>(candidates: Seq<usize>, key_of: spec_fn(usize) -> Option<K>, key: K)
    ensures
        forall|m: int| 0 <= m < class_of(candidates, key_of, key).len() ==> key_of(#[trigger] class_of(candidates, key_of, key)[m]) == Some(key)
            && candidates.contains(class_of(candidates, key_of, key)[m]),
        forall|c: int| 0 <= c < candidates.len() && key_of(candidates[c]) == Some(key) ==> class_of(candidates, key_of, key).contains(#[trigger] candidates[c]),
        class_of(candidates, key_of, key).len() <= candidates.len(),
{
    let pred = carries(key_of, key);
    let class = class_of(candidates, key_of, key);
    candidates.lemma_filter_len(pred);
    assert forall|m: int| 0 <= m < class.len() implies key_of(#[trigger] class[m]) == Some(key)
        && candidates.contains(class[m]) by {
        candidates.lemma_filter_pred(pred, m);
        assert(class.contains(class[m]));
        candidates.lemma_filter_contains_rev(pred, class[m]);
    }
    assert forall|c: int| 0 <= c < candidates.len() && key_of(candidates[c]) == Some(key) implies class.contains(#[trigger] candidates[c]) by {
        candidates.lemma_filter_contains(pred, c);
    }
}

/// How a class grows when one more candidate is taken into account.
pub proof fn lemma_class_step<K>(candidates: Seq<usize>, key_of: spec_fn(usize) -> Option<K>, key: K, j: int)
    requires
        0 <= j < candidates.len(),
    ensures
        class_of(candidates.take(j + 1), key_of, key) == if key_of(candidates[j]) == Some(key) {
            class_of(candidates.take(j), key_of, key).push(candidates[j])
        } else {
            class_of(candidates.take(j), key_of, key)
        },
{
    assert(candidates.take(j + 1) =~= candidates.take(j).push(candidates[j]));
    candidates.take(j).lemma_filter_push(candidates[j], carries(key_of, key));
}

/// No candidates, no class.
pub proof fn lemma_class_of_none<K>(key_of: spec_fn(usize) -> Option<K>, key: K)
    ensures
        class_of(Seq::<usize>::empty(), key_of, key) == Seq::<usize>::empty(),
{
    let none = Seq::<usize>::empty();
    none.lemma_filter_len(carries(key_of, key));
    assert(class_of(none, key_of, key) =~= none);
}

/// Whether the indices stand in rising order, none of them twice.
pub open spec fn is_rising(indices: Seq<usize>) -> bool {
    forall|a: int, b: int| 0 <= a < b < indices.len() ==> indices[a] < indices[b]
}

/// Picking from a rising list leaves a rising list.
pub proof fn lemma_filter_rising(indices: Seq<usize>, test: spec_fn(usize) -> bool)
    requires
        is_rising(indices),
    ensures
        is_rising(indices.filter(test)),
    decreases indices.len(),
{
    let kept = indices.filter(test);
    if indices.len() == 0 {
        indices.lemma_filter_len(test);
    } else {
        let front = indices.drop_last();
        let last = indices.last();
        lemma_filter_rising(front, test);
        assert(indices =~= front.push(last));
        front.lemma_filter_push(last, test);
        if test(last) {
            assert forall|a: int, b: int| 0 <= a < b < kept.len() implies kept[a] < kept[b] by {
                if b == kept.len() - 1 {
                    assert(front.filter(test).contains(kept[a]));
                    front.lemma_filter_contains_rev(test, kept[a]);
                    let at = choose|at: int| 0 <= at < front.len() && front[at] == kept[a];
                    assert(indices[at] == kept[a]);
                }
            }
        }
    }
}

/// The indices from 0 stand in rising order, and so does every class of them.
pub proof fn lemma_class_rising<K>(count: nat, key_of: spec_fn(usize) -> Option<K>, key: K)
    requires
        count <= usize::MAX,
    ensures
        is_rising(all_indices(count)),
        is_rising(class_of(all_indices(count), key_of, key)),
{
    lemma_filter_rising(all_indices(count), carries(key_of, key));
}

/// In a class of two or more, every member has a fellow.
pub proof fn lemma_class_fellow<K>(count: nat, key_of: spec_fn(usize) -> Option<K>, key: K, member: usize)
    requires
        count <= usize::MAX,
        class_of(all_indices(count), key_of, key).len() >= 2,
        class_of(all_indices(count), key_of, key).contains(member),
    ensures
        exists|fellow: usize| fellow != member && fellow < count && key_of(fellow) == Some(key) && #[trigger] class_of(all_indices(count), key_of, key).contains(fellow),
{
    let class = class_of(all_indices(count), key_of, key);
    lemma_class_rising(count, key_of, key);
    lemma_class_members(all_indices(count), key_of, key);
    let fellow = if class[0] == member {
        class[1]
    } else {
        class[0]
    };
    let at: int = if class[0] == member {
        1
    } else {
        0
    };
    assert(class[at] == fellow);
    assert(class[0] < class[1]);
    assert(all_indices(count).contains(class[at]));
    assert(class.contains(fellow));
}

/// Two different indices that carry the same key make a class of two or more.
pub proof fn lemma_two_make_a_class<K>(count: nat, key_of: spec_fn(usize) -> Option<K>, key: K, i: usize, j: usize)
    requires
        i < count,
        j < count,
        i != j,
        key_of(i) == Some(key),
        key_of(j) == Some(key),
    ensures
        class_of(all_indices(count), key_of, key).len() >= 2,
        class_of(all_indices(count), key_of, key).contains(i),
        class_of(all_indices(count), key_of, key).contains(j),
{
    let all = all_indices(count);
    let class = class_of(all, key_of, key);
    lemma_class_members(all, key_of, key);
    assert(all[i as int] == i && all[j as int] == j);
    assert(class.contains(i) && class.contains(j));
    let at_i = choose|at: int| 0 <= at < class.len() && class[at] == i;
    let at_j = choose|at: int| 0 <= at < class.len() && class[at] == j;
    assert(at_i != at_j);
}

/// A grouping looks at the keys of the candidates only: two ways of giving keys that
/// agree on every candidate give the same groupings.
pub proof fn lemma_grouping_same_keys<K>(
    candidates: Seq<usize>,
    one: spec_fn(usize) -> Option<K>,
    other: spec_fn(usize) -> Option<K>,
    groups: Seq<Seq<usize>>,
    least: nat,
)
    requires
        forall|c: int| 0 <= c < candidates.len() ==> one(#[trigger] candidates[c]) == other(candidates[c]),
        is_grouping_from(candidates, one, groups, least),
    ensures
        is_grouping_from(candidates, other, groups, least),
{
    assert forall|key: K| #[trigger] class_of(candidates, one, key) == class_of(candidates, other, key) by {
        lemma_filter_agree(candidates, carries(one, key), carries(other, key));
    }
    assert forall|g: int| 0 <= g < groups.len() implies is_class_of_size(candidates, other, #[trigger] groups[g], least) by {
        assert(is_class_of_size(candidates, one, groups[g], least));
        let key = one(groups[g][0])->0;
        lemma_class_members(candidates, one, key);
        assert(candidates.contains(groups[g][0]));
        assert(class_of(candidates, one, key) == class_of(candidates, other, key));
    }
    assert forall|key: K|
        (#[trigger] class_of(candidates, other, key)).len() >= least && class_of(candidates, other, key).len() >= 1 implies groups.contains(
        class_of(candidates, other, key),
    ) by {
        assert(class_of(candidates, one, key) == class_of(candidates, other, key));
    }
}

/// The groups of a grouping of the indices from 0 list their members in rising order:
/// no index stands twice in a group.
pub proof fn lemma_groups_rising<K>(count: nat, key_of: spec_fn(usize) -> Option<K>, groups: Seq<Seq<usize>>, least: nat)
    requires
        count <= usize::MAX,
        is_grouping_from(all_indices(count), key_of, groups, least),
    ensures
        forall|g: int| 0 <= g < groups.len() ==> is_rising(#[trigger] groups[g]),
{
    assert forall|g: int| 0 <= g < groups.len() implies is_rising(#[trigger] groups[g]) by {
        assert(is_class_of_size(all_indices(count), key_of, groups[g], least));
        lemma_class_rising(count, key_of, key_of(groups[g][0])->0);
    }
}

/// Two tests that agree on every item of a list keep the same items of it.
pub proof fn lemma_filter_agree<A>(items: Seq<A>, first: spec_fn(A) -> bool, second: spec_fn(A) -> bool)
    requires
        forall|i: int| 0 <= i < items.len() ==> first(#[trigger] items[i]) == second(items[i]),
    ensures
        items.filter(first) == items.filter(second),
    decreases items.len(),
{
    if items.len() == 0 {
        items.lemma_filter_len(first);
        items.lemma_filter_len(second);
        assert(items.filter(first) =~= items.filter(second));
    } else {
        let front = items.drop_last();
        let x = items.last();
        assert forall|i: int| 0 <= i < front.len() implies first(#[trigger] front[i]) == second(front[i]) by {
            assert(front[i] == items[i]);
        }
        lemma_filter_agree(front, first, second);
        assert(items =~= front.push(x));
        front.lemma_filter_push(x, first);
        front.lemma_filter_push(x, second);
    }
}

/// Filtering by one test and then by another is filtering by both at once.
pub proof fn lemma_filter_twice<A>(
    items: Seq<A>,
    first: spec_fn(A) -> bool,
    second: spec_fn(A) -> bool,
    both: spec_fn(A) -> bool,
)
    requires
        forall|x: A| #[trigger] both(x) == (first(x) && second(x)),
    ensures
        items.filter(first).filter(second) == items.filter(both),
    decreases items.len(),
{
    if items.len() == 0 {
        items.lemma_filter_len(first);
        items.lemma_filter_len(both);
        items.filter(first).lemma_filter_len(second);
        assert(items.filter(first).filter(second) =~= items.filter(both));
    } else {
        let front = items.drop_last();
        let x = items.last();
        lemma_filter_twice(front, first, second, both);
        assert(items =~= front.push(x));
        front.lemma_filter_push(x, first);
        front.lemma_filter_push(x, both);
        if first(x) {
            front.filter(first).lemma_filter_push(x, second);
        }
    }
}

/// Whether `contents` holds, under every key, the class of that key among the first
/// `count` candidates.
pub open spec fn files_classes<K>(
    contents: Map<K, Seq<usize>>,
    candidates: Seq<usize>,
    key_of: spec_fn(usize) -> Option<K>,
    count: int,
) -> bool {
    forall|key: K| #[trigger] filed_under(contents, key) == class_of(candidates.take(count), key_of, key)
}

/// A map that holds nothing files the classes of no candidates.
pub proof fn lemma_files_none<K>(contents: Map<K, Seq<usize>>, candidates: Seq<usize>, key_of: spec_fn(usize) -> Option<K>)
    requires
        contents == Map::<K, Seq<usize>>::empty(),
    ensures
        files_classes(contents, candidates, key_of, 0),
{
    assert forall|key: K| #[trigger] filed_under(contents, key) == class_of(candidates.take(0), key_of, key) by {
        assert(candidates.take(0) =~= Seq::<usize>::empty());
        lemma_class_of_none(key_of, key);
    }
}

/// Filing the next candidate under its key keeps the map in step with the classes; a
/// candidate without a key leaves the map as it is.
pub proof fn lemma_files_step<K>(
    contents: Map<K, Seq<usize>>,
    candidates: Seq<usize>,
    key_of: spec_fn(usize) -> Option<K>,
    count: int,
)
    requires
        0 <= count < candidates.len(),
        files_classes(contents, candidates, key_of, count),
    ensures
        match key_of(candidates[count]) {
            Some(key) => files_classes(file_under(contents, key, candidates[count]), candidates, key_of, count + 1),
            None => files_classes(contents, candidates, key_of, count + 1),
        },
{
    let next = candidates[count];
    match key_of(next) {
        Some(filed) => {
            let after = file_under(contents, filed, next);
            assert forall|key: K| #[trigger] filed_under(after, key) == class_of(candidates.take(count + 1), key_of, key) by {
                lemma_class_step(candidates, key_of, key, count);
                assert(filed_under(contents, key) == class_of(candidates.take(count), key_of, key));
            }
        },
        None => {
            assert forall|key: K| #[trigger] filed_under(contents, key) == class_of(candidates.take(count + 1), key_of, key) by {
                lemma_class_step(candidates, key_of, key, count);
            }
        },
    }
}

/// The lists of a map's entries.
pub open spec fn entry_lists<K>(entries: Seq<(K, Vec<usize>)>) -> Seq<Seq<usize>> {
    Seq::new(entries.len(), |e: int| entries[e].1@)
}

/// Whether `groups` are the lists of `least` members or more among `lists[from..]`, and
/// `origin[g]` is the place in `lists` that `groups[g]` was taken from, last place first.
pub open spec fn picked(lists: Seq<Seq<usize>>, groups: Seq<Seq<usize>>, origin: Seq<int>, from: int, least: nat) -> bool {
    &&& origin.len() == groups.len()
    &&& forall|g: int| 0 <= g < groups.len() ==> from <= #[trigger] origin[g] < lists.len() && groups[g] == lists[origin[g]]
            && groups[g].len() >= least
    &&& forall|g: int, h: int| 0 <= g < h < groups.len() ==> #[trigger] origin[g] > #[trigger] origin[h]
    &&& forall|e: int| from <= e < lists.len() && (#[trigger] lists[e]).len() >= least ==> origin.contains(e)
}

/// Keeps the lists of `least` members or more, dropping the keys.
pub(crate) fn pick_groups<K>(entries: Vec<(K, Vec<usize>)>, least: usize) -> (kept: (Vec<Vec<usize>>, Ghost<Seq<int>>))
    ensures
        picked(entry_lists(entries@), index_lists(kept.0@), kept.1@, 0, least as nat),
{
    let mut rest = entries;
    let ghost lists = entry_lists(entries@);
    let mut groups: Vec<Vec<usize>> = Vec::new();
    let ghost mut origin: Seq<int> = Seq::empty();
    loop
        invariant
            rest.len() <= entries.len(),
            entry_lists(rest@) == lists.take(rest.len() as int),
            lists == entry_lists(entries@),
            picked(lists, index_lists(groups@), origin, rest.len() as int, least as nat),
        ensures
            rest.len() == 0,
        decreases rest.len(),
    {
        let ghost before = rest@;
        let ghost groups_before = index_lists(groups@);
        let ghost origin_before = origin;
        match rest.pop() {
            None => {
                break ;
            },
            Some(entry) => {
                let place: Ghost<int> = Ghost(rest.len() as int);
                let (_key, list) = entry;
                assert(list@ == lists[place@]) by {
                    assert(entry_lists(before)[place@] == lists.take(before.len() as int)[place@]);
                }
                assert(entry_lists(rest@) =~= lists.take(rest.len() as int)) by {
                    assert forall|e: int| 0 <= e < rest.len() implies entry_lists(rest@)[e] == lists[e] by {
                        assert(entry_lists(before)[e] == lists.take(before.len() as int)[e]);
                    }
                }
                if list.len() >= least {
                    groups.push(list);
                    proof {
                        origin = origin.push(place@);
                        assert(index_lists(groups@) =~= groups_before.push(lists[place@]));
                        assert forall|e: int| place@ <= e < lists.len() && (#[trigger] lists[e]).len() >= least implies origin.contains(e) by {
                            if e == place@ {
                                assert(origin[origin.len() - 1] == e);
                            } else {
                                assert(origin_before.contains(e));
                                let g = choose|g: int| 0 <= g < origin_before.len() && origin_before[g] == e;
                                assert(origin[g] == e);
                            }
                        }
                    }
                } else {
                    proof {
                        assert(index_lists(groups@) =~= groups_before);
                    }
                }
            },
        }
    }
    (groups, Ghost(origin))
}

/// The lists of `least` members or more of a map that files the classes of all
/// candidates are the grouping of the candidates into classes of that size.
pub proof fn lemma_picked_is_grouping<K>(
    entries: Seq<(K, Seq<usize>)>,
    contents: Map<K, Seq<usize>>,
    candidates: Seq<usize>,
    key_of: spec_fn(usize) -> Option<K>,
    groups: Seq<Seq<usize>>,
    origin: Seq<int>,
    least: nat,
)
    requires
        least >= 1,
        lists_contents(entries, contents),
        files_classes(contents, candidates, key_of, candidates.len() as int),
        picked(Seq::new(entries.len(), |e: int| entries[e].1), groups, origin, 0, least),
    ensures
        is_grouping_from(candidates, key_of, groups, least),
{
    let lists = Seq::new(entries.len(), |e: int| entries[e].1);
    assert(candidates.take(candidates.len() as int) =~= candidates);
    assert forall|g: int| 0 <= g < groups.len() implies is_class_of_size(candidates, key_of, #[trigger] groups[g], least) by {
        let e = origin[g];
        let key = entries[e].0;
        assert(groups[g] == lists[e]);
        assert(contents.dom().contains(key));
        assert(filed_under(contents, key) == class_of(candidates, key_of, key));
        lemma_class_members(candidates, key_of, key);
    }
    assert forall|key: K|
        (#[trigger] class_of(candidates, key_of, key)).len() >= least && class_of(candidates, key_of, key).len() >= 1 implies groups.contains(
        class_of(candidates, key_of, key),
    ) by {
        assert(filed_under(contents, key) == class_of(candidates, key_of, key));
        assert(contents.dom().contains(key));
        let e = choose|e: int| 0 <= e < entries.len() && #[trigger] entries[e].0 == key;
        assert(lists[e] == class_of(candidates, key_of, key));
        assert(origin.contains(e));
        let g = choose|g: int| 0 <= g < origin.len() && origin[g] == e;
        assert(groups[g] == class_of(candidates, key_of, key));
    }
    assert forall|g: int, h: int| 0 <= g < h < groups.len() implies #[trigger] groups[g] != #[trigger] groups[h] by {
        let eg = origin[g];
        let eh = origin[h];
        let kg = entries[eg].0;
        let kh = entries[eh].0;
        assert(kg != kh);
        assert(groups[g] == lists[eg]);
        assert(groups[h] == lists[eh]);
        assert(filed_under(contents, kg) == class_of(candidates, key_of, kg));
        assert(filed_under(contents, kh) == class_of(candidates, key_of, kh));
        lemma_class_members(candidates, key_of, kg);
        lemma_class_members(candidates, key_of, kh);
        assert(key_of(groups[g][0]) == Some(kg));
        assert(key_of(groups[h][0]) == Some(kh));
    }
}

} // verus!
