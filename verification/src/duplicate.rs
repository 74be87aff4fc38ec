//! Finding duplicates among fingerprinted files: byte-identical ones through size
//! buckets and content hashes, look-alikes through the distance between difference hashes.

use crate::buckets::{
    size_entries_view, size_map_contents, size_map_into_entries, size_map_new, size_map_push, text_entries_view,
    text_map_contents, text_map_into_entries, text_map_new, text_map_push,
};
use crate::cluster::{
    cluster_by_distance, has_fingerprint, is_cluster, lemma_cluster_members, pictures, visual_clusters, visual_key,
};
use crate::dhash::{dhash_text, hex16};
use crate::grouping::{
    all_indices, carries, class_of, entry_lists, files_classes, index_lists, is_full_class, is_grouping,
    lemma_class_fellow, lemma_class_members, lemma_class_rising, lemma_files_none, lemma_files_step, lemma_filter_agree,
    lemma_filter_twice, lemma_grouping_same_keys, lemma_picked_is_grouping, lemma_two_make_a_class, pick_groups,
};
use crate::records::{age_in_secs, age_secs, copy_text, text_of, FileInfo, FileInfoView, FileRecord, FileRecordView, Timestamp};
use vstd::prelude::*;

verus! {

/// A way of telling that two files are duplicates.
#[derive(Debug, Clone, Copy, PartialEq, Eq, Hash, Structural)]
pub enum CompareMethod {
    /// The files have the same bytes.
    ByteHash,
    /// The pictures' difference hashes differ in at most `threshold` bits.
    PerceptualDHash { threshold: u32 },
}

/// One group of duplicates: the method that found it and its members.
#[derive(Debug)]
pub struct MatchPair {
    pub method: CompareMethod,
    pub files: Vec<FileInfo>,
}

/// The mathematical value of a [`MatchPair`].
pub struct MatchPairView {
    pub method: CompareMethod,
    pub files: Seq<FileInfoView>,
}

impl View for MatchPair {
    type V = MatchPairView;

    open spec fn view(&self) -> MatchPairView {
        MatchPairView { method: self.method, files: Seq::new(self.files@.len(), |m: int| self.files@[m]@) }
    }
}

/// All the groups that a scan found, method after method.
#[derive(Debug)]
pub struct DuplicateMatches {
    pub groups: Vec<MatchPair>,
}

impl View for DuplicateMatches {
    type V = Seq<MatchPairView>;

    open spec fn view(&self) -> Seq<MatchPairView> {
        Seq::new(self.groups@.len(), |g: int| self.groups@[g]@)
    }
}

/// One group of duplicates as the host lists it: how it was found, what its members
/// share, and where they are.
#[derive(Debug)]
pub struct DuplicateGroup {
    /// `hash` for byte-identical files, `dhash` for look-alikes.
    pub tag: String,
    /// The content hash that the members share; none for look-alikes, which share none.
    pub hash: Option<String>,
    /// Paths of the members, two or more.
    pub paths: Vec<String>,
}

/// The mathematical value of a [`DuplicateGroup`].
pub struct DuplicateGroupView {
    pub tag: Seq<char>,
    pub hash: Option<Seq<char>>,
    pub paths: Seq<Seq<char>>,
}

impl View for DuplicateGroup {
    type V = DuplicateGroupView;

    open spec fn view(&self) -> DuplicateGroupView {
        DuplicateGroupView {
            tag: self.tag@,
            hash: text_of(self.hash),
            paths: Seq::new(self.paths@.len(), |p: int| self.paths@[p]@),
        }
    }
}

/// What a scan is asked to do: where to look and how to compare.
#[derive(Debug)]
pub struct ScanConfig {
    pub root: String,
    pub methods: Vec<CompareMethod>,
}

/// What is reported of a record at the time `now`.
pub open spec fn file_info_of(record: FileRecordView, now: Timestamp) -> FileInfoView {
    FileInfoView {
        hash: record.byte_hash,
        dhash: match record.perceptual_hash {
            Some(bits) => Some(hex16(bits)),
            None => None,
        },
        size: record.size,
        path: record.path,
        age: age_secs(now, record.modified),
        preview: record.preview_base64,
    }
}

/// Turns a record into what is reported of it: the fingerprint as text and the age in
/// place of the time of modification.
pub fn to_file_info(entry: &FileRecord, now: Timestamp) -> (info: FileInfo)
    ensures
        info@ == file_info_of(entry@, now),
{
    let dhash = match entry.perceptual_hash {
        Some(bits) => Some(dhash_text(bits)),
        None => None,
    };
    FileInfo {
        hash: copy_text(&entry.byte_hash),
        dhash,
        size: entry.size,
        path: entry.path.clone(),
        age: age_in_secs(now, entry.modified),
        preview: copy_text(&entry.preview_base64),
    }
}

/// What is reported of the members of a group, in the group's order.
pub open spec fn files_of(records: Seq<FileRecord>, group: Seq<usize>, now: Timestamp) -> Seq<FileInfoView> {
    Seq::new(group.len(), |m: int| file_info_of(records[group[m] as int]@, now))
}

/// The report of a list of groups found by one method.
pub open spec fn reports_of(
    records: Seq<FileRecord>,
    groups: Seq<Seq<usize>>,
    method: CompareMethod,
    now: Timestamp,
) -> Seq<MatchPairView> {
    Seq::new(groups.len(), |g: int| MatchPairView { method, files: files_of(records, groups[g], now) })
}

/// The values of a list of reported groups.
pub open spec fn pairs_view(pairs: Seq<MatchPair>) -> Seq<MatchPairView> {
    Seq::new(pairs.len(), |g: int| pairs[g]@)
}

/// Reports groups of indices as groups of files.
pub fn report_groups(records: &Vec<FileRecord>, groups: &Vec<Vec<usize>>, method: CompareMethod, now: Timestamp) -> (pairs:
    Vec<MatchPair>)
    requires
        forall|g: int, m: int| 0 <= g < groups.len() && 0 <= m < groups[g].len() ==> #[trigger] groups[g][m] < records.len(),
    ensures
        pairs_view(pairs@) == reports_of(records@, index_lists(groups@), method, now),
{
    let mut pairs: Vec<MatchPair> = Vec::new();
    let mut g: usize = 0;
    while g < groups.len()
        invariant
            g <= groups.len(),
            pairs.len() == g,
            forall|g: int, m: int| 0 <= g < groups.len() && 0 <= m < groups[g].len() ==> #[trigger] groups[g][m] < records.len(),
            forall|d: int| 0 <= d < g ==> (#[trigger] pairs[d])@ == reports_of(records@, index_lists(groups@), method, now)[d],
        decreases groups.len() - g,
    {
        let group = &groups[g];
        let mut files: Vec<FileInfo> = Vec::new();
        let mut m: usize = 0;
        while m < group.len()
            invariant
                m <= group.len(),
                files.len() == m,
                forall|k: int| 0 <= k < group.len() ==> #[trigger] group[k] < records.len(),
                forall|d: int| 0 <= d < m ==> (#[trigger] files[d])@ == file_info_of(records[group[d] as int]@, now),
            decreases group.len() - m,
        {
            files.push(to_file_info(&records[group[m]], now));
            m += 1;
        }
        let pair = MatchPair { method, files };
        proof {
            assert(pair@.files =~= files_of(records@, group@, now));
        }
        pairs.push(pair);
        g += 1;
    }
    proof {
        assert(pairs_view(pairs@) =~= reports_of(records@, index_lists(groups@), method, now));
    }
    pairs
}

/// The size of the record at an index; none beyond the list.
pub open spec fn size_key(records: Seq<FileRecord>) -> spec_fn(usize) -> Option<u64> {
    |i: usize|
        if i < records.len() {
            Some(records[i as int].size)
        } else {
            None
        }
}

/// The content hash of the record at an index; none where it has none, or beyond the list.
pub open spec fn hash_key(records: Seq<FileRecord>) -> spec_fn(usize) -> Option<Seq<char>> {
    |i: usize|
        if i < records.len() {
            text_of(records[i as int].byte_hash)
        } else {
            None
        }
}

/// Size and content hash of the record at an index: what makes two files byte-identical.
/// None where the record has no content hash, or beyond the list.
pub open spec fn content_key(records: Seq<FileRecord>) -> spec_fn(usize) -> Option<(u64, Seq<char>)> {
    |i: usize|
        if i < records.len() {
            match text_of(records[i as int].byte_hash) {
                Some(hash) => Some((records[i as int].size, hash)),
                None => None,
            }
        } else {
            None
        }
}

/// Partitions the records by exact size and keeps the buckets of two or more: each bucket
/// lists, in rising order, the indices of all records of one size.
pub fn bucket_by_size(records: &Vec<FileRecord>) -> (buckets: Vec<Vec<usize>>)
    ensures
        is_grouping(all_indices(records@.len()), size_key(records@), index_lists(buckets@)),
{
    let ghost candidates = all_indices(records@.len());
    let ghost key_of = size_key(records@);
    let mut table = size_map_new();
    proof {
        lemma_files_none(size_map_contents(table), candidates, key_of);
    }
    let mut i: usize = 0;
    while i < records.len()
        invariant
            i <= records.len(),
            candidates == all_indices(records@.len()),
            key_of == size_key(records@),
            files_classes(size_map_contents(table), candidates, key_of, i as int),
        decreases records.len() - i,
    {
        proof {
            lemma_files_step(size_map_contents(table), candidates, key_of, i as int);
        }
        size_map_push(&mut table, records[i].size, i);
        i += 1;
    }
    let ghost contents = size_map_contents(table);
    let entries = size_map_into_entries(table);
    let ghost listed = size_entries_view(entries@);
    let (buckets, origin) = pick_groups(entries, 2);
    proof {
        assert(Seq::new(listed.len(), |e: int| listed[e].1) =~= entry_lists(entries@));
        lemma_picked_is_grouping(listed, contents, candidates, key_of, index_lists(buckets@), origin@, 2);
    }
    buckets
}

/// Groups the candidates by content hash and keeps the groups of two or more. Candidates
/// without a content hash belong to no group.
pub fn group_by_hash(records: &Vec<FileRecord>, candidates: &Vec<usize>) -> (groups: Vec<Vec<usize>>)
    requires
        forall|c: int| 0 <= c < candidates.len() ==> candidates[c] < records.len(),
    ensures
        is_grouping(candidates@, hash_key(records@), index_lists(groups@)),
{
    let ghost key_of = hash_key(records@);
    let mut table = text_map_new();
    proof {
        lemma_files_none(text_map_contents(table), candidates@, key_of);
    }
    let mut c: usize = 0;
    while c < candidates.len()
        invariant
            c <= candidates.len(),
            key_of == hash_key(records@),
            forall|c: int| 0 <= c < candidates.len() ==> candidates[c] < records.len(),
            files_classes(text_map_contents(table), candidates@, key_of, c as int),
        decreases candidates.len() - c,
    {
        let index = candidates[c];
        proof {
            lemma_files_step(text_map_contents(table), candidates@, key_of, c as int);
        }
        match &records[index].byte_hash {
            Some(hash) => {
                text_map_push(&mut table, hash.clone(), index);
            },
            None => {},
        }
        c += 1;
    }
    let ghost contents = text_map_contents(table);
    let entries = text_map_into_entries(table);
    let ghost listed = text_entries_view(entries@);
    let (groups, origin) = pick_groups(entries, 2);
    proof {
        assert(Seq::new(listed.len(), |e: int| listed[e].1) =~= entry_lists(entries@));
        lemma_picked_is_grouping(listed, contents, candidates@, key_of, index_lists(groups@), origin@, 2);
    }
    groups
}

/// Among the records of one size, those of one content hash are the records of that
/// size and hash.
pub proof fn lemma_class_within_bucket(records: Seq<FileRecord>, candidates: Seq<usize>, size: u64, hash: Seq<char>)
    ensures
        class_of(class_of(candidates, size_key(records), size), hash_key(records), hash) == class_of(
            candidates,
            content_key(records),
            (size, hash),
        ),
{
    lemma_filter_twice(
        candidates,
        carries(size_key(records), size),
        carries(hash_key(records), hash),
        carries(content_key(records), (size, hash)),
    );
}

/// The size that the members of a size bucket share.
pub open spec fn bucket_size(records: Seq<FileRecord>, bucket: Seq<usize>) -> u64 {
    records[bucket[0] as int].size
}

/// Whether `groups` are the byte-identical groups found in the first `done` size buckets,
/// `home[g]` being the bucket that `groups[g]` came from.
spec fn merged(
    records: Seq<FileRecord>,
    buckets: Seq<Seq<usize>>,
    done: int,
    groups: Seq<Seq<usize>>,
    home: Seq<int>,
) -> bool {
    let all = all_indices(records.len());
    &&& home.len() == groups.len()
    &&& forall|g: int| 0 <= g < groups.len() ==> 0 <= #[trigger] home[g] < done && is_full_class(all, content_key(records), groups[g])
            && bucket_size(records, groups[g]) == bucket_size(records, buckets[home[g]])
    &&& forall|g: int, h: int| 0 <= g < h < groups.len() ==> #[trigger] groups[g] != #[trigger] groups[h]
    &&& forall|b: int, hash: Seq<char>| 0 <= b < done && (#[trigger] class_of(all, content_key(records), (bucket_size(records, buckets[b]), hash))).len() >= 2
            ==> groups.contains(class_of(all, content_key(records), (bucket_size(records, buckets[b]), hash)))
}

/// Taking in the groups found in the next size bucket.
proof fn lemma_merge_step(
    records: Seq<FileRecord>,
    buckets: Seq<Seq<usize>>,
    done: int,
    groups: Seq<Seq<usize>>,
    home: Seq<int>,
    found: Seq<Seq<usize>>,
)
    requires
        0 <= done < buckets.len(),
        is_grouping(all_indices(records.len()), size_key(records), buckets),
        merged(records, buckets, done, groups, home),
        is_grouping(buckets[done], hash_key(records), found),
    ensures
        merged(records, buckets, done + 1, groups + found, home + Seq::new(found.len(), |g: int| done)),
{
    let all = all_indices(records.len());
    let bucket = buckets[done];
    let size = bucket_size(records, bucket);
    let after = groups + found;
    let home_after = home + Seq::new(found.len(), |g: int| done);
    assert(is_full_class(all, size_key(records), bucket));
    lemma_class_members(all, size_key(records), size);
    assert(size_key(records)(bucket[0]) == Some(size));
    assert(bucket == class_of(all, size_key(records), size));

    assert forall|f: int| 0 <= f < found.len() implies is_full_class(all, content_key(records), #[trigger] found[f])
        && bucket_size(records, found[f]) == size by {
        let group = found[f];
        assert(is_full_class(bucket, hash_key(records), group));
        let hash = hash_key(records)(group[0])->0;
        lemma_class_members(bucket, hash_key(records), hash);
        lemma_class_within_bucket(records, all, size, hash);
        assert(bucket.contains(group[0]));
        assert(size_key(records)(group[0]) == Some(size));
        assert(content_key(records)(group[0]) == Some((size, hash)));
    }
    assert forall|g: int| 0 <= g < after.len() implies 0 <= #[trigger] home_after[g] < done + 1 && is_full_class(
        all,
        content_key(records),
        after[g],
    ) && bucket_size(records, after[g]) == bucket_size(records, buckets[home_after[g]]) by {
        if g < groups.len() {
            assert(home_after[g] == home[g]);
            assert(after[g] == groups[g]);
        } else {
            assert(after[g] == found[g - groups.len()]);
        }
    }
    assert forall|g: int, h: int| 0 <= g < h < after.len() implies #[trigger] after[g] != #[trigger] after[h] by {
        if h < groups.len() {
            assert(after[g] == groups[g] && after[h] == groups[h]);
        } else if g >= groups.len() {
            assert(after[g] == found[g - groups.len()] && after[h] == found[h - groups.len()]);
        } else {
            assert(after[g] == groups[g] && after[h] == found[h - groups.len()]);
            let earlier = buckets[home[g]];
            assert(is_full_class(all, size_key(records), earlier));
            assert(earlier != bucket);
            assert(is_full_class(all, content_key(records), groups[g]));
            assert(bucket_size(records, groups[g]) == bucket_size(records, earlier));
            if bucket_size(records, earlier) == size {
                assert(size_key(records)(earlier[0]) == Some(size));
                assert(false);
            }
            assert(bucket_size(records, found[h - groups.len()]) == size);
        }
    }
    assert forall|b: int, hash: Seq<char>| 0 <= b < done + 1 && (#[trigger] class_of(all, content_key(records), (bucket_size(records, buckets[b]), hash))).len() >= 2
        implies after.contains(class_of(all, content_key(records), (bucket_size(records, buckets[b]), hash))) by {
        let class = class_of(all, content_key(records), (bucket_size(records, buckets[b]), hash));
        if b < done {
            assert(groups.contains(class));
            let g = choose|g: int| 0 <= g < groups.len() && groups[g] == class;
            assert(after[g] == class);
        } else {
            lemma_class_within_bucket(records, all, size, hash);
            assert(class == class_of(bucket, hash_key(records), hash));
            assert(found.contains(class));
            let f = choose|f: int| 0 <= f < found.len() && found[f] == class;
            assert(after[groups.len() + f] == class);
        }
    }
}

/// Once every size bucket has been gone through, the groups found are the grouping of
/// all records by size and content hash.
proof fn lemma_merged_is_grouping(
    records: Seq<FileRecord>,
    buckets: Seq<Seq<usize>>,
    groups: Seq<Seq<usize>>,
    home: Seq<int>,
)
    requires
        is_grouping(all_indices(records.len()), size_key(records), buckets),
        merged(records, buckets, buckets.len() as int, groups, home),
    ensures
        is_grouping(all_indices(records.len()), content_key(records), groups),
{
    let all = all_indices(records.len());
    assert forall|g: int| 0 <= g < groups.len() implies is_full_class(all, content_key(records), #[trigger] groups[g]) by {
        assert(0 <= home[g]);
    }
    assert forall|key: (u64, Seq<char>)| (#[trigger] class_of(all, content_key(records), key)).len() >= 2 implies groups.contains(
        class_of(all, content_key(records), key),
    ) by {
        let (size, hash) = key;
        let bucket = class_of(all, size_key(records), size);
        lemma_class_within_bucket(records, all, size, hash);
        lemma_class_members(bucket, hash_key(records), hash);
        assert(bucket.len() >= 2);
        lemma_class_members(all, size_key(records), size);
        assert(buckets.contains(bucket));
        let b = choose|b: int| 0 <= b < buckets.len() && buckets[b] == bucket;
        assert(size_key(records)(bucket[0]) == Some(size));
        assert(bucket_size(records, buckets[b]) == size);
        assert(key == (bucket_size(records, buckets[b]), hash));
    }
}

/// The groups of byte-identical files: each lists, in rising order, the indices of all
/// records of one size and one content hash, where there are two or more of them. Only
/// records that share their size with another are compared by hash. Records without a
/// content hash belong to no group.
pub fn group_byte_duplicates(records: &Vec<FileRecord>) -> (groups: Vec<Vec<usize>>)
    ensures
        is_grouping(all_indices(records@.len()), content_key(records@), index_lists(groups@)),
{
    let ghost all = all_indices(records@.len());
    let buckets = bucket_by_size(records);
    let mut groups: Vec<Vec<usize>> = Vec::new();
    let ghost mut home: Seq<int> = Seq::empty();
    let mut b: usize = 0;
    while b < buckets.len()
        invariant
            b <= buckets.len(),
            all == all_indices(records@.len()),
            is_grouping(all, size_key(records@), index_lists(buckets@)),
            merged(records@, index_lists(buckets@), b as int, index_lists(groups@), home),
        decreases buckets.len() - b,
    {
        let bucket = &buckets[b];
        proof {
            let size = bucket_size(records@, bucket@);
            assert(bucket@ == index_lists(buckets@)[b as int]);
            assert(is_full_class(all, size_key(records@), bucket@));
            lemma_class_members(all, size_key(records@), size_key(records@)(bucket@[0])->0);
            assert forall|c: int| 0 <= c < bucket.len() implies bucket[c] < records.len() by {
                assert(size_key(records@)(bucket@[c]) is Some);
            }
        }
        let mut found = group_by_hash(records, bucket);
        proof {
            lemma_merge_step(records@, index_lists(buckets@), b as int, index_lists(groups@), home, index_lists(found@));
            assert(index_lists(groups@ + found@) =~= index_lists(groups@) + index_lists(found@));
            home = home + Seq::new(found@.len(), |g: int| b as int);
        }
        groups.append(&mut found);
        b += 1;
    }
    proof {
        lemma_merged_is_grouping(records@, index_lists(buckets@), index_lists(groups@), home);
    }
    groups
}

/// Whether every member of every group is the index of a record.
pub open spec fn within_records(groups: Seq<Seq<usize>>, count: nat) -> bool {
    forall|g: int, m: int| 0 <= g < groups.len() && 0 <= m < groups[g].len() ==> #[trigger] groups[g][m] < count
}

/// The members of a grouping of the records are indices of records.
pub proof fn lemma_grouping_within_records<K>(count: nat, key_of: spec_fn(usize) -> Option<K>, groups: Seq<Seq<usize>>)
    requires
        is_grouping(all_indices(count), key_of, groups),
    ensures
        within_records(groups, count),
{
    let all = all_indices(count);
    assert forall|g: int, m: int| 0 <= g < groups.len() && 0 <= m < groups[g].len() implies #[trigger] groups[g][m] < count by {
        assert(is_full_class(all, key_of, groups[g]));
        let key = key_of(groups[g][0])->0;
        lemma_class_members(all, key_of, key);
        assert(all.contains(groups[g][m]));
    }
}

/// The groups of byte-identical files as they are reported: one group for each size and
/// content hash that two or more records share, with all those records in the order
/// given. The order of the groups is left open.
pub fn find_duplicates_by_byte_hash(metadata: &Vec<FileRecord>, now: Timestamp) -> (pairs: Vec<MatchPair>)
    ensures
        exists|groups: Seq<Seq<usize>>|
            is_grouping(all_indices(metadata@.len()), content_key(metadata@), groups) && pairs_view(pairs@) == #[trigger] reports_of(
                metadata@,
                groups,
                CompareMethod::ByteHash,
                now,
            ),
{
    let groups = group_byte_duplicates(metadata);
    proof {
        lemma_grouping_within_records(metadata@.len(), content_key(metadata@), index_lists(groups@));
        assert forall|g: int, m: int| 0 <= g < groups.len() && 0 <= m < groups[g].len() implies #[trigger] groups[g][m]
            < metadata.len() by {
            assert(index_lists(groups@)[g][m] < metadata.len());
        }
    }
    report_groups(metadata, &groups, CompareMethod::ByteHash, now)
}

/// The members of the clusters of the records are indices of records.
pub proof fn lemma_clusters_within_records(records: Seq<FileRecord>, threshold: u32)
    ensures
        within_records(visual_clusters(records, threshold), records.len()),
{
    let clusters = visual_clusters(records, threshold);
    let queue = pictures(records);
    let all = all_indices(records.len());
    lemma_cluster_members(visual_key(records), queue, threshold);
    assert forall|c: int, m: int| 0 <= c < clusters.len() && 0 <= m < clusters[c].len() implies #[trigger] clusters[c][m]
        < records.len() by {
        assert(is_cluster(visual_key(records), queue, threshold, clusters[c]));
        assert(queue.contains(clusters[c][m]));
        all.lemma_filter_contains_rev(has_fingerprint(visual_key(records)), clusters[c][m]);
    }
}

/// The clusters of look-alikes as they are reported: the pictures are clustered by the
/// distance between their difference hashes, the last record seeding the first cluster.
pub fn find_duplicates_by_perceptual_hash(metadata: &Vec<FileRecord>, threshold: u32, now: Timestamp) -> (pairs: Vec<
    MatchPair,
>)
    ensures
        pairs_view(pairs@) == reports_of(
            metadata@,
            visual_clusters(metadata@, threshold),
            CompareMethod::PerceptualDHash { threshold },
            now,
        ),
{
    let clusters = cluster_by_distance(metadata, threshold);
    proof {
        lemma_clusters_within_records(metadata@, threshold);
        assert forall|g: int, m: int| 0 <= g < clusters.len() && 0 <= m < clusters[g].len() implies #[trigger] clusters[g][m]
            < metadata.len() by {
            assert(index_lists(clusters@)[g][m] < metadata.len());
        }
    }
    report_groups(metadata, &clusters, CompareMethod::PerceptualDHash { threshold }, now)
}

/// Two records of the same size stand in the same size bucket: bucketing by size never
/// parts two files that have the same bytes, for those have the same length.
pub proof fn lemma_same_size_same_bucket(records: Seq<FileRecord>, buckets: Seq<Seq<usize>>, i: usize, j: usize)
    requires
        is_grouping(all_indices(records.len()), size_key(records), buckets),
        i < records.len(),
        j < records.len(),
        i != j,
        records[i as int].size == records[j as int].size,
    ensures
        exists|b: int| 0 <= b < buckets.len() && (#[trigger] buckets[b]).contains(i) && buckets[b].contains(j),
{
    let all = all_indices(records.len());
    let size = records[i as int].size;
    let class = class_of(all, size_key(records), size);
    lemma_class_members(all, size_key(records), size);
    assert(all[i as int] == i && all[j as int] == j);
    assert(class.contains(i) && class.contains(j));
    assert(class.len() >= 2) by {
        let at_i = choose|at: int| 0 <= at < class.len() && class[at] == i;
        let at_j = choose|at: int| 0 <= at < class.len() && class[at] == j;
        assert(at_i != at_j);
    }
    assert(buckets.contains(class));
    let b = choose|b: int| 0 <= b < buckets.len() && buckets[b] == class;
    assert(buckets[b].contains(i) && buckets[b].contains(j));
}

/// Two records of the same size and content hash stand in the same group of
/// byte-identical files.
pub proof fn lemma_same_content_same_group(records: Seq<FileRecord>, groups: Seq<Seq<usize>>, i: usize, j: usize)
    requires
        is_grouping(all_indices(records.len()), content_key(records), groups),
        i < records.len(),
        j < records.len(),
        i != j,
        records[i as int].size == records[j as int].size,
        records[i as int]@.byte_hash is Some,
        records[i as int]@.byte_hash == records[j as int]@.byte_hash,
    ensures
        exists|g: int| 0 <= g < groups.len() && (#[trigger] groups[g]).contains(i) && groups[g].contains(j),
{
    let all = all_indices(records.len());
    let key = (records[i as int].size, records[i as int]@.byte_hash->0);
    let class = class_of(all, content_key(records), key);
    lemma_class_members(all, content_key(records), key);
    assert(all[i as int] == i && all[j as int] == j);
    assert(class.contains(i) && class.contains(j));
    assert(class.len() >= 2) by {
        let at_i = choose|at: int| 0 <= at < class.len() && class[at] == i;
        let at_j = choose|at: int| 0 <= at < class.len() && class[at] == j;
        assert(at_i != at_j);
    }
    assert(groups.contains(class));
    let g = choose|g: int| 0 <= g < groups.len() && groups[g] == class;
    assert(groups[g].contains(i) && groups[g].contains(j));
}

/// Scanning the same records twice gives the same groups: whatever order two groupings
/// list their groups in, each group of one is a group of the other.
pub proof fn lemma_grouping_is_determined<K>(
    candidates: Seq<usize>,
    key_of: spec_fn(usize) -> Option<K>,
    once: Seq<Seq<usize>>,
    again: Seq<Seq<usize>>,
)
    requires
        is_grouping(candidates, key_of, once),
        is_grouping(candidates, key_of, again),
    ensures
        once.to_set() == again.to_set(),
        once.len() == again.len(),
{
    assert forall|group: Seq<usize>| once.contains(group) <==> again.contains(group) by {
        if once.contains(group) {
            let g = choose|g: int| 0 <= g < once.len() && once[g] == group;
            assert(is_full_class(candidates, key_of, once[g]));
        }
        if again.contains(group) {
            let g = choose|g: int| 0 <= g < again.len() && again[g] == group;
            assert(is_full_class(candidates, key_of, again[g]));
        }
    }
    assert(once.to_set() =~= again.to_set());
    assert(once.no_duplicates());
    assert(again.no_duplicates());
    once.unique_seq_to_set();
    again.unique_seq_to_set();
}

/// Whether the size of the record at `i` is settled: no record of that size still
/// awaits its job. Only then is it known which records of that size have the same bytes.
pub open spec fn size_is_settled(records: Seq<FileRecord>, pending: Seq<bool>, i: int) -> bool {
    forall|j: int| 0 <= j < records.len() && (#[trigger] records[j]).size == records[i].size ==> !pending[j]
}

/// A record as it counts while its size is not settled: without its content hash.
pub open spec fn without_hash(record: FileRecord) -> FileRecord {
    FileRecord {
        path: record.path,
        size: record.size,
        modified: record.modified,
        byte_hash: None,
        perceptual_hash: record.perceptual_hash,
        preview_base64: record.preview_base64,
    }
}

/// The records as they count for a comparison of bytes while jobs are awaited: a record
/// whose size is settled as it is, any other without its content hash.
pub open spec fn settled_records(records: Seq<FileRecord>, pending: Seq<bool>) -> Seq<FileRecord> {
    Seq::new(
        records.len(),
        |i: int|
            if size_is_settled(records, pending, i) {
                records[i]
            } else {
                without_hash(records[i])
            },
    )
}

/// Size and content hash of the record at an index if its size is settled; none else.
pub open spec fn settled_content_key(records: Seq<FileRecord>, pending: Seq<bool>) -> spec_fn(usize) -> Option<
    (u64, Seq<char>),
> {
    content_key(settled_records(records, pending))
}

/// Whether one of the indices still awaits its job.
pub open spec fn any_pending(indices: Seq<usize>, pending: Seq<bool>) -> bool {
    exists|m: int| 0 <= m < indices.len() && pending[#[trigger] indices[m] as int]
}

/// In a size bucket none of whose members awaits its job, every member's size is
/// settled; in any other size bucket no member's is.
proof fn lemma_bucket_settled(records: Seq<FileRecord>, pending: Seq<bool>, bucket: Seq<usize>)
    requires
        records.len() <= usize::MAX,
        pending.len() == records.len(),
        is_full_class(all_indices(records.len()), size_key(records), bucket),
    ensures
        forall|m: int| 0 <= m < bucket.len() ==> bucket[m] < records.len() && size_is_settled(records, pending, #[trigger] bucket[m] as int)
            == !any_pending(bucket, pending),
{
    let all = all_indices(records.len());
    let size = size_key(records)(bucket[0])->0;
    lemma_class_members(all, size_key(records), size);
    assert forall|m: int| 0 <= m < bucket.len() implies bucket[m] < records.len() && size_is_settled(
        records,
        pending,
        #[trigger] bucket[m] as int,
    ) == !any_pending(bucket, pending) by {
        assert(size_key(records)(bucket[m]) == Some(size));
        if any_pending(bucket, pending) {
            let w = choose|w: int| 0 <= w < bucket.len() && pending[#[trigger] bucket[w] as int];
            assert(size_key(records)(bucket[w]) == Some(size));
            assert(records[bucket[w] as int].size == records[bucket[m] as int].size);
        } else {
            assert forall|j: int| 0 <= j < records.len() && (#[trigger] records[j]).size == records[bucket[m] as int].size implies !pending[j] by {
                assert(all[j] == j);
                assert(bucket.contains(all[j]));
                let at = choose|at: int| 0 <= at < bucket.len() && bucket[at] == j as usize;
                assert(!pending[bucket[at] as int]);
            }
        }
    }
}

/// The groups of byte-identical files that are known for good while jobs are awaited:
/// each lists, in rising order, the indices of all records of one size and one content
/// hash, where there are two or more of them and no record of that size awaits its job.
pub fn group_settled_duplicates(records: &Vec<FileRecord>, pending: &Vec<bool>) -> (groups: Vec<Vec<usize>>)
    requires
        pending@.len() == records@.len(),
    ensures
        is_grouping(all_indices(records@.len()), settled_content_key(records@, pending@), index_lists(groups@)),
{
    let ghost all = all_indices(records@.len());
    let ghost counted = settled_records(records@, pending@);
    let buckets = bucket_by_size(records);
    let mut groups: Vec<Vec<usize>> = Vec::new();
    let ghost mut home: Seq<int> = Seq::empty();
    let mut b: usize = 0;
    proof {
        assert(size_key(counted) =~= size_key(records@));
    }
    while b < buckets.len()
        invariant
            b <= buckets.len(),
            pending@.len() == records@.len(),
            all == all_indices(records@.len()),
            counted == settled_records(records@, pending@),
            size_key(counted) == size_key(records@),
            is_grouping(all, size_key(records@), index_lists(buckets@)),
            merged(counted, index_lists(buckets@), b as int, index_lists(groups@), home),
        decreases buckets.len() - b,
    {
        let bucket = &buckets[b];
        proof {
            assert(bucket@ == index_lists(buckets@)[b as int]);
            assert(is_full_class(all, size_key(records@), bucket@));
            assert(records@.len() == records.len());
            lemma_bucket_settled(records@, pending@, bucket@);
        }
        let mut waits = false;
        let mut m: usize = 0;
        while m < bucket.len()
            invariant
                m <= bucket.len(),
                pending@.len() == records@.len(),
                forall|k: int| 0 <= k < bucket@.len() ==> #[trigger] bucket@[k] < records@.len(),
                waits == any_pending(bucket@.take(m as int), pending@),
            decreases bucket.len() - m,
        {
            proof {
                let shorter = bucket@.take(m as int);
                let longer = bucket@.take(m + 1);
                assert(longer[m as int] == bucket@[m as int]);
                if any_pending(shorter, pending@) {
                    let w = choose|w: int| 0 <= w < shorter.len() && pending@[#[trigger] shorter[w] as int];
                    assert(longer[w] == shorter[w]);
                }
                if any_pending(longer, pending@) {
                    let w = choose|w: int| 0 <= w < longer.len() && pending@[#[trigger] longer[w] as int];
                    if w < m {
                        assert(shorter[w] == longer[w]);
                    }
                }
            }
            if pending[bucket[m]] {
                waits = true;
            }
            m += 1;
        }
        proof {
            assert(bucket@.take(bucket.len() as int) =~= bucket@);
        }
        if waits {
            proof {
                // No member counts with a content hash, so there is no group to find here.
                let none = Seq::<Seq<usize>>::empty();
                assert forall|key: Seq<char>| (#[trigger] class_of(bucket@, hash_key(counted), key)).len() >= 2 implies none.contains(
                    class_of(bucket@, hash_key(counted), key),
                ) by {
                    lemma_class_members(bucket@, hash_key(counted), key);
                    let first = class_of(bucket@, hash_key(counted), key)[0];
                    assert(bucket@.contains(first));
                    let at = choose|at: int| 0 <= at < bucket@.len() && bucket@[at] == first;
                    assert(!size_is_settled(records@, pending@, bucket@[at] as int));
                }
                assert(is_grouping(bucket@, hash_key(counted), none));
                lemma_merge_step(counted, index_lists(buckets@), b as int, index_lists(groups@), home, none);
                assert(index_lists(groups@) + none =~= index_lists(groups@));
                assert(home + Seq::new(none.len(), |g: int| b as int) =~= home);
            }
        } else {
            let mut found = group_by_hash(records, bucket);
            proof {
                assert forall|c: int| 0 <= c < bucket@.len() implies hash_key(records@)(#[trigger] bucket@[c]) == hash_key(counted)(
                    bucket@[c],
                ) by {
                    assert(size_is_settled(records@, pending@, bucket@[c] as int));
                }
                lemma_grouping_same_keys(bucket@, hash_key(records@), hash_key(counted), index_lists(found@), 2);
                lemma_merge_step(counted, index_lists(buckets@), b as int, index_lists(groups@), home, index_lists(found@));
                assert(index_lists(groups@ + found@) =~= index_lists(groups@) + index_lists(found@));
                home = home + Seq::new(found@.len(), |g: int| b as int);
            }
            groups.append(&mut found);
        }
        b += 1;
    }
    proof {
        lemma_merged_is_grouping(counted, index_lists(buckets@), index_lists(groups@), home);
    }
    groups
}

/// The groups of byte-identical files that are known for good while jobs are awaited, as
/// they are reported. Where no job is awaited these are the groups that
/// [`find_duplicates_by_byte_hash`] reports.
pub fn find_settled_duplicates_by_byte_hash(metadata: &Vec<FileRecord>, pending: &Vec<bool>, now: Timestamp) -> (pairs: Vec<
    MatchPair,
>)
    requires
        pending@.len() == metadata@.len(),
    ensures
        exists|groups: Seq<Seq<usize>>|
            is_grouping(all_indices(metadata@.len()), settled_content_key(metadata@, pending@), groups) && pairs_view(pairs@)
                == #[trigger] reports_of(metadata@, groups, CompareMethod::ByteHash, now),
{
    let groups = group_settled_duplicates(metadata, pending);
    proof {
        lemma_grouping_within_records(metadata@.len(), settled_content_key(metadata@, pending@), index_lists(groups@));
        assert forall|g: int, m: int| 0 <= g < groups.len() && 0 <= m < groups[g].len() implies #[trigger] groups[g][m]
            < metadata.len() by {
            assert(index_lists(groups@)[g][m] < metadata.len());
        }
    }
    report_groups(metadata, &groups, CompareMethod::ByteHash, now)
}

/// Whether `later` is the catalogue `records` at a later time: the same files of the
/// same sizes, and every record that awaits no job as it was.
pub open spec fn is_later(records: Seq<FileRecord>, pending: Seq<bool>, later: Seq<FileRecord>) -> bool {
    &&& later.len() == records.len()
    &&& pending.len() == records.len()
    &&& forall|i: int| 0 <= i < records.len() ==> (#[trigger] later[i]).size == records[i].size
    &&& forall|i: int| 0 <= i < records.len() && !pending[i] ==> (#[trigger] later[i])@ == records[i]@
}

/// What is known for good stays: every group of byte-identical files found while jobs
/// were awaited is a group, with the same members, once every job is done.
pub proof fn lemma_settled_groups_stay(
    records: Seq<FileRecord>,
    pending: Seq<bool>,
    later: Seq<FileRecord>,
    early: Seq<Seq<usize>>,
    full: Seq<Seq<usize>>,
)
    requires
        records.len() <= usize::MAX,
        is_later(records, pending, later),
        is_grouping(all_indices(records.len()), settled_content_key(records, pending), early),
        is_grouping(all_indices(later.len()), content_key(later), full),
    ensures
        forall|e: int| 0 <= e < early.len() ==> full.contains(#[trigger] early[e]),
        forall|e: int, m: int| 0 <= e < early.len() && 0 <= m < early[e].len() ==> (#[trigger] early[e][m]) < records.len()
            && !pending[early[e][m] as int],
{
    let all = all_indices(records.len());
    let counted = settled_records(records, pending);
    assert forall|e: int| 0 <= e < early.len() implies full.contains(#[trigger] early[e]) && (forall|m: int|
        0 <= m < early[e].len() ==> (#[trigger] early[e][m]) < records.len() && !pending[early[e][m] as int]) by {
        let group = early[e];
        assert(is_full_class(all, content_key(counted), group));
        let key = content_key(counted)(group[0])->0;
        lemma_class_members(all, content_key(counted), key);
        let first = group[0] as int;
        assert(size_is_settled(records, pending, first));
        assert(records[first].size == key.0);
        assert forall|i: int| 0 <= i < all.len() implies carries(content_key(counted), key)(#[trigger] all[i]) == carries(
            content_key(later),
            key,
        )(all[i]) by {
            assert(all[i] == i);
            assert(later[i].size == records[i].size);
            if records[i].size == key.0 {
                assert(!pending[i]);
                assert(size_is_settled(records, pending, i));
                assert(later[i]@ == records[i]@);
            }
        }
        lemma_filter_agree(all, carries(content_key(counted), key), carries(content_key(later), key));
        assert(class_of(all, content_key(later), key) == group);
        assert forall|m: int| 0 <= m < group.len() implies (#[trigger] group[m]) < records.len() && !pending[group[m] as int] by {
            assert(content_key(counted)(group[m]) == Some(key));
            assert(records[group[m] as int].size == records[first].size);
        }
    }
}

/// Whether the record at `i` has the same size as another record. Only such a file can
/// have the same bytes as another.
pub open spec fn shares_size(records: Seq<FileRecord>, i: int) -> bool {
    exists|j: int| 0 <= j < records.len() && j != i && (#[trigger] records[j]).size == records[i].size
}

/// Whether `pruned` is the catalogue `full` with content hashes kept only where a file
/// shares its size with another.
pub open spec fn is_pruned_by_size(pruned: Seq<FileRecord>, full: Seq<FileRecord>) -> bool {
    &&& pruned.len() == full.len()
    &&& forall|i: int| 0 <= i < full.len() ==> (#[trigger] pruned[i]).size == full[i].size && pruned[i]@.byte_hash == if shares_size(full, i) {
            full[i]@.byte_hash
        } else {
            None
        }
}

/// A class of two or more among fully hashed records is the same class among the
/// pruned ones, and the other way round.
proof fn lemma_pruned_class(pruned: Seq<FileRecord>, full: Seq<FileRecord>, key: (u64, Seq<char>))
    requires
        full.len() <= usize::MAX,
        is_pruned_by_size(pruned, full),
        class_of(all_indices(full.len()), content_key(full), key).len() >= 2 || class_of(
            all_indices(full.len()),
            content_key(pruned),
            key,
        ).len() >= 2,
    ensures
        class_of(all_indices(full.len()), content_key(full), key) == class_of(all_indices(full.len()), content_key(pruned), key),
{
    let all = all_indices(full.len());
    let in_full = class_of(all, content_key(full), key);
    let in_pruned = class_of(all, content_key(pruned), key);
    lemma_class_members(all, content_key(full), key);
    lemma_class_members(all, content_key(pruned), key);
    if in_full.len() < 2 {
        lemma_class_rising(full.len(), content_key(pruned), key);
        assert(in_pruned[0] < in_pruned[1]);
        assert(content_key(pruned)(in_pruned[0]) == Some(key));
        assert(content_key(pruned)(in_pruned[1]) == Some(key));
        assert(pruned[in_pruned[0] as int].size == full[in_pruned[0] as int].size);
        assert(pruned[in_pruned[1] as int].size == full[in_pruned[1] as int].size);
        lemma_two_make_a_class(full.len(), content_key(full), key, in_pruned[0], in_pruned[1]);
    }
    assert forall|i: int| 0 <= i < all.len() implies carries(content_key(full), key)(#[trigger] all[i]) == carries(
        content_key(pruned),
        key,
    )(all[i]) by {
        assert(all[i] == i);
        assert(pruned[i].size == full[i].size);
        if content_key(full)(all[i]) == Some(key) {
            assert(in_full.contains(all[i]));
            lemma_class_fellow(full.len(), content_key(full), key, all[i]);
            let fellow = choose|fellow: usize|
                fellow != all[i] && fellow < full.len() && content_key(full)(fellow) == Some(key) && #[trigger] in_full.contains(
                    fellow,
                );
            assert(full[fellow as int].size == full[i].size);
            assert(shares_size(full, i));
        }
    }
    lemma_filter_agree(all, carries(content_key(full), key), carries(content_key(pruned), key));
}

/// Bucketing by size loses no duplicate: hashing only the files that share their size
/// with another gives the very groups that hashing every file gives.
pub proof fn lemma_size_pruning_loses_nothing(pruned: Seq<FileRecord>, full: Seq<FileRecord>, groups: Seq<Seq<usize>>)
    requires
        full.len() <= usize::MAX,
        is_pruned_by_size(pruned, full),
    ensures
        is_grouping(all_indices(full.len()), content_key(full), groups) == is_grouping(
            all_indices(pruned.len()),
            content_key(pruned),
            groups,
        ),
{
    let all = all_indices(full.len());
    if is_grouping(all, content_key(full), groups) {
        assert forall|g: int| 0 <= g < groups.len() implies is_full_class(all, content_key(pruned), #[trigger] groups[g]) by {
            assert(is_full_class(all, content_key(full), groups[g]));
            let key = content_key(full)(groups[g][0])->0;
            lemma_pruned_class(pruned, full, key);
            lemma_class_members(all, content_key(pruned), key);
        }
        assert forall|key: (u64, Seq<char>)| (#[trigger] class_of(all, content_key(pruned), key)).len() >= 2 implies groups.contains(
            class_of(all, content_key(pruned), key),
        ) by {
            lemma_pruned_class(pruned, full, key);
            assert(groups.contains(class_of(all, content_key(full), key)));
        }
    }
    if is_grouping(all, content_key(pruned), groups) {
        assert forall|g: int| 0 <= g < groups.len() implies is_full_class(all, content_key(full), #[trigger] groups[g]) by {
            assert(is_full_class(all, content_key(pruned), groups[g]));
            let key = content_key(pruned)(groups[g][0])->0;
            lemma_pruned_class(pruned, full, key);
            lemma_class_members(all, content_key(full), key);
        }
        assert forall|key: (u64, Seq<char>)| (#[trigger] class_of(all, content_key(full), key)).len() >= 2 implies groups.contains(
            class_of(all, content_key(full), key),
        ) by {
            lemma_pruned_class(pruned, full, key);
            assert(groups.contains(class_of(all, content_key(pruned), key)));
        }
    }
}

/// How a reported group is listed: tagged by its method, keyed by the content hash of
/// its first member if it was found by comparing bytes, with the paths of its members.
pub open spec fn listing_of(pair: MatchPairView) -> DuplicateGroupView {
    DuplicateGroupView {
        tag: match pair.method {
            CompareMethod::ByteHash => "hash"@,
            CompareMethod::PerceptualDHash { .. } => "dhash"@,
        },
        hash: match pair.method {
            CompareMethod::ByteHash => if pair.files.len() > 0 {
                pair.files[0].hash
            } else {
                None
            },
            CompareMethod::PerceptualDHash { .. } => None,
        },
        paths: Seq::new(pair.files.len(), |m: int| pair.files[m].path),
    }
}

/// Lists one reported group.
pub fn to_duplicate_group(pair: &MatchPair) -> (group: DuplicateGroup)
    ensures
        group@ == listing_of(pair@),
{
    let tag = match pair.method {
        CompareMethod::ByteHash => String::from_str("hash"),
        CompareMethod::PerceptualDHash { .. } => String::from_str("dhash"),
    };
    let hash = match pair.method {
        CompareMethod::ByteHash => if pair.files.len() > 0 {
            copy_text(&pair.files[0].hash)
        } else {
            None
        },
        CompareMethod::PerceptualDHash { .. } => None,
    };
    let mut paths: Vec<String> = Vec::new();
    let mut m: usize = 0;
    while m < pair.files.len()
        invariant
            m <= pair.files.len(),
            paths.len() == m,
            forall|d: int| 0 <= d < m ==> (#[trigger] paths[d])@ == pair.files[d].path@,
        decreases pair.files.len() - m,
    {
        paths.push(pair.files[m].path.clone());
        m += 1;
    }
    let group = DuplicateGroup { tag, hash, paths };
    proof {
        assert(group@.paths =~= listing_of(pair@).paths);
    }
    group
}

/// The values of a list of groups.
pub open spec fn groups_view(groups: Seq<DuplicateGroup>) -> Seq<DuplicateGroupView> {
    Seq::new(groups.len(), |g: int| groups[g]@)
}

/// Lists all the groups that a scan found, in their order.
pub fn duplicate_groups(matches: &DuplicateMatches) -> (groups: Vec<DuplicateGroup>)
    ensures
        groups_view(groups@) == matches@.map_values(|pair: MatchPairView| listing_of(pair)),
{
    let mut groups: Vec<DuplicateGroup> = Vec::new();
    let mut g: usize = 0;
    while g < matches.groups.len()
        invariant
            g <= matches.groups.len(),
            groups.len() == g,
            forall|d: int| 0 <= d < g ==> (#[trigger] groups[d])@ == listing_of(matches.groups[d]@),
        decreases matches.groups.len() - g,
    {
        groups.push(to_duplicate_group(&matches.groups[g]));
        g += 1;
    }
    proof {
        assert(groups_view(groups@) =~= matches@.map_values(|pair: MatchPairView| listing_of(pair)));
    }
    groups
}

} // verus!
