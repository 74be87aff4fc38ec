//! The scan itself: a state machine that takes what the caller has walked, read and
//! fingerprinted, and says what to do next.
//!
//! A scan goes from idle through walking, hashing and clustering to done. While it walks
//! or hashes it can be cancelled: it then ends at once with the groups that are known
//! for good, those that no file still to be read could change, so that a cancelled scan
//! reports nothing that the full scan would not. The caller owns the clock, the file
//! system, the worker pool and the cancellation token; the scan owns the decisions.

use crate::catalog::{candidate_test, catalogue, fresh_record_of, fresh_records, is_candidate, WalkedEntry};
use crate::cluster::{has_fingerprint, pictures, visual_clusters, visual_key};
use crate::dhash::{dhash_of_picture, hamming, lemma_same_picture_same_hash, perceptual_hash};
use crate::duplicate::{
    bucket_by_size, content_key, find_duplicates_by_byte_hash, find_duplicates_by_perceptual_hash,
    files_of, find_settled_duplicates_by_byte_hash, is_later, lemma_clusters_within_records, lemma_grouping_is_determined,
    lemma_grouping_within_records, lemma_settled_groups_stay, listing_of, pairs_view, reports_of, settled_content_key, settled_records, shares_size, size_key,
    CompareMethod, DuplicateMatches, MatchPair, MatchPairView,
};
use crate::file_formats::texts;
use crate::grouping::{
    all_indices, class_of, index_lists, is_full_class, is_grouping, lemma_class_fellow, lemma_class_members,
    lemma_two_make_a_class,
};
use crate::hashing::{content_hash, content_hash_of, ContentHasher, CONTENT_HASH_LEN};
use crate::picture::{
    generate_preview_base64, image_decode, is_gray_of, preview_url_of, same_in_gray, to_gray, GrayPicture, GRID_HEIGHT,
};
use image::DynamicImage;
use crate::records::{records_view, text_of, FileRecord, Timestamp};
use vstd::prelude::*;

verus! {

/// Where a scan stands.
#[derive(Debug, Clone, Copy, PartialEq, Eq, Structural)]
pub enum ScanPhase {
    /// Not started.
    Idle,
    /// The caller is walking the tree.
    Walking,
    /// The caller is reading and fingerprinting the candidates.
    Hashing,
    /// All candidates are in; the groups are about to be formed.
    Clustering,
    /// Over, with its result handed out.
    Done,
    /// Ended early on request, with the groups that were known for good handed out.
    Cancelled,
}

/// Why a scan failed as a whole.
#[derive(Debug)]
pub enum ScanError {
    /// The root does not exist or cannot be read.
    RootUnreadable { message: String },
}

/// A file that could not be opened or read. It is left out of every group; the scan goes on.
#[derive(Debug)]
pub struct IoFailure {
    pub path: String,
    pub message: String,
}

/// The request to end a scan early. The host sets it; the scan looks at it between two
/// files and clears it when it has obeyed, and whenever it ends with its groups.
#[derive(Debug)]
pub struct CancelToken {
    pub requested: bool,
}

/// Asks the scan that watches this token to end.
pub fn cancel_scan(token: &mut CancelToken)
    ensures
        final(token).requested,
{
    token.requested = true;
}

/// What the caller's clock reads when it hands in an event.
#[derive(Debug, Clone, Copy)]
pub struct Clock {
    /// The time of day.
    pub now: Timestamp,
    /// Milliseconds since the scan began.
    pub elapsed_ms: u64,
}

/// How far a scan is.
#[derive(Debug)]
pub struct DuplicateProgress {
    /// Candidates dealt with, whether fingerprinted or failed.
    pub processed: usize,
    /// Candidates in all.
    pub total: usize,
    /// Milliseconds since the scan began.
    pub elapsed_ms: u64,
    /// Estimated milliseconds until the end; none while nothing has been dealt with.
    pub eta_ms: Option<u128>,
    /// What was dealt with last.
    pub current: String,
}

/// The estimated time left: the time spent per candidate so far, times the candidates
/// that remain. This is `elapsed / fraction * (1 - fraction)` for the fraction
/// `processed / total`, rounded down. None while nothing has been dealt with.
pub open spec fn eta_of(processed: nat, total: nat, elapsed_ms: nat) -> Option<nat> {
    if processed == 0 {
        None
    } else {
        Some(elapsed_ms * (total - processed) as nat / processed)
    }
}

/// The progress notification for `processed` of `total` candidates.
pub fn emit_progress(processed: usize, total: usize, elapsed_ms: u64, current: String) -> (progress: DuplicateProgress)
    requires
        processed <= total,
    ensures
        progress.processed == processed,
        progress.total == total,
        progress.elapsed_ms == elapsed_ms,
        progress.current == current,
        match progress.eta_ms {
            Some(eta) => eta_of(processed as nat, total as nat, elapsed_ms as nat) == Some(eta as nat),
            None => eta_of(processed as nat, total as nat, elapsed_ms as nat) is None,
        },
{
    let eta_ms = if processed == 0 {
        None
    } else {
        let remaining = (total - processed) as u128;
        assert(elapsed_ms as u128 * remaining <= 0xffff_ffff_ffff_ffff * 0xffff_ffff_ffff_ffff) by (nonlinear_arith)
            requires
                elapsed_ms as u128 <= 0xffff_ffff_ffff_ffff,
                remaining <= 0xffff_ffff_ffff_ffff,
        ;
        Some(elapsed_ms as u128 * remaining / (processed as u128))
    };
    DuplicateProgress { processed, total, elapsed_ms, eta_ms, current }
}

/// The methods that a list of tags asks for, in the order of the tags: `hash` asks for
/// the comparison of bytes, `dhash` for the comparison of pictures with the given
/// threshold. Other tags ask for nothing.
pub open spec fn methods_of(tags: Seq<Seq<char>>, threshold: u32) -> Seq<CompareMethod>
    decreases tags.len(),
{
    if tags.len() == 0 {
        Seq::empty()
    } else {
        let before = methods_of(tags.drop_last(), threshold);
        if tags.last() == "hash"@ {
            before.push(CompareMethod::ByteHash)
        } else if tags.last() == "dhash"@ {
            before.push(CompareMethod::PerceptualDHash { threshold })
        } else {
            before
        }
    }
}

/// Reads the methods off the tags that the host sent.
pub fn methods_from_tags(tags: &Vec<String>, threshold: u32) -> (methods: Vec<CompareMethod>)
    ensures
        methods@ == methods_of(texts(tags@), threshold),
{
    let hash = String::from_str("hash");
    let dhash = String::from_str("dhash");
    let mut methods: Vec<CompareMethod> = Vec::new();
    let mut t: usize = 0;
    proof {
        assert(texts(tags@).take(0) =~= Seq::<Seq<char>>::empty());
    }
    while t < tags.len()
        invariant
            t <= tags.len(),
            hash@ == "hash"@,
            dhash@ == "dhash"@,
            methods@ == methods_of(texts(tags@).take(t as int), threshold),
        decreases tags.len() - t,
    {
        proof {
            assert(texts(tags@).take(t + 1).drop_last() =~= texts(tags@).take(t as int));
        }
        if tags[t] == hash {
            methods.push(CompareMethod::ByteHash);
        } else if tags[t] == dhash {
            methods.push(CompareMethod::PerceptualDHash { threshold });
        }
        t += 1;
    }
    proof {
        assert(texts(tags@).take(tags.len() as int) =~= texts(tags@));
    }
    methods
}

/// The methods that a set of tags asks for: the comparison of bytes if `hash` is among
/// the tags, then the comparison of pictures if `dhash` is. Each at most once, bytes
/// first, however often and in whatever order the tags name them.
pub open spec fn methods_named(tags: Seq<Seq<char>>, threshold: u32) -> Seq<CompareMethod> {
    (if tags.contains("hash"@) {
        seq![CompareMethod::ByteHash]
    } else {
        seq![]
    }) + (if tags.contains("dhash"@) {
        seq![CompareMethod::PerceptualDHash { threshold }]
    } else {
        seq![]
    })
}

/// Reads the tags as a set: which methods are asked for at all.
pub fn methods_in_tags(tags: &Vec<String>, threshold: u32) -> (methods: Vec<CompareMethod>)
    ensures
        methods@ == methods_named(texts(tags@), threshold),
{
    let hash = String::from_str("hash");
    let dhash = String::from_str("dhash");
    let mut bytes = false;
    let mut pictures = false;
    let mut t: usize = 0;
    while t < tags.len()
        invariant
            t <= tags.len(),
            hash@ == "hash"@,
            dhash@ == "dhash"@,
            bytes == texts(tags@).take(t as int).contains("hash"@),
            pictures == texts(tags@).take(t as int).contains("dhash"@),
        decreases tags.len() - t,
    {
        proof {
            let shorter = texts(tags@).take(t as int);
            let longer = texts(tags@).take(t + 1);
            assert(longer =~= shorter.push(tags@[t as int]@));
            lemma_contains_either(shorter, seq![tags@[t as int]@], "hash"@);
            lemma_contains_either(shorter, seq![tags@[t as int]@], "dhash"@);
            assert(longer =~= shorter + seq![tags@[t as int]@]);
            assert(seq![tags@[t as int]@].contains("hash"@) == (tags@[t as int]@ == "hash"@)) by {
                if tags@[t as int]@ == "hash"@ {
                    assert(seq![tags@[t as int]@][0] == "hash"@);
                }
            }
            assert(seq![tags@[t as int]@].contains("dhash"@) == (tags@[t as int]@ == "dhash"@)) by {
                if tags@[t as int]@ == "dhash"@ {
                    assert(seq![tags@[t as int]@][0] == "dhash"@);
                }
            }
        }
        if tags[t] == hash {
            bytes = true;
        }
        if tags[t] == dhash {
            pictures = true;
        }
        t += 1;
    }
    proof {
        assert(texts(tags@).take(tags.len() as int) =~= texts(tags@));
    }
    let mut methods: Vec<CompareMethod> = Vec::new();
    if bytes {
        methods.push(CompareMethod::ByteHash);
    }
    if pictures {
        methods.push(CompareMethod::PerceptualDHash { threshold });
    }
    proof {
        assert(methods@ =~= methods_named(texts(tags@), threshold));
    }
    methods
}

/// Whether `pairs` is what one method reports of the records: for the comparison of
/// bytes the groups of equal size and content hash, in any order; for the comparison of
/// pictures the clusters for the method's threshold.
pub open spec fn found_by(records: Seq<FileRecord>, method: CompareMethod, now: Timestamp, pairs: Seq<MatchPairView>) -> bool {
    match method {
        CompareMethod::ByteHash => exists|groups: Seq<Seq<usize>>|
            is_grouping(all_indices(records.len()), content_key(records), groups) && pairs == #[trigger] reports_of(
                records,
                groups,
                method,
                now,
            ),
        CompareMethod::PerceptualDHash { threshold } => pairs == reports_of(
            records,
            visual_clusters(records, threshold),
            method,
            now,
        ),
    }
}

/// Whether `pairs` is what the methods report of the records, one method after the
/// other in the order given. A method that finds nothing adds nothing.
pub open spec fn is_result_of(
    records: Seq<FileRecord>,
    methods: Seq<CompareMethod>,
    now: Timestamp,
    pairs: Seq<MatchPairView>,
) -> bool
    decreases methods.len(),
{
    if methods.len() == 0 {
        pairs.len() == 0
    } else {
        exists|cut: int|
            0 <= cut <= pairs.len() && is_result_of(records, methods.drop_last(), now, #[trigger] pairs.take(cut)) && found_by(
                records,
                methods.last(),
                now,
                pairs.skip(cut),
            )
    }
}

/// Looks for duplicates among the records with each method in turn.
pub fn find_duplicates(records: &Vec<FileRecord>, methods: &Vec<CompareMethod>, now: Timestamp) -> (matches:
    DuplicateMatches)
    ensures
        is_result_of(records@, methods@, now, matches@),
{
    let mut groups: Vec<MatchPair> = Vec::new();
    let mut m: usize = 0;
    proof {
        assert(methods@.take(0) =~= Seq::<CompareMethod>::empty());
    }
    while m < methods.len()
        invariant
            m <= methods.len(),
            is_result_of(records@, methods@.take(m as int), now, pairs_view(groups@)),
        decreases methods.len() - m,
    {
        let ghost before = pairs_view(groups@);
        let mut found = match methods[m] {
            CompareMethod::ByteHash => find_duplicates_by_byte_hash(records, now),
            CompareMethod::PerceptualDHash { threshold } => find_duplicates_by_perceptual_hash(records, threshold, now),
        };
        let ghost added = pairs_view(found@);
        assert(found_by(records@, methods@[m as int], now, added));
        groups.append(&mut found);
        proof {
            let after = pairs_view(groups@);
            let cut = before.len() as int;
            assert(after =~= before + added);
            assert(after.take(cut) =~= before);
            assert(after.skip(cut) =~= added);
            assert(methods@.take(m + 1).drop_last() =~= methods@.take(m as int));
            assert(methods@.take(m + 1).last() == methods@[m as int]);
        }
        m += 1;
    }
    proof {
        assert(methods@.take(methods.len() as int) =~= methods@);
    }
    let matches = DuplicateMatches { groups };
    proof {
        assert(matches@ =~= pairs_view(matches.groups@));
    }
    matches
}

/// What one method reports of the same records is the same each time, whatever the order.
proof fn lemma_found_by_is_determined(
    records: Seq<FileRecord>,
    method: CompareMethod,
    now: Timestamp,
    once: Seq<MatchPairView>,
    again: Seq<MatchPairView>,
)
    requires
        found_by(records, method, now, once),
        found_by(records, method, now, again),
    ensures
        once.len() == again.len(),
        forall|pair: MatchPairView| once.contains(pair) ==> again.contains(pair),
{
    match method {
        CompareMethod::ByteHash => {
            let all = all_indices(records.len());
            let first = choose|groups: Seq<Seq<usize>>|
                is_grouping(all, content_key(records), groups) && once == #[trigger] reports_of(records, groups, method, now);
            let second = choose|groups: Seq<Seq<usize>>|
                is_grouping(all, content_key(records), groups) && again == #[trigger] reports_of(records, groups, method, now);
            lemma_grouping_is_determined(all, content_key(records), first, second);
            assert forall|pair: MatchPairView| once.contains(pair) implies again.contains(pair) by {
                let g = choose|g: int| 0 <= g < once.len() && once[g] == pair;
                assert(first.contains(first[g]));
                assert(second.to_set().contains(first[g]));
                assert(second.contains(first[g]));
                let h = choose|h: int| 0 <= h < second.len() && second[h] == first[g];
                assert(again[h] == pair);
            }
        },
        CompareMethod::PerceptualDHash { .. } => {},
    }
}

/// Scanning the same records twice with the same methods reports the same groups:
/// as many, and each group of one scan is a group of the other.
pub proof fn lemma_scan_is_determined(
    records: Seq<FileRecord>,
    methods: Seq<CompareMethod>,
    now: Timestamp,
    once: Seq<MatchPairView>,
    again: Seq<MatchPairView>,
)
    requires
        is_result_of(records, methods, now, once),
        is_result_of(records, methods, now, again),
    ensures
        once.len() == again.len(),
        once.to_set() == again.to_set(),
    decreases methods.len(),
{
    if methods.len() == 0 {
        assert(once =~= again);
    } else {
        let cut = choose|cut: int|
            0 <= cut <= once.len() && is_result_of(records, methods.drop_last(), now, #[trigger] once.take(cut)) && found_by(
                records,
                methods.last(),
                now,
                once.skip(cut),
            );
        let other = choose|other: int|
            0 <= other <= again.len() && is_result_of(records, methods.drop_last(), now, #[trigger] again.take(other))
                && found_by(records, methods.last(), now, again.skip(other));
        lemma_scan_is_determined(records, methods.drop_last(), now, once.take(cut), again.take(other));
        lemma_found_by_is_determined(records, methods.last(), now, once.skip(cut), again.skip(other));
        lemma_found_by_is_determined(records, methods.last(), now, again.skip(other), once.skip(cut));
        assert(once =~= once.take(cut) + once.skip(cut));
        assert(again =~= again.take(other) + again.skip(other));
        assert forall|pair: MatchPairView| once.contains(pair) == again.contains(pair) by {
            lemma_contains_either(once.take(cut), once.skip(cut), pair);
            lemma_contains_either(again.take(other), again.skip(other), pair);
            assert(once.take(cut).to_set().contains(pair) == again.take(other).to_set().contains(pair));
        }
        assert(once.to_set() =~= again.to_set());
    }
}

/// What stands in two lists put together stands in one of them.
proof fn lemma_contains_either<A>(front: Seq<A>, back: Seq<A>, item: A)
    ensures
        (front + back).contains(item) == (front.contains(item) || back.contains(item)),
{
    let whole = front + back;
    if whole.contains(item) {
        let at = choose|at: int| 0 <= at < whole.len() && whole[at] == item;
        if at < front.len() {
            assert(front[at] == item);
        } else {
            assert(back[at - front.len()] == item);
        }
    }
    if front.contains(item) {
        let at = choose|at: int| 0 <= at < front.len() && front[at] == item;
        assert(whole[at] == item);
    }
    if back.contains(item) {
        let at = choose|at: int| 0 <= at < back.len() && back[at] == item;
        assert(whole[front.len() + at] == item);
    }
}

/// Among no records there are no duplicates.
pub proof fn lemma_no_records_no_groups(
    records: Seq<FileRecord>,
    methods: Seq<CompareMethod>,
    now: Timestamp,
    pairs: Seq<MatchPairView>,
)
    requires
        records.len() == 0,
        is_result_of(records, methods, now, pairs),
    ensures
        pairs.len() == 0,
    decreases methods.len(),
{
    if methods.len() > 0 {
        let cut = choose|cut: int|
            0 <= cut <= pairs.len() && is_result_of(records, methods.drop_last(), now, #[trigger] pairs.take(cut)) && found_by(
                records,
                methods.last(),
                now,
                pairs.skip(cut),
            );
        lemma_no_records_no_groups(records, methods.drop_last(), now, pairs.take(cut));
        assert(cut == 0);
        let last = pairs.skip(cut);
        assert(last =~= pairs);
        match methods.last() {
            CompareMethod::ByteHash => {
                let groups = choose|groups: Seq<Seq<usize>>|
                    is_grouping(all_indices(records.len()), content_key(records), groups) && last == #[trigger] reports_of(
                        records,
                        groups,
                        methods.last(),
                        now,
                    );
                if groups.len() > 0 {
                    assert(is_full_class(all_indices(records.len()), content_key(records), groups[0]));
                    lemma_class_members(
                        all_indices(records.len()),
                        content_key(records),
                        content_key(records)(groups[0][0])->0,
                    );
                    assert(false);
                }
                assert(last.len() == groups.len());
            },
            CompareMethod::PerceptualDHash { threshold } => {
                let all = all_indices(records.len());
                all.lemma_filter_len(has_fingerprint(visual_key(records)));
                assert(pictures(records).len() == 0);
                assert(visual_clusters(records, threshold).len() == 0);
                assert(last.len() == visual_clusters(records, threshold).len());
            },
        }
    }
}

/// Whether no job is awaited.
pub open spec fn nothing_pending(pending: Seq<bool>) -> bool {
    forall|i: int| 0 <= i < pending.len() ==> !#[trigger] pending[i]
}

/// Whether `pairs` is what one method reports of the records while jobs are awaited.
/// Only what no job can change any more is reported: for the comparison of bytes the
/// groups of the sizes that are settled, in any order; for the comparison of pictures
/// the clusters if no job is awaited at all, else nothing, for a picture that comes in
/// later can change any cluster.
pub open spec fn found_early_by(
    records: Seq<FileRecord>,
    pending: Seq<bool>,
    method: CompareMethod,
    now: Timestamp,
    pairs: Seq<MatchPairView>,
) -> bool {
    match method {
        CompareMethod::ByteHash => exists|groups: Seq<Seq<usize>>|
            is_grouping(all_indices(records.len()), settled_content_key(records, pending), groups) && pairs == #[trigger] reports_of(
                records,
                groups,
                method,
                now,
            ),
        CompareMethod::PerceptualDHash { threshold } => pairs == if nothing_pending(pending) {
            reports_of(records, visual_clusters(records, threshold), method, now)
        } else {
            Seq::empty()
        },
    }
}

/// Whether `pairs` is what the methods report of the records while jobs are awaited,
/// one method after the other in the order given.
pub open spec fn is_early_result_of(
    records: Seq<FileRecord>,
    pending: Seq<bool>,
    methods: Seq<CompareMethod>,
    now: Timestamp,
    pairs: Seq<MatchPairView>,
) -> bool
    decreases methods.len(),
{
    if methods.len() == 0 {
        pairs.len() == 0
    } else {
        exists|cut: int|
            0 <= cut <= pairs.len() && is_early_result_of(records, pending, methods.drop_last(), now, #[trigger] pairs.take(cut))
                && found_early_by(records, pending, methods.last(), now, pairs.skip(cut))
    }
}

/// Whether a job is awaited.
pub fn is_any_pending(pending: &Vec<bool>) -> (waits: bool)
    ensures
        waits == !nothing_pending(pending@),
{
    let mut i: usize = 0;
    while i < pending.len()
        invariant
            i <= pending.len(),
            forall|d: int| 0 <= d < i ==> !#[trigger] pending@[d],
        decreases pending.len() - i,
    {
        if pending[i] {
            return true;
        }
        i += 1;
    }
    false
}

/// Looks for the duplicates that are known for good while jobs are awaited, with each
/// method in turn.
pub fn find_settled_duplicates(
    records: &Vec<FileRecord>,
    pending: &Vec<bool>,
    methods: &Vec<CompareMethod>,
    now: Timestamp,
) -> (matches: DuplicateMatches)
    requires
        pending@.len() == records@.len(),
    ensures
        is_early_result_of(records@, pending@, methods@, now, matches@),
{
    let waits = is_any_pending(pending);
    let mut groups: Vec<MatchPair> = Vec::new();
    let mut m: usize = 0;
    proof {
        assert(methods@.take(0) =~= Seq::<CompareMethod>::empty());
    }
    while m < methods.len()
        invariant
            m <= methods.len(),
            pending@.len() == records@.len(),
            waits == !nothing_pending(pending@),
            is_early_result_of(records@, pending@, methods@.take(m as int), now, pairs_view(groups@)),
        decreases methods.len() - m,
    {
        let ghost before = pairs_view(groups@);
        let mut found = match methods[m] {
            CompareMethod::ByteHash => find_settled_duplicates_by_byte_hash(records, pending, now),
            CompareMethod::PerceptualDHash { threshold } => if waits {
                Vec::new()
            } else {
                find_duplicates_by_perceptual_hash(records, threshold, now)
            },
        };
        let ghost added = pairs_view(found@);
        proof {
            if methods@[m as int] is PerceptualDHash && waits {
                assert(added =~= Seq::<MatchPairView>::empty());
            }
        }
        assert(found_early_by(records@, pending@, methods@[m as int], now, added));
        groups.append(&mut found);
        proof {
            let after = pairs_view(groups@);
            let cut = before.len() as int;
            assert(after =~= before + added);
            assert(after.take(cut) =~= before);
            assert(after.skip(cut) =~= added);
            assert(methods@.take(m + 1).drop_last() =~= methods@.take(m as int));
            assert(methods@.take(m + 1).last() == methods@[m as int]);
        }
        m += 1;
    }
    proof {
        assert(methods@.take(methods.len() as int) =~= methods@);
    }
    let matches = DuplicateMatches { groups };
    proof {
        assert(matches@ =~= pairs_view(matches.groups@));
    }
    matches
}

/// Where no job is awaited, what is known for good is all there is: the early result of
/// a catalogue is its full result.
pub proof fn lemma_nothing_pending_full_result(
    records: Seq<FileRecord>,
    pending: Seq<bool>,
    methods: Seq<CompareMethod>,
    now: Timestamp,
    pairs: Seq<MatchPairView>,
)
    requires
        pending.len() == records.len(),
        nothing_pending(pending),
    ensures
        is_early_result_of(records, pending, methods, now, pairs) == is_result_of(records, methods, now, pairs),
    decreases methods.len(),
{
    assert(settled_records(records, pending) =~= records);
    if methods.len() > 0 {
        assert forall|cut: int| 0 <= cut <= pairs.len() implies (is_early_result_of(
            records,
            pending,
            methods.drop_last(),
            now,
            #[trigger] pairs.take(cut),
        ) && found_early_by(records, pending, methods.last(), now, pairs.skip(cut))) == (is_result_of(
            records,
            methods.drop_last(),
            now,
            pairs.take(cut),
        ) && found_by(records, methods.last(), now, pairs.skip(cut))) by {
            lemma_nothing_pending_full_result(records, pending, methods.drop_last(), now, pairs.take(cut));
        }
    }
}

/// Whether `whole` is the group `pair` again: found by the same method, listed with the
/// same tag, the same key and the same paths, and, if reported at the same time of day,
/// the same in every detail.
pub open spec fn stands_for(whole: MatchPairView, pair: MatchPairView, same_time: bool) -> bool {
    &&& whole.method == pair.method
    &&& listing_of(whole) == listing_of(pair)
    &&& same_time ==> whole == pair
}

/// Whether the group `pair` is among the groups `full`.
pub open spec fn is_reported_in(pair: MatchPairView, full: Seq<MatchPairView>, same_time: bool) -> bool {
    exists|f: int| 0 <= f < full.len() && stands_for(#[trigger] full[f], pair, same_time)
}

/// What is reported of a group whose records are as they were is the group again.
proof fn lemma_report_stands(
    records: Seq<FileRecord>,
    later: Seq<FileRecord>,
    group: Seq<usize>,
    method: CompareMethod,
    then: Timestamp,
    now: Timestamp,
)
    requires
        forall|m: int| 0 <= m < group.len() ==> (#[trigger] group[m]) < records.len() && later[group[m] as int]@
            == records[group[m] as int]@,
    ensures
        stands_for(
            MatchPairView { method, files: files_of(later, group, now) },
            MatchPairView { method, files: files_of(records, group, then) },
            then == now,
        ),
{
    let whole = MatchPairView { method, files: files_of(later, group, now) };
    let pair = MatchPairView { method, files: files_of(records, group, then) };
    assert forall|m: int| 0 <= m < group.len() implies whole.files[m].path == pair.files[m].path && whole.files[m].hash
        == pair.files[m].hash by {
        assert(later[group[m] as int]@ == records[group[m] as int]@);
    }
    assert(listing_of(whole).paths =~= listing_of(pair).paths);
    if then == now {
        assert(whole.files =~= pair.files);
    }
}

/// What one method reports while jobs are awaited, it reports as well once every job
/// is done.
proof fn lemma_found_early_stays(
    records: Seq<FileRecord>,
    pending: Seq<bool>,
    later: Seq<FileRecord>,
    method: CompareMethod,
    then: Timestamp,
    now: Timestamp,
    early: Seq<MatchPairView>,
    full: Seq<MatchPairView>,
)
    requires
        records.len() <= usize::MAX,
        is_later(records, pending, later),
        found_early_by(records, pending, method, then, early),
        found_by(later, method, now, full),
    ensures
        forall|e: int| 0 <= e < early.len() ==> is_reported_in(#[trigger] early[e], full, then == now),
{
    let all = all_indices(records.len());
    match method {
        CompareMethod::ByteHash => {
            let first = choose|groups: Seq<Seq<usize>>|
                is_grouping(all, settled_content_key(records, pending), groups) && early == #[trigger] reports_of(
                    records,
                    groups,
                    method,
                    then,
                );
            let second = choose|groups: Seq<Seq<usize>>|
                is_grouping(all, content_key(later), groups) && full == #[trigger] reports_of(later, groups, method, now);
            lemma_settled_groups_stay(records, pending, later, first, second);
            assert forall|e: int| 0 <= e < early.len() implies is_reported_in(#[trigger] early[e], full, then == now) by {
                assert(second.contains(first[e]));
                let f = choose|f: int| 0 <= f < second.len() && second[f] == first[e];
                assert forall|m: int| 0 <= m < first[e].len() implies (#[trigger] first[e][m]) < records.len() && later[first[e][m] as int]@
                    == records[first[e][m] as int]@ by {
                    assert(!pending[first[e][m] as int]);
                }
                lemma_report_stands(records, later, first[e], method, then, now);
                assert(stands_for(full[f], early[e], then == now));
            }
        },
        CompareMethod::PerceptualDHash { threshold } => {
            if nothing_pending(pending) {
                assert forall|i: int| 0 <= i < records.len() implies (#[trigger] later[i])@ == records[i]@ by {
                    assert(!pending[i]);
                }
                assert(visual_key(later) =~= visual_key(records)) by {
                    assert forall|i: usize| #[trigger] visual_key(later)(i) == visual_key(records)(i) by {
                        if i < records.len() {
                            assert(later[i as int]@ == records[i as int]@);
                        }
                    }
                }
                let clusters = visual_clusters(records, threshold);
                assert(visual_clusters(later, threshold) == clusters);
                lemma_clusters_within_records(records, threshold);
                assert forall|e: int| 0 <= e < early.len() implies is_reported_in(#[trigger] early[e], full, then == now) by {
                    assert forall|m: int| 0 <= m < clusters[e].len() implies (#[trigger] clusters[e][m]) < records.len()
                        && later[clusters[e][m] as int]@ == records[clusters[e][m] as int]@ by {
                        assert(clusters[e][m] < records.len());
                    }
                    lemma_report_stands(records, later, clusters[e], method, then, now);
                    assert(stands_for(full[e], early[e], then == now));
                }
            }
        },
    }
}

/// A cancelled scan reports nothing that the full scan does not report. Every group
/// that is reported while jobs are awaited is reported once every job is done: by the
/// same method, with the same tag, the same key and the same paths, whenever the full
/// scan is made; and the same in every detail if it is reported at the same time of day.
pub proof fn lemma_cancelled_result_stays(
    records: Seq<FileRecord>,
    pending: Seq<bool>,
    later: Seq<FileRecord>,
    methods: Seq<CompareMethod>,
    then: Timestamp,
    now: Timestamp,
    early: Seq<MatchPairView>,
    full: Seq<MatchPairView>,
)
    requires
        records.len() <= usize::MAX,
        is_later(records, pending, later),
        is_early_result_of(records, pending, methods, then, early),
        is_result_of(later, methods, now, full),
    ensures
        forall|e: int| 0 <= e < early.len() ==> is_reported_in(#[trigger] early[e], full, then == now),
    decreases methods.len(),
{
    if methods.len() > 0 {
        let cut = choose|cut: int|
            0 <= cut <= early.len() && is_early_result_of(records, pending, methods.drop_last(), then, #[trigger] early.take(cut))
                && found_early_by(records, pending, methods.last(), then, early.skip(cut));
        let other = choose|other: int|
            0 <= other <= full.len() && is_result_of(later, methods.drop_last(), now, #[trigger] full.take(other)) && found_by(
                later,
                methods.last(),
                now,
                full.skip(other),
            );
        lemma_cancelled_result_stays(records, pending, later, methods.drop_last(), then, now, early.take(cut), full.take(other));
        lemma_found_early_stays(records, pending, later, methods.last(), then, now, early.skip(cut), full.skip(other));
        assert forall|e: int| 0 <= e < early.len() implies is_reported_in(#[trigger] early[e], full, then == now) by {
            if e < cut {
                assert(early.take(cut)[e] == early[e]);
                assert(is_reported_in(early.take(cut)[e], full.take(other), then == now));
                let f = choose|f: int| 0 <= f < other && stands_for(#[trigger] full.take(other)[f], early[e], then == now);
                assert(full[f] == full.take(other)[f]);
            } else {
                assert(early.skip(cut)[e - cut] == early[e]);
                assert(is_reported_in(early.skip(cut)[e - cut], full.skip(other), then == now));
                let f = choose|f: int|
                    0 <= f < full.len() - other && stands_for(#[trigger] full.skip(other)[f], early[e], then == now);
                assert(full[other + f] == full.skip(other)[f]);
            }
        }
    }
}

/// Which fingerprints are wanted of a file. Decided once for each file, before it is read.
#[derive(Debug, Clone, Copy, PartialEq, Eq, Structural)]
pub struct Wanted {
    /// The content hash.
    pub content_hash: bool,
    /// The difference hash.
    pub visual_hash: bool,
}

/// One file to read and fingerprint.
#[derive(Debug)]
pub struct FileJob {
    /// The place of the file in the catalogue; the outcome is handed in under it.
    pub index: usize,
    /// Where the file is.
    pub path: String,
    /// What to compute of it.
    pub wanted: Wanted,
}

/// The mathematical value of a [`FileJob`].
pub struct FileJobView {
    pub index: usize,
    pub path: Seq<char>,
    pub wanted: Wanted,
}

impl View for FileJob {
    type V = FileJobView;

    open spec fn view(&self) -> FileJobView {
        FileJobView { index: self.index, path: self.path@, wanted: self.wanted }
    }
}

/// The values of a list of jobs.
pub open spec fn jobs_view(jobs: Seq<FileJob>) -> Seq<FileJobView> {
    Seq::new(jobs.len(), |j: int| jobs[j]@)
}

/// What reading one file gave.
#[derive(Debug)]
pub struct Fingerprints {
    /// The content hash, if it was wanted.
    pub byte_hash: Option<String>,
    /// The difference hash, if it was wanted and the file is a picture.
    pub perceptual_hash: Option<u64>,
    /// The preview, if the file is a picture and one could be rendered.
    pub preview_base64: Option<String>,
}

/// Whether the comparison of bytes is among the methods.
pub open spec fn wants_content(methods: Seq<CompareMethod>) -> bool {
    exists|m: int| 0 <= m < methods.len() && #[trigger] methods[m] is ByteHash
}

/// Whether a comparison of pictures is among the methods.
pub open spec fn wants_visual(methods: Seq<CompareMethod>) -> bool {
    exists|m: int| 0 <= m < methods.len() && #[trigger] methods[m] is PerceptualDHash
}

/// What is wanted of the record at `i`: the content hash if bytes are compared and the
/// file shares its size with another; the difference hash if pictures are compared,
/// whatever the size.
pub open spec fn wanted_of(records: Seq<FileRecord>, methods: Seq<CompareMethod>, i: int) -> Wanted {
    Wanted { content_hash: wants_content(methods) && shares_size(records, i), visual_hash: wants_visual(methods) }
}

/// Whether anything is wanted.
pub open spec fn is_work(wanted: Wanted) -> bool {
    wanted.content_hash || wanted.visual_hash
}

/// The test "something is wanted of this record".
pub open spec fn work_test(records: Seq<FileRecord>, methods: Seq<CompareMethod>) -> spec_fn(usize) -> bool {
    |i: usize| is_work(wanted_of(records, methods, i as int))
}

/// The job for the record at `i`.
pub open spec fn job_at(records: Seq<FileRecord>, methods: Seq<CompareMethod>) -> spec_fn(usize) -> FileJobView {
    |i: usize| FileJobView { index: i, path: records[i as int].path@, wanted: wanted_of(records, methods, i as int) }
}

/// The jobs of a scan: one for every record of which something is wanted, in the order
/// of the catalogue.
pub open spec fn jobs_of(records: Seq<FileRecord>, methods: Seq<CompareMethod>) -> Seq<FileJobView> {
    all_indices(records.len()).filter(work_test(records, methods)).map_values(job_at(records, methods))
}

/// How many of the flags are set.
pub open spec fn count_true(flags: Seq<bool>) -> nat
    decreases flags.len(),
{
    if flags.len() == 0 {
        0
    } else {
        count_true(flags.drop_last()) + if flags.last() {
            1nat
        } else {
            0nat
        }
    }
}

/// Clearing a flag that was set leaves one flag less set.
pub proof fn lemma_count_clear(flags: Seq<bool>, at: int)
    requires
        0 <= at < flags.len(),
        flags[at],
    ensures
        count_true(flags.update(at, false)) + 1 == count_true(flags),
    decreases flags.len(),
{
    let cleared = flags.update(at, false);
    if at == flags.len() - 1 {
        assert(cleared.drop_last() =~= flags.drop_last());
    } else {
        lemma_count_clear(flags.drop_last(), at);
        assert(cleared.drop_last() =~= flags.drop_last().update(at, false));
    }
}

/// Which methods are asked for: first whether bytes are compared, then whether pictures are.
pub fn wanted_methods(methods: &Vec<CompareMethod>) -> (wants: (bool, bool))
    ensures
        wants.0 == wants_content(methods@),
        wants.1 == wants_visual(methods@),
{
    let mut content = false;
    let mut visual = false;
    let mut m: usize = 0;
    while m < methods.len()
        invariant
            m <= methods.len(),
            content == (exists|d: int| 0 <= d < m && #[trigger] methods[d] is ByteHash),
            visual == (exists|d: int| 0 <= d < m && #[trigger] methods[d] is PerceptualDHash),
        decreases methods.len() - m,
    {
        match methods[m] {
            CompareMethod::ByteHash => {
                content = true;
            },
            CompareMethod::PerceptualDHash { .. } => {
                visual = true;
            },
        }
        m += 1;
    }
    (content, visual)
}

/// Whether `i` stands in one of the first `upto` buckets.
pub open spec fn in_first(buckets: Seq<Seq<usize>>, upto: int, i: usize) -> bool {
    exists|b: int| 0 <= b < upto && (#[trigger] buckets[b]).contains(i)
}

/// A record stands in a size bucket exactly when it shares its size with another.
pub proof fn lemma_bucketed_shares_size(records: Seq<FileRecord>, buckets: Seq<Seq<usize>>, i: usize)
    requires
        records.len() <= usize::MAX,
        i < records.len(),
        is_grouping(all_indices(records.len()), size_key(records), buckets),
    ensures
        in_first(buckets, buckets.len() as int, i) == shares_size(records, i as int),
{
    let all = all_indices(records.len());
    let key_of = size_key(records);
    if in_first(buckets, buckets.len() as int, i) {
        let b = choose|b: int| 0 <= b < buckets.len() && (#[trigger] buckets[b]).contains(i);
        assert(is_full_class(all, key_of, buckets[b]));
        let key = key_of(buckets[b][0])->0;
        lemma_class_members(all, key_of, key);
        lemma_class_fellow(records.len(), key_of, key, i);
        let fellow = choose|fellow: usize|
            fellow != i && fellow < records.len() && key_of(fellow) == Some(key) && #[trigger] class_of(all, key_of, key).contains(
                fellow,
            );
        let at = choose|at: int| 0 <= at < buckets[b].len() && buckets[b][at] == i;
        assert(key_of(buckets[b][at]) == Some(key));
        assert(records[fellow as int].size == records[i as int].size);
    }
    if shares_size(records, i as int) {
        let j = choose|j: int| 0 <= j < records.len() && j != i && (#[trigger] records[j]).size == records[i as int].size;
        let key = records[i as int].size;
        lemma_two_make_a_class(records.len(), key_of, key, i, j as usize);
        assert(buckets.contains(class_of(all, key_of, key)));
        let b = choose|b: int| 0 <= b < buckets.len() && buckets[b] == class_of(all, key_of, key);
        assert(buckets[b].contains(i));
    }
}

/// Finds the records that share their size with another: the survivors of the size
/// buckets, which alone can have a byte-identical twin.
pub fn mark_shared_sizes(records: &Vec<FileRecord>) -> (shared: Vec<bool>)
    ensures
        shared@.len() == records@.len(),
        forall|i: int| 0 <= i < records@.len() ==> #[trigger] shared@[i] == shares_size(records@, i),
{
    let buckets = bucket_by_size(records);
    let ghost lists = index_lists(buckets@);
    let mut shared: Vec<bool> = Vec::new();
    let mut i: usize = 0;
    while i < records.len()
        invariant
            i <= records.len(),
            shared@.len() == i,
            forall|d: usize| d < i ==> !#[trigger] shared@[d as int],
        decreases records.len() - i,
    {
        shared.push(false);
        i += 1;
    }
    let mut b: usize = 0;
    while b < buckets.len()
        invariant
            b <= buckets.len(),
            lists == index_lists(buckets@),
            is_grouping(all_indices(records@.len()), size_key(records@), lists),
            shared@.len() == records@.len(),
            forall|d: usize| d < records@.len() ==> #[trigger] shared@[d as int] == in_first(lists, b as int, d),
        decreases buckets.len() - b,
    {
        let bucket = &buckets[b];
        let mut m: usize = 0;
        proof {
            assert(bucket@ == lists[b as int]);
            assert(is_full_class(all_indices(records@.len()), size_key(records@), bucket@));
            lemma_class_members(
                all_indices(records@.len()),
                size_key(records@),
                size_key(records@)(bucket@[0])->0,
            );
            assert forall|k: int| 0 <= k < bucket@.len() implies bucket@[k] < records@.len() by {
                assert(size_key(records@)(bucket@[k]) is Some);
            }
            assert(bucket@.take(0) =~= Seq::<usize>::empty());
        }
        while m < bucket.len()
            invariant
                m <= bucket.len(),
                b < buckets.len(),
                lists == index_lists(buckets@),
                bucket@ == lists[b as int],
                shared@.len() == records@.len(),
                forall|k: int| 0 <= k < bucket@.len() ==> bucket@[k] < records@.len(),
                forall|d: usize| d < records@.len() ==> #[trigger] shared@[d as int] == (in_first(lists, b as int, d)
                    || bucket@.take(m as int).contains(d)),
            decreases bucket.len() - m,
        {
            let index = bucket[m];
            let ghost before = shared@;
            shared.set(index, true);
            proof {
                let shorter = bucket@.take(m as int);
                let longer = bucket@.take(m + 1);
                assert(longer =~= shorter.push(index));
                assert forall|d: usize| d < records@.len() implies #[trigger] shared@[d as int] == (in_first(lists, b as int, d)
                    || longer.contains(d)) by {
                    if d == index {
                        assert(longer[m as int] == index);
                    } else {
                        assert(shared@[d as int] == before[d as int]);
                        if longer.contains(d) {
                            let at = choose|at: int| 0 <= at < longer.len() && longer[at] == d;
                            assert(at != m);
                            assert(shorter[at] == d);
                        }
                        if shorter.contains(d) {
                            let at = choose|at: int| 0 <= at < shorter.len() && shorter[at] == d;
                            assert(longer[at] == d);
                        }
                    }
                }
            }
            m += 1;
        }
        proof {
            assert(bucket@.take(bucket.len() as int) =~= bucket@);
            assert forall|d: usize| d < records@.len() implies #[trigger] shared@[d as int] == in_first(lists, b + 1, d) by {
                if in_first(lists, b + 1, d) {
                    let at = choose|at: int| 0 <= at < b + 1 && (#[trigger] lists[at]).contains(d);
                    if at < b {
                        assert(in_first(lists, b as int, d));
                    }
                }
                if in_first(lists, b as int, d) {
                    let at = choose|at: int| 0 <= at < b && (#[trigger] lists[at]).contains(d);
                    assert(lists[at].contains(d));
                }
                if bucket@.contains(d) {
                    assert(lists[b as int].contains(d));
                }
            }
        }
        b += 1;
    }
    proof {
        assert forall|i: int| 0 <= i < records@.len() implies #[trigger] shared@[i] == shares_size(records@, i) by {
            lemma_bucketed_shares_size(records@, lists, i as usize);
            assert(shared@[(i as usize) as int] == in_first(lists, buckets.len() as int, i as usize));
        }
    }
    shared
}

/// Plans the work of a scan: the jobs, and for every record whether a job awaits it.
/// Content hashes are wanted only of the records that share their size with another.
pub fn plan_jobs(records: &Vec<FileRecord>, methods: &Vec<CompareMethod>) -> (plan: (Vec<FileJob>, Vec<bool>))
    ensures
        jobs_view(plan.0@) == jobs_of(records@, methods@),
        plan.1@.len() == records@.len(),
        forall|i: int| 0 <= i < records@.len() ==> #[trigger] plan.1@[i] == is_work(wanted_of(records@, methods@, i)),
        count_true(plan.1@) == plan.0@.len(),
{
    let (content, visual) = wanted_methods(methods);
    let shared = mark_shared_sizes(records);
    let ghost test = work_test(records@, methods@);
    let ghost job_of = job_at(records@, methods@);
    let ghost all = all_indices(records@.len());
    let mut jobs: Vec<FileJob> = Vec::new();
    let mut pending: Vec<bool> = Vec::new();
    let mut i: usize = 0;
    proof {
        assert(all.take(0) =~= Seq::<usize>::empty());
        all.take(0).lemma_filter_len(test);
        assert(jobs_view(jobs@) =~= all.take(0).filter(test).map_values(job_of));
    }
    while i < records.len()
        invariant
            i <= records.len(),
            content == wants_content(methods@),
            visual == wants_visual(methods@),
            shared@.len() == records@.len(),
            forall|d: int| 0 <= d < records@.len() ==> #[trigger] shared@[d] == shares_size(records@, d),
            test == work_test(records@, methods@),
            job_of == job_at(records@, methods@),
            all == all_indices(records@.len()),
            jobs_view(jobs@) == all.take(i as int).filter(test).map_values(job_of),
            pending@.len() == i,
            forall|d: int| 0 <= d < i ==> #[trigger] pending@[d] == is_work(wanted_of(records@, methods@, d)),
            count_true(pending@) == jobs@.len(),
        decreases records.len() - i,
    {
        let ghost before = jobs_view(jobs@);
        let ghost flags = pending@;
        let wanted = Wanted { content_hash: content && shared[i], visual_hash: visual };
        proof {
            assert(all.take(i + 1) =~= all.take(i as int).push(i));
            all.take(i as int).lemma_filter_push(i, test);
            assert(wanted == wanted_of(records@, methods@, i as int));
        }
        if wanted.content_hash || wanted.visual_hash {
            jobs.push(FileJob { index: i, path: records[i].path.clone(), wanted });
            pending.push(true);
            proof {
                assert(jobs_view(jobs@) =~= before.push(job_of(i)));
                assert(all.take(i as int).filter(test).push(i).map_values(job_of) =~= before.push(job_of(i)));
            }
        } else {
            pending.push(false);
            proof {
                assert(jobs_view(jobs@) =~= before);
            }
        }
        proof {
            assert(pending@.drop_last() =~= flags);
        }
        i += 1;
    }
    proof {
        assert(all.take(records.len() as int) =~= all);
    }
    (jobs, pending)
}

/// The fingerprint that a gray picture gives: the difference hash where the machine can
/// compute it.
pub open spec fn fingerprint_of(gray: Option<GrayPicture>) -> Option<u64> {
    match gray {
        Some(picture) => if picture.shrinkable(GRID_HEIGHT) {
            Some(dhash_of_picture(picture))
        } else {
            None
        },
        None => None,
    }
}

/// Puts the fingerprints of a file together from its bytes and from what decoding them
/// gave: the gray picture, none if the file is no picture, and the preview, none if none
/// was rendered. Only what is wanted is computed.
pub fn assemble_fingerprints(wanted: Wanted, bytes: &[u8], gray: Option<GrayPicture>, preview: Option<String>) -> (found:
    Fingerprints)
    requires
        gray matches Some(picture) ==> picture.wf(),
    ensures
        text_of(found.byte_hash) == if wanted.content_hash {
            Some(content_hash_of(bytes@))
        } else {
            None
        },
        found.byte_hash matches Some(hex) ==> hex@.len() == CONTENT_HASH_LEN,
        found.perceptual_hash == if wanted.visual_hash {
            fingerprint_of(gray)
        } else {
            None
        },
        found.preview_base64 == preview,
{
    let byte_hash = if wanted.content_hash {
        Some(content_hash(bytes))
    } else {
        None
    };
    let perceptual = if wanted.visual_hash {
        match &gray {
            Some(picture) => perceptual_hash(picture),
            None => None,
        }
    } else {
        None
    };
    Fingerprints { byte_hash, perceptual_hash: perceptual, preview_base64: preview }
}

/// Fingerprints one file from its bytes, read once: the content hash if it is wanted;
/// the difference hash if it is wanted and the bytes decode as a picture; the preview if
/// they decode as a picture. A file that is no picture is no failure, it only has
/// neither of the two.
pub fn process_file_once(wanted: Wanted, bytes: &[u8]) -> (found: Fingerprints)
    ensures
        text_of(found.byte_hash) == if wanted.content_hash {
            Some(content_hash_of(bytes@))
        } else {
            None
        },
        found.byte_hash matches Some(hex) ==> hex@.len() == CONTENT_HASH_LEN,
        !wanted.visual_hash ==> found.perceptual_hash is None,
        found.perceptual_hash matches Some(bits) ==> exists|gray: GrayPicture| gray.wf() && #[trigger] fingerprint_of(Some(gray)) == Some(bits),
        found.preview_base64 matches Some(url) ==> exists|webp: Seq<u8>| url@ == preview_url_of(webp),
{
    match image_decode(bytes) {
        Some(decoded) => {
            let gray = to_gray(&decoded);
            let preview = generate_preview_base64(&decoded);
            let ghost picture = gray;
            let found = assemble_fingerprints(wanted, bytes, Some(gray), preview);
            proof {
                assert(wanted.visual_hash ==> found.perceptual_hash == fingerprint_of(Some(picture)));
            }
            found
        },
        None => assemble_fingerprints(wanted, bytes, None, None),
    }
}

/// The fingerprints of a file that was streamed through a hasher and not held in
/// memory: the content hash of all that was fed, and nothing of the picture.
pub fn streamed_fingerprints(hasher: &ContentHasher) -> (found: Fingerprints)
    ensures
        text_of(found.byte_hash) == Some(content_hash_of(hasher.fed())),
        found.byte_hash matches Some(hex) ==> hex@.len() == CONTENT_HASH_LEN,
        found.perceptual_hash is None,
        found.preview_base64 is None,
{
    Fingerprints { byte_hash: Some(hasher.finalize()), perceptual_hash: None, preview_base64: None }
}

/// A record with its fingerprints filled in.
pub open spec fn filled(record: FileRecord, found: Fingerprints) -> FileRecord {
    FileRecord {
        path: record.path,
        size: record.size,
        modified: record.modified,
        byte_hash: found.byte_hash,
        perceptual_hash: found.perceptual_hash,
        preview_base64: found.preview_base64,
    }
}

/// What the caller hands in.
#[derive(Debug)]
pub enum ScanEvent {
    /// The scan is to begin.
    Start,
    /// The walk is over: this is what it met.
    Walked { entries: Vec<WalkedEntry> },
    /// The root does not exist or cannot be read.
    WalkFailed { message: String },
    /// The file of the job with this index was read and fingerprinted.
    FileDone { index: usize, found: Fingerprints },
    /// The file of the job with this index could not be opened or read.
    FileFailed { index: usize, message: String },
    /// The caller is ready for the groups.
    Resume,
}

/// What the scan asks of the caller.
#[derive(Debug)]
pub enum ScanAction {
    /// Walk the tree under the root and hand in what is met, or that the walk failed.
    Walk { root: String },
    /// Read and fingerprint these files, in any order, and hand in each outcome.
    Process { jobs: Vec<FileJob> },
    /// Tell the listener how far the scan is. While the scan is hashing, more outcomes
    /// are awaited; once it is clustering, `Resume` is.
    Report { progress: DuplicateProgress },
    /// The scan is over, to the end or by cancellation: these are its groups.
    Finish { matches: DuplicateMatches },
    /// The scan failed as a whole.
    Fail { error: ScanError },
    /// The event does not fit the state of the scan. Nothing has changed.
    Ignore,
}

/// One scan from start to end.
#[derive(Debug)]
pub struct ScanRun {
    /// Where the scan stands.
    pub phase: ScanPhase,
    /// The directory to scan.
    pub root: String,
    /// The comparisons asked for.
    pub methods: Vec<CompareMethod>,
    /// The extensions that make a file a candidate.
    pub allowed: Vec<String>,
    /// Jobs in all; 0 until the walk is over.
    pub total: usize,
    /// Jobs dealt with, whether fingerprinted or failed.
    pub processed: usize,
    /// The catalogue: one record for every candidate, in the order of the walk.
    pub records: Vec<FileRecord>,
    /// For every record, whether a job awaits it.
    pub pending: Vec<bool>,
    /// The files that could not be read, in the order they came in.
    pub failures: Vec<IoFailure>,
}

impl ScanRun {
    /// Whether the counts agree: every job has either been dealt with or awaits its
    /// record, and the phase fits the counts.
    pub open spec fn wf(&self) -> bool {
        &&& self.pending@.len() == self.records@.len()
        &&& self.processed + count_true(self.pending@) == self.total
        &&& (self.phase == ScanPhase::Idle || self.phase == ScanPhase::Walking) ==> self.total == 0 && self.records@.len() == 0
        &&& self.phase == ScanPhase::Hashing ==> self.processed < self.total
        &&& self.phase == ScanPhase::Clustering ==> self.processed == self.total
    }

    /// Checks the counts of a scan that was put together by hand.
    pub fn well_formed(&self) -> (ok: bool)
        ensures
            ok == self.wf(),
    {
        if self.pending.len() != self.records.len() {
            return false;
        }
        let mut awaited: usize = 0;
        let mut i: usize = 0;
        proof {
            assert(self.pending@.take(0) =~= Seq::<bool>::empty());
        }
        while i < self.pending.len()
            invariant
                i <= self.pending.len(),
                awaited <= i,
                awaited == count_true(self.pending@.take(i as int)),
            decreases self.pending.len() - i,
        {
            proof {
                assert(self.pending@.take(i + 1).drop_last() =~= self.pending@.take(i as int));
            }
            if self.pending[i] {
                awaited += 1;
            }
            i += 1;
        }
        proof {
            assert(self.pending@.take(self.pending.len() as int) =~= self.pending@);
        }
        if self.processed > self.total || self.total - self.processed != awaited {
            return false;
        }
        match self.phase {
            ScanPhase::Idle => self.total == 0 && self.records.len() == 0,
            ScanPhase::Walking => self.total == 0 && self.records.len() == 0,
            ScanPhase::Hashing => self.processed < self.total,
            ScanPhase::Clustering => self.processed == self.total,
            ScanPhase::Done => true,
            ScanPhase::Cancelled => true,
        }
    }

    /// A scan that has not started.
    pub fn new(root: String, methods: Vec<CompareMethod>, allowed: Vec<String>) -> (run: Self)
        ensures
            run.wf(),
            run.phase == ScanPhase::Idle,
            run.root == root,
            run.methods == methods,
            run.allowed == allowed,
            run.total == 0,
            run.processed == 0,
            run.records@.len() == 0,
            run.pending@.len() == 0,
            run.failures@.len() == 0,
    {
        ScanRun {
            phase: ScanPhase::Idle,
            root,
            methods,
            allowed,
            total: 0,
            processed: 0,
            records: Vec::new(),
            pending: Vec::new(),
            failures: Vec::new(),
        }
    }

    /// Whether the scan is asked the same as `before`: root, methods and extensions.
    pub open spec fn same_request(&self, before: &ScanRun) -> bool {
        &&& self.root == before.root
        &&& self.methods == before.methods
        &&& self.allowed == before.allowed
    }

    /// Whether nothing but the phase differs from `before`.
    pub open spec fn same_but_phase(&self, before: &ScanRun) -> bool {
        &&& self.same_request(before)
        &&& self.total == before.total
        &&& self.processed == before.processed
        &&& self.records == before.records
        &&& self.pending == before.pending
        &&& self.failures == before.failures
    }

    /// Whether `action` ends the scan with the groups among its records at `now`.
    pub open spec fn finishes(&self, action: ScanAction, now: Timestamp) -> bool {
        action matches ScanAction::Finish { matches } && is_result_of(self.records@, self.methods@, now, matches@)
    }

    /// Whether `action` ends the scan before its time, with the groups that are known
    /// for good at `now`: those that no job still awaited could change.
    pub open spec fn ends_early(&self, action: ScanAction, now: Timestamp) -> bool {
        action matches ScanAction::Finish { matches } && is_early_result_of(
            self.records@,
            self.pending@,
            self.methods@,
            now,
            matches@,
        )
    }

    /// Whether `action` reports the present counts at `elapsed_ms`, naming `current`.
    pub open spec fn reports(&self, action: ScanAction, elapsed_ms: u64, current: Seq<char>) -> bool {
        &&& action matches ScanAction::Report { progress }
        &&& progress.processed == self.processed
        &&& progress.total == self.total
        &&& progress.elapsed_ms == elapsed_ms
        &&& progress.current@ == current
        &&& match progress.eta_ms {
            Some(eta) => eta_of(self.processed as nat, self.total as nat, elapsed_ms as nat) == Some(eta as nat),
            None => eta_of(self.processed as nat, self.total as nat, elapsed_ms as nat) is None,
        }
    }

    /// Whether the job with this index awaits its outcome.
    pub open spec fn awaits(&self, index: usize) -> bool {
        self.phase == ScanPhase::Hashing && index < self.pending@.len() && self.pending@[index as int]
    }

    /// Whether the counts are those of `before` with the job `index` dealt with.
    pub open spec fn counts_one_more(&self, before: &ScanRun, index: usize) -> bool {
        &&& self.same_request(before)
        &&& self.total == before.total
        &&& self.processed == before.processed + 1
        &&& self.pending@ == before.pending@.update(index as int, false)
    }

    /// What one step does, case by case. `self` is the scan after the step.
    pub open spec fn follows(
        &self,
        before: &ScanRun,
        event: ScanEvent,
        clock: Clock,
        cancel_before: bool,
        cancel_after: bool,
        action: ScanAction,
    ) -> bool {
        match (before.phase, event) {
            // A scan begins by walking; a request to cancel left over from before is dropped.
            (ScanPhase::Idle, ScanEvent::Start) => {
                &&& self.same_but_phase(before)
                &&& self.phase == ScanPhase::Walking
                &&& !cancel_after
                &&& action matches ScanAction::Walk { root }
                &&& root@ == before.root@
            },
            // A root that cannot be read fails the scan.
            (ScanPhase::Walking, ScanEvent::WalkFailed { message }) => {
                &&& self.same_but_phase(before)
                &&& self.phase == ScanPhase::Done
                &&& cancel_after == cancel_before
                &&& action matches ScanAction::Fail { error: ScanError::RootUnreadable { message: reason } }
                &&& reason == message
            },
            // After the walk: cancelled, or the catalogue is taken and the work planned.
            (ScanPhase::Walking, ScanEvent::Walked { entries }) => {
                if cancel_before {
                    &&& self.same_but_phase(before)
                    &&& self.phase == ScanPhase::Cancelled
                    &&& !cancel_after
                    &&& self.ends_early(action, clock.now)
                } else {
                    &&& self.same_request(before)
                    &&& self.failures == before.failures
                    &&& self.processed == 0
                    &&& !cancel_after
                    &&& records_view(self.records@) == fresh_records(entries@, texts(before.allowed@))
                    &&& self.planned(action, clock.now)
                }
            },
            // A fingerprinted file is counted and its record filled in.
            (ScanPhase::Hashing, ScanEvent::FileDone { index, found }) => {
                if before.awaits(index) {
                    &&& self.counts_one_more(before, index)
                    &&& self.failures == before.failures
                    &&& self.records@ == before.records@.update(index as int, filled(before.records@[index as int], found))
                    &&& self.after_one_more(clock, cancel_before, cancel_after, action, before.records@[index as int].path@)
                } else {
                    self.ignores(before, cancel_before, cancel_after, action)
                }
            },
            // A file that could not be read is counted and noted; its record stays bare.
            (ScanPhase::Hashing, ScanEvent::FileFailed { index, message }) => {
                if before.awaits(index) {
                    &&& self.counts_one_more(before, index)
                    &&& self.records == before.records
                    &&& self.failures@ == before.failures@.push(
                        IoFailure { path: before.records@[index as int].path, message },
                    )
                    &&& self.after_one_more(clock, cancel_before, cancel_after, action, before.records@[index as int].path@)
                } else {
                    self.ignores(before, cancel_before, cancel_after, action)
                }
            },
            // With all outcomes in, the groups are formed. A request to cancel that
            // came too late is dropped: no scan ends with the token set.
            (ScanPhase::Clustering, ScanEvent::Resume) => {
                &&& self.same_but_phase(before)
                &&& self.phase == ScanPhase::Done
                &&& !cancel_after
                &&& self.finishes(action, clock.now)
            },
            // Anything else changes nothing.
            _ => self.ignores(before, cancel_before, cancel_after, action),
        }
    }

    /// Whether the step changed nothing.
    pub open spec fn ignores(&self, before: &ScanRun, cancel_before: bool, cancel_after: bool, action: ScanAction) -> bool {
        &&& self.same_but_phase(before)
        &&& self.phase == before.phase
        &&& cancel_after == cancel_before
        &&& action is Ignore
    }

    /// Whether the work is planned for the catalogue just taken: a job awaits every
    /// record of which something is wanted. With no job at all the scan is over at once;
    /// else it turns to hashing and hands out the jobs.
    pub open spec fn planned(&self, action: ScanAction, now: Timestamp) -> bool {
        let jobs = jobs_of(self.records@, self.methods@);
        &&& self.pending@.len() == self.records@.len()
        &&& forall|i: int| 0 <= i < self.records@.len() ==> #[trigger] self.pending@[i] == is_work(wanted_of(self.records@, self.methods@, i))
        &&& self.total == jobs.len()
        &&& if jobs.len() == 0 {
            &&& self.phase == ScanPhase::Done
            &&& self.finishes(action, now)
        } else {
            &&& self.phase == ScanPhase::Hashing
            &&& action matches ScanAction::Process { jobs: handed }
            &&& jobs_view(handed@) == jobs
        }
    }

    /// What follows once a job has been counted: on a request to cancel the scan ends
    /// with what is known for good; after the last job it turns to clustering; else it
    /// goes on hashing. A scan that goes on reports its progress.
    pub open spec fn after_one_more(
        &self,
        clock: Clock,
        cancel_before: bool,
        cancel_after: bool,
        action: ScanAction,
        current: Seq<char>,
    ) -> bool {
        if cancel_before {
            &&& self.phase == ScanPhase::Cancelled
            &&& !cancel_after
            &&& self.ends_early(action, clock.now)
        } else if self.processed == self.total {
            &&& self.phase == ScanPhase::Clustering
            &&& !cancel_after
            &&& self.reports(action, clock.elapsed_ms, current)
        } else {
            &&& self.phase == ScanPhase::Hashing
            &&& !cancel_after
            &&& self.reports(action, clock.elapsed_ms, current)
        }
    }

    /// Ends the scan with the groups among the records it has.
    fn finish(&mut self, now: Timestamp) -> (action: ScanAction)
        ensures
            final(self).same_but_phase(old(self)),
            final(self).phase == ScanPhase::Done,
            final(self).finishes(action, now),
    {
        self.phase = ScanPhase::Done;
        let matches = find_duplicates(&self.records, &self.methods, now);
        ScanAction::Finish { matches }
    }

    /// Ends the scan on request, with the groups that are known for good.
    fn finish_early(&mut self, now: Timestamp) -> (action: ScanAction)
        requires
            old(self).pending@.len() == old(self).records@.len(),
        ensures
            final(self).same_but_phase(old(self)),
            final(self).phase == ScanPhase::Cancelled,
            final(self).ends_early(action, now),
    {
        self.phase = ScanPhase::Cancelled;
        let matches = find_settled_duplicates(&self.records, &self.pending, &self.methods, now);
        ScanAction::Finish { matches }
    }

    /// Decides what follows once a job has been counted.
    fn go_on(&mut self, clock: Clock, cancel: &mut CancelToken, current: String) -> (action: ScanAction)
        requires
            old(self).processed <= old(self).total,
            old(self).pending@.len() == old(self).records@.len(),
        ensures
            final(self).same_but_phase(old(self)),
            final(self).after_one_more(clock, old(cancel).requested, final(cancel).requested, action, current@),
    {
        if cancel.requested {
            cancel.requested = false;
            self.finish_early(clock.now)
        } else {
            if self.processed == self.total {
                self.phase = ScanPhase::Clustering;
            } else {
                self.phase = ScanPhase::Hashing;
            }
            let progress = emit_progress(self.processed, self.total, clock.elapsed_ms, current);
            ScanAction::Report { progress }
        }
    }

    /// Takes the catalogue of the walk and plans the work.
    fn plan(&mut self, entries: Vec<WalkedEntry>, now: Timestamp) -> (action: ScanAction)
        requires
            old(self).wf(),
            old(self).phase == ScanPhase::Walking,
        ensures
            final(self).wf(),
            final(self).same_request(old(self)),
            final(self).failures == old(self).failures,
            final(self).processed == 0,
            records_view(final(self).records@) == fresh_records(entries@, texts(old(self).allowed@)),
            final(self).planned(action, now),
    {
        let records = catalogue(&entries, &self.allowed);
        let (jobs, pending) = plan_jobs(&records, &self.methods);
        self.records = records;
        self.pending = pending;
        self.total = jobs.len();
        self.processed = 0;
        if jobs.len() == 0 {
            self.finish(now)
        } else {
            self.phase = ScanPhase::Hashing;
            ScanAction::Process { jobs }
        }
    }

    /// Takes one event and says what to do next. The token is looked at after the walk
    /// and after every file; a scan that sees the request ends, cancelled, with what is
    /// known for good. Whenever a scan ends with its groups, the token is clear.
    pub fn step(&mut self, event: ScanEvent, clock: Clock, cancel: &mut CancelToken) -> (action: ScanAction)
        requires
            old(self).wf(),
        ensures
            final(self).wf(),
            final(self).follows(old(self), event, clock, old(cancel).requested, final(cancel).requested, action),
    {
        match event {
            ScanEvent::Start => {
                if self.phase == ScanPhase::Idle {
                    self.phase = ScanPhase::Walking;
                    cancel.requested = false;
                    ScanAction::Walk { root: self.root.clone() }
                } else {
                    ScanAction::Ignore
                }
            },
            ScanEvent::WalkFailed { message } => {
                if self.phase == ScanPhase::Walking {
                    self.phase = ScanPhase::Done;
                    ScanAction::Fail { error: ScanError::RootUnreadable { message } }
                } else {
                    ScanAction::Ignore
                }
            },
            ScanEvent::Walked { entries } => {
                if self.phase == ScanPhase::Walking {
                    if cancel.requested {
                        cancel.requested = false;
                        self.finish_early(clock.now)
                    } else {
                        self.plan(entries, clock.now)
                    }
                } else {
                    ScanAction::Ignore
                }
            },
            ScanEvent::FileDone { index, found } => {
                if self.phase == ScanPhase::Hashing && index < self.pending.len() && self.pending[index] {
                    proof {
                        lemma_count_clear(self.pending@, index as int);
                    }
                    let current = self.records[index].path.clone();
                    let record = FileRecord {
                        path: self.records[index].path.clone(),
                        size: self.records[index].size,
                        modified: self.records[index].modified,
                        byte_hash: found.byte_hash,
                        perceptual_hash: found.perceptual_hash,
                        preview_base64: found.preview_base64,
                    };
                    self.records.set(index, record);
                    self.pending.set(index, false);
                    self.processed = self.processed + 1;
                    self.go_on(clock, cancel, current)
                } else {
                    ScanAction::Ignore
                }
            },
            ScanEvent::FileFailed { index, message } => {
                if self.phase == ScanPhase::Hashing && index < self.pending.len() && self.pending[index] {
                    proof {
                        lemma_count_clear(self.pending@, index as int);
                    }
                    let current = self.records[index].path.clone();
                    self.failures.push(IoFailure { path: self.records[index].path.clone(), message });
                    self.pending.set(index, false);
                    self.processed = self.processed + 1;
                    self.go_on(clock, cancel, current)
                } else {
                    ScanAction::Ignore
                }
            },
            ScanEvent::Resume => {
                if self.phase == ScanPhase::Clustering {
                    cancel.requested = false;
                    self.finish(clock.now)
                } else {
                    ScanAction::Ignore
                }
            },
        }
    }
}

/// A walk that met nothing ends the scan at once: no job, no group, no failure, and
/// nothing that could divide by zero.
pub proof fn lemma_empty_walk_finishes(
    before: ScanRun,
    after: ScanRun,
    entries: Vec<WalkedEntry>,
    clock: Clock,
    cancel_before: bool,
    cancel_after: bool,
    action: ScanAction,
)
    requires
        before.wf(),
        before.phase == ScanPhase::Walking,
        entries@.len() == 0,
        after.follows(&before, ScanEvent::Walked { entries }, clock, cancel_before, cancel_after, action),
    ensures
        after.phase == ScanPhase::Done || after.phase == ScanPhase::Cancelled,
        after.total == 0,
        after.processed == 0,
        after.records@.len() == 0,
        after.failures == before.failures,
        action matches ScanAction::Finish { matches } && matches@.len() == 0,
{
    if !cancel_before {
        let test = candidate_test(texts(before.allowed@));
        entries@.lemma_filter_len(test);
        assert(records_view(after.records@).len() == 0);
        assert(after.records@.len() == 0);
        all_indices(0).lemma_filter_len(work_test(after.records@, after.methods@));
    }
    match action {
        ScanAction::Finish { matches } => {
            if cancel_before {
                lemma_nothing_pending_full_result(after.records@, after.pending@, after.methods@, clock.now, matches@);
            }
            lemma_no_records_no_groups(after.records@, after.methods@, clock.now, matches@);
        },
        _ => {},
    }
}

/// Two files that decode to the same picture get the same fingerprint, at distance 0,
/// or both get none: whatever their bytes, they are no different to the comparison of
/// pictures.
pub proof fn lemma_same_decoding_same_fingerprint(a: DynamicImage, b: DynamicImage, gray_a: GrayPicture, gray_b: GrayPicture)
    requires
        same_in_gray(a, b),
        is_gray_of(gray_a, a),
        is_gray_of(gray_b, b),
    ensures
        fingerprint_of(Some(gray_a)) == fingerprint_of(Some(gray_b)),
        fingerprint_of(Some(gray_a)) matches Some(bits) ==> hamming(bits, fingerprint_of(Some(gray_b))->0) == 0,
{
    lemma_same_picture_same_hash(gray_a, gray_b);
}

/// Whether `path` is the path of a record of the catalogue.
pub open spec fn is_record_path(records: Seq<FileRecord>, path: Seq<char>) -> bool {
    exists|i: int| 0 <= i < records.len() && (#[trigger] records[i]).path@ == path
}

/// Whether every file that a reported group names is a record of the catalogue.
pub open spec fn names_records(records: Seq<FileRecord>, pair: MatchPairView) -> bool {
    forall|m: int| 0 <= m < pair.files.len() ==> is_record_path(records, (#[trigger] pair.files[m]).path)
}

/// Whether `path` is the path of a candidate among the entries of the walk: of a
/// regular file whose extension is let in.
pub open spec fn is_candidate_path(entries: Seq<WalkedEntry>, allowed: Seq<Seq<char>>, path: Seq<char>) -> bool {
    exists|e: int| 0 <= e < entries.len() && is_candidate(#[trigger] entries[e], allowed) && entries[e].path@ == path
}

/// The paths of the records, in the order of the catalogue.
pub open spec fn paths_of(records: Seq<FileRecord>) -> Seq<Seq<char>> {
    Seq::new(records.len(), |i: int| records[i].path@)
}

/// The catalogue taken after the walk holds candidates only: every record is a regular
/// file that the walk met, with an extension that is let in.
pub proof fn lemma_catalogue_holds_candidates(entries: Seq<WalkedEntry>, allowed: Seq<Seq<char>>, records: Seq<FileRecord>)
    requires
        records_view(records) == fresh_records(entries, allowed),
    ensures
        forall|i: int| 0 <= i < records.len() ==> is_candidate_path(entries, allowed, #[trigger] paths_of(records)[i]),
{
    let kept = entries.filter(candidate_test(allowed));
    assert(records_view(records).len() == kept.len());
    assert forall|i: int| 0 <= i < records.len() implies is_candidate_path(entries, allowed, #[trigger] paths_of(records)[i]) by {
        assert(records_view(records)[i] == fresh_records(entries, allowed)[i]);
        assert(fresh_records(entries, allowed)[i] == fresh_record_of(kept[i]));
        assert(records[i]@.path == kept[i].path@);
        entries.lemma_filter_pred(candidate_test(allowed), i);
        assert(kept.contains(kept[i]));
        entries.lemma_filter_contains_rev(candidate_test(allowed), kept[i]);
        let e = choose|e: int| 0 <= e < entries.len() && entries[e] == kept[i];
        assert(is_candidate(entries[e], allowed) && entries[e].path@ == paths_of(records)[i]);
    }
}

/// Once the catalogue is taken no step changes which files it holds: every step but
/// the one that ends the walk keeps the paths of the records.
pub proof fn lemma_step_keeps_paths(
    before: ScanRun,
    after: ScanRun,
    event: ScanEvent,
    clock: Clock,
    cancel_before: bool,
    cancel_after: bool,
    action: ScanAction,
)
    requires
        before.wf(),
        before.phase != ScanPhase::Walking,
        after.follows(&before, event, clock, cancel_before, cancel_after, action),
    ensures
        paths_of(after.records@) == paths_of(before.records@),
{
    match (before.phase, event) {
        (ScanPhase::Hashing, ScanEvent::FileDone { index, found }) => {
            if before.awaits(index) {
                assert(after.records@.len() == before.records@.len());
                assert forall|i: int| 0 <= i < before.records@.len() implies after.records@[i].path@ == before.records@[i].path@ by {
                    if i == index {
                        assert(after.records@[i] == filled(before.records@[i], found));
                    }
                }
            }
        },
        _ => {},
    }
    assert(paths_of(after.records@) =~= paths_of(before.records@));
}

/// What is reported of groups of indices names records only.
proof fn lemma_reports_name_records(
    records: Seq<FileRecord>,
    groups: Seq<Seq<usize>>,
    method: CompareMethod,
    now: Timestamp,
)
    requires
        crate::duplicate::within_records(groups, records.len()),
    ensures
        forall|g: int| 0 <= g < groups.len() ==> names_records(records, #[trigger] reports_of(records, groups, method, now)[g]),
{
    let pairs = reports_of(records, groups, method, now);
    assert forall|g: int| 0 <= g < groups.len() implies names_records(records, #[trigger] pairs[g]) by {
        assert forall|m: int| 0 <= m < pairs[g].files.len() implies is_record_path(records, (#[trigger] pairs[g].files[m]).path) by {
            assert(groups[g][m] < records.len());
            assert(records[groups[g][m] as int].path@ == pairs[g].files[m].path);
        }
    }
}

/// Every file that a scan reports, ended in time or early, is a record of its
/// catalogue: no path appears in a group that is not the path of a candidate.
pub proof fn lemma_result_names_records(
    records: Seq<FileRecord>,
    pending: Seq<bool>,
    methods: Seq<CompareMethod>,
    now: Timestamp,
    pairs: Seq<MatchPairView>,
)
    requires
        is_result_of(records, methods, now, pairs) || is_early_result_of(records, pending, methods, now, pairs),
    ensures
        forall|p: int| 0 <= p < pairs.len() ==> names_records(records, #[trigger] pairs[p]),
    decreases methods.len(),
{
    if methods.len() > 0 {
        let all = all_indices(records.len());
        let method = methods.last();
        let early = !is_result_of(records, methods, now, pairs);
        let cut = if early {
            choose|cut: int|
                0 <= cut <= pairs.len() && is_early_result_of(records, pending, methods.drop_last(), now, #[trigger] pairs.take(cut))
                    && found_early_by(records, pending, methods.last(), now, pairs.skip(cut))
        } else {
            choose|cut: int|
                0 <= cut <= pairs.len() && is_result_of(records, methods.drop_last(), now, #[trigger] pairs.take(cut)) && found_by(
                    records,
                    methods.last(),
                    now,
                    pairs.skip(cut),
                )
        };
        lemma_result_names_records(records, pending, methods.drop_last(), now, pairs.take(cut));
        let last = pairs.skip(cut);
        assert forall|l: int| 0 <= l < last.len() implies names_records(records, #[trigger] last[l]) by {
            match method {
                CompareMethod::ByteHash => {
                    if early {
                        let groups = choose|groups: Seq<Seq<usize>>|
                            is_grouping(all, settled_content_key(records, pending), groups) && last == #[trigger] reports_of(
                                records,
                                groups,
                                method,
                                now,
                            );
                        lemma_grouping_within_records(records.len(), settled_content_key(records, pending), groups);
                        lemma_reports_name_records(records, groups, method, now);
                    } else {
                        let groups = choose|groups: Seq<Seq<usize>>|
                            is_grouping(all, content_key(records), groups) && last == #[trigger] reports_of(records, groups, method, now);
                        lemma_grouping_within_records(records.len(), content_key(records), groups);
                        lemma_reports_name_records(records, groups, method, now);
                    }
                },
                CompareMethod::PerceptualDHash { threshold } => {
                    lemma_clusters_within_records(records, threshold);
                    lemma_reports_name_records(records, visual_clusters(records, threshold), method, now);
                },
            }
        }
        assert forall|p: int| 0 <= p < pairs.len() implies names_records(records, #[trigger] pairs[p]) by {
            if p < cut {
                assert(pairs.take(cut)[p] == pairs[p]);
            } else {
                assert(last[p - cut] == pairs[p]);
            }
        }
    }
}

} // verus!
