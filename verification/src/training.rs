//! The log of what the user decided about a file: kept or deleted, under which tag.

use vstd::prelude::*;

verus! {

/// One decision.
#[derive(Debug)]
pub struct TrainingEntry {
    /// The method that proposed the file.
    pub tag: String,
    /// The file decided about.
    pub path: String,
    /// Whether the user deleted it; none if the user decided neither way.
    pub delete: Option<bool>,
}

/// The mathematical value of a [`TrainingEntry`].
pub struct TrainingEntryView {
    pub tag: Seq<char>,
    pub path: Seq<char>,
    pub delete: Option<bool>,
}

impl View for TrainingEntry {
    type V = TrainingEntryView;

    open spec fn view(&self) -> TrainingEntryView {
        TrainingEntryView { tag: self.tag@, path: self.path@, delete: self.delete }
    }
}

/// The values of a log.
pub open spec fn entries_view(entries: Seq<TrainingEntry>) -> Seq<TrainingEntryView> {
    Seq::new(entries.len(), |i: int| entries[i]@)
}

/// Adds a decision at the end of the log. What was logged before stays as it is.
pub fn record_decision(entries: &mut Vec<TrainingEntry>, tag: String, path: String, delete: Option<bool>)
    ensures
        final(entries)@ == old(entries)@.push(TrainingEntry { tag, path, delete }),
        entries_view(final(entries)@) == entries_view(old(entries)@).push(
            TrainingEntryView { tag: tag@, path: path@, delete },
        ),
{
    entries.push(TrainingEntry { tag, path, delete });
    proof {
        assert(entries_view(entries@) =~= entries_view(old(entries)@).push(
            TrainingEntryView { tag: tag@, path: path@, delete },
        ));
    }
}

} // verus!
