//! Gathering loose pictures: which folders outside the library hold pictures, and which.

use crate::buckets::{text_entries_view, text_map_contents, text_map_into_entries, text_map_new, text_map_push};
use crate::catalog::{is_candidate, is_candidate_entry, WalkedEntry};
use crate::file_formats::texts;
use crate::grouping::{
    all_indices, entry_lists, files_classes, index_lists, is_class_of_size, is_grouping_from, lemma_class_members,
    lemma_files_none, lemma_files_step, lemma_picked_is_grouping, pick_groups,
};
use vstd::prelude::*;

verus! {

/// One entry of the walk with what the file system tells of its place.
#[derive(Debug)]
pub struct BlackholeEntry {
    /// The entry itself.
    pub entry: WalkedEntry,
    /// The folder it lies in; none for the root of the file system.
    pub parent: Option<String>,
    /// Whether that folder lies within the destination, where pictures are at home.
    pub inside_destination: bool,
}

/// A folder that holds loose pictures.
#[derive(Debug)]
pub struct BlackholeFolder {
    /// The folder.
    pub path: String,
    /// The pictures in it, in the order in which the walk met them.
    pub files: Vec<String>,
}

/// The mathematical value of a [`BlackholeFolder`].
pub struct BlackholeFolderView {
    pub path: Seq<char>,
    pub files: Seq<Seq<char>>,
}

impl View for BlackholeFolder {
    type V = BlackholeFolderView;

    open spec fn view(&self) -> BlackholeFolderView {
        BlackholeFolderView { path: self.path@, files: texts(self.files@) }
    }
}

/// Whether an entry is a loose picture: a candidate that lies in a folder outside the
/// destination.
pub open spec fn is_loose(item: BlackholeEntry, allowed: Seq<Seq<char>>) -> bool {
    &&& is_candidate(item.entry, allowed)
    &&& item.parent is Some
    &&& !item.inside_destination
}

/// The folder of the entry at an index if it is a loose picture; none else.
pub open spec fn folder_key(items: Seq<BlackholeEntry>, allowed: Seq<Seq<char>>) -> spec_fn(usize) -> Option<Seq<char>> {
    |i: usize|
        if i < items.len() && is_loose(items[i as int], allowed) {
            Some(items[i as int].parent->0@)
        } else {
            None
        }
}

/// The folder that a group of loose pictures makes: the folder they share, with their paths.
pub open spec fn folder_of(items: Seq<BlackholeEntry>, allowed: Seq<Seq<char>>, group: Seq<usize>) -> BlackholeFolderView {
    BlackholeFolderView {
        path: folder_key(items, allowed)(group[0])->0,
        files: Seq::new(group.len(), |m: int| items[group[m] as int].entry.path@),
    }
}

/// The folders that a list of groups makes.
pub open spec fn folders_of(items: Seq<BlackholeEntry>, allowed: Seq<Seq<char>>, groups: Seq<Seq<usize>>) -> Seq<
    BlackholeFolderView,
> {
    Seq::new(groups.len(), |g: int| folder_of(items, allowed, groups[g]))
}

/// The values of a list of folders.
pub open spec fn folders_view(folders: Seq<BlackholeFolder>) -> Seq<BlackholeFolderView> {
    Seq::new(folders.len(), |f: int| folders[f]@)
}

/// Whether an entry is a loose picture.
pub fn is_loose_entry(item: &BlackholeEntry, allowed: &Vec<String>) -> (loose: bool)
    ensures
        loose == is_loose(*item, texts(allowed@)),
{
    is_candidate_entry(&item.entry, allowed) && item.parent.is_some() && !item.inside_destination
}

/// Groups the loose pictures by the folder they lie in: each group lists, in rising
/// order, the indices of all loose pictures of one folder.
pub fn group_by_folder(items: &Vec<BlackholeEntry>, allowed: &Vec<String>) -> (groups: Vec<Vec<usize>>)
    ensures
        is_grouping_from(all_indices(items@.len()), folder_key(items@, texts(allowed@)), index_lists(groups@), 1),
{
    let ghost candidates = all_indices(items@.len());
    let ghost key_of = folder_key(items@, texts(allowed@));
    let mut table = text_map_new();
    proof {
        lemma_files_none(text_map_contents(table), candidates, key_of);
    }
    let mut i: usize = 0;
    while i < items.len()
        invariant
            i <= items.len(),
            candidates == all_indices(items@.len()),
            key_of == folder_key(items@, texts(allowed@)),
            files_classes(text_map_contents(table), candidates, key_of, i as int),
        decreases items.len() - i,
    {
        proof {
            lemma_files_step(text_map_contents(table), candidates, key_of, i as int);
        }
        if is_loose_entry(&items[i], allowed) {
            match &items[i].parent {
                Some(folder) => {
                    text_map_push(&mut table, folder.clone(), i);
                },
                None => {},
            }
        }
        i += 1;
    }
    let ghost contents = text_map_contents(table);
    let entries = text_map_into_entries(table);
    let ghost listed = text_entries_view(entries@);
    let (groups, origin) = pick_groups(entries, 1);
    proof {
        assert(Seq::new(listed.len(), |e: int| listed[e].1) =~= entry_lists(entries@));
        lemma_picked_is_grouping(listed, contents, candidates, key_of, index_lists(groups@), origin@, 1);
    }
    groups
}

/// Finds the folders outside the destination that hold pictures. Each such folder is
/// listed once, with all its pictures in the order in which the walk met them. The order
/// of the folders is left open.
pub fn scan_blackhole_stream(items: &Vec<BlackholeEntry>, allowed: &Vec<String>) -> (folders: Vec<BlackholeFolder>)
    ensures
        exists|groups: Seq<Seq<usize>>|
            is_grouping_from(all_indices(items@.len()), folder_key(items@, texts(allowed@)), groups, 1) && folders_view(folders@)
                == #[trigger] folders_of(items@, texts(allowed@), groups),
{
    let groups = group_by_folder(items, allowed);
    let ghost lists = index_lists(groups@);
    let ghost key_of = folder_key(items@, texts(allowed@));
    let ghost all = all_indices(items@.len());
    let mut folders: Vec<BlackholeFolder> = Vec::new();
    let mut g: usize = 0;
    while g < groups.len()
        invariant
            g <= groups.len(),
            folders.len() == g,
            lists == index_lists(groups@),
            key_of == folder_key(items@, texts(allowed@)),
            all == all_indices(items@.len()),
            is_grouping_from(all, key_of, lists, 1),
            forall|d: int| 0 <= d < g ==> (#[trigger] folders[d])@ == folder_of(items@, texts(allowed@), lists[d]),
        decreases groups.len() - g,
    {
        let group = &groups[g];
        proof {
            assert(group@ == lists[g as int]);
            assert(is_class_of_size(all, key_of, group@, 1));
            lemma_class_members(all, key_of, key_of(group@[0])->0);
            assert forall|m: int| 0 <= m < group@.len() implies group@[m] < items@.len() by {
                assert(key_of(group@[m]) is Some);
            }
        }
        let first = group[0];
        let path = match &items[first].parent {
            Some(folder) => folder.clone(),
            None => String::new(),
        };
        let mut files: Vec<String> = Vec::new();
        let mut m: usize = 0;
        while m < group.len()
            invariant
                m <= group.len(),
                files.len() == m,
                forall|k: int| 0 <= k < group@.len() ==> group@[k] < items@.len(),
                forall|d: int| 0 <= d < m ==> (#[trigger] files[d])@ == items@[group@[d] as int].entry.path@,
            decreases group.len() - m,
        {
            files.push(items[group[m]].entry.path.clone());
            m += 1;
        }
        let folder = BlackholeFolder { path, files };
        proof {
            assert(folder@.files =~= folder_of(items@, texts(allowed@), group@).files);
            assert(folder@ == folder_of(items@, texts(allowed@), lists[g as int]));
        }
        folders.push(folder);
        g += 1;
    }
    proof {
        assert(folders_view(folders@) =~= folders_of(items@, texts(allowed@), lists));
    }
    folders
}

} // verus!
