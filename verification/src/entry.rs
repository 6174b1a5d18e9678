//! What is known of one entry of a directory.

use vstd::prelude::*;

verus! {

/// What kind of node an entry is.
#[derive(Clone, Copy, Debug, PartialEq, Eq, Structural)]
pub enum EntryKind {
    /// A directory: it is listed with the directory mark and walked in turn.
    Directory,
    /// A regular file: it is placed in the mirror. Its size is given in
    /// bytes, or is `None` where it could not be read.
    File { size: Option<u64> },
    /// Neither of the two, or a node whose kind could not be read.
    Other,
}

/// The kind of a node of which it is known whether it is a directory,
/// whether it is a regular file and, where it could be read, how many bytes
/// it holds. A directory is a directory whatever else is said of it.
pub open spec fn kind_of(is_dir: bool, is_file: bool, size: Option<u64>) -> EntryKind {
    if is_dir {
        EntryKind::Directory
    } else if is_file {
        EntryKind::File { size }
    } else {
        EntryKind::Other
    }
}

impl EntryKind {
    /// The kind of a node, as [`kind_of`] gives it.
    pub fn of(is_dir: bool, is_file: bool, size: Option<u64>) -> (kind: EntryKind)
        ensures
            kind == kind_of(is_dir, is_file, size),
    {
        if is_dir {
            EntryKind::Directory
        } else if is_file {
            EntryKind::File { size }
        } else {
            EntryKind::Other
        }
    }
}

/// One entry of a directory, as the caller read it.
#[derive(Debug)]
pub struct Entry {
    /// The entry's own name, without the directory.
    pub name: String,
    pub kind: EntryKind,
    /// When the entry was last modified, in whole seconds since the Unix
    /// epoch, or `None` where that could not be read.
    pub modified: Option<i64>,
}

/// The mathematical value of an [`Entry`].
pub struct EntryView {
    pub name: Seq<char>,
    pub kind: EntryKind,
    pub modified: Option<i64>,
}

impl View for Entry {
    type V = EntryView;

    open spec fn view(&self) -> EntryView {
        EntryView { name: self.name@, kind: self.kind, modified: self.modified }
    }
}

/// The values of a sequence of entries.
pub open spec fn entry_views(entries: Seq<Entry>) -> Seq<EntryView> {
    entries.map_values(|e: Entry| e@)
}

/// The value of what reading one child of a directory gave: the entry, or
/// `None` where the child could not be read.
pub open spec fn child_view(child: Option<Entry>) -> Option<EntryView> {
    match child {
        Some(entry) => Some(entry@),
        None => None,
    }
}

/// The values of what reading the children of a directory gave.
pub open spec fn child_views(children: Seq<Option<Entry>>) -> Seq<Option<EntryView>> {
    children.map_values(|c: Option<Entry>| child_view(c))
}

/// The entries of a directory, given what reading each of its children
/// gave: a child that could not be read is skipped, the others stay in
/// their order.
pub open spec fn entries_read(children: Seq<Option<EntryView>>) -> Seq<EntryView>
    decreases children.len(),
{
    if children.len() == 0 {
        Seq::empty()
    } else {
        match children.last() {
            Some(entry) => entries_read(children.drop_last()).push(entry),
            None => entries_read(children.drop_last()),
        }
    }
}

/// A child that could not be read is skipped, and nothing else changes:
/// with the failed reading, wherever it stands among the others, the
/// entries are those without it.
pub proof fn lemma_unreadable_child_is_skipped(children: Seq<Option<EntryView>>, k: int)
    requires
        0 <= k <= children.len(),
    ensures
        entries_read(children.insert(k, None)) == entries_read(children),
    decreases children.len(),
{
    let with = children.insert(k, None);
    if k == children.len() {
        assert(with.drop_last() =~= children);
    } else {
        assert(with.drop_last() =~= children.drop_last().insert(k, None));
        assert(with.last() == children.last());
        lemma_unreadable_child_is_skipped(children.drop_last(), k);
    }
}

/// The entries of a directory are the children that could be read, all of
/// them and no others.
pub proof fn lemma_children_read_are_kept(children: Seq<Option<EntryView>>)
    ensures
        forall|i: int|
            0 <= i < children.len() && (#[trigger] children[i]) is Some ==> entries_read(
                children,
            ).contains(children[i]->0),
        forall|j: int|
            0 <= j < entries_read(children).len() ==> children.contains(
                Some(#[trigger] entries_read(children)[j]),
            ),
    decreases children.len(),
{
    if children.len() > 0 {
        let front = children.drop_last();
        let read = entries_read(children);
        lemma_children_read_are_kept(front);
        assert forall|i: int|
            0 <= i < children.len() && (#[trigger] children[i]) is Some implies read.contains(
            children[i]->0,
        ) by {
            if i < front.len() {
                assert(front[i] == children[i]);
                let w = choose|w: int|
                    0 <= w < entries_read(front).len() && entries_read(front)[w] == children[i]->0;
                assert(read[w] == children[i]->0);
            } else {
                assert(read[read.len() - 1] == children[i]->0);
            }
        }
        assert forall|j: int| 0 <= j < read.len() implies children.contains(
            Some(#[trigger] read[j]),
        ) by {
            if j < entries_read(front).len() {
                assert(read[j] == entries_read(front)[j]);
                let w = choose|w: int| 0 <= w < front.len() && front[w] == Some(read[j]);
                assert(children[w] == Some(read[j]));
            } else {
                assert(children[children.len() - 1] == Some(read[j]));
            }
        }
    }
}

/// The entries of a directory, given what reading each of its children
/// gave: those that could be read, in the order in which they were read.
pub fn readable_entries(children: &Vec<Option<Entry>>) -> (entries: Vec<Entry>)
    ensures
        entry_views(entries@) == entries_read(child_views(children@)),
{
    let ghost all = child_views(children@);
    let mut entries: Vec<Entry> = Vec::new();
    let mut i: usize = 0;
    while i < children.len()
        invariant
            i <= children@.len(),
            all == child_views(children@),
            entry_views(entries@) == entries_read(all.take(i as int)),
        decreases children@.len() - i,
    {
        proof {
            assert(all.take(i + 1).drop_last() =~= all.take(i as int));
            assert(all.take(i + 1).last() == child_view(children@[i as int]));
        }
        let ghost before = entry_views(entries@);
        match &children[i] {
            Some(entry) => {
                entries.push(entry.duplicate());
                assert(entry_views(entries@) =~= before.push(entry@));
            },
            None => {},
        }
        i += 1;
    }
    assert(all.take(all.len() as int) =~= all);
    entries
}

impl Entry {
    /// An entry of the given name, kind and modification time.
    pub fn new(name: String, kind: EntryKind, modified: Option<i64>) -> (entry: Entry)
        ensures
            entry@ == (EntryView { name: name@, kind, modified }),
    {
        Entry { name, kind, modified }
    }

    /// A copy of the entry.
    pub fn duplicate(&self) -> (entry: Entry)
        ensures
            entry@ == self@,
    {
        Entry { name: self.name.clone(), kind: self.kind, modified: self.modified }
    }
}

} // verus!
