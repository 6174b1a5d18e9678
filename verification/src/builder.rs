//! The walk over the tree: which node is handled next, and what handling a
//! directory leaves to be done.
//!
//! The builder holds the work that is pending. A caller takes the next task
//! from it, carries it out, and, for a directory, hands the directory's
//! entries back; the builder answers with the index page and schedules the
//! entries that are listed.

use crate::config::{Config, ConfigView};
use crate::entry::{
    entries_read, entry_views, lemma_unreadable_child_is_skipped, Entry, EntryKind, EntryView,
};
use crate::format::{describe_all, rows_of};
use crate::listing::{
    distinct_names, lemma_listing_ignores_read_order, listing_of, select_entries,
};
use crate::path::RelPath;
use crate::render::{document, generate_html};
use vstd::prelude::*;
use vstd::string::*;

verus! {

/// One piece of pending work.
#[derive(Debug)]
pub enum Task {
    /// Place the regular file at this path in the mirror.
    Place(RelPath),
    /// Create the directory at this path in the mirror, list the directory
    /// and write its index page.
    Index(RelPath),
}

/// The mathematical value of a [`Task`].
pub enum TaskView {
    Place(Seq<Seq<char>>),
    Index(Seq<Seq<char>>),
}

impl View for Task {
    type V = TaskView;

    open spec fn view(&self) -> TaskView {
        match self {
            Task::Place(path) => TaskView::Place(path@),
            Task::Index(path) => TaskView::Index(path@),
        }
    }
}

impl TaskView {
    /// The path that the task is about.
    pub open spec fn path(self) -> Seq<Seq<char>> {
        match self {
            TaskView::Place(path) => path,
            TaskView::Index(path) => path,
        }
    }
}

/// The values of a sequence of tasks.
pub open spec fn task_views(tasks: Seq<Task>) -> Seq<TaskView> {
    tasks.map_values(|t: Task| t@)
}

/// The task for a node at `path`: a regular file is placed, anything else is
/// taken for a directory.
pub open spec fn task_at(path: Seq<Seq<char>>, is_file: bool) -> TaskView {
    if is_file {
        TaskView::Place(path)
    } else {
        TaskView::Index(path)
    }
}

/// The task for an entry of the directory `dir`.
pub open spec fn task_for(dir: Seq<Seq<char>>, entry: EntryView) -> TaskView {
    task_at(dir.push(entry.name), entry.kind is File)
}

/// The tasks for the entries of a listing of `dir`, in its order.
pub open spec fn tasks_of(dir: Seq<Seq<char>>, listing: Seq<EntryView>) -> Seq<TaskView> {
    Seq::new(listing.len(), |i: int| task_for(dir, listing[i]))
}

/// The index page of the directory `dir`, given all its entries.
pub open spec fn page_of(config: ConfigView, dir: Seq<Seq<char>>, entries: Seq<EntryView>) -> Seq<
    char,
> {
    document(config, dir, rows_of(listing_of(config, dir, entries)))
}

/// Building again gives the same page: the index page of a directory is
/// fixed by the configuration, the directory's path and the entries that it
/// holds, in whatever order they were read.
pub proof fn lemma_page_ignores_read_order(
    config: ConfigView,
    dir: Seq<Seq<char>>,
    first: Seq<EntryView>,
    second: Seq<EntryView>,
)
    requires
        distinct_names(first),
        first.to_multiset() == second.to_multiset(),
    ensures
        page_of(config, dir, first) == page_of(config, dir, second),
        tasks_of(dir, listing_of(config, dir, first)) == tasks_of(
            dir,
            listing_of(config, dir, second),
        ),
{
    lemma_listing_ignores_read_order(config, dir, first, second);
}

/// A child that could not be read leaves no trace: the index page of the
/// directory and the tasks that follow from it are those of the children
/// that could be read, as if the failed child were not there.
pub proof fn lemma_page_skips_unreadable_child(
    config: ConfigView,
    dir: Seq<Seq<char>>,
    children: Seq<Option<EntryView>>,
    k: int,
)
    requires
        0 <= k <= children.len(),
    ensures
        page_of(config, dir, entries_read(children.insert(k, None))) == page_of(
            config,
            dir,
            entries_read(children),
        ),
        tasks_of(dir, listing_of(config, dir, entries_read(children.insert(k, None))))
            == tasks_of(dir, listing_of(config, dir, entries_read(children))),
{
    lemma_unreadable_child_is_skipped(children, k);
}

/// A way to put a file in its place in the mirror.
#[derive(Clone, Copy, Debug, PartialEq, Eq, Structural)]
pub enum Placing {
    /// A hard link to the file in the tree.
    Link,
    /// A copy of the file, byte for byte.
    Copy,
}

/// What follows an attempt to place a file.
#[derive(Clone, Copy, Debug, PartialEq, Eq, Structural)]
pub enum Placed {
    /// The file is in its place.
    Done,
    /// The attempt failed; the file is to be placed in this other way.
    Retry(Placing),
    /// The file cannot be placed, and the build is given up.
    GiveUp,
}

/// What follows an attempt to place a file: a link that fails, for whatever
/// reason, is made up for by a copy; a copy that fails ends the build.
pub open spec fn after_placing(attempt: Placing, succeeded: bool) -> Placed {
    if succeeded {
        Placed::Done
    } else {
        match attempt {
            Placing::Link => Placed::Retry(Placing::Copy),
            Placing::Copy => Placed::GiveUp,
        }
    }
}

impl Placing {
    /// The way that is tried first.
    pub fn first() -> (attempt: Placing)
        ensures
            attempt == Placing::Link,
    {
        Placing::Link
    }

    /// What follows the attempt.
    pub fn outcome(self, succeeded: bool) -> (next: Placed)
        ensures
            next == after_placing(self, succeeded),
    {
        if succeeded {
            Placed::Done
        } else {
            match self {
                Placing::Link => Placed::Retry(Placing::Copy),
                Placing::Copy => Placed::GiveUp,
            }
        }
    }
}

/// What taking the next task does to a build: the first pending task, if
/// there is one, is handed out and is pending no more; nothing else changes.
pub open spec fn took_next(before: BuilderView, after: BuilderView, task: Option<TaskView>) -> bool {
    &&& after.config == before.config
    &&& before.pending.len() == 0 ==> task is None && after == before
    &&& before.pending.len() > 0 ==> task == Some(before.pending[0]) && after.pending
        == before.pending.drop_first()
}

/// What handling the entries of the directory `dir` does to a build: the
/// page is the index page of the directory, and the tasks of its listing
/// are pending before everything that was.
pub open spec fn indexed(
    before: BuilderView,
    after: BuilderView,
    dir: Seq<Seq<char>>,
    entries: Seq<EntryView>,
    page: Seq<char>,
) -> bool {
    &&& after.config == before.config
    &&& page == page_of(before.config, dir, entries)
    &&& after.pending == tasks_of(dir, listing_of(before.config, dir, entries)) + before.pending
}

/// The value of a task that may not be there.
pub open spec fn task_view(task: Option<Task>) -> Option<TaskView> {
    match task {
        Some(t) => Some(t@),
        None => None,
    }
}

/// The state of a build: its configuration and the tasks that are pending.
pub struct Builder {
    config: Config,
    /// The pending tasks, the next one last.
    stack: Vec<Task>,
}

/// The mathematical value of a [`Builder`].
pub struct BuilderView {
    pub config: ConfigView,
    /// The pending tasks, the next one first.
    pub pending: Seq<TaskView>,
}

impl View for Builder {
    type V = BuilderView;

    closed spec fn view(&self) -> BuilderView {
        BuilderView { config: self.config@, pending: task_views(self.stack@).reverse() }
    }
}

impl Builder {
    /// A build that starts at the node `start`, which is a regular file or
    /// is taken for a directory.
    pub fn new(config: Config, start: RelPath, start_is_file: bool) -> (builder: Builder)
        ensures
            builder@.config == config@,
            builder@.pending == seq![task_at(start@, start_is_file)],
    {
        let mut stack: Vec<Task> = Vec::new();
        if start_is_file {
            stack.push(Task::Place(start));
        } else {
            stack.push(Task::Index(start));
        }
        Builder { config, stack }
    }

    /// The configuration of the build.
    pub fn config(&self) -> (config: &Config)
        ensures
            config@ == self@.config,
    {
        &self.config
    }

    /// Whether nothing is pending.
    pub fn is_finished(&self) -> (finished: bool)
        ensures
            finished == (self@.pending.len() == 0),
    {
        self.stack.len() == 0
    }

    /// Takes the next task, if one is pending. The tasks behind it stay as
    /// they are.
    pub fn next_task(&mut self) -> (task: Option<Task>)
        ensures
            took_next(old(self)@, final(self)@, task_view(task)),
    {
        let ghost before = task_views(self.stack@);
        let task = self.stack.pop();
        proof {
            if before.len() > 0 {
                assert(task_views(self.stack@) =~= before.drop_last());
                assert(before.drop_last().reverse() =~= before.reverse().drop_first());
            } else {
                assert(task_views(self.stack@) =~= before);
            }
        }
        task
    }

    /// Handles the entries of the directory `dir`: returns the directory's
    /// index page, and schedules the entries that are listed, in listing
    /// order, before everything that was pending.
    pub fn index_directory(&mut self, dir: &RelPath, entries: &Vec<Entry>) -> (html: String)
        ensures
            indexed(old(self)@, final(self)@, dir@, entry_views(entries@), html@),
    {
        let listing = select_entries(&self.config, dir, entries);
        let rows = describe_all(&listing);
        let html = generate_html(&self.config, dir, &rows);
        let ghost before = task_views(self.stack@);
        let ghost tasks = tasks_of(dir@, entry_views(listing@));
        let mut i: usize = listing.len();
        while i > 0
            invariant
                i <= listing@.len(),
                tasks == tasks_of(dir@, entry_views(listing@)),
                task_views(self.stack@).reverse() == tasks.skip(i as int) + before.reverse(),
                self.config == old(self).config,
            decreases i,
        {
            i -= 1;
            let entry = &listing[i];
            let path = dir.join(entry.name.as_str());
            let task = match entry.kind {
                EntryKind::File { .. } => Task::Place(path),
                _ => Task::Index(path),
            };
            let ghost stack_before = task_views(self.stack@);
            self.stack.push(task);
            assert(task_views(self.stack@) =~= stack_before.push(tasks[i as int]));
            assert(stack_before.push(tasks[i as int]).reverse() =~= seq![tasks[i as int]]
                + stack_before.reverse());
        }
        assert(tasks.skip(0) =~= tasks);
        html
    }
}

} // verus!
