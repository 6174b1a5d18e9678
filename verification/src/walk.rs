//! What a whole build does to a tree.
//!
//! A tree is modelled by the entries that each of its directories holds. A
//! build takes the pending tasks one by one: a file is placed, a directory
//! is listed and indexed and its listed entries are scheduled. That this is
//! what [`Builder::next_task`](crate::builder::Builder::next_task) and
//! [`Builder::index_directory`](crate::builder::Builder::index_directory)
//! do is [`lemma_builder_step_is_advance`]. The laws below say which nodes
//! such a build reaches.

use crate::builder::{
    indexed, page_of, task_at, task_for, tasks_of, took_next, BuilderView, TaskView,
};
use crate::config::ConfigView;
use crate::entry::EntryView;
use crate::listing::{
    distinct_names, is_hidden, is_ignored, is_listed, lemma_listing_holds_what_is_listed,
    lemma_listing_ignores_read_order, lemma_sorted_permutes, listed_in, listing_of,
};
use vstd::prelude::*;

verus! {

/// A tree, given by the entries of each directory: in every directory, no
/// two entries have the same name.
pub open spec fn is_tree(tree: spec_fn(Seq<Seq<char>>) -> Seq<EntryView>) -> bool {
    forall|dir: Seq<Seq<char>>| distinct_names(#[trigger] tree(dir))
}

/// Whether `entries` holds an entry called `name`.
pub open spec fn has_entry(entries: Seq<EntryView>, name: Seq<char>) -> bool {
    exists|i: int| 0 <= i < entries.len() && (#[trigger] entries[i]).name == name
}

/// An entry of `entries` called `name`.
pub open spec fn entry_named(entries: Seq<EntryView>, name: Seq<char>) -> EntryView {
    entries[choose|i: int| 0 <= i < entries.len() && (#[trigger] entries[i]).name == name]
}

/// Whether a build that starts at `start` has the node at `path` to handle,
/// and if so, whether as a regular file: the start itself, and every listed
/// entry of a directory that it has to handle.
pub open spec fn reached(
    config: ConfigView,
    tree: spec_fn(Seq<Seq<char>>) -> Seq<EntryView>,
    start: Seq<Seq<char>>,
    start_is_file: bool,
    path: Seq<Seq<char>>,
) -> Option<bool>
    decreases path.len(),
{
    if path == start {
        Some(start_is_file)
    } else if path.len() == 0 {
        None
    } else {
        let dir = path.drop_last();
        let name = path.last();
        if reached(config, tree, start, start_is_file, dir) == Some(false) && has_entry(
            tree(dir),
            name,
        ) && is_listed(config, dir, name) {
            Some(entry_named(tree(dir), name).kind is File)
        } else {
            None
        }
    }
}

/// What a build has done to the mirror.
pub enum Effect {
    /// The regular file at this path was placed.
    Placed(Seq<Seq<char>>),
    /// The directory at this path was created and got this index page.
    Indexed(Seq<Seq<char>>, Seq<char>),
}

/// How far a build has come: what is pending, the next task first, and what
/// was done, in order.
pub struct Progress {
    pub pending: Seq<TaskView>,
    pub effects: Seq<Effect>,
}

/// A build before its first step.
pub open spec fn start_of(start: Seq<Seq<char>>, start_is_file: bool) -> Progress {
    Progress { pending: seq![task_at(start, start_is_file)], effects: Seq::empty() }
}

/// What a step adds to the pending tasks, in front of the rest.
pub open spec fn scheduled(
    config: ConfigView,
    tree: spec_fn(Seq<Seq<char>>) -> Seq<EntryView>,
    task: TaskView,
) -> Seq<TaskView> {
    match task {
        TaskView::Place(_) => Seq::empty(),
        TaskView::Index(dir) => tasks_of(dir, listing_of(config, dir, tree(dir))),
    }
}

/// What a step does to the mirror.
pub open spec fn effect_of(
    config: ConfigView,
    tree: spec_fn(Seq<Seq<char>>) -> Seq<EntryView>,
    task: TaskView,
) -> Effect {
    match task {
        TaskView::Place(file) => Effect::Placed(file),
        TaskView::Index(dir) => Effect::Indexed(dir, page_of(config, dir, tree(dir))),
    }
}

/// One step of a build: the next task is taken and carried out, and what
/// follows from it is scheduled before everything else.
pub open spec fn advance(
    config: ConfigView,
    tree: spec_fn(Seq<Seq<char>>) -> Seq<EntryView>,
    at: Progress,
) -> Progress {
    if at.pending.len() == 0 {
        at
    } else {
        Progress {
            pending: scheduled(config, tree, at.pending[0]) + at.pending.drop_first(),
            effects: at.effects.push(effect_of(config, tree, at.pending[0])),
        }
    }
}

/// A step of the builder is a step of a build: where a caller takes the
/// next task from a builder and, for a directory, hands the builder the
/// entries that the tree holds there, the builder has pending what
/// [`advance`] leaves pending, and the page that it returns is the one that
/// [`advance`] records.
pub proof fn lemma_builder_step_is_advance(
    tree: spec_fn(Seq<Seq<char>>) -> Seq<EntryView>,
    at: Progress,
    before: BuilderView,
    taken: BuilderView,
    after: BuilderView,
    task: Option<TaskView>,
    page: Seq<char>,
)
    requires
        before.pending == at.pending,
        took_next(before, taken, task),
        match task {
            Some(TaskView::Index(dir)) => indexed(taken, after, dir, tree(dir), page),
            _ => after == taken,
        },
    ensures
        after.config == before.config,
        after.pending == advance(before.config, tree, at).pending,
        advance(before.config, tree, at).effects == match task {
            Some(TaskView::Place(path)) => at.effects.push(Effect::Placed(path)),
            Some(TaskView::Index(dir)) => at.effects.push(Effect::Indexed(dir, page)),
            None => at.effects,
        },
{
    if task is Some && task->0 is Place {
        assert(after.pending =~= advance(before.config, tree, at).pending);
    }
}

/// `steps` steps of a build.
pub open spec fn advance_by(
    config: ConfigView,
    tree: spec_fn(Seq<Seq<char>>) -> Seq<EntryView>,
    at: Progress,
    steps: nat,
) -> Progress
    decreases steps,
{
    if steps == 0 {
        at
    } else {
        advance(config, tree, advance_by(config, tree, at, (steps - 1) as nat))
    }
}

/// `prefix` leads to `path`: it is `path` or one of the directories above it.
pub open spec fn leads_to(prefix: Seq<Seq<char>>, path: Seq<Seq<char>>) -> bool {
    prefix.len() <= path.len() && path.take(prefix.len() as int) == prefix
}

/// A node that the build reaches lies at or below the start.
pub proof fn lemma_reached_below_start(
    config: ConfigView,
    tree: spec_fn(Seq<Seq<char>>) -> Seq<EntryView>,
    start: Seq<Seq<char>>,
    start_is_file: bool,
    path: Seq<Seq<char>>,
)
    requires
        reached(config, tree, start, start_is_file, path) is Some,
    ensures
        leads_to(start, path),
    decreases path.len(),
{
    if path == start {
        assert(path.take(start.len() as int) =~= start);
    } else {
        let dir = path.drop_last();
        lemma_reached_below_start(config, tree, start, start_is_file, dir);
        assert(path.take(start.len() as int) =~= dir.take(start.len() as int));
    }
}

/// Every directory between the start and a node that the build reaches is
/// reached too, as a directory.
pub proof fn lemma_reached_through_directories(
    config: ConfigView,
    tree: spec_fn(Seq<Seq<char>>) -> Seq<EntryView>,
    start: Seq<Seq<char>>,
    start_is_file: bool,
    path: Seq<Seq<char>>,
    k: int,
)
    requires
        reached(config, tree, start, start_is_file, path) is Some,
        start.len() <= k < path.len(),
    ensures
        reached(config, tree, start, start_is_file, path.take(k)) == Some(false),
    decreases path.len(),
{
    let dir = path.drop_last();
    if k < path.len() - 1 {
        lemma_reached_through_directories(config, tree, start, start_is_file, dir, k);
        assert(dir.take(k) =~= path.take(k));
    }
}

/// Below the start, every component of a path that the build reaches is
/// listed in its directory: it is not ignored, and it is hidden only where
/// hidden entries are asked for.
pub proof fn lemma_reached_is_listed(
    config: ConfigView,
    tree: spec_fn(Seq<Seq<char>>) -> Seq<EntryView>,
    start: Seq<Seq<char>>,
    start_is_file: bool,
    path: Seq<Seq<char>>,
    k: int,
)
    requires
        reached(config, tree, start, start_is_file, path) is Some,
        start.len() <= k < path.len(),
    ensures
        is_listed(config, path.take(k), path[k]),
        !is_ignored(config, path.take(k + 1)),
        !config.hidden ==> !is_hidden(path[k]),
    decreases path.len(),
{
    let dir = path.drop_last();
    if k == path.len() - 1 {
        assert(path.take(k + 1) =~= dir.push(path[k]));
    } else {
        lemma_reached_is_listed(config, tree, start, start_is_file, dir, k);
        assert(dir.take(k) =~= path.take(k));
        assert(dir.take(k + 1) =~= path.take(k + 1));
    }
}

/// The node at `path` in the part of the tree at and below `start`:
/// whether it is a regular file, or `None` where there is no such node.
pub open spec fn found(
    tree: spec_fn(Seq<Seq<char>>) -> Seq<EntryView>,
    start: Seq<Seq<char>>,
    start_is_file: bool,
    path: Seq<Seq<char>>,
) -> Option<bool>
    decreases path.len(),
{
    if path == start {
        Some(start_is_file)
    } else if path.len() == 0 {
        None
    } else {
        let dir = path.drop_last();
        let name = path.last();
        if found(tree, start, start_is_file, dir) == Some(false) && has_entry(tree(dir), name) {
            Some(entry_named(tree(dir), name).kind is File)
        } else {
            None
        }
    }
}

/// Every component of `path` below `start` is listed in its directory: the
/// path is not ignored and not hidden away, nor is a directory above it.
pub open spec fn listed_below(
    config: ConfigView,
    start: Seq<Seq<char>>,
    path: Seq<Seq<char>>,
) -> bool {
    forall|k: int|
        start.len() <= k < path.len() ==> is_listed(config, #[trigger] path.take(k), path[k])
}

/// A node of the tree lies at or below the start.
proof fn lemma_found_below_start(
    tree: spec_fn(Seq<Seq<char>>) -> Seq<EntryView>,
    start: Seq<Seq<char>>,
    start_is_file: bool,
    path: Seq<Seq<char>>,
)
    requires
        found(tree, start, start_is_file, path) is Some,
    ensures
        start.len() <= path.len(),
    decreases path.len(),
{
    if path != start {
        lemma_found_below_start(tree, start, start_is_file, path.drop_last());
    }
}

/// The nodes that a build reaches are the nodes of the tree, at and below
/// the start, that no filter keeps out.
pub proof fn lemma_reached_is_found_and_listed(
    config: ConfigView,
    tree: spec_fn(Seq<Seq<char>>) -> Seq<EntryView>,
    start: Seq<Seq<char>>,
    start_is_file: bool,
    path: Seq<Seq<char>>,
)
    ensures
        reached(config, tree, start, start_is_file, path) == if listed_below(
            config,
            start,
            path,
        ) {
            found(tree, start, start_is_file, path)
        } else {
            None
        },
    decreases path.len(),
{
    if path != start && path.len() > 0 {
        let dir = path.drop_last();
        lemma_reached_is_found_and_listed(config, tree, start, start_is_file, dir);
        assert forall|k: int| 0 <= k < dir.len() implies #[trigger] path.take(k) == dir.take(
            k,
        ) && path[k] == dir[k] by {}
        if reached(config, tree, start, start_is_file, path) is Some {
            assert forall|k: int| start.len() <= k < path.len() implies is_listed(
                config,
                #[trigger] path.take(k),
                path[k],
            ) by {}
        } else if listed_below(config, start, path) && found(
            tree,
            start,
            start_is_file,
            path,
        ) is Some {
            lemma_found_below_start(tree, start, start_is_file, dir);
            assert forall|k: int| start.len() <= k < dir.len() implies is_listed(
                config,
                #[trigger] dir.take(k),
                dir[k],
            ) by {
                assert(is_listed(config, path.take(k), path[k]));
            }
        }
    }
}

/// Nothing is reached below a regular file.
proof fn lemma_nothing_below_file(
    config: ConfigView,
    tree: spec_fn(Seq<Seq<char>>) -> Seq<EntryView>,
    start: Seq<Seq<char>>,
    start_is_file: bool,
    file: Seq<Seq<char>>,
    path: Seq<Seq<char>>,
)
    requires
        reached(config, tree, start, start_is_file, file) == Some(true),
        reached(config, tree, start, start_is_file, path) is Some,
        leads_to(file, path),
    ensures
        path == file,
{
    lemma_reached_below_start(config, tree, start, start_is_file, file);
    if file.len() < path.len() {
        lemma_reached_through_directories(
            config,
            tree,
            start,
            start_is_file,
            path,
            file.len() as int,
        );
    }
}

/// What the build owes a node that it reaches, found among the effects: a
/// regular file was placed, a directory got the index page of its entries.
spec fn handled(
    config: ConfigView,
    tree: spec_fn(Seq<Seq<char>>) -> Seq<EntryView>,
    effects: Seq<Effect>,
    path: Seq<Seq<char>>,
    is_file: bool,
) -> bool {
    if is_file {
        effects.contains(Effect::Placed(path))
    } else {
        effects.contains(Effect::Indexed(path, page_of(config, path, tree(path))))
    }
}

/// Some pending task leads to `path`.
spec fn awaited(pending: Seq<TaskView>, path: Seq<Seq<char>>) -> bool {
    exists|i: int| 0 <= i < pending.len() && leads_to((#[trigger] pending[i]).path(), path)
}

/// Every pending task is about a node that the build reaches, of the
/// task's kind.
spec fn pending_reached(
    config: ConfigView,
    tree: spec_fn(Seq<Seq<char>>) -> Seq<EntryView>,
    start: Seq<Seq<char>>,
    start_is_file: bool,
    pending: Seq<TaskView>,
) -> bool {
    forall|i: int|
        0 <= i < pending.len() ==> reached(
            config,
            tree,
            start,
            start_is_file,
            (#[trigger] pending[i]).path(),
        ) == Some(pending[i] is Place)
}

/// What was done was owed: what was placed is a regular file that the build
/// reaches, what was indexed is a directory that it reaches, with the index
/// page of its entries.
pub open spec fn effects_owed(
    config: ConfigView,
    tree: spec_fn(Seq<Seq<char>>) -> Seq<EntryView>,
    start: Seq<Seq<char>>,
    start_is_file: bool,
    effects: Seq<Effect>,
) -> bool {
    forall|i: int|
        0 <= i < effects.len() ==> match #[trigger] effects[i] {
            Effect::Placed(path) => reached(config, tree, start, start_is_file, path) == Some(
                true,
            ),
            Effect::Indexed(path, page) => reached(config, tree, start, start_is_file, path)
                == Some(false) && page == page_of(config, path, tree(path)),
        }
}

/// Every node that the build reaches was handled or lies at or below a
/// pending task.
spec fn nothing_lost(
    config: ConfigView,
    tree: spec_fn(Seq<Seq<char>>) -> Seq<EntryView>,
    start: Seq<Seq<char>>,
    start_is_file: bool,
    at: Progress,
) -> bool {
    forall|path: Seq<Seq<char>>|
        (#[trigger] reached(config, tree, start, start_is_file, path)) is Some ==> handled(
            config,
            tree,
            at.effects,
            path,
            reached(config, tree, start, start_is_file, path)->0,
        ) || awaited(at.pending, path)
}

/// What holds of a build at every step.
spec fn on_course(
    config: ConfigView,
    tree: spec_fn(Seq<Seq<char>>) -> Seq<EntryView>,
    start: Seq<Seq<char>>,
    start_is_file: bool,
    at: Progress,
) -> bool {
    &&& pending_reached(config, tree, start, start_is_file, at.pending)
    &&& effects_owed(config, tree, start, start_is_file, at.effects)
    &&& nothing_lost(config, tree, start, start_is_file, at)
}

/// Every listed entry of a directory of a tree has its task scheduled, and
/// every scheduled task is that of a listed entry.
proof fn lemma_tasks_of_listing(
    config: ConfigView,
    tree: spec_fn(Seq<Seq<char>>) -> Seq<EntryView>,
    dir: Seq<Seq<char>>,
)
    requires
        is_tree(tree),
    ensures
        forall|i: int|
            #![trigger tasks_of(dir, listing_of(config, dir, tree(dir)))[i]]
            0 <= i < tasks_of(dir, listing_of(config, dir, tree(dir))).len() ==> {
                let e = listing_of(config, dir, tree(dir))[i];
                &&& has_entry(tree(dir), e.name)
                &&& is_listed(config, dir, e.name)
                &&& entry_named(tree(dir), e.name) == e
                &&& tasks_of(dir, listing_of(config, dir, tree(dir)))[i] == task_for(dir, e)
            },
        forall|name: Seq<char>|
            has_entry(tree(dir), name) && is_listed(config, dir, name) ==> exists|i: int|
                0 <= i < tasks_of(dir, listing_of(config, dir, tree(dir))).len() && (
                #[trigger] tasks_of(dir, listing_of(config, dir, tree(dir)))[i]).path() == dir.push(
                    name,
                ),
{
    let all = tree(dir);
    let listing = listing_of(config, dir, all);
    let tasks = tasks_of(dir, listing);
    lemma_listing_holds_what_is_listed(config, dir, all);
    assert forall|i: int| #![trigger tasks[i]] 0 <= i < tasks.len() implies {
        let e = listing[i];
        &&& has_entry(all, e.name)
        &&& is_listed(config, dir, e.name)
        &&& entry_named(all, e.name) == e
        &&& tasks[i] == task_for(dir, e)
    } by {
        // The entry is one of the directory, and the only one of its name.
        assert(all.contains(listing[i]));
    }
    assert forall|name: Seq<char>|
        has_entry(all, name) && is_listed(config, dir, name) implies exists|i: int|
        0 <= i < tasks.len() && (#[trigger] tasks[i]).path() == dir.push(name) by {
        let v = choose|v: int| 0 <= v < all.len() && (#[trigger] all[v]).name == name;
        let i = choose|i: int| 0 <= i < listing.len() && listing[i] == all[v];
        assert(tasks[i].path() == dir.push(name));
    }
}

/// The tasks that a step schedules are about nodes that the build reaches.
proof fn lemma_scheduled_reached(
    config: ConfigView,
    tree: spec_fn(Seq<Seq<char>>) -> Seq<EntryView>,
    start: Seq<Seq<char>>,
    start_is_file: bool,
    task: TaskView,
)
    requires
        is_tree(tree),
        reached(config, tree, start, start_is_file, task.path()) == Some(task is Place),
    ensures
        pending_reached(config, tree, start, start_is_file, scheduled(config, tree, task)),
{
    let tasks = scheduled(config, tree, task);
    if task is Index {
        let dir = task.path();
        lemma_reached_below_start(config, tree, start, start_is_file, dir);
        lemma_tasks_of_listing(config, tree, dir);
        assert forall|i: int| 0 <= i < tasks.len() implies reached(
            config,
            tree,
            start,
            start_is_file,
            (#[trigger] tasks[i]).path(),
        ) == Some(tasks[i] is Place) by {
            let e = listing_of(config, dir, tree(dir))[i];
            let child = dir.push(e.name);
            assert(child.drop_last() =~= dir);
        }
    }
}

/// A reached node to which a task leads is the node of the task, or lies
/// at or below one of the tasks that the step schedules for it.
proof fn lemma_scheduled_leads_on(
    config: ConfigView,
    tree: spec_fn(Seq<Seq<char>>) -> Seq<EntryView>,
    start: Seq<Seq<char>>,
    start_is_file: bool,
    task: TaskView,
    path: Seq<Seq<char>>,
)
    requires
        is_tree(tree),
        reached(config, tree, start, start_is_file, task.path()) == Some(task is Place),
        reached(config, tree, start, start_is_file, path) is Some,
        leads_to(task.path(), path),
    ensures
        path == task.path() || awaited(scheduled(config, tree, task), path),
{
    let head = task.path();
    if path.len() == head.len() {
        // The node is that of the task.
    } else if task is Place {
        lemma_nothing_below_file(config, tree, start, start_is_file, head, path);
    } else {
        // The node lies below the directory: the entry on the way to it is
        // listed, so its task is scheduled.
        lemma_reached_below_start(config, tree, start, start_is_file, head);
        lemma_tasks_of_listing(config, tree, head);
        let k = head.len() as int;
        let child = path.take(k + 1);
        assert(child.drop_last() =~= head);
        if k + 1 < path.len() {
            lemma_reached_through_directories(config, tree, start, start_is_file, path, k + 1);
        }
        assert(reached(config, tree, start, start_is_file, child) is Some);
        assert(head.push(path[k]) =~= child);
    }
}

/// A step loses no node.
proof fn lemma_advance_loses_nothing(
    config: ConfigView,
    tree: spec_fn(Seq<Seq<char>>) -> Seq<EntryView>,
    start: Seq<Seq<char>>,
    start_is_file: bool,
    at: Progress,
)
    requires
        is_tree(tree),
        at.pending.len() > 0,
        pending_reached(config, tree, start, start_is_file, at.pending),
        nothing_lost(config, tree, start, start_is_file, at),
    ensures
        nothing_lost(config, tree, start, start_is_file, advance(config, tree, at)),
{
    let next = advance(config, tree, at);
    let task = at.pending[0];
    let tasks = scheduled(config, tree, task);
    assert forall|path: Seq<Seq<char>>|
        (#[trigger] reached(config, tree, start, start_is_file, path)) is Some implies handled(
        config,
        tree,
        next.effects,
        path,
        reached(config, tree, start, start_is_file, path)->0,
    ) || awaited(next.pending, path) by {
        let is_file = reached(config, tree, start, start_is_file, path)->0;
        let owed = if is_file {
            Effect::Placed(path)
        } else {
            Effect::Indexed(path, page_of(config, path, tree(path)))
        };
        if at.effects.contains(owed) {
            let w = choose|w: int| 0 <= w < at.effects.len() && at.effects[w] == owed;
            assert(next.effects[w] == owed);
        } else {
            let i = choose|i: int|
                0 <= i < at.pending.len() && leads_to((#[trigger] at.pending[i]).path(), path);
            if i > 0 {
                assert(leads_to(next.pending[tasks.len() + i - 1].path(), path));
            } else {
                lemma_scheduled_leads_on(config, tree, start, start_is_file, task, path);
                if path == task.path() {
                    assert(next.effects[at.effects.len() as int] == owed);
                } else {
                    let j = choose|j: int|
                        0 <= j < tasks.len() && leads_to((#[trigger] tasks[j]).path(), path);
                    assert(leads_to(next.pending[j].path(), path));
                }
            }
        }
    }
}

/// A build is on course from its first step on.
proof fn lemma_always_on_course(
    config: ConfigView,
    tree: spec_fn(Seq<Seq<char>>) -> Seq<EntryView>,
    start: Seq<Seq<char>>,
    start_is_file: bool,
    steps: nat,
)
    requires
        is_tree(tree),
    ensures
        on_course(
            config,
            tree,
            start,
            start_is_file,
            advance_by(config, tree, start_of(start, start_is_file), steps),
        ),
    decreases steps,
{
    let first = start_of(start, start_is_file);
    if steps == 0 {
        assert forall|path: Seq<Seq<char>>|
            (#[trigger] reached(config, tree, start, start_is_file, path)) is Some implies awaited(
            first.pending,
            path,
        ) by {
            lemma_reached_below_start(config, tree, start, start_is_file, path);
            assert(leads_to(first.pending[0].path(), path));
        }
    } else {
        let at = advance_by(config, tree, first, (steps - 1) as nat);
        lemma_always_on_course(config, tree, start, start_is_file, (steps - 1) as nat);
        if at.pending.len() > 0 {
            lemma_scheduled_reached(config, tree, start, start_is_file, at.pending[0]);
            lemma_advance_loses_nothing(config, tree, start, start_is_file, at);
        }
    }
}

/// At every step of a build, what it has done was owed: a path that was
/// placed is a regular file that the build reaches, and a directory that
/// was indexed is one that it reaches, with the index page of its entries.
/// So nothing that is ignored, and nothing hidden unless hidden entries are
/// asked for, gets into the mirror (see [`lemma_reached_is_listed`]).
pub proof fn lemma_effects_are_owed(
    config: ConfigView,
    tree: spec_fn(Seq<Seq<char>>) -> Seq<EntryView>,
    start: Seq<Seq<char>>,
    start_is_file: bool,
    steps: nat,
)
    requires
        is_tree(tree),
    ensures
        effects_owed(
            config,
            tree,
            start,
            start_is_file,
            advance_by(config, tree, start_of(start, start_is_file), steps).effects,
        ),
{
    lemma_always_on_course(config, tree, start, start_is_file, steps);
}

/// The files of the mirror are the files of the tree that are neither
/// ignored nor hidden away, and the directories with an index page are the
/// directories of which the same holds: when a build has nothing left to
/// do, it has placed a path if and only if the path is a regular file of
/// the tree that is listed, as is every directory above it, and it has
/// indexed a path if and only if the path is such a directory.
pub proof fn lemma_mirror_holds_what_is_listed(
    config: ConfigView,
    tree: spec_fn(Seq<Seq<char>>) -> Seq<EntryView>,
    start: Seq<Seq<char>>,
    start_is_file: bool,
    steps: nat,
)
    requires
        is_tree(tree),
        advance_by(config, tree, start_of(start, start_is_file), steps).pending.len() == 0,
    ensures
        forall|path: Seq<Seq<char>>|
            advance_by(
                config,
                tree,
                start_of(start, start_is_file),
                steps,
            ).effects.contains(Effect::Placed(path)) <==> #[trigger] found(
                tree,
                start,
                start_is_file,
                path,
            ) == Some(true) && listed_below(config, start, path),
        forall|path: Seq<Seq<char>>|
            advance_by(
                config,
                tree,
                start_of(start, start_is_file),
                steps,
            ).effects.contains(Effect::Indexed(path, page_of(config, path, tree(path))))
                <==> #[trigger] found(tree, start, start_is_file, path) == Some(false)
                && listed_below(config, start, path),
{
    lemma_always_on_course(config, tree, start, start_is_file, steps);
    let end = advance_by(config, tree, start_of(start, start_is_file), steps);
    assert forall|path: Seq<Seq<char>>|
        end.effects.contains(Effect::Placed(path)) <==> #[trigger] found(
            tree,
            start,
            start_is_file,
            path,
        ) == Some(true) && listed_below(config, start, path) by {
        lemma_reached_is_found_and_listed(config, tree, start, start_is_file, path);
    }
    assert forall|path: Seq<Seq<char>>|
        end.effects.contains(Effect::Indexed(path, page_of(config, path, tree(path))))
            <==> #[trigger] found(tree, start, start_is_file, path) == Some(false)
            && listed_below(config, start, path) by {
        lemma_reached_is_found_and_listed(config, tree, start, start_is_file, path);
    }
}

/// The tree is at most `limit` levels deep: a directory that many levels
/// below the root, or more, holds nothing.
pub open spec fn no_deeper_than(
    tree: spec_fn(Seq<Seq<char>>) -> Seq<EntryView>,
    limit: nat,
) -> bool {
    forall|dir: Seq<Seq<char>>| dir.len() >= limit ==> (#[trigger] tree(dir)).len() == 0
}

/// How many steps the directory `dir` and everything that is listed below
/// it take, in a tree at most `limit` levels deep.
pub open spec fn steps_for_directory(
    config: ConfigView,
    tree: spec_fn(Seq<Seq<char>>) -> Seq<EntryView>,
    dir: Seq<Seq<char>>,
    limit: nat,
) -> nat
    decreases limit - dir.len(), 1nat, 0nat,
{
    if dir.len() >= limit {
        1
    } else {
        1 + steps_for_listing(config, tree, dir, listing_of(config, dir, tree(dir)), limit)
    }
}

/// How many steps the entries of a listing of `dir` take, with everything
/// that is listed below them.
pub open spec fn steps_for_listing(
    config: ConfigView,
    tree: spec_fn(Seq<Seq<char>>) -> Seq<EntryView>,
    dir: Seq<Seq<char>>,
    listing: Seq<EntryView>,
    limit: nat,
) -> nat
    decreases limit - dir.len(), 0nat, listing.len(),
{
    if dir.len() >= limit || listing.len() == 0 {
        0
    } else {
        let first = if listing[0].kind is File {
            1
        } else {
            steps_for_directory(config, tree, dir.push(listing[0].name), limit)
        };
        first + steps_for_listing(config, tree, dir, listing.drop_first(), limit)
    }
}

/// How many steps a task takes, with everything that follows from it.
pub open spec fn steps_for_task(
    config: ConfigView,
    tree: spec_fn(Seq<Seq<char>>) -> Seq<EntryView>,
    task: TaskView,
    limit: nat,
) -> nat {
    match task {
        TaskView::Place(_) => 1,
        TaskView::Index(dir) => steps_for_directory(config, tree, dir, limit),
    }
}

/// How many steps the pending tasks take, with everything that follows from
/// them.
pub open spec fn steps_left(
    config: ConfigView,
    tree: spec_fn(Seq<Seq<char>>) -> Seq<EntryView>,
    pending: Seq<TaskView>,
    limit: nat,
) -> nat
    decreases pending.len(),
{
    if pending.len() == 0 {
        0
    } else {
        steps_for_task(config, tree, pending[0], limit) + steps_left(
            config,
            tree,
            pending.drop_first(),
            limit,
        )
    }
}

/// The steps of two runs of tasks add up.
proof fn lemma_steps_left_add(
    config: ConfigView,
    tree: spec_fn(Seq<Seq<char>>) -> Seq<EntryView>,
    front: Seq<TaskView>,
    rest: Seq<TaskView>,
    limit: nat,
)
    ensures
        steps_left(config, tree, front + rest, limit) == steps_left(config, tree, front, limit)
            + steps_left(config, tree, rest, limit),
    decreases front.len(),
{
    if front.len() > 0 {
        assert((front + rest).drop_first() =~= front.drop_first() + rest);
        lemma_steps_left_add(config, tree, front.drop_first(), rest, limit);
    }
}

/// The tasks of a listing take the steps of the listing.
proof fn lemma_steps_of_tasks(
    config: ConfigView,
    tree: spec_fn(Seq<Seq<char>>) -> Seq<EntryView>,
    dir: Seq<Seq<char>>,
    listing: Seq<EntryView>,
    limit: nat,
)
    requires
        dir.len() < limit,
    ensures
        steps_left(config, tree, tasks_of(dir, listing), limit) == steps_for_listing(
            config,
            tree,
            dir,
            listing,
            limit,
        ),
    decreases listing.len(),
{
    if listing.len() > 0 {
        assert(tasks_of(dir, listing).drop_first() =~= tasks_of(dir, listing.drop_first()));
        lemma_steps_of_tasks(config, tree, dir, listing.drop_first(), limit);
    }
}

/// A task takes one step itself, and the steps of what it schedules.
proof fn lemma_steps_of_task(
    config: ConfigView,
    tree: spec_fn(Seq<Seq<char>>) -> Seq<EntryView>,
    task: TaskView,
    limit: nat,
)
    requires
        no_deeper_than(tree, limit),
    ensures
        steps_for_task(config, tree, task, limit) == 1 + steps_left(
            config,
            tree,
            scheduled(config, tree, task),
            limit,
        ),
{
    match task {
        TaskView::Place(_) => {},
        TaskView::Index(dir) => {
            if dir.len() >= limit {
                lemma_sorted_permutes(tree(dir).filter(listed_in(config, dir)));
                tree(dir).lemma_filter_len(listed_in(config, dir));
            } else {
                lemma_steps_of_tasks(config, tree, dir, listing_of(config, dir, tree(dir)), limit);
            }
        },
    }
}

/// Each step of a build takes one of the steps that are left.
proof fn lemma_steps_count_down(
    config: ConfigView,
    tree: spec_fn(Seq<Seq<char>>) -> Seq<EntryView>,
    at: Progress,
    limit: nat,
    steps: nat,
)
    requires
        no_deeper_than(tree, limit),
        steps <= steps_left(config, tree, at.pending, limit),
    ensures
        steps_left(config, tree, advance_by(config, tree, at, steps).pending, limit) + steps
            == steps_left(config, tree, at.pending, limit),
    decreases steps,
{
    if steps > 0 {
        let before = advance_by(config, tree, at, (steps - 1) as nat);
        lemma_steps_count_down(config, tree, at, limit, (steps - 1) as nat);
        lemma_steps_of_task(config, tree, before.pending[0], limit);
        lemma_steps_left_add(
            config,
            tree,
            scheduled(config, tree, before.pending[0]),
            before.pending.drop_first(),
            limit,
        );
    }
}

/// A build of a tree of bounded depth comes to an end: after the steps that
/// its start takes, nothing is pending.
pub proof fn lemma_build_finishes(
    config: ConfigView,
    tree: spec_fn(Seq<Seq<char>>) -> Seq<EntryView>,
    start: Seq<Seq<char>>,
    start_is_file: bool,
    limit: nat,
)
    requires
        no_deeper_than(tree, limit),
    ensures
        advance_by(
            config,
            tree,
            start_of(start, start_is_file),
            steps_for_task(config, tree, task_at(start, start_is_file), limit),
        ).pending.len() == 0,
{
    let first = start_of(start, start_is_file);
    let steps = steps_for_task(config, tree, task_at(start, start_is_file), limit);
    assert(steps_left(config, tree, first.pending, limit) == steps) by {
        assert(steps_left(config, tree, first.pending.drop_first(), limit) == 0);
    }
    lemma_steps_count_down(config, tree, first, limit, steps);
    let end = advance_by(config, tree, first, steps).pending;
    if end.len() > 0 {
        lemma_steps_of_task(config, tree, end[0], limit);
    }
}

/// The mirror of a tree: a build of a tree of bounded depth comes to an
/// end, and has then placed exactly the regular files of the tree that are
/// listed, as is every directory above them, and has given exactly the
/// directories of which the same holds their index page.
pub proof fn lemma_tree_is_mirrored(
    config: ConfigView,
    tree: spec_fn(Seq<Seq<char>>) -> Seq<EntryView>,
    start: Seq<Seq<char>>,
    start_is_file: bool,
    limit: nat,
) -> (end: Progress)
    requires
        is_tree(tree),
        no_deeper_than(tree, limit),
    ensures
        end == advance_by(
            config,
            tree,
            start_of(start, start_is_file),
            steps_for_task(config, tree, task_at(start, start_is_file), limit),
        ),
        end.pending.len() == 0,
        forall|path: Seq<Seq<char>>|
            end.effects.contains(Effect::Placed(path)) <==> #[trigger] found(
                tree,
                start,
                start_is_file,
                path,
            ) == Some(true) && listed_below(config, start, path),
        forall|path: Seq<Seq<char>>|
            end.effects.contains(Effect::Indexed(path, page_of(config, path, tree(path))))
                <==> #[trigger] found(tree, start, start_is_file, path) == Some(false)
                && listed_below(config, start, path),
{
    let steps = steps_for_task(config, tree, task_at(start, start_is_file), limit);
    lemma_build_finishes(config, tree, start, start_is_file, limit);
    lemma_mirror_holds_what_is_listed(config, tree, start, start_is_file, steps);
    advance_by(config, tree, start_of(start, start_is_file), steps)
}

/// A build does not depend on the order in which directories are read: on
/// two trees whose directories hold the same entries, it takes the same
/// steps and writes the same pages.
pub proof fn lemma_build_ignores_read_order(
    config: ConfigView,
    first: spec_fn(Seq<Seq<char>>) -> Seq<EntryView>,
    second: spec_fn(Seq<Seq<char>>) -> Seq<EntryView>,
    start: Seq<Seq<char>>,
    start_is_file: bool,
    steps: nat,
)
    requires
        is_tree(first),
        forall|dir: Seq<Seq<char>>|
            (#[trigger] first(dir)).to_multiset() == (#[trigger] second(dir)).to_multiset(),
    ensures
        advance_by(config, first, start_of(start, start_is_file), steps) == advance_by(
            config,
            second,
            start_of(start, start_is_file),
            steps,
        ),
    decreases steps,
{
    if steps > 0 {
        lemma_build_ignores_read_order(
            config,
            first,
            second,
            start,
            start_is_file,
            (steps - 1) as nat,
        );
        let at = advance_by(config, first, start_of(start, start_is_file), (steps - 1) as nat);
        if at.pending.len() > 0 {
            let dir = at.pending[0].path();
            lemma_listing_ignores_read_order(config, dir, first(dir), second(dir));
        }
    }
}

} // verus!
