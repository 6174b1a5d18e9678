//! Which entries of a directory are listed, and in which order.

use crate::config::{Config, ConfigView};
use crate::entry::{entry_views, Entry, EntryView};
use crate::order::{
    lemma_name_antisymmetric, lemma_name_total, lemma_name_transitive,
    lemma_siblings_ordered_by_name, name_le, name_precedes, path_le,
};
use crate::path::RelPath;
use vstd::multiset::*;
use vstd::prelude::*;
use vstd::seq_lib::*;
use vstd::string::*;

verus! {

/// A name is hidden when it starts with a dot.
pub open spec fn is_hidden(name: Seq<char>) -> bool {
    name.len() > 0 && name[0] == '.'
}

/// A path is ignored when the ignore list holds exactly that path.
pub open spec fn is_ignored(config: ConfigView, path: Seq<Seq<char>>) -> bool {
    config.ignored.contains(path)
}

/// Whether the entry `name` of the directory `dir` is listed: it is not a
/// hidden name, unless hidden entries are asked for, and its path is not
/// ignored.
pub open spec fn is_listed(config: ConfigView, dir: Seq<Seq<char>>, name: Seq<char>) -> bool {
    (config.hidden || !is_hidden(name)) && !is_ignored(config, dir.push(name))
}

/// [`is_listed`] as a predicate on the entries of the directory `dir`.
pub open spec fn listed_in(config: ConfigView, dir: Seq<Seq<char>>) -> spec_fn(EntryView) -> bool {
    |e: EntryView| is_listed(config, dir, e.name)
}

/// Where an entry called `name` goes in a listing: right behind the last
/// entry whose name comes no later than `name`.
pub open spec fn slot(listing: Seq<EntryView>, name: Seq<char>) -> int
    decreases listing.len(),
{
    if listing.len() == 0 || name_le(listing.last().name, name) {
        listing.len() as int
    } else {
        slot(listing.drop_last(), name)
    }
}

/// The entries in listing order: ascending by name, entries of the same
/// name in the order in which they were given.
pub open spec fn sorted_by_name(entries: Seq<EntryView>) -> Seq<EntryView>
    decreases entries.len(),
{
    if entries.len() == 0 {
        Seq::empty()
    } else {
        let earlier = sorted_by_name(entries.drop_last());
        earlier.insert(slot(earlier, entries.last().name), entries.last())
    }
}

/// No entry of the listing comes before one that stands earlier in it.
pub open spec fn in_order(listing: Seq<EntryView>) -> bool {
    forall|i: int, j: int|
        0 <= i < j < listing.len() ==> name_le(#[trigger] listing[i].name, #[trigger] listing[j].name)
}

/// The listing of a directory: the entries that are listed, in listing
/// order.
pub open spec fn listing_of(
    config: ConfigView,
    dir: Seq<Seq<char>>,
    entries: Seq<EntryView>,
) -> Seq<EntryView> {
    sorted_by_name(entries.filter(listed_in(config, dir)))
}

/// What [`slot`] returns: an index of the listing or its length, behind an
/// entry that comes no later and before only entries that come later.
pub proof fn lemma_slot(listing: Seq<EntryView>, name: Seq<char>)
    ensures
        0 <= slot(listing, name) <= listing.len(),
        slot(listing, name) > 0 ==> name_le(listing[slot(listing, name) - 1].name, name),
        forall|j: int|
            slot(listing, name) <= j < listing.len() ==> !name_le(
                (#[trigger] listing[j]).name,
                name,
            ),
    decreases listing.len(),
{
    if listing.len() > 0 && !name_le(listing.last().name, name) {
        let shorter = listing.drop_last();
        lemma_slot(shorter, name);
        assert forall|j: int| slot(listing, name) <= j < listing.len() implies !name_le(
            (#[trigger] listing[j]).name,
            name,
        ) by {
            if j < shorter.len() {
                assert(listing[j] == shorter[j]);
            }
        }
    }
}

/// Placing an entry at its slot keeps a listing in order.
pub proof fn lemma_insert_keeps_order(listing: Seq<EntryView>, entry: EntryView)
    requires
        in_order(listing),
    ensures
        in_order(listing.insert(slot(listing, entry.name), entry)),
{
    let p = slot(listing, entry.name);
    let after = listing.insert(p, entry);
    lemma_slot(listing, entry.name);
    assert forall|i: int, j: int| 0 <= i < j < after.len() implies name_le(
        #[trigger] after[i].name,
        #[trigger] after[j].name,
    ) by {
        if j == p && i < p - 1 {
            // What stands before the slot comes no later than its last.
            lemma_name_transitive(listing[i].name, listing[p - 1].name, entry.name);
        } else if i == p {
            // What stands behind the slot does not come before the entry.
            lemma_name_total(listing[j - 1].name, entry.name);
        }
    }
}

/// A sorted sequence is in order.
pub proof fn lemma_sorted_in_order(entries: Seq<EntryView>)
    ensures
        in_order(sorted_by_name(entries)),
    decreases entries.len(),
{
    if entries.len() > 0 {
        lemma_sorted_in_order(entries.drop_last());
        lemma_insert_keeps_order(sorted_by_name(entries.drop_last()), entries.last());
    }
}

/// Sorting neither drops nor adds an entry.
pub proof fn lemma_sorted_permutes(entries: Seq<EntryView>)
    ensures
        sorted_by_name(entries).to_multiset() == entries.to_multiset(),
        sorted_by_name(entries).len() == entries.len(),
    decreases entries.len(),
{
    if entries.len() > 0 {
        let earlier = sorted_by_name(entries.drop_last());
        lemma_sorted_permutes(entries.drop_last());
        lemma_slot(earlier, entries.last().name);
        to_multiset_insert(earlier, slot(earlier, entries.last().name), entries.last());
        to_multiset_build(entries.drop_last(), entries.last());
        assert(entries.drop_last().push(entries.last()) =~= entries);
    } else {
        assert(sorted_by_name(entries) =~= entries);
    }
}

/// No two entries have the same name, as in every directory.
pub open spec fn distinct_names(entries: Seq<EntryView>) -> bool {
    forall|i: int, j: int|
        0 <= i < j < entries.len() ==> (#[trigger] entries[i]).name != (#[trigger] entries[j]).name
}

/// The entries of a listing stand in ascending order of their full paths.
pub proof fn lemma_listing_in_path_order(
    config: ConfigView,
    dir: Seq<Seq<char>>,
    entries: Seq<EntryView>,
)
    ensures
        forall|i: int, j: int|
            0 <= i < j < listing_of(config, dir, entries).len() ==> path_le(
                dir.push((#[trigger] listing_of(config, dir, entries)[i]).name),
                dir.push((#[trigger] listing_of(config, dir, entries)[j]).name),
            ),
{
    let listing = listing_of(config, dir, entries);
    lemma_sorted_in_order(entries.filter(listed_in(config, dir)));
    assert forall|i: int, j: int| 0 <= i < j < listing.len() implies path_le(
        dir.push((#[trigger] listing[i]).name),
        dir.push((#[trigger] listing[j]).name),
    ) by {
        lemma_siblings_ordered_by_name(dir, listing[i].name, listing[j].name);
    }
}

/// A listing holds the entries that are listed and no others: none of it is
/// ignored, none is hidden unless hidden entries are asked for, and every
/// entry that passes both tests is in it.
pub proof fn lemma_listing_holds_what_is_listed(
    config: ConfigView,
    dir: Seq<Seq<char>>,
    entries: Seq<EntryView>,
)
    ensures
        forall|i: int|
            0 <= i < listing_of(config, dir, entries).len() ==> {
                let e = #[trigger] listing_of(config, dir, entries)[i];
                &&& entries.contains(e)
                &&& !is_ignored(config, dir.push(e.name))
                &&& config.hidden || !is_hidden(e.name)
            },
        forall|k: int|
            0 <= k < entries.len() && is_listed(config, dir, (#[trigger] entries[k]).name)
                ==> listing_of(config, dir, entries).contains(entries[k]),
{
    let keep = listed_in(config, dir);
    let kept = entries.filter(keep);
    let listing = listing_of(config, dir, entries);
    lemma_sorted_permutes(kept);
    assert forall|i: int| 0 <= i < listing.len() implies {
        let e = #[trigger] listing[i];
        &&& entries.contains(e)
        &&& !is_ignored(config, dir.push(e.name))
        &&& config.hidden || !is_hidden(e.name)
    } by {
        let e = listing[i];
        to_multiset_contains(listing, e);
        to_multiset_contains(kept, e);
        let w = choose|w: int| 0 <= w < kept.len() && kept[w] == e;
        entries.lemma_filter_pred(keep, w);
        entries.lemma_filter_contains_rev(keep, e);
    }
    assert forall|k: int|
        0 <= k < entries.len() && is_listed(
            config,
            dir,
            (#[trigger] entries[k]).name,
        ) implies listing.contains(entries[k]) by {
        entries.lemma_filter_contains(keep, k);
        to_multiset_contains(kept, entries[k]);
        to_multiset_contains(listing, entries[k]);
    }
}

/// Where hidden entries are asked for, a leading dot plays no part: an
/// entry is listed exactly when its path is not ignored.
pub proof fn lemma_hidden_listed_when_asked(
    config: ConfigView,
    dir: Seq<Seq<char>>,
    name: Seq<char>,
)
    requires
        config.hidden,
    ensures
        is_listed(config, dir, name) == !is_ignored(config, dir.push(name)),
{
}

/// How often an entry occurs among those that a filter keeps.
proof fn lemma_filter_count(entries: Seq<EntryView>, keep: spec_fn(EntryView) -> bool, e: EntryView)
    ensures
        entries.filter(keep).to_multiset().count(e) == if keep(e) {
            entries.to_multiset().count(e)
        } else {
            0
        },
    decreases entries.len(),
{
    broadcast use {group_multiset_axioms, group_multiset_properties};

    if entries.len() == 0 {
        assert(entries.filter(keep) =~= entries) by {
            reveal(Seq::filter);
        }
        to_multiset_contains(entries, e);
    } else {
        let front = entries.drop_last();
        let last = entries.last();
        assert(front.push(last) =~= entries);
        lemma_filter_count(front, keep, e);
        front.lemma_filter_push(last, keep);
        to_multiset_build(front, last);
        to_multiset_build(front.filter(keep), last);
    }
}

/// Entries of the same name are the same entry.
spec fn told_apart_by_name(entries: Multiset<EntryView>) -> bool {
    forall|x: EntryView, y: EntryView|
        #![trigger entries.count(x), entries.count(y)]
        entries.count(x) > 0 && entries.count(y) > 0 && x.name == y.name ==> x == y
}

/// Entries that are told apart by their names can be put in order in one
/// way only.
proof fn lemma_one_order(a: Seq<EntryView>, b: Seq<EntryView>)
    requires
        in_order(a),
        in_order(b),
        a.to_multiset() == b.to_multiset(),
        told_apart_by_name(a.to_multiset()),
    ensures
        a == b,
    decreases a.len(),
{
    broadcast use {group_multiset_axioms, group_multiset_properties};

    to_multiset_len(a);
    to_multiset_len(b);
    if a.len() > 0 {
        // The last entries of both are the same entry: each occurs in the
        // other sequence, so neither name comes before the other.
        let x = a.last();
        let y = b.last();
        let front_a = a.drop_last();
        let front_b = b.drop_last();
        assert(a.contains(x));
        assert(b.contains(y));
        to_multiset_contains(a, x);
        to_multiset_contains(b, x);
        to_multiset_contains(a, y);
        to_multiset_contains(b, y);
        let j = choose|j: int| 0 <= j < b.len() && b[j] == x;
        let i = choose|i: int| 0 <= i < a.len() && a[i] == y;
        lemma_name_total(x.name, x.name);
        lemma_name_total(y.name, y.name);
        assert(name_le(y.name, x.name));
        assert(name_le(x.name, y.name));
        lemma_name_antisymmetric(x.name, y.name);
        assert(front_a.push(x) =~= a);
        assert(front_b.push(y) =~= b);
        to_multiset_build(front_a, x);
        to_multiset_build(front_b, y);
        assert forall|v: EntryView|
            front_a.to_multiset().count(v) == front_b.to_multiset().count(v) by {
            assert(b.to_multiset().count(v) == front_b.to_multiset().insert(x).count(v));
        }
        assert(front_a.to_multiset() =~= front_b.to_multiset());
        assert(told_apart_by_name(front_a.to_multiset())) by {
            assert forall|v: EntryView, w: EntryView|
                #![trigger front_a.to_multiset().count(v), front_a.to_multiset().count(w)]
                front_a.to_multiset().count(v) > 0 && front_a.to_multiset().count(w) > 0
                    && v.name == w.name implies v == w by {
                assert(a.to_multiset().count(v) > 0);
                assert(a.to_multiset().count(w) > 0);
            }
        }
        assert(in_order(front_a)) by {
            assert forall|i: int, j: int| 0 <= i < j < front_a.len() implies name_le(
                #[trigger] front_a[i].name,
                #[trigger] front_a[j].name,
            ) by {}
        }
        assert(in_order(front_b)) by {
            assert forall|i: int, j: int| 0 <= i < j < front_b.len() implies name_le(
                #[trigger] front_b[i].name,
                #[trigger] front_b[j].name,
            ) by {}
        }
        lemma_one_order(front_a, front_b);
    }
}

/// A listing does not depend on the order in which the entries of the
/// directory were read: two readings that hold the same entries, no two of
/// them of the same name, give the same listing.
pub proof fn lemma_listing_ignores_read_order(
    config: ConfigView,
    dir: Seq<Seq<char>>,
    first: Seq<EntryView>,
    second: Seq<EntryView>,
)
    requires
        distinct_names(first),
        first.to_multiset() == second.to_multiset(),
    ensures
        listing_of(config, dir, first) == listing_of(config, dir, second),
{
    broadcast use {group_multiset_axioms, group_multiset_properties};

    let keep = listed_in(config, dir);
    let a = listing_of(config, dir, first);
    let b = listing_of(config, dir, second);
    lemma_sorted_permutes(first.filter(keep));
    lemma_sorted_permutes(second.filter(keep));
    lemma_sorted_in_order(first.filter(keep));
    lemma_sorted_in_order(second.filter(keep));
    assert forall|v: EntryView| a.to_multiset().count(v) == b.to_multiset().count(v) by {
        lemma_filter_count(first, keep, v);
        lemma_filter_count(second, keep, v);
    }
    assert(a.to_multiset() =~= b.to_multiset());
    assert forall|x: EntryView, y: EntryView|
        #![trigger a.to_multiset().count(x), a.to_multiset().count(y)]
        a.to_multiset().count(x) > 0 && a.to_multiset().count(y) > 0 && x.name
            == y.name implies x == y by {
        lemma_filter_count(first, keep, x);
        lemma_filter_count(first, keep, y);
        to_multiset_contains(first, x);
        to_multiset_contains(first, y);
        let i = choose|i: int| 0 <= i < first.len() && first[i] == x;
        let j = choose|j: int| 0 <= j < first.len() && first[j] == y;
        assert(i == j);
    }
    lemma_one_order(a, b);
}

/// Whether a name is hidden.
pub fn name_is_hidden(name: &str) -> (hidden: bool)
    ensures
        hidden == is_hidden(name@),
{
    !name.is_empty() && name.get_char(0) == '.'
}

impl Config {
    /// Whether the ignore list holds `path`.
    pub fn ignores(&self, path: &RelPath) -> (ignored: bool)
        ensures
            ignored == is_ignored(self@, path@),
    {
        let mut i: usize = 0;
        while i < self.ignored.len()
            invariant
                i <= self.ignored@.len(),
                forall|k: int| 0 <= k < i ==> self@.ignored[k] != path@,
            decreases self.ignored@.len() - i,
        {
            if self.ignored[i].same_as(path) {
                assert(self@.ignored[i as int] == path@);
                return true;
            }
            i += 1;
        }
        false
    }

    /// Whether the entry `name` of the directory `dir` is listed.
    pub fn lists(&self, dir: &RelPath, name: &str) -> (listed: bool)
        ensures
            listed == is_listed(self@, dir@, name@),
    {
        if !self.hidden && name_is_hidden(name) {
            return false;
        }
        let path = dir.join(name);
        !self.ignores(&path)
    }
}

/// Puts a copy of `entry` into `listing` at its slot.
fn insert_in_order(listing: &mut Vec<Entry>, entry: &Entry)
    ensures
        entry_views(final(listing)@) == entry_views(old(listing)@).insert(
            slot(entry_views(old(listing)@), entry@.name),
            entry@,
        ),
{
    let ghost before = entry_views(listing@);
    let mut p: usize = listing.len();
    assert(before.take(before.len() as int) =~= before);
    while p > 0 && !name_precedes(listing[p - 1].name.as_str(), entry.name.as_str())
        invariant
            p <= listing@.len(),
            entry_views(listing@) == before,
            slot(before, entry@.name) == slot(before.take(p as int), entry@.name),
        decreases p,
    {
        assert(before.take(p as int).drop_last() =~= before.take(p - 1));
        p -= 1;
    }
    listing.insert(p, entry.duplicate());
}

/// The listing of the directory `dir`, given all its entries: those that
/// are listed, ascending by name.
pub fn select_entries(config: &Config, dir: &RelPath, entries: &Vec<Entry>) -> (listing: Vec<Entry>)
    ensures
        entry_views(listing@) == listing_of(config@, dir@, entry_views(entries@)),
        in_order(entry_views(listing@)),
        entry_views(listing@).to_multiset() == entry_views(entries@).filter(
            listed_in(config@, dir@),
        ).to_multiset(),
        forall|i: int|
            0 <= i < listing@.len() ==> is_listed(config@, dir@, (#[trigger] listing@[i])@.name),
{
    let ghost all = entry_views(entries@);
    let ghost keep = listed_in(config@, dir@);
    let mut listing: Vec<Entry> = Vec::new();
    let mut i: usize = 0;
    assert(all.take(0).filter(keep) =~= Seq::<EntryView>::empty()) by {
        reveal(Seq::filter);
    }
    while i < entries.len()
        invariant
            i <= entries@.len(),
            all == entry_views(entries@),
            keep == listed_in(config@, dir@),
            entry_views(listing@) == sorted_by_name(all.take(i as int).filter(keep)),
        decreases entries@.len() - i,
    {
        let entry = &entries[i];
        proof {
            assert(all.take(i + 1) =~= all.take(i as int).push(all[i as int]));
            all.take(i as int).lemma_filter_push(all[i as int], keep);
        }
        if config.lists(dir, entry.name.as_str()) {
            insert_in_order(&mut listing, entry);
            assert(all.take(i + 1).filter(keep).drop_last() =~= all.take(i as int).filter(keep));
        }
        i += 1;
    }
    proof {
        assert(all.take(all.len() as int) =~= all);
        lemma_sorted_in_order(all.filter(keep));
        lemma_sorted_permutes(all.filter(keep));
        lemma_listing_holds_what_is_listed(config@, dir@, all);
        assert forall|k: int| 0 <= k < listing@.len() implies is_listed(
            config@,
            dir@,
            (#[trigger] listing@[k])@.name,
        ) by {
            assert(entry_views(listing@)[k] == listing@[k]@);
        }
    }
    listing
}

} // verus!
