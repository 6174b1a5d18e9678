//! The two text columns of a listing: when an entry was modified, and how
//! large it is.

use crate::entry::{entry_views, Entry, EntryKind, EntryView};
use vstd::prelude::*;
use vstd::string::*;

verus! {

/// What the `time` crate makes of a moment, given in whole seconds since the
/// Unix epoch and taken in UTC, under a format description; `None` where it
/// rejects the description or the moment.
pub uninterp spec fn timestamp_text(seconds: i64, description: Seq<char>) -> Option<Seq<char>>;

/// What `humansize` makes of a number of bytes with its binary (base 1024)
/// options.
pub uninterp spec fn binary_size_text(bytes: u64) -> Seq<char>;

/// The description of the modification column: date and time of day, to the
/// second.
pub open spec fn timestamp_format() -> Seq<char> {
    "[year]-[month]-[day] [hour]:[minute]:[second]"@
}

/// What a column shows where there is nothing to show.
pub open spec fn placeholder() -> Seq<char> {
    "-"@
}

/// A formatted text, or the placeholder where there is none.
pub open spec fn or_placeholder(text: Option<Seq<char>>) -> Seq<char> {
    match text {
        Some(t) => t,
        None => placeholder(),
    }
}

/// The whole seconds from the Unix epoch to a moment that lies `seconds`
/// seconds and `nanos` nanoseconds after it, or before it: rounded down, to
/// the second in which the moment lies.
pub open spec fn seconds_from_epoch(after: bool, seconds: u64, nanos: u32) -> int {
    if after {
        seconds as int
    } else if nanos > 0 {
        -(seconds as int) - 1
    } else {
        -(seconds as int)
    }
}

/// The whole seconds from the Unix epoch to a moment, as
/// [`seconds_from_epoch`] gives them; `None` where they do not fit.
pub fn whole_seconds(after: bool, seconds: u64, nanos: u32) -> (whole: Option<i64>)
    ensures
        whole == if i64::MIN <= seconds_from_epoch(after, seconds, nanos) <= i64::MAX {
            Some(seconds_from_epoch(after, seconds, nanos) as i64)
        } else {
            None::<i64>
        },
{
    let limit: u64 = 0x7fff_ffff_ffff_ffff;
    if after {
        if seconds <= limit {
            Some(seconds as i64)
        } else {
            None
        }
    } else if nanos > 0 {
        if seconds <= limit {
            Some(-(seconds as i64) - 1)
        } else {
            None
        }
    } else if seconds <= limit {
        Some(-(seconds as i64))
    } else if seconds == limit + 1 {
        Some(i64::MIN)
    } else {
        None
    }
}

/// One row of a listing, ready to be rendered.
#[derive(Debug)]
pub struct Row {
    pub name: String,
    /// Whether the row carries the directory mark.
    pub is_dir: bool,
    /// The modification column.
    pub modified: String,
    /// The size column.
    pub size: String,
}

/// The mathematical value of a [`Row`].
pub struct RowView {
    pub name: Seq<char>,
    pub is_dir: bool,
    pub modified: Seq<char>,
    pub size: Seq<char>,
}

impl View for Row {
    type V = RowView;

    open spec fn view(&self) -> RowView {
        RowView { name: self.name@, is_dir: self.is_dir, modified: self.modified@, size: self.size@ }
    }
}

/// The values of a sequence of rows.
pub open spec fn row_views(rows: Seq<Row>) -> Seq<RowView> {
    rows.map_values(|r: Row| r@)
}

/// The row of an entry whose modification time and size were formatted to
/// `modified` and `size`, each `None` where there was nothing to format or
/// formatting failed.
pub open spec fn row_with(
    entry: EntryView,
    modified: Option<Seq<char>>,
    size: Option<Seq<char>>,
) -> RowView {
    RowView {
        name: entry.name,
        is_dir: entry.kind is Directory,
        modified: or_placeholder(modified),
        size: or_placeholder(size),
    }
}

/// The formatted modification time of an entry: `None` where the time is
/// unknown or cannot be formatted.
pub open spec fn modified_text(entry: EntryView) -> Option<Seq<char>> {
    match entry.modified {
        Some(seconds) => timestamp_text(seconds, timestamp_format()),
        None => None,
    }
}

/// The formatted size of an entry: only a regular file whose size is known
/// has one.
pub open spec fn size_text(entry: EntryView) -> Option<Seq<char>> {
    match entry.kind {
        EntryKind::File { size: Some(bytes) } => Some(binary_size_text(bytes)),
        _ => None,
    }
}

/// The row of an entry.
pub open spec fn row_of(entry: EntryView) -> RowView {
    row_with(entry, modified_text(entry), size_text(entry))
}

/// The rows of a listing, in its order.
pub open spec fn rows_of(entries: Seq<EntryView>) -> Seq<RowView> {
    entries.map_values(|e: EntryView| row_of(e))
}

/// The views of two optional texts agree.
pub open spec fn same_text(text: Option<String>, view: Option<Seq<char>>) -> bool {
    match text {
        Some(t) => view == Some(t@),
        None => view is None,
    }
}

/// Formats a moment with `time`: `format_description::parse_borrowed` (in
/// its first version) reads the description,
/// `OffsetDateTime::from_unix_timestamp` makes the moment, in UTC, and
/// `OffsetDateTime::format` writes it.
///
/// Trusted: the text depends on the two arguments alone, and there is none
/// exactly where one of the three calls returns an error. The description
/// is the one of the modification column and no other: on a malformed
/// description the parser may not return.
#[verifier::external_body]
pub(crate) fn format_timestamp(seconds: i64, description: &str) -> (text: Option<String>)
    requires
        description@ == timestamp_format(),
    ensures
        same_text(text, timestamp_text(seconds, description@)),
{
    let items = time::format_description::parse_borrowed::<1>(description).ok()?;
    let moment = time::OffsetDateTime::from_unix_timestamp(seconds).ok()?;
    moment.format(&items).ok()
}

/// Formats a number of bytes with `humansize::format_size` and its `BINARY`
/// options.
///
/// Trusted: the text depends on the number alone.
#[verifier::external_body]
pub(crate) fn format_binary_size(bytes: u64) -> (text: String)
    ensures
        text@ == binary_size_text(bytes),
{
    humansize::format_size(bytes, humansize::BINARY)
}

/// The text, or the placeholder where there is none.
fn text_or_placeholder(text: Option<String>) -> (shown: String)
    ensures
        shown@ == or_placeholder(
            match text {
                Some(t) => Some(t@),
                None => None,
            },
        ),
{
    match text {
        Some(t) => t,
        None => "-".to_owned(),
    }
}

/// The row of an entry, given its formatted modification time and size.
pub fn row_from(entry: &Entry, modified: Option<String>, size: Option<String>) -> (row: Row)
    ensures
        row@ == row_with(
            entry@,
            match modified {
                Some(t) => Some(t@),
                None => None,
            },
            match size {
                Some(t) => Some(t@),
                None => None,
            },
        ),
{
    let is_dir = match entry.kind {
        EntryKind::Directory => true,
        _ => false,
    };
    Row {
        name: entry.name.clone(),
        is_dir,
        modified: text_or_placeholder(modified),
        size: text_or_placeholder(size),
    }
}

/// The row of an entry: its name, its mark, its modification time to the
/// second and, for a regular file, its size in binary units.
pub fn describe(entry: &Entry) -> (row: Row)
    ensures
        row@ == row_of(entry@),
{
    let modified = match entry.modified {
        Some(seconds) => format_timestamp(seconds, "[year]-[month]-[day] [hour]:[minute]:[second]"),
        None => None,
    };
    let size = match entry.kind {
        EntryKind::File { size: Some(bytes) } => Some(format_binary_size(bytes)),
        _ => None,
    };
    row_from(entry, modified, size)
}

/// The rows of a listing, in its order.
pub fn describe_all(entries: &Vec<Entry>) -> (rows: Vec<Row>)
    ensures
        row_views(rows@) == rows_of(entry_views(entries@)),
{
    let mut rows: Vec<Row> = Vec::new();
    let mut i: usize = 0;
    while i < entries.len()
        invariant
            i <= entries@.len(),
            row_views(rows@) == rows_of(entry_views(entries@).take(i as int)),
        decreases entries@.len() - i,
    {
        let ghost all = entry_views(entries@);
        rows.push(describe(&entries[i]));
        assert(rows_of(all.take(i + 1)) =~= rows_of(all.take(i as int)).push(
            row_of(all[i as int]),
        ));
        i += 1;
    }
    rows
}

} // verus!
