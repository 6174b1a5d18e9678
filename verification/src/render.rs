//! The index page of a directory.

use crate::config::{Config, ConfigView};
use crate::format::{row_views, Row, RowView};
use crate::path::RelPath;
use crate::text::{escape, escaped};
use vstd::prelude::*;
use vstd::string::*;

verus! {

/// The components of a path, separated by slashes.
pub open spec fn slash_separated(path: Seq<Seq<char>>) -> Seq<char>
    decreases path.len(),
{
    if path.len() == 0 {
        Seq::empty()
    } else if path.len() == 1 {
        path[0]
    } else {
        slash_separated(path.drop_last()) + "/"@ + path.last()
    }
}

/// Whether a slash has to stand between a base and what is joined to it:
/// not behind an empty base, nor behind one that ends in a slash.
pub open spec fn needs_separator(base: Seq<char>) -> bool {
    base.len() > 0 && base.last() != '/'
}

/// The base, with a slash behind it where one is needed.
pub open spec fn with_separator(base: Seq<char>) -> Seq<char> {
    if needs_separator(base) {
        base + "/"@
    } else {
        base
    }
}

/// What a link to the node at `path` points to: the URL base joined with the
/// path, and a slash behind it.
pub open spec fn target_of(base: Seq<char>, path: Seq<Seq<char>>) -> Seq<char> {
    with_separator(base) + slash_separated(path) + "/"@
}

/// A hyperlink.
pub open spec fn anchor(href: Seq<char>, label: Seq<char>) -> Seq<char> {
    "<a href=\""@ + escaped(href) + "\">"@ + escaped(label) + "</a>"@
}

/// One segment of the breadcrumb trail.
#[derive(Debug)]
pub struct Crumb {
    pub href: String,
    pub label: String,
}

/// The mathematical value of a [`Crumb`].
pub struct CrumbView {
    pub href: Seq<char>,
    pub label: Seq<char>,
}

impl View for Crumb {
    type V = CrumbView;

    open spec fn view(&self) -> CrumbView {
        CrumbView { href: self.href@, label: self.label@ }
    }
}

/// The values of a sequence of crumbs.
pub open spec fn crumb_views(crumbs: Seq<Crumb>) -> Seq<CrumbView> {
    crumbs.map_values(|c: Crumb| c@)
}

/// What a segment shows for a directory called `name`: the name, or a slash
/// where the directory has none.
pub open spec fn crumb_label(name: Seq<char>) -> Seq<char> {
    if name.len() == 0 || name == ".."@ {
        "/"@
    } else {
        name
    }
}

/// The segment at position `k` of the trail of the directory `dir`: the
/// root link first, then one segment for each directory on the way down to
/// `dir`, itself included.
pub open spec fn crumb_at(base: Seq<char>, dir: Seq<Seq<char>>, k: int) -> CrumbView {
    if k == 0 {
        CrumbView { href: base, label: "/"@ }
    } else {
        CrumbView { href: target_of(base, dir.take(k)), label: crumb_label(dir[k - 1]) }
    }
}

/// The breadcrumb trail of the directory `dir`, from the root down.
pub open spec fn crumbs_of(base: Seq<char>, dir: Seq<Seq<char>>) -> Seq<CrumbView> {
    Seq::new(dir.len() + 1, |k: int| crumb_at(base, dir, k))
}

/// The trail of a directory `n` levels below the root has `n + 1` segments,
/// from the root down: the root link, then, for each level, the link to the
/// directory of that level under the directory's own name. The trail of the
/// root is the root link alone.
pub proof fn lemma_breadcrumb_segments(base: Seq<char>, dir: Seq<Seq<char>>)
    ensures
        crumbs_of(base, dir).len() == dir.len() + 1,
        crumbs_of(base, dir)[0] == (CrumbView { href: base, label: "/"@ }),
        forall|k: int|
            1 <= k <= dir.len() ==> #[trigger] crumbs_of(base, dir)[k] == (CrumbView {
                href: target_of(base, dir.take(k)),
                label: crumb_label(dir[k - 1]),
            }),
{
}

/// The trail of an entry of a directory is the directory's trail and one
/// segment more.
pub proof fn lemma_breadcrumb_grows(base: Seq<char>, dir: Seq<Seq<char>>, name: Seq<char>)
    ensures
        crumbs_of(base, dir.push(name)) == crumbs_of(base, dir).push(
            CrumbView { href: target_of(base, dir.push(name)), label: crumb_label(name) },
        ),
{
    let longer = dir.push(name);
    assert(longer.take(longer.len() as int) =~= longer);
    assert forall|k: int| 1 <= k <= dir.len() implies longer.take(k) == dir.take(k) by {}
}

/// The markup of a trail: the root link, then each further link with a
/// separator behind it.
pub open spec fn trail_markup(crumbs: Seq<CrumbView>) -> Seq<char>
    decreases crumbs.len(),
{
    if crumbs.len() == 0 {
        Seq::empty()
    } else if crumbs.len() == 1 {
        anchor(crumbs[0].href, crumbs[0].label)
    } else {
        trail_markup(crumbs.drop_last()) + anchor(crumbs.last().href, crumbs.last().label)
            + "<span>/</span>"@
    }
}

/// The mark in front of a row.
pub open spec fn kind_mark(is_dir: bool) -> Seq<char> {
    if is_dir {
        "<span class=\"dir\">&#128448;</span>"@
    } else {
        "<span class=\"file\"></span>"@
    }
}

/// The markup of one row of the directory `dir`: mark, linked name,
/// modification time, size.
pub open spec fn row_markup(base: Seq<char>, dir: Seq<Seq<char>>, row: RowView) -> Seq<char> {
    kind_mark(row.is_dir) + anchor(target_of(base, dir.push(row.name)), row.name) + "<span>"@
        + escaped(row.modified) + "</span><span>"@ + escaped(row.size) + "</span>"@
}

/// The markup of the rows, in their order.
pub open spec fn rows_markup(base: Seq<char>, dir: Seq<Seq<char>>, rows: Seq<RowView>) -> Seq<char>
    decreases rows.len(),
{
    if rows.len() == 0 {
        Seq::empty()
    } else {
        rows_markup(base, dir, rows.drop_last()) + row_markup(base, dir, rows.last())
    }
}

/// The index page of the directory `dir` with the given rows.
pub open spec fn document(config: ConfigView, dir: Seq<Seq<char>>, rows: Seq<RowView>) -> Seq<char> {
    "<!DOCTYPE html><html><head><title>"@ + escaped(config.title) + "</title><style>"@ + escaped(
        config.style,
    ) + "</style><link rel=\"icon\" type=\"image/svg+xml\" href=\"data:image/svg+xml;base64,"@
        + escaped(config.icon) + "\"></head><body><header>"@ + trail_markup(
        crumbs_of(config.url_path, dir),
    ) + "</header><main><b>Type</b><b>Name</b><b>Last modified</b><b>Size</b>"@ + rows_markup(
        config.url_path,
        dir,
        rows,
    ) + "</main></body></html>"@
}

/// Whether two texts hold the same characters.
fn text_is(text: &str, other: &str) -> (same: bool)
    ensures
        same == (text@ == other@),
{
    text.to_owned() == other.to_owned()
}

/// The base with a slash behind it where [`needs_separator`] asks for one.
fn base_with_separator(base: &str) -> (out: String)
    ensures
        out@ == with_separator(base@),
{
    let mut out = base.to_owned();
    let n = base.unicode_len();
    if n > 0 && base.get_char(n - 1) != '/' {
        out.append("/");
    }
    out
}

/// What a link to the node at `path` points to.
pub fn link_target(base: &str, path: &RelPath) -> (target: String)
    ensures
        target@ == target_of(base@, path@),
{
    let mut joined = String::new();
    let mut i: usize = 0;
    while i < path.components.len()
        invariant
            i <= path.components@.len(),
            joined@ == slash_separated(path@.take(i as int)),
        decreases path.components@.len() - i,
    {
        assert(path@.take(i + 1).drop_last() =~= path@.take(i as int));
        if i > 0 {
            joined.append("/");
        }
        joined.append(path.components[i].as_str());
        i += 1;
    }
    assert(path@.take(path@.len() as int) =~= path@);
    let mut target = base_with_separator(base);
    target.append(joined.as_str());
    target.append("/");
    target
}

/// A hyperlink to `href` that shows `label`.
fn render_anchor(href: &str, label: &str) -> (out: String)
    ensures
        out@ == anchor(href@, label@),
{
    let mut out = "<a href=\"".to_owned();
    out.append(escape(href).as_str());
    out.append("\">");
    out.append(escape(label).as_str());
    out.append("</a>");
    out
}

/// The breadcrumb trail of the directory `dir`: the root link, then one
/// segment for each directory from the root down to `dir` itself.
pub fn breadcrumbs(config: &Config, dir: &RelPath) -> (crumbs: Vec<Crumb>)
    ensures
        crumb_views(crumbs@) == crumbs_of(config@.url_path, dir@),
        crumbs@.len() == dir@.len() + 1,
{
    let mut crumbs: Vec<Crumb> = Vec::new();
    crumbs.push(Crumb { href: config.url_path.clone(), label: "/".to_owned() });
    let mut i: usize = 0;
    while i < dir.components.len()
        invariant
            i <= dir.components@.len(),
            crumbs@.len() == i + 1,
            forall|j: int|
                0 <= j <= i ==> (#[trigger] crumbs@[j])@ == crumb_at(config@.url_path, dir@, j),
        decreases dir.components@.len() - i,
    {
        let name = dir.components[i].as_str();
        let label = if name.is_empty() || text_is(name, "..") {
            "/".to_owned()
        } else {
            name.to_owned()
        };
        let href = link_target(config.url_path.as_str(), &dir.prefix(i + 1));
        crumbs.push(Crumb { href, label });
        i += 1;
    }
    crumbs
}

/// The markup of a breadcrumb trail.
fn render_trail(crumbs: &Vec<Crumb>) -> (out: String)
    ensures
        out@ == trail_markup(crumb_views(crumbs@)),
{
    let ghost all = crumb_views(crumbs@);
    let mut out = String::new();
    let mut i: usize = 0;
    while i < crumbs.len()
        invariant
            i <= crumbs@.len(),
            all == crumb_views(crumbs@),
            out@ == trail_markup(all.take(i as int)),
        decreases crumbs@.len() - i,
    {
        assert(all.take(i + 1).drop_last() =~= all.take(i as int));
        let crumb = &crumbs[i];
        out.append(render_anchor(crumb.href.as_str(), crumb.label.as_str()).as_str());
        if i > 0 {
            out.append("<span>/</span>");
        }
        i += 1;
    }
    assert(all.take(all.len() as int) =~= all);
    out
}

/// The markup of one row of the directory `dir`.
fn render_row(config: &Config, dir: &RelPath, row: &Row) -> (out: String)
    ensures
        out@ == row_markup(config@.url_path, dir@, row@),
{
    let mut out = if row.is_dir {
        "<span class=\"dir\">&#128448;</span>".to_owned()
    } else {
        "<span class=\"file\"></span>".to_owned()
    };
    let href = link_target(config.url_path.as_str(), &dir.join(row.name.as_str()));
    out.append(render_anchor(href.as_str(), row.name.as_str()).as_str());
    out.append("<span>");
    out.append(escape(row.modified.as_str()).as_str());
    out.append("</span><span>");
    out.append(escape(row.size.as_str()).as_str());
    out.append("</span>");
    out
}

/// The markup of the rows of the directory `dir`.
fn render_rows(config: &Config, dir: &RelPath, rows: &Vec<Row>) -> (out: String)
    ensures
        out@ == rows_markup(config@.url_path, dir@, row_views(rows@)),
{
    let ghost all = row_views(rows@);
    let mut out = String::new();
    let mut i: usize = 0;
    while i < rows.len()
        invariant
            i <= rows@.len(),
            all == row_views(rows@),
            out@ == rows_markup(config@.url_path, dir@, all.take(i as int)),
        decreases rows@.len() - i,
    {
        assert(all.take(i + 1).drop_last() =~= all.take(i as int));
        out.append(render_row(config, dir, &rows[i]).as_str());
        i += 1;
    }
    assert(all.take(all.len() as int) =~= all);
    out
}

/// The index page of the directory `dir`: the document head with title,
/// stylesheet and icon, the breadcrumb trail from the root down to `dir`,
/// and a table with one row for each of `rows`, in their order.
pub fn generate_html(config: &Config, dir: &RelPath, rows: &Vec<Row>) -> (html: String)
    ensures
        html@ == document(config@, dir@, row_views(rows@)),
{
    let crumbs = breadcrumbs(config, dir);
    let mut html = "<!DOCTYPE html><html><head><title>".to_owned();
    html.append(escape(config.title.as_str()).as_str());
    html.append("</title><style>");
    html.append(escape(config.style.as_str()).as_str());
    html.append(
        "</style><link rel=\"icon\" type=\"image/svg+xml\" href=\"data:image/svg+xml;base64,",
    );
    html.append(escape(config.icon.as_str()).as_str());
    html.append("\"></head><body><header>");
    html.append(render_trail(&crumbs).as_str());
    html.append("</header><main><b>Type</b><b>Name</b><b>Last modified</b><b>Size</b>");
    html.append(render_rows(config, dir, rows).as_str());
    html.append("</main></body></html>");
    html
}

} // verus!
