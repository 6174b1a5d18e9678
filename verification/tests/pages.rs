use dir_index::config::Config;
use dir_index::format::Row;
use dir_index::path::RelPath;
use dir_index::render::{breadcrumbs, generate_html};

const HEAD: &str = "<!DOCTYPE html><html><head><title>listing</title><style>body{}</style>\
<link rel=\"icon\" type=\"image/svg+xml\" href=\"data:image/svg+xml;base64,QUJD\"></head><body>";
const COLUMNS: &str = "<main><b>Type</b><b>Name</b><b>Last modified</b><b>Size</b>";
const TAIL: &str = "</main></body></html>";

fn path(names: &[&str]) -> RelPath {
    RelPath::from_components(names.iter().map(|n| n.to_string()).collect())
}

fn config(url_path: &str) -> Config {
    Config::new(
        "listing".to_string(),
        "body{}".to_string(),
        "QUJD".to_string(),
        url_path.to_string(),
        Vec::new(),
        path(&["public"]),
        false,
    )
}

fn row(name: &str, is_dir: bool, modified: &str, size: &str) -> Row {
    Row {
        name: name.to_string(),
        is_dir,
        modified: modified.to_string(),
        size: size.to_string(),
    }
}

#[test]
fn breadcrumb_of_the_root_is_the_root_link() {
    let crumbs = breadcrumbs(&config("/"), &RelPath::root());
    assert_eq!(crumbs.len(), 1);
    assert_eq!(crumbs[0].href, "/");
    assert_eq!(crumbs[0].label, "/");
}

#[test]
fn breadcrumb_has_one_segment_more_than_the_depth() {
    let c = config("/base");
    for depth in 0..6 {
        let names: Vec<String> = (0..depth).map(|i| format!("d{}", i)).collect();
        let crumbs = breadcrumbs(&c, &RelPath::from_components(names));
        assert_eq!(crumbs.len(), depth + 1);
    }
}

#[test]
fn breadcrumb_runs_from_the_root_down() {
    let crumbs = breadcrumbs(&config("/"), &path(&["a", "b", "c"]));
    assert_eq!(crumbs.len(), 4);
    assert_eq!(crumbs[0].href, "/");
    assert_eq!(crumbs[0].label, "/");
    assert_eq!(crumbs[1].href, "/a/");
    assert_eq!(crumbs[1].label, "a");
    assert_eq!(crumbs[2].href, "/a/b/");
    assert_eq!(crumbs[2].label, "b");
    assert_eq!(crumbs[3].href, "/a/b/c/");
    assert_eq!(crumbs[3].label, "c");
}

#[test]
fn breadcrumb_links_start_with_the_url_path() {
    let crumbs = breadcrumbs(&config("/site"), &path(&["docs"]));
    assert_eq!(crumbs[0].href, "/site");
    assert_eq!(crumbs[1].href, "/site/docs/");
}

#[test]
fn breadcrumb_of_a_nameless_directory_shows_a_slash() {
    let crumbs = breadcrumbs(&config("/"), &path(&["a", ".."]));
    assert_eq!(crumbs.len(), 3);
    assert_eq!(crumbs[1].label, "a");
    assert_eq!(crumbs[2].label, "/");
    assert_eq!(crumbs[2].href, "/a/../");
    let crumbs = breadcrumbs(&config("/"), &path(&[""]));
    assert_eq!(crumbs[1].label, "/");
}

#[test]
fn page_of_an_empty_root() {
    let html = generate_html(&config("/"), &RelPath::root(), &Vec::new());
    let expected = format!("{}<header><a href=\"/\">/</a></header>{}{}", HEAD, COLUMNS, TAIL);
    assert_eq!(html, expected);
}

#[test]
fn page_lists_rows_in_the_order_given() {
    let rows = vec![
        row("b.txt", false, "2020-01-02 03:04:05", "10 B"),
        row("a", true, "-", "-"),
    ];
    let html = generate_html(&config("/"), &RelPath::root(), &rows);
    let expected = format!(
        "{}<header><a href=\"/\">/</a></header>{}\
<span class=\"file\"></span><a href=\"/b.txt/\">b.txt</a><span>2020-01-02 03:04:05</span><span>10 B</span>\
<span class=\"dir\">&#128448;</span><a href=\"/a/\">a</a><span>-</span><span>-</span>{}",
        HEAD, COLUMNS, TAIL
    );
    assert_eq!(html, expected);
}

#[test]
fn page_of_a_nested_directory() {
    let rows = vec![row("c.txt", false, "-", "1 KiB")];
    let html = generate_html(&config("/site"), &path(&["a", "b"]), &rows);
    let expected = format!(
        "{}<header><a href=\"/site\">/</a><a href=\"/site/a/\">a</a><span>/</span>\
<a href=\"/site/a/b/\">b</a><span>/</span></header>{}\
<span class=\"file\"></span><a href=\"/site/a/b/c.txt/\">c.txt</a><span>-</span><span>1 KiB</span>{}",
        HEAD, COLUMNS, TAIL
    );
    assert_eq!(html, expected);
}

#[test]
fn page_escapes_text_and_attributes() {
    let c = Config::new(
        "a<b & \"c\"".to_string(),
        "p > q".to_string(),
        "x\"y".to_string(),
        "/u&v".to_string(),
        Vec::new(),
        path(&["public"]),
        false,
    );
    let rows = vec![row("<i>&\"'.txt", false, "<now>", "1 & 2")];
    let html = generate_html(&c, &path(&["r&d"]), &rows);
    let expected = "<!DOCTYPE html><html><head><title>a&lt;b &amp; &quot;c&quot;</title>\
<style>p &gt; q</style>\
<link rel=\"icon\" type=\"image/svg+xml\" href=\"data:image/svg+xml;base64,x&quot;y\"></head><body>\
<header><a href=\"/u&amp;v\">/</a><a href=\"/u&amp;v/r&amp;d/\">r&amp;d</a><span>/</span></header>\
<main><b>Type</b><b>Name</b><b>Last modified</b><b>Size</b>\
<span class=\"file\"></span><a href=\"/u&amp;v/r&amp;d/&lt;i&gt;&amp;&quot;'.txt/\">&lt;i&gt;&amp;&quot;'.txt</a>\
<span>&lt;now&gt;</span><span>1 &amp; 2</span></main></body></html>";
    assert_eq!(html, expected);
}

#[test]
fn page_keeps_text_beyond_ascii() {
    let rows = vec![row("caf\u{e9} \u{4e2d}", true, "-", "-")];
    let html = generate_html(&config("/"), &RelPath::root(), &rows);
    assert!(html.contains("<a href=\"/caf\u{e9} \u{4e2d}/\">caf\u{e9} \u{4e2d}</a>"));
}

#[test]
fn page_is_the_same_when_rendered_again() {
    let rows = vec![row("a", true, "-", "-"), row("b", false, "t", "2 B")];
    let one = generate_html(&config("/x"), &path(&["d"]), &rows);
    let two = generate_html(&config("/x"), &path(&["d"]), &rows);
    assert_eq!(one, two);
}
