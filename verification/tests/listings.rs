use dir_index::config::Config;
use dir_index::entry::{readable_entries, Entry, EntryKind};
use dir_index::listing::{name_is_hidden, select_entries};
use dir_index::path::RelPath;

fn path(names: &[&str]) -> RelPath {
    RelPath::from_components(names.iter().map(|n| n.to_string()).collect())
}

fn config(ignored: Vec<RelPath>, hidden: bool) -> Config {
    Config::new(
        "title".to_string(),
        String::new(),
        String::new(),
        "/".to_string(),
        ignored,
        path(&["public"]),
        hidden,
    )
}

fn file(name: &str, size: u64) -> Entry {
    Entry::new(name.to_string(), EntryKind::File { size: Some(size) }, Some(0))
}

fn dir(name: &str) -> Entry {
    Entry::new(name.to_string(), EntryKind::Directory, Some(0))
}

fn names(entries: &[Entry]) -> Vec<String> {
    entries.iter().map(|e| e.name.clone()).collect()
}

#[test]
fn config_extends_the_ignore_list() {
    let c = Config::new(
        "t".to_string(),
        "s".to_string(),
        "i".to_string(),
        "/u".to_string(),
        vec![path(&["x", "y"])],
        path(&["out"]),
        true,
    );
    assert_eq!(c.title, "t");
    assert_eq!(c.style, "s");
    assert_eq!(c.icon, "i");
    assert_eq!(c.url_path, "/u");
    assert!(c.hidden);
    assert_eq!(c.output_dir.components, vec!["out"]);
    assert_eq!(c.ignored.len(), 3);
    assert_eq!(c.ignored[0].components, vec!["x", "y"]);
    assert_eq!(c.ignored[1].components, vec![".git"]);
    assert_eq!(c.ignored[2].components, vec!["out"]);
}

#[test]
fn mirror_keeps_the_relative_path() {
    let c = config(vec![], false);
    assert_eq!(c.mirror_path(&RelPath::root()).components, vec!["public"]);
    assert_eq!(c.mirror_path(&path(&["a", "b.txt"])).components, vec!["public", "a", "b.txt"]);
    let deep = Config::new(
        "t".to_string(),
        String::new(),
        String::new(),
        "/".to_string(),
        Vec::new(),
        path(&["/", "srv", "www"]),
        false,
    );
    assert_eq!(deep.mirror_path(&path(&["a"])).components, vec!["/", "srv", "www", "a"]);
}

#[test]
fn index_page_lies_in_the_mirrored_directory() {
    let c = config(vec![], false);
    assert_eq!(c.index_page_path(&RelPath::root()).components, vec!["public", "index.html"]);
    assert_eq!(
        c.index_page_path(&path(&["a", "b"])).components,
        vec!["public", "a", "b", "index.html"]
    );
}

#[test]
fn hidden_names_start_with_a_dot() {
    assert!(name_is_hidden(".git"));
    assert!(name_is_hidden("."));
    assert!(name_is_hidden(".a.b"));
    assert!(!name_is_hidden("a.b"));
    assert!(!name_is_hidden(""));
    assert!(!name_is_hidden("a."));
}

#[test]
fn ignores_only_exact_paths() {
    let c = config(vec![path(&["a", "b"])], false);
    assert!(c.ignores(&path(&["a", "b"])));
    assert!(c.ignores(&path(&[".git"])));
    assert!(c.ignores(&path(&["public"])));
    assert!(!c.ignores(&path(&["a"])));
    assert!(!c.ignores(&path(&["b"])));
    assert!(!c.ignores(&path(&["a", "b", "c"])));
    assert!(!c.ignores(&path(&["x", "public"])));
    assert!(!c.ignores(&RelPath::root()));
}

#[test]
fn lists_tells_hidden_and_ignored_entries_apart() {
    let off = config(vec![path(&["secret"])], false);
    assert!(off.lists(&RelPath::root(), "public.txt"));
    assert!(!off.lists(&RelPath::root(), "secret"));
    assert!(!off.lists(&RelPath::root(), ".hidden"));
    assert!(!off.lists(&RelPath::root(), "public"));
    assert!(off.lists(&path(&["sub"]), "secret"));
    assert!(off.lists(&path(&["sub"]), "public"));
    let on = config(vec![path(&["secret"])], true);
    assert!(on.lists(&RelPath::root(), ".hidden"));
    assert!(!on.lists(&RelPath::root(), "secret"));
    assert!(!on.lists(&RelPath::root(), ".git"));
    assert!(on.lists(&path(&["sub"]), ".git"));
}

#[test]
fn listing_is_sorted_by_name() {
    let c = config(vec![], false);
    let entries = vec![file("b", 1), dir("c"), file("a", 2), dir("B"), file("ab", 3)];
    let listing = select_entries(&c, &RelPath::root(), &entries);
    assert_eq!(names(&listing), vec!["B", "a", "ab", "b", "c"]);
    assert_eq!(listing[0].kind, EntryKind::Directory);
    assert_eq!(listing[1].kind, EntryKind::File { size: Some(2) });
    assert_eq!(listing[2].kind, EntryKind::File { size: Some(3) });
}

#[test]
fn listing_interleaves_directories_and_files() {
    let c = config(vec![], false);
    let entries = vec![dir("z"), file("m", 1), dir("a"), file("b", 1)];
    let listing = select_entries(&c, &RelPath::root(), &entries);
    assert_eq!(names(&listing), vec!["a", "b", "m", "z"]);
}

#[test]
fn listing_does_not_depend_on_the_order_read() {
    let c = config(vec![], false);
    let one = vec![file("x", 1), file("y", 2), dir("w")];
    let two = vec![dir("w"), file("y", 2), file("x", 1)];
    let a = select_entries(&c, &RelPath::root(), &one);
    let b = select_entries(&c, &RelPath::root(), &two);
    assert_eq!(names(&a), vec!["w", "x", "y"]);
    assert_eq!(names(&a), names(&b));
}

#[test]
fn listing_keeps_equal_names_in_the_order_given() {
    let c = config(vec![], false);
    let entries = vec![file("a", 1), file("b", 5), file("a", 2), file("a", 3)];
    let listing = select_entries(&c, &RelPath::root(), &entries);
    assert_eq!(names(&listing), vec!["a", "a", "a", "b"]);
    assert_eq!(listing[0].kind, EntryKind::File { size: Some(1) });
    assert_eq!(listing[1].kind, EntryKind::File { size: Some(2) });
    assert_eq!(listing[2].kind, EntryKind::File { size: Some(3) });
}

#[test]
fn listing_leaves_out_hidden_entries() {
    let c = config(vec![], false);
    let entries = vec![file(".env", 1), file("a", 1), dir(".cache"), dir("b")];
    let listing = select_entries(&c, &RelPath::root(), &entries);
    assert_eq!(names(&listing), vec!["a", "b"]);
}

#[test]
fn listing_shows_hidden_entries_when_asked() {
    let c = config(vec![], true);
    let entries = vec![file(".env", 1), file("a", 1), dir(".cache"), dir("b"), dir(".git")];
    let listing = select_entries(&c, &RelPath::root(), &entries);
    assert_eq!(names(&listing), vec![".cache", ".env", "a", "b"]);
}

#[test]
fn listing_leaves_out_ignored_paths() {
    let c = config(vec![path(&["secret"])], false);
    let entries = vec![dir("secret"), file("public.txt", 3)];
    let listing = select_entries(&c, &RelPath::root(), &entries);
    assert_eq!(names(&listing), vec!["public.txt"]);
}

#[test]
fn listing_ignores_by_full_path() {
    let c = config(vec![path(&["docs", "draft"])], false);
    let entries = vec![dir("draft"), file("final", 3)];
    let in_docs = select_entries(&c, &path(&["docs"]), &entries);
    assert_eq!(names(&in_docs), vec!["final"]);
    let in_root = select_entries(&c, &RelPath::root(), &entries);
    assert_eq!(names(&in_root), vec!["draft", "final"]);
}

#[test]
fn listing_leaves_out_the_output_directory() {
    let c = config(vec![], false);
    let entries = vec![dir("public"), dir("src")];
    let listing = select_entries(&c, &RelPath::root(), &entries);
    assert_eq!(names(&listing), vec!["src"]);
}

#[test]
fn listing_of_nothing_is_empty() {
    let c = config(vec![], false);
    let listing = select_entries(&c, &RelPath::root(), &Vec::new());
    assert!(listing.is_empty());
}

#[test]
fn children_that_could_not_be_read_are_skipped() {
    let children = vec![None, Some(file("b", 1)), None, Some(dir("a")), Some(file("c", 2)), None];
    let entries = readable_entries(&children);
    assert_eq!(names(&entries), vec!["b", "a", "c"]);
    assert_eq!(entries[0].kind, EntryKind::File { size: Some(1) });
    assert_eq!(entries[1].kind, EntryKind::Directory);
    assert_eq!(entries[2].kind, EntryKind::File { size: Some(2) });
    assert_eq!(entries[2].modified, Some(0));
}

#[test]
fn children_of_an_empty_or_unreadable_directory() {
    assert!(readable_entries(&Vec::new()).is_empty());
    assert!(readable_entries(&vec![None, None]).is_empty());
}

#[test]
fn a_failed_reading_does_not_change_the_listing() {
    let c = config(vec![], false);
    let without = vec![Some(file("b", 1)), Some(dir("a"))];
    let expected = names(&select_entries(&c, &RelPath::root(), &readable_entries(&without)));
    assert_eq!(expected, vec!["a", "b"]);
    for k in 0..3 {
        let mut with = vec![Some(file("b", 1)), Some(dir("a"))];
        with.insert(k, None);
        let listing = select_entries(&c, &RelPath::root(), &readable_entries(&with));
        assert_eq!(names(&listing), expected);
    }
}

#[test]
fn kind_of_a_node() {
    assert_eq!(EntryKind::of(true, false, None), EntryKind::Directory);
    assert_eq!(EntryKind::of(true, false, Some(4096)), EntryKind::Directory);
    assert_eq!(EntryKind::of(true, true, Some(1)), EntryKind::Directory);
    assert_eq!(EntryKind::of(false, true, Some(7)), EntryKind::File { size: Some(7) });
    assert_eq!(EntryKind::of(false, true, None), EntryKind::File { size: None });
    assert_eq!(EntryKind::of(false, false, Some(7)), EntryKind::Other);
    assert_eq!(EntryKind::of(false, false, None), EntryKind::Other);
}

#[test]
fn entry_duplicate_keeps_every_field() {
    let e = Entry::new("n".to_string(), EntryKind::File { size: Some(7) }, Some(-5));
    let d = e.duplicate();
    assert_eq!(d.name, "n");
    assert_eq!(d.kind, EntryKind::File { size: Some(7) });
    assert_eq!(d.modified, Some(-5));
}
