use dir_index::order::name_precedes;
use dir_index::path::RelPath;
use dir_index::render::link_target;

fn path(names: &[&str]) -> RelPath {
    RelPath::from_components(names.iter().map(|n| n.to_string()).collect())
}

#[test]
fn root_has_no_components() {
    let root = RelPath::root();
    assert_eq!(root.depth(), 0);
    assert!(root.components.is_empty());
}

#[test]
fn join_appends_one_component() {
    let dir = path(&["a", "b"]);
    let child = dir.join("c.txt");
    assert_eq!(child.components, vec!["a", "b", "c.txt"]);
    assert_eq!(child.depth(), 3);
    assert_eq!(dir.components, vec!["a", "b"]);
}

#[test]
fn prefix_keeps_the_leading_components() {
    let p = path(&["a", "b", "c"]);
    assert_eq!(p.prefix(0).components, Vec::<String>::new());
    assert_eq!(p.prefix(2).components, vec!["a", "b"]);
    assert_eq!(p.prefix(3).components, vec!["a", "b", "c"]);
}

#[test]
fn duplicate_is_the_same_path() {
    let p = path(&["x", "y"]);
    let q = p.duplicate();
    assert!(p.same_as(&q));
    assert_eq!(q.components, vec!["x", "y"]);
}

#[test]
fn concat_appends_every_component() {
    assert_eq!(path(&["a"]).concat(&path(&["b", "c"])).components, vec!["a", "b", "c"]);
    assert_eq!(path(&["a"]).concat(&RelPath::root()).components, vec!["a"]);
    assert_eq!(RelPath::root().concat(&path(&["b"])).components, vec!["b"]);
    assert!(RelPath::root().concat(&RelPath::root()).components.is_empty());
}

#[test]
fn same_as_compares_component_by_component() {
    assert!(path(&[]).same_as(&RelPath::root()));
    assert!(path(&["a", "b"]).same_as(&path(&["a", "b"])));
    assert!(!path(&["a", "b"]).same_as(&path(&["a"])));
    assert!(!path(&["a", "b"]).same_as(&path(&["a", "c"])));
    assert!(!path(&["a/b"]).same_as(&path(&["a", "b"])));
}

#[test]
fn names_are_ordered_byte_by_byte() {
    assert!(name_precedes("a", "b"));
    assert!(!name_precedes("b", "a"));
    assert!(name_precedes("a", "a"));
    assert!(name_precedes("", "a"));
    assert!(!name_precedes("a", ""));
    assert!(name_precedes("a", "ab"));
    assert!(!name_precedes("ab", "a"));
    assert!(name_precedes("B", "a"));
    assert!(!name_precedes("a", "B"));
    assert!(name_precedes("a.txt", "a_txt"));
    assert!(name_precedes("file10", "file9"));
}

#[test]
fn names_beyond_ascii_are_ordered_by_their_encoding() {
    assert!(name_precedes("z", "\u{e9}"));
    assert!(!name_precedes("\u{e9}", "z"));
    assert!(name_precedes("\u{e9}", "\u{4e2d}"));
    assert!(name_precedes("\u{ffff}", "\u{10000}"));
}

#[test]
fn link_target_joins_base_and_path() {
    assert_eq!(link_target("/", &path(&["a"])), "/a/");
    assert_eq!(link_target("/", &path(&["a", "b.txt"])), "/a/b.txt/");
    assert_eq!(link_target("/site", &path(&["a", "b"])), "/site/a/b/");
    assert_eq!(link_target("/site/", &path(&["a", "b"])), "/site/a/b/");
    assert_eq!(link_target("", &path(&["a", "b"])), "a/b/");
}

#[test]
fn link_target_of_the_root() {
    assert_eq!(link_target("/site", &RelPath::root()), "/site//");
    assert_eq!(link_target("/", &RelPath::root()), "//");
    assert_eq!(link_target("", &RelPath::root()), "/");
}
