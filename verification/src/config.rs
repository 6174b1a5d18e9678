//! The configuration of a build.

use crate::path::RelPath;
use vstd::prelude::*;
use vstd::string::*;

verus! {

/// The configuration of a build, set up once and only read afterwards.
pub struct Config {
    /// The title of every generated page.
    pub title: String,
    /// The stylesheet embedded in every generated page.
    pub style: String,
    /// The page icon, an SVG image in base64.
    pub icon: String,
    /// The URL path under which the mirror is served; every link starts
    /// with it.
    pub url_path: String,
    /// The paths that are left out of the mirror and of every listing, each
    /// from the root of the tree.
    pub ignored: Vec<RelPath>,
    /// The directory that holds the mirror.
    pub output_dir: RelPath,
    /// Whether entries whose name starts with a dot are listed.
    pub hidden: bool,
}

/// The mathematical value of a [`Config`].
pub struct ConfigView {
    pub title: Seq<char>,
    pub style: Seq<char>,
    pub icon: Seq<char>,
    pub url_path: Seq<char>,
    pub ignored: Seq<Seq<Seq<char>>>,
    pub output_dir: Seq<Seq<char>>,
    pub hidden: bool,
}

/// The values of a sequence of paths.
pub open spec fn path_views(paths: Seq<RelPath>) -> Seq<Seq<Seq<char>>> {
    paths.map_values(|p: RelPath| p@)
}

impl View for Config {
    type V = ConfigView;

    open spec fn view(&self) -> ConfigView {
        ConfigView {
            title: self.title@,
            style: self.style@,
            icon: self.icon@,
            url_path: self.url_path@,
            ignored: path_views(self.ignored@),
            output_dir: self.output_dir@,
            hidden: self.hidden,
        }
    }
}

/// The name of the version-control metadata directory, which is never
/// mirrored.
pub open spec fn vcs_dir() -> Seq<char> {
    ".git"@
}

/// The ignore list that a build works with: the paths asked for, then the
/// version-control metadata directory, then the output directory, so that a
/// build never mirrors what an earlier one wrote.
pub open spec fn effective_ignored(
    ignored: Seq<Seq<Seq<char>>>,
    output_dir: Seq<Seq<char>>,
) -> Seq<Seq<Seq<char>>> {
    ignored.push(seq![vcs_dir()]).push(output_dir)
}

/// The name of the index page of a directory.
pub open spec fn index_name() -> Seq<char> {
    "index.html"@
}

/// Where the node at `path` lies in the mirror: at the same path below the
/// output directory.
pub open spec fn mirror_of(config: ConfigView, path: Seq<Seq<char>>) -> Seq<Seq<char>> {
    config.output_dir + path
}

/// Where the index page of the directory `dir` lies: in the directory's
/// place in the mirror, under the name [`index_name`].
pub open spec fn index_page_of(config: ConfigView, dir: Seq<Seq<char>>) -> Seq<Seq<char>> {
    mirror_of(config, dir).push(index_name())
}

/// Two nodes have the same place in the mirror only if they are the same
/// node.
pub proof fn lemma_mirror_keeps_paths_apart(
    config: ConfigView,
    first: Seq<Seq<char>>,
    second: Seq<Seq<char>>,
)
    requires
        mirror_of(config, first) == mirror_of(config, second),
    ensures
        first == second,
{
    let n = config.output_dir.len() as int;
    assert(mirror_of(config, first).skip(n) =~= first);
    assert(mirror_of(config, second).skip(n) =~= second);
}

impl Config {
    /// The configuration with the given settings. The ignore list is
    /// extended as [`effective_ignored`] says.
    pub fn new(
        title: String,
        style: String,
        icon: String,
        url_path: String,
        ignored: Vec<RelPath>,
        output_dir: RelPath,
        hidden: bool,
    ) -> (config: Config)
        ensures
            config@ == (ConfigView {
                title: title@,
                style: style@,
                icon: icon@,
                url_path: url_path@,
                ignored: effective_ignored(path_views(ignored@), output_dir@),
                output_dir: output_dir@,
                hidden,
            }),
    {
        let mut ignored = ignored;
        let ghost asked = path_views(ignored@);
        ignored.push(RelPath::root().join(".git"));
        ignored.push(output_dir.duplicate());
        assert(path_views(ignored@) =~= effective_ignored(asked, output_dir@));
        Config { title, style, icon, url_path, ignored, output_dir, hidden }
    }

    /// Where the node at `path` lies in the mirror.
    pub fn mirror_path(&self, path: &RelPath) -> (place: RelPath)
        ensures
            place@ == mirror_of(self@, path@),
    {
        self.output_dir.concat(path)
    }

    /// Where the index page of the directory `dir` lies.
    pub fn index_page_path(&self, dir: &RelPath) -> (place: RelPath)
        ensures
            place@ == index_page_of(self@, dir@),
    {
        self.mirror_path(dir).join("index.html")
    }
}

} // verus!
