//! The tree, against a disk kept in memory.
use grove::entry::{sort_entries, Entry};
use grove::path;
use grove::tree::{visible, Row, Tree};

/// A handful of directories, each with the stamp of its last change.
struct Disk {
    root: String,
    dirs: Vec<(String, i128, Vec<(String, bool)>)>,
    clock: i128,
}

impl Disk {
    fn new(root: &str) -> Self {
        Self { root: root.to_string(), dirs: vec![(root.to_string(), 1, Vec::new())], clock: 1 }
    }

    fn at(&self, rel: &str) -> String {
        format!("{}/{rel}", self.root)
    }

    fn place(&mut self, rel: &str, is_dir: bool) {
        let full = self.at(rel);
        let cut = full.rfind('/').unwrap();
        let (parent, name) = (full[..cut].to_string(), full[cut + 1..].to_string());
        self.clock += 1;
        let clock = self.clock;
        let dir = self.dirs.iter_mut().find(|d| d.0 == parent).unwrap();
        if !dir.2.iter().any(|e| e.0 == name) {
            dir.2.push((name, is_dir));
            dir.1 = clock;
        }
    }

    fn mkdir(&mut self, rel: &str) {
        let mut sofar = String::new();
        for part in rel.split('/') {
            if !sofar.is_empty() {
                sofar.push('/');
            }
            sofar.push_str(part);
            let full = self.at(&sofar);
            if !self.dirs.iter().any(|d| d.0 == full) {
                self.place(&sofar, true);
                self.dirs.push((full, self.clock, Vec::new()));
            }
        }
    }

    fn touch(&mut self, rel: &str) {
        self.place(rel, false);
    }

    fn rm(&mut self, rel: &str) {
        let full = self.at(rel);
        let cut = full.rfind('/').unwrap();
        let (parent, name) = (full[..cut].to_string(), full[cut + 1..].to_string());
        self.clock += 1;
        let clock = self.clock;
        let inside = format!("{full}/");
        self.dirs.retain(|d| d.0 != full && !d.0.starts_with(&inside));
        let dir = self.dirs.iter_mut().find(|d| d.0 == parent).unwrap();
        dir.2.retain(|e| e.0 != name);
        dir.1 = clock;
    }

    fn stamp(&self, dir: &str) -> Option<i128> {
        self.dirs.iter().find(|d| path::same_path(&d.0, dir)).map(|d| d.1)
    }

    fn rows(&self, tree: &mut Tree) -> Vec<Row> {
        while let Some(dir) = tree.wanted() {
            let entries = self
                .dirs
                .iter()
                .find(|d| path::same_path(&d.0, &dir))
                .map(|d| {
                    d.2.iter()
                        .map(|(name, is_dir)| Entry { name: name.clone(), is_dir: *is_dir })
                        .collect()
                })
                .unwrap_or_default();
            tree.supply(&dir, self.stamp(&dir), entries);
        }
        tree.rows()
    }

    fn rescan(&self, tree: &mut Tree) -> bool {
        let stamps: Vec<Option<i128>> = tree.watched().iter().map(|d| self.stamp(d)).collect();
        tree.rescan(&stamps)
    }
}

fn names(rows: &[Row]) -> Vec<(String, usize)> {
    rows.iter().map(|r| (r.name.clone(), r.depth)).collect()
}

#[test]
fn restored_expansion_ignores_other_workspaces() {
    let mut tmp = Disk::new("/w/restore");
    tmp.mkdir("src");
    let mut tree = Tree::new(tmp.root.clone());
    assert!(tmp.rows(&mut tree).iter().all(|r| !r.expanded));

    // One state file serves every workspace's sidebars, so a foreign
    // root must be dropped instead of resurrecting as a phantom row.
    tree.set_expanded(vec![tmp.at("src"), "/somewhere/else/src".to_string()]);
    assert_eq!(tree.expanded_paths(), vec![tmp.at("src")]);
    assert!(tmp.rows(&mut tree).iter().any(|r| r.name == "src" && r.expanded));
}

#[test]
fn dirs_first_case_insensitive_and_git_hidden() {
    let mut tmp = Disk::new("/w/order");
    tmp.mkdir("b_dir");
    tmp.mkdir("A_dir");
    tmp.mkdir(".git");
    tmp.touch("Zebra.txt");
    tmp.touch("apple.rs");
    let mut tree = Tree::new(tmp.root.clone());
    assert_eq!(
        names(&tmp.rows(&mut tree)),
        vec![
            ("A_dir".into(), 0),
            ("b_dir".into(), 0),
            ("apple.rs".into(), 0),
            ("Zebra.txt".into(), 0),
        ]
    );
}

#[test]
fn expand_and_collapse_nest_children() {
    let mut tmp = Disk::new("/w/expand");
    tmp.mkdir("src");
    tmp.touch("src/main.rs");
    tmp.touch("Cargo.toml");
    let mut tree = Tree::new(tmp.root.clone());
    tree.toggle(&tmp.at("src"));
    assert_eq!(
        names(&tmp.rows(&mut tree)),
        vec![
            ("src".into(), 0),
            ("main.rs".into(), 1),
            ("Cargo.toml".into(), 0),
        ]
    );
    assert!(tmp.rows(&mut tree)[0].expanded);
    tree.toggle(&tmp.at("src"));
    assert_eq!(
        names(&tmp.rows(&mut tree)),
        vec![("src".into(), 0), ("Cargo.toml".into(), 0)]
    );
}

#[test]
fn collapse_all_closes_every_expanded_dir() {
    let mut tmp = Disk::new("/w/collapseall");
    tmp.mkdir("a/inner");
    tmp.mkdir("b");
    let mut tree = Tree::new(tmp.root.clone());
    tree.expand(&tmp.at("a"));
    tree.expand(&tmp.at("a/inner"));
    tree.expand(&tmp.at("b"));
    assert!(tmp.rows(&mut tree).iter().any(|r| r.expanded));
    tree.collapse_all();
    assert!(tmp.rows(&mut tree).iter().all(|r| !r.expanded));
    assert_eq!(tmp.rows(&mut tree).len(), 2, "only the top level remains");
}

#[test]
fn hidden_toggle_filters_dotfiles() {
    let mut tmp = Disk::new("/w/hidden");
    tmp.touch(".env");
    tmp.touch("visible.txt");
    let mut tree = Tree::new(tmp.root.clone());
    assert_eq!(tmp.rows(&mut tree).len(), 2);
    tree.show_hidden = false;
    assert_eq!(names(&tmp.rows(&mut tree)), vec![("visible.txt".into(), 0)]);
}

#[test]
fn refresh_picks_up_new_files() {
    let mut tmp = Disk::new("/w/refresh");
    tmp.touch("one.txt");
    let mut tree = Tree::new(tmp.root.clone());
    assert_eq!(tmp.rows(&mut tree).len(), 1);
    tmp.touch("two.txt");
    assert_eq!(tmp.rows(&mut tree).len(), 1, "cached listing must not re-read disk");
    tree.refresh();
    assert_eq!(tmp.rows(&mut tree).len(), 2);
}

#[test]
fn unreadable_or_missing_dir_is_empty() {
    let tmp = Disk::new("/w/elsewhere");
    let mut tree = Tree::new("/w/aa-filetree-does-not-exist".to_string());
    assert!(tmp.rows(&mut tree).is_empty());
}

#[test]
fn rescan_picks_up_a_file_written_behind_the_tree() {
    let mut tmp = Disk::new("/w/rescan-new");
    tmp.touch("one.txt");
    let mut tree = Tree::new(tmp.root.clone());
    assert_eq!(tmp.rows(&mut tree).len(), 1);

    // The whole point: nobody pressed a key, an agent just wrote a file.
    tmp.touch("two.txt");
    assert!(tmp.rescan(&mut tree));
    assert_eq!(
        names(&tmp.rows(&mut tree)),
        vec![("one.txt".into(), 0), ("two.txt".into(), 0)]
    );
}

#[test]
fn rescan_reaches_inside_expanded_directories() {
    let mut tmp = Disk::new("/w/rescan-deep");
    tmp.mkdir("src");
    tmp.touch("src/main.rs");
    let mut tree = Tree::new(tmp.root.clone());
    tree.expand(&tmp.at("src"));
    assert_eq!(tmp.rows(&mut tree).len(), 2);

    tmp.touch("src/lib.rs");
    assert!(tmp.rescan(&mut tree));
    assert!(tmp.rows(&mut tree).iter().any(|r| r.name == "lib.rs" && r.depth == 1));
}

#[test]
fn a_still_tree_reports_no_change_and_stays_cached() {
    let mut tmp = Disk::new("/w/rescan-still");
    tmp.mkdir("src");
    tmp.touch("src/main.rs");
    let mut tree = Tree::new(tmp.root.clone());
    tree.expand(&tmp.at("src"));
    let before = tmp.rows(&mut tree);
    assert!(!tmp.rescan(&mut tree), "nothing moved, so nothing to re-read");
    assert_eq!(tmp.rows(&mut tree), before);
}

#[test]
fn writing_into_a_file_leaves_the_tree_alone() {
    let mut tmp = Disk::new("/w/rescan-write");
    tmp.touch("one.txt");
    let mut tree = Tree::new(tmp.root.clone());
    tmp.rows(&mut tree);

    // The tree shows names. A file growing is the preview's business: it
    // leaves the directory's stamp as it was.
    tmp.touch("one.txt");
    assert!(!tmp.rescan(&mut tree));
}

#[test]
fn a_deleted_entry_leaves_the_tree() {
    let mut tmp = Disk::new("/w/rescan-gone");
    tmp.mkdir("doomed");
    tmp.touch("doomed/child.txt");
    tmp.touch("kept.txt");
    let mut tree = Tree::new(tmp.root.clone());
    tree.expand(&tmp.at("doomed"));
    assert_eq!(tmp.rows(&mut tree).len(), 3);

    tmp.rm("doomed");
    assert!(tmp.rescan(&mut tree));
    assert_eq!(names(&tmp.rows(&mut tree)), vec![("kept.txt".into(), 0)]);
    // And the vanished directory stops costing a stat every tick.
    assert_eq!(tree.watched_dirs(), 1, "only the root is left to watch");
    assert!(!tmp.rescan(&mut tree), "a deleted directory must not keep flapping");
}

#[test]
fn folding_a_directory_stops_it_being_watched() {
    let mut tmp = Disk::new("/w/rescan-fold");
    tmp.mkdir("a/inner");
    tmp.mkdir("b");
    let mut tree = Tree::new(tmp.root.clone());
    tree.expand(&tmp.at("a"));
    tree.expand(&tmp.at("a/inner"));
    tmp.rows(&mut tree);
    assert_eq!(tree.watched_dirs(), 3, "root, a, a/inner");

    tree.collapse(&tmp.at("a"));
    tmp.rows(&mut tree);
    assert_eq!(tree.watched_dirs(), 1, "only the root is still on screen");
}

#[test]
fn root_name_uses_final_component() {
    let tree = Tree::new("/tmp/aa-filetree-7-rootname".to_string());
    assert!(tree.root_name().starts_with("aa-filetree-"));
    assert_eq!(tree.root_path(), "/tmp/aa-filetree-7-rootname");
    assert_eq!(Tree::new("/".to_string()).root_name(), "/");
}

#[test]
fn toggling_twice_restores_the_tree() {
    let mut tmp = Disk::new("/w/twice");
    tmp.mkdir("a");
    tmp.touch("a/x");
    let mut tree = Tree::new(tmp.root.clone());
    let before = tmp.rows(&mut tree);
    tree.toggle(&tmp.at("a"));
    assert!(tree.is_expanded(&tmp.at("a")));
    assert_ne!(tmp.rows(&mut tree), before);
    tree.toggle(&tmp.at("a"));
    assert!(!tree.is_expanded(&tmp.at("a")));
    assert_eq!(tmp.rows(&mut tree), before);
}

#[test]
fn asking_again_reads_nothing() {
    let mut tmp = Disk::new("/w/again");
    tmp.mkdir("a/b");
    let mut tree = Tree::new(tmp.root.clone());
    tree.expand(&tmp.at("a"));
    assert_eq!(tree.wanted().as_deref(), Some("/w/again"));
    let before = tmp.rows(&mut tree);
    assert_eq!(tree.wanted(), None);
    assert_eq!(tree.rows(), before);
    assert_eq!(tree.watched_dirs(), 2);
}

#[test]
fn only_expanded_directories_are_wanted() {
    let mut tmp = Disk::new("/w/wanted");
    tmp.mkdir("a/b");
    let mut tree = Tree::new(tmp.root.clone());
    tmp.rows(&mut tree);
    assert_eq!(tree.wanted(), None);
    tree.expand(&tmp.at("a"));
    assert_eq!(tree.wanted(), Some(tmp.at("a")));
    // Expanded, but not on the way to any row.
    tree.expand(&tmp.at("nowhere"));
    tree.collapse(&tmp.at("a"));
    assert_eq!(tree.wanted(), None);
}

#[test]
fn every_row_is_one_component_deeper_for_each_level() {
    let mut tmp = Disk::new("/w/deep");
    tmp.mkdir("a/b/c");
    tmp.touch("a/b/c/d");
    let mut tree = Tree::new(tmp.root.clone());
    for rel in ["a", "a/b", "a/b/c"] {
        tree.expand(&tmp.at(rel));
    }
    let rows = tmp.rows(&mut tree);
    assert_eq!(rows.len(), 4);
    for row in &rows {
        assert!(path::starts_with(&row.path, &tmp.root));
        assert_eq!(path::parts_of(&row.path).len(), path::parts_of(&tmp.root).len() + row.depth + 1);
    }
}

#[test]
fn paths_are_compared_by_their_components() {
    let mut tree = Tree::new("/w".to_string());
    tree.expand("/w/a/");
    assert!(tree.is_expanded("/w//a"));
    assert!(tree.is_expanded("/w/./a"));
    assert!(!tree.is_expanded("w/a"));
    tree.expand("/w/a");
    assert_eq!(tree.expanded_paths().len(), 1);
}

#[test]
fn expanded_paths_come_in_path_order() {
    let mut tree = Tree::new("/w".to_string());
    for p in ["/w/b", "/w/a/z", "/w/a-b", "/w/a"] {
        tree.expand(p);
    }
    assert_eq!(tree.expanded_paths(), vec!["/w/a", "/w/a/z", "/w/a-b", "/w/b"]);
    let mut expected: Vec<std::path::PathBuf> =
        tree.expanded_paths().iter().map(std::path::PathBuf::from).collect();
    let given = expected.clone();
    expected.sort();
    assert_eq!(given, expected);
}

#[test]
fn git_is_never_visible_and_dotfiles_only_when_asked() {
    assert!(!visible(".git", true) && !visible(".git", false));
    assert!(visible(".gitignore", true) && !visible(".gitignore", false));
    assert!(visible("a.git", false) && visible("git", false));
}

#[test]
fn entries_sort_the_way_an_explorer_lists_them() {
    let made = [
        ("b", false), ("a", false), ("B", false), ("A", false), ("Ä", true), ("z", true), ("Z", true),
        ("İ", false), ("ß", false), ("SS", false), ("a", true), ("10", false), ("9", false),
    ];
    let mut entries: Vec<Entry> =
        made.iter().map(|(n, d)| Entry { name: n.to_string(), is_dir: *d }).collect();
    let mut expected: Vec<(String, bool)> = made.iter().map(|(n, d)| (n.to_string(), *d)).collect();
    expected.sort_by(|a, b| {
        b.1.cmp(&a.1)
            .then_with(|| a.0.to_lowercase().cmp(&b.0.to_lowercase()))
            .then_with(|| a.0.cmp(&b.0))
    });
    sort_entries(&mut entries);
    let got: Vec<(String, bool)> = entries.into_iter().map(|e| (e.name, e.is_dir)).collect();
    assert_eq!(got, expected);
}

#[test]
fn what_is_watched_is_the_root_and_every_open_row() {
    let mut tmp = Disk::new("/w/watch");
    tmp.mkdir("a/inner");
    tmp.mkdir("b");
    tmp.mkdir(".c");
    let mut tree = Tree::new(tmp.at(""));
    for rel in ["a", "a/inner", "b", ".c", "gone"] {
        tree.expand(&tmp.at(rel));
    }
    for hidden in [true, false] {
        tree.show_hidden = hidden;
        let rows = tmp.rows(&mut tree);
        let open = rows.iter().filter(|r| r.expanded).count();
        assert_eq!(open, if hidden { 4 } else { 3 });
        assert_eq!(tree.watched_dirs(), 1 + open);
    }
}

#[test]
fn hiding_dotfiles_takes_open_directories_with_them() {
    let mut tmp = Disk::new("/w/.dots");
    tmp.mkdir("a/.b/c");
    tmp.mkdir(".d/e");
    tmp.mkdir(".git/x");
    tmp.touch("a/f");
    tmp.touch(".g");
    let mut tree = Tree::new(tmp.at(""));
    for rel in ["a", "a/.b", ".d", ".git"] {
        tree.expand(&tmp.at(rel));
    }
    let all = tmp.rows(&mut tree);
    assert!(all.iter().all(|r| r.name != ".git"));
    tree.show_hidden = false;
    let some = tmp.rows(&mut tree);
    let root = tmp.at("");
    let kept: Vec<Row> = all
        .into_iter()
        .filter(|r| !r.path[root.len()..].split('/').any(|part| part.starts_with('.')))
        .collect();
    assert_eq!(some, kept);
    assert_eq!(names(&some), vec![("a".to_string(), 0), ("f".to_string(), 1)]);
}

#[test]
fn a_rescan_drops_as_many_as_have_moved() {
    let mut tmp = Disk::new("/w/drops");
    for rel in ["a", "b", "c"] {
        tmp.mkdir(rel);
    }
    let mut tree = Tree::new(tmp.at(""));
    for rel in ["a", "b", "c"] {
        tree.expand(&tmp.at(rel));
    }
    tmp.rows(&mut tree);
    assert_eq!(tree.watched_dirs(), 4);
    tmp.touch("a/x");
    tmp.touch("c/y");
    assert!(tmp.rescan(&mut tree));
    assert_eq!(tree.watched_dirs(), 2);
    // The disk is still, so a second look finds nothing.
    assert!(!tmp.rescan(&mut tree));
    assert_eq!(tree.watched_dirs(), 2);
    assert_eq!(tmp.rows(&mut tree).len(), 5);
    assert_eq!(tree.watched_dirs(), 4);
}

#[test]
fn the_root_stays_where_it_is() {
    let mut tmp = Disk::new("/w/still");
    tmp.mkdir("a/.b");
    tmp.touch(".c");
    let mut tree = Tree::new(tmp.at("a"));
    for show in [false, true, true, false] {
        tree.toggle(&tmp.at("a/.b"));
        let rows = tmp.rows(&mut tree);
        let watched = tree.watched();
        let open = tree.expanded_paths();
        tree.set_show_hidden(show);
        assert_eq!(tree.show_hidden, show);
        assert_eq!(tree.watched(), watched);
        assert_eq!(tree.expanded_paths(), open);
        assert_eq!(tmp.rows(&mut tree).len(), if show { 1 } else { 0 });
        tree.set_show_hidden(rows.len() == 1);
        assert_eq!(tmp.rows(&mut tree).len(), rows.len());
        tmp.rescan(&mut tree);
        tree.set_show_hidden(show);
        assert_eq!(tree.root_path(), tmp.at("a"));
    }
    tree.set_expanded(vec![tmp.at("elsewhere"), tmp.at("a/.b")]);
    tree.collapse(&tmp.at("a/.b"));
    tree.collapse_all();
    tree.refresh();
    assert_eq!(tree.root_path(), tmp.at("a"));
}
