//! Filesystem tree model: which directories are expanded, and the flat list of
//! visible rows. Listings are cached so redraws never touch the disk, and
//! `rescan` drops the ones the disk has moved on from.
//!
//! The tree never reads the disk itself. `wanted` names the next directory the
//! rows need and `supply` takes its listing; once nothing is wanted, `rows` is
//! what to show.
use crate::entry;
use crate::entry::{sort_entries, Entry, EntryView};
use crate::order;
use crate::path;
use crate::text;
use vstd::prelude::*;

verus! {

/// One visible line of the tree, in render order.
#[derive(Debug, PartialEq, Eq)]
pub struct Row {
    pub path: String,
    pub name: String,
    pub is_dir: bool,
    pub depth: usize,
    pub expanded: bool,
}

/// What a row says.
pub struct RowView {
    pub path: Seq<char>,
    pub name: Seq<char>,
    pub is_dir: bool,
    pub depth: nat,
    pub expanded: bool,
}

impl View for Row {
    type V = RowView;

    open spec fn view(&self) -> RowView {
        RowView {
            path: self.path@,
            name: self.name@,
            is_dir: self.is_dir,
            depth: self.depth as nat,
            expanded: self.expanded,
        }
    }
}

impl Clone for Row {
    fn clone(&self) -> (copy: Row)
        ensures
            copy@ == self@,
    {
        Row {
            path: self.path.clone(),
            name: self.name.clone(),
            is_dir: self.is_dir,
            depth: self.depth,
            expanded: self.expanded,
        }
    }
}

/// A cached directory listing, and the directory's modification time as it
/// stood before the listing was read: a change that lands mid-read then leaves
/// the stamp looking older than the directory and is caught on the next scan.
struct Listing {
    stamp: Option<i128>,
    entries: Vec<Entry>,
}

/// What a listing says.
pub struct ListingView {
    pub stamp: Option<i128>,
    pub entries: Seq<EntryView>,
}

pub struct Tree {
    root: String,
    expanded: Vec<String>,
    dirs: Vec<String>,
    listings: Vec<Listing>,
    pub show_hidden: bool,
}

/// The components of a path, which is what makes it the path it is.
pub type Place = Seq<Seq<char>>;

/// What a tree is: its root, the directories that are expanded, the listings
/// that are cached, and whether dotfiles show.
#[verifier::ext_equal]
pub struct TreeView {
    pub root: Seq<char>,
    pub expanded: Set<Place>,
    pub cache: Map<Place, ListingView>,
    pub show_hidden: bool,
}

// ---------------------------------------------------------------------------
// Models
// ---------------------------------------------------------------------------

/// What each row of a list says.
pub open spec fn rows_view(list: Seq<Row>) -> Seq<RowView> {
    Seq::new(list.len(), |i: int| list[i]@)
}

/// The place of each path of a list.
pub open spec fn places(list: Seq<String>) -> Seq<Place> {
    Seq::new(list.len(), |i: int| path::parts(list[i]@))
}

/// `.git` is always hidden; other dotfiles only when `show_hidden` is off.
pub open spec fn is_visible(name: Seq<char>, show_hidden: bool) -> bool {
    name != ".git"@ && (show_hidden || !(name.len() > 0 && name[0] == '.'))
}

/// Whether every entry of a listing is named as a directory's entries are.
pub open spec fn well_named(list: Seq<EntryView>) -> bool {
    forall|i: int| 0 <= i < list.len() ==> path::is_entry_name(#[trigger] list[i].name)
}

/// The entries cached for a directory.
pub open spec fn entries_of(t: TreeView, dir: Seq<char>) -> Seq<EntryView> {
    if t.cache.contains_key(path::parts(dir)) {
        t.cache[path::parts(dir)].entries
    } else {
        Seq::empty()
    }
}

/// Whether an entry of `dir` is a directory that is expanded.
pub open spec fn is_open(t: TreeView, dir: Seq<char>, e: EntryView) -> bool {
    e.is_dir && t.expanded.contains(path::parts(path::joined_path(dir, e.name)))
}

/// The row of an entry of `dir`.
pub open spec fn row_of(t: TreeView, dir: Seq<char>, depth: nat, e: EntryView) -> RowView {
    RowView {
        path: path::joined_path(dir, e.name),
        name: e.name,
        is_dir: e.is_dir,
        depth,
        expanded: is_open(t, dir, e),
    }
}

/// How many expanded places lie deeper than `dir`: an upper bound on how far a
/// walk can descend from there.
pub open spec fn room(t: TreeView, dir: Seq<char>) -> nat {
    t.expanded.filter(|p: Place| p.len() > path::parts(dir).len()).len()
}

pub proof fn lemma_room_shrinks(t: TreeView, dir: Seq<char>, name: Seq<char>)
    requires
        t.expanded.finite(),
        path::is_entry_name(name),
        t.expanded.contains(path::parts(path::joined_path(dir, name))),
    ensures
        room(t, path::joined_path(dir, name)) < room(t, dir),
{
    let child = path::joined_path(dir, name);
    path::joining_adds_one_component(dir, name);
    let outer = t.expanded.filter(|p: Place| p.len() > path::parts(dir).len());
    let inner = t.expanded.filter(|p: Place| p.len() > path::parts(child).len());
    assert(outer.contains(path::parts(child)));
    assert(!inner.contains(path::parts(child)));
    assert(inner.subset_of(outer.remove(path::parts(child))));
    vstd::set_lib::lemma_len_subset(inner, outer.remove(path::parts(child)));
}

/// The rows of a directory: its visible entries in order, each expanded
/// directory followed by its own rows one level deeper.
pub open spec fn walk(t: TreeView, dir: Seq<char>, depth: nat) -> Seq<RowView>
    decreases room(t, dir), 1nat, 0nat,
    when t.expanded.finite()
{
    walk_entries(t, dir, depth, entries_of(t, dir))
}

pub open spec fn walk_entries(
    t: TreeView,
    dir: Seq<char>,
    depth: nat,
    list: Seq<EntryView>,
) -> Seq<RowView>
    decreases room(t, dir), 0nat, list.len(),
    when t.expanded.finite()
{
    if list.len() == 0 {
        Seq::empty()
    } else {
        let e = list.first();
        let rest = walk_entries(t, dir, depth, list.drop_first());
        if !is_visible(e.name, t.show_hidden) {
            rest
        } else if is_open(t, dir, e) && path::is_entry_name(e.name) {
            proof {
                lemma_room_shrinks(t, dir, e.name);
            }
            seq![row_of(t, dir, depth, e)] + walk(t, path::joined_path(dir, e.name), depth + 1)
                + rest
        } else {
            seq![row_of(t, dir, depth, e)] + rest
        }
    }
}

/// The places of the directories whose listings a walk reads.
pub open spec fn walked(t: TreeView, dir: Seq<char>) -> Set<Place>
    decreases room(t, dir), 1nat, 0nat,
    when t.expanded.finite()
{
    walked_entries(t, dir, entries_of(t, dir)).insert(path::parts(dir))
}

pub open spec fn walked_entries(t: TreeView, dir: Seq<char>, list: Seq<EntryView>) -> Set<Place>
    decreases room(t, dir), 0nat, list.len(),
    when t.expanded.finite()
{
    if list.len() == 0 {
        Set::empty()
    } else {
        let e = list.first();
        let rest = walked_entries(t, dir, list.drop_first());
        if is_visible(e.name, t.show_hidden) && is_open(t, dir, e) && path::is_entry_name(e.name) {
            proof {
                lemma_room_shrinks(t, dir, e.name);
            }
            walked(t, path::joined_path(dir, e.name)).union(rest)
        } else {
            rest
        }
    }
}

/// The first directory that a walk comes to without a cached listing.
pub open spec fn first_missing(t: TreeView, dir: Seq<char>) -> Option<Seq<char>>
    decreases room(t, dir), 1nat, 0nat,
    when t.expanded.finite()
{
    if !t.cache.contains_key(path::parts(dir)) {
        Some(dir)
    } else {
        first_missing_entries(t, dir, entries_of(t, dir))
    }
}

pub open spec fn first_missing_entries(
    t: TreeView,
    dir: Seq<char>,
    list: Seq<EntryView>,
) -> Option<Seq<char>>
    decreases room(t, dir), 0nat, list.len(),
    when t.expanded.finite()
{
    if list.len() == 0 {
        None
    } else {
        let e = list.first();
        let rest = first_missing_entries(t, dir, list.drop_first());
        if is_visible(e.name, t.show_hidden) && is_open(t, dir, e) && path::is_entry_name(e.name) {
            proof {
                lemma_room_shrinks(t, dir, e.name);
            }
            let inner = first_missing(t, path::joined_path(dir, e.name));
            if inner is Some {
                inner
            } else {
                rest
            }
        } else {
            rest
        }
    }
}

/// Whether nothing that the rows need is missing from the cache.
pub open spec fn is_complete(t: TreeView) -> bool {
    first_missing(t, t.root) is None
}

/// The tree with one directory folded if it was expanded, and expanded if it
/// was not.
pub open spec fn toggled(t: TreeView, path: Seq<char>) -> TreeView {
    TreeView {
        expanded: if t.expanded.contains(path::parts(path)) {
            t.expanded.remove(path::parts(path))
        } else {
            t.expanded.insert(path::parts(path))
        },
        ..t
    }
}

/// The tree with only the listings that its rows come from: what is left once
/// the rows have been walked.
pub open spec fn trimmed(t: TreeView) -> TreeView {
    TreeView { cache: t.cache.restrict(walked(t, t.root)), ..t }
}

/// The place of each of some paths.
pub open spec fn places_of(dirs: Seq<Seq<char>>) -> Seq<Place> {
    Seq::new(dirs.len(), |i: int| path::parts(dirs[i]))
}

/// The modification times of some directories, given in the same order.
pub open spec fn stamped(dirs: Seq<Seq<char>>, stamps: Seq<Option<i128>>) -> Map<
    Place,
    Option<i128>,
> {
    Map::new(
        |p: Place| places_of(dirs).contains(p),
        |p: Place| stamps[places_of(dirs).index_of(p)],
    )
}

/// The cached directories that the disk has moved on from: those whose stamp is
/// not what it was when their listing was read.
pub open spec fn moved_on(t: TreeView, disk: Map<Place, Option<i128>>) -> Set<Place> {
    t.cache.dom().filter(|p: Place| disk[p] != t.cache[p].stamp)
}

/// The tree without the listings that the disk has moved on from.
pub open spec fn rescanned(t: TreeView, disk: Map<Place, Option<i128>>) -> TreeView {
    TreeView { cache: t.cache.remove_keys(moved_on(t, disk)), ..t }
}

/// The places of those paths that lie inside a root.
pub open spec fn places_under(root: Seq<char>, paths: Seq<String>) -> Set<Place> {
    Set::new(
        |p: Place|
            exists|i: int|
                0 <= i < paths.len() && p == path::parts((#[trigger] paths[i])@) && path::is_under(
                    paths[i]@,
                    root,
                ),
    )
}

/// Something that is done to a tree.
pub enum Change {
    /// The rows are walked.
    Walk,
    /// All listings are dropped.
    Refresh,
    /// The listings that the disk has moved on from are dropped.
    Rescan(Map<Place, Option<i128>>),
    /// A directory's listing is taken.
    Supply(Place, ListingView),
    /// Another set of directories is expanded.
    Restore(Set<Place>),
    Expand(Seq<char>),
    Collapse(Seq<char>),
    CollapseAll,
    Toggle(Seq<char>),
    /// Dotfiles show, or not.
    ShowHidden(bool),
}

/// What a tree is once something has been done to it.
pub open spec fn changed(t: TreeView, change: Change) -> TreeView {
    match change {
        Change::Walk => trimmed(t),
        Change::Refresh => TreeView { cache: Map::empty(), ..t },
        Change::Rescan(disk) => rescanned(t, disk),
        Change::Supply(place, listing) => TreeView { cache: t.cache.insert(place, listing), ..t },
        Change::Restore(expanded) => TreeView { expanded, cache: Map::empty(), ..t },
        Change::Expand(path) => TreeView { expanded: t.expanded.insert(path::parts(path)), ..t },
        Change::Collapse(path) => TreeView { expanded: t.expanded.remove(path::parts(path)), ..t },
        Change::CollapseAll => TreeView { expanded: Set::empty(), ..t },
        Change::Toggle(path) => toggled(t, path),
        Change::ShowHidden(show_hidden) => TreeView { show_hidden, ..t },
    }
}

// ---------------------------------------------------------------------------
// The tree
// ---------------------------------------------------------------------------

spec fn listing_view(l: Listing) -> ListingView {
    ListingView { stamp: l.stamp, entries: entry::entries(l.entries@) }
}

spec fn cache_view(dirs: Seq<String>, listings: Seq<Listing>) -> Map<Place, ListingView> {
    Map::new(
        |p: Place| places(dirs).contains(p),
        |p: Place| listing_view(listings[places(dirs).index_of(p)]),
    )
}

spec fn ascending(list: Seq<Place>) -> bool {
    forall|i: int, j: int|
        0 <= i < j < list.len() ==> order::parts_before(#[trigger] list[i], #[trigger] list[j])
}

spec fn listing_ok(l: Listing) -> bool {
    &&& well_named(entry::entries(l.entries@))
    &&& entry::in_order(entry::entries(l.entries@))
}

impl View for Tree {
    type V = TreeView;

    closed spec fn view(&self) -> TreeView {
        TreeView {
            root: self.root@,
            expanded: places(self.expanded@).to_set(),
            cache: cache_view(self.dirs@, self.listings@),
            show_hidden: self.show_hidden,
        }
    }
}

/// What a rescan drops and what it keeps add up to what there was.
pub proof fn lemma_rescan_counts(t: TreeView, disk: Map<Place, Option<i128>>)
    requires
        t.cache.dom().finite(),
    ensures
        moved_on(t, disk).finite(),
        rescanned(t, disk).cache.dom().finite(),
        rescanned(t, disk).cache.dom().len() + moved_on(t, disk).len() == t.cache.dom().len(),
{
    let gone = moved_on(t, disk);
    let kept = rescanned(t, disk).cache.dom();
    vstd::set_lib::lemma_len_subset(gone, t.cache.dom());
    vstd::set_lib::lemma_len_subset(kept, t.cache.dom());
    assert(kept.disjoint(gone));
    vstd::set_lib::lemma_set_disjoint_lens(kept, gone);
    assert(kept.union(gone) =~= t.cache.dom());
}

proof fn lemma_ascending_distinct(list: Seq<Place>)
    requires
        ascending(list),
    ensures
        list.no_duplicates(),
{
    assert forall|i: int, j: int| 0 <= i < list.len() && 0 <= j < list.len() && i != j implies list[i]
        != list[j] by {
        order::lemma_parts_irreflexive(list[i]);
        if i < j {
            assert(order::parts_before(list[i], list[j]));
        } else {
            assert(order::parts_before(list[j], list[i]));
        }
    }
}

/// The index of a path in a list of paths.
fn find(list: &Vec<String>, path: &str) -> (at: Option<usize>)
    ensures
        match at {
            Some(i) => i < list@.len() && places(list@)[i as int] == path::parts(path@),
            None => !places(list@).contains(path::parts(path@)),
        },
{
    let mut i: usize = 0;
    while i < list.len()
        invariant
            i <= list@.len(),
            forall|k: int| 0 <= k < i ==> places(list@)[k] != path::parts(path@),
        decreases list@.len() - i,
    {
        if path::same_path(list[i].as_str(), path) {
            return Some(i);
        }
        i += 1;
    }
    None
}

impl Tree {
    /// The representation is sound: expanded paths are kept in order and once
    /// each, each directory is cached at most once, and every cached listing is
    /// in order and holds nothing but entry names.
    pub closed spec fn wf(&self) -> bool {
        &&& ascending(places(self.expanded@))
        &&& self.dirs@.len() == self.listings@.len()
        &&& places(self.dirs@).no_duplicates()
        &&& forall|i: int| 0 <= i < self.listings@.len() ==> listing_ok(#[trigger] self.listings@[i])
    }

    /// The cached directories, in the order `watched` gives them.
    pub closed spec fn watch_list(&self) -> Seq<Seq<char>> {
        text::texts(self.dirs@)
    }

    /// What holds of the view of every sound tree.
    pub proof fn lemma_view(&self)
        requires
            self.wf(),
        ensures
            self@.expanded.finite(),
            self@.cache.dom().finite(),
            self@.cache.dom().len() == self.watch_list().len(),
            places_of(self.watch_list()).no_duplicates(),
            places_of(self.watch_list()).to_set() == self@.cache.dom(),
            forall|p: Place|
                #[trigger]
                self@.cache.contains_key(p) ==> well_named(self@.cache[p].entries)
                    && entry::in_order(self@.cache[p].entries),
            forall|i: int|
                0 <= i < self.watch_list().len() ==> self@.cache.contains_key(
                    path::parts(#[trigger] self.watch_list()[i]),
                ),
    {
        let e = places(self.expanded@);
        let d = places(self.dirs@);
        vstd::seq_lib::seq_to_set_is_finite(e);
        vstd::seq_lib::seq_to_set_is_finite(d);
        d.unique_seq_to_set();
        assert(self@.cache.dom() =~= d.to_set());
        assert(places_of(self.watch_list()) =~= d);
        assert forall|p: Place| #[trigger] self@.cache.contains_key(p) implies well_named(
            self@.cache[p].entries,
        ) && entry::in_order(self@.cache[p].entries) by {
            let i = d.index_of(p);
            assert(d.contains(p));
            assert(listing_ok(self.listings@[i]));
        }
        assert forall|i: int| 0 <= i < self.watch_list().len() implies self@.cache.contains_key(
            path::parts(#[trigger] self.watch_list()[i]),
        ) by {
            assert(d[i] == path::parts(self.watch_list()[i]));
            assert(d.contains(d[i]));
        }
    }

    /// A tree rooted at `root`, with nothing expanded and nothing cached.
    pub fn new(root: String) -> (tree: Tree)
        ensures
            tree.wf(),
            tree@ == (TreeView {
                root: root@,
                expanded: Set::empty(),
                cache: Map::empty(),
                show_hidden: true,
            }),
    {
        let tree = Tree {
            root,
            expanded: Vec::new(),
            dirs: Vec::new(),
            listings: Vec::new(),
            show_hidden: true,
        };
        proof {
            assert(tree@.expanded =~= Set::empty());
            assert(tree@.cache =~= Map::empty());
        }
        tree
    }

    /// The directory the tree is rooted at.
    pub fn root_path(&self) -> (root: String)
        ensures
            root@ == self@.root,
    {
        self.root.clone()
    }

    /// Display name for the header: the folder's own name, or the full path for
    /// roots that have no final component.
    pub fn root_name(&self) -> (name: String)
        ensures
            name@ == path::title(self@.root),
    {
        path::title_of(self.root.as_str())
    }

    /// Drop all cached listings; the next rows re-read the disk.
    pub fn refresh(&mut self)
        requires
            old(self).wf(),
        ensures
            final(self).wf(),
            final(self)@ == changed(old(self)@, Change::Refresh),
    {
        self.dirs = Vec::new();
        self.listings = Vec::new();
        assert(self@.cache =~= Map::empty());
    }

    /// Show dotfiles, or hide them. Nothing else changes.
    pub fn set_show_hidden(&mut self, show: bool)
        requires
            old(self).wf(),
        ensures
            final(self).wf(),
            final(self)@ == changed(old(self)@, Change::ShowHidden(show)),
            final(self).watch_list() == old(self).watch_list(),
    {
        self.show_hidden = show;
    }

    /// How many directories `rescan` has to look at: the visible ones.
    pub fn watched_dirs(&self) -> (n: usize)
        requires
            self.wf(),
        ensures
            n == self@.cache.dom().len(),
            n == self.watch_list().len(),
    {
        proof {
            self.lemma_view();
        }
        self.dirs.len()
    }

    /// The directories `rescan` has to look at.
    pub fn watched(&self) -> (dirs: Vec<String>)
        requires
            self.wf(),
        ensures
            text::texts(dirs@) == self.watch_list(),
    {
        let mut out: Vec<String> = Vec::new();
        let mut i: usize = 0;
        while i < self.dirs.len()
            invariant
                i <= self.dirs@.len(),
                text::texts(out@) == text::texts(self.dirs@).take(i as int),
            decreases self.dirs@.len() - i,
        {
            let ghost before = text::texts(out@);
            out.push(self.dirs[i].clone());
            i += 1;
            assert(text::texts(out@) =~= before.push(self.dirs@[i - 1]@));
            assert(text::texts(out@) =~= text::texts(self.dirs@).take(i as int));
        }
        assert(text::texts(out@) =~= text::texts(self.dirs@));
        out
    }

    pub fn is_expanded(&self, path: &str) -> (yes: bool)
        ensures
            yes == self@.expanded.contains(path::parts(path@)),
    {
        let at = find(&self.expanded, path);
        proof {
            if let Some(i) = at {
                assert(places(self.expanded@).contains(places(self.expanded@)[i as int]));
            }
        }
        at.is_some()
    }

    /// The expanded set, in path order.
    pub fn expanded_paths(&self) -> (out: Vec<String>)
        requires
            self.wf(),
        ensures
            places(out@).to_set() == self@.expanded,
            forall|i: int, j: int|
                0 <= i < j < out@.len() ==> order::parts_before(
                    #[trigger] places(out@)[i],
                    #[trigger] places(out@)[j],
                ),
    {
        let mut out: Vec<String> = Vec::new();
        let mut i: usize = 0;
        while i < self.expanded.len()
            invariant
                i <= self.expanded@.len(),
                out@.len() == i,
                forall|k: int| 0 <= k < i ==> (#[trigger] out@[k])@ == self.expanded@[k]@,
            decreases self.expanded@.len() - i,
        {
            out.push(self.expanded[i].clone());
            i += 1;
        }
        assert(places(out@) =~= places(self.expanded@));
        out
    }

    pub fn expand(&mut self, path: &str)
        requires
            old(self).wf(),
        ensures
            final(self).wf(),
            final(self)@ == changed(old(self)@, Change::Expand(path@)),
    {
        let ghost p = path::parts(path@);
        let ghost before = places(self.expanded@);
        let mut i: usize = 0;
        while i < self.expanded.len() && order::path_before(self.expanded[i].as_str(), path)
            invariant
                i <= self.expanded@.len(),
                before == places(self.expanded@),
                p == path::parts(path@),
                forall|k: int| 0 <= k < i ==> order::parts_before(#[trigger] before[k], p),
            decreases self.expanded@.len() - i,
        {
            i += 1;
        }
        if i < self.expanded.len() && path::same_path(self.expanded[i].as_str(), path) {
            proof {
                assert(before[i as int] == p);
                assert(before.contains(p));
                assert(self@.expanded.insert(p) =~= self@.expanded);
            }
            return;
        }
        self.expanded.insert(i, path.to_owned());
        proof {
            let after = places(self.expanded@);
            assert(after =~= before.insert(i as int, p));
            if i < before.len() {
                order::lemma_parts_total(before[i as int], p);
            }
            assert forall|a: int, b: int| 0 <= a < b < after.len() implies order::parts_before(
                #[trigger] after[a],
                #[trigger] after[b],
            ) by {
                if a == i && b > i + 1 {
                    assert(after[b] == before[b - 1]);
                    assert(order::parts_before(before[i as int], before[b - 1]));
                    order::lemma_parts_transitive(p, before[i as int], before[b - 1]);
                } else if a < i && b > i {
                    assert(order::parts_before(before[a], before[b - 1]));
                } else if a > i {
                    assert(order::parts_before(before[a - 1], before[b - 1]));
                }
            }
            assert forall|q: Place| after.contains(q) == (before.contains(q) || q == p) by {
                if before.contains(q) {
                    let k = choose|k: int| 0 <= k < before.len() && before[k] == q;
                    if k < i {
                        assert(after[k] == q);
                    } else {
                        assert(after[k + 1] == q);
                    }
                }
                assert(after[i as int] == p);
            }
            assert(after.to_set() =~= before.to_set().insert(p));
        }
    }

    pub fn collapse(&mut self, path: &str)
        requires
            old(self).wf(),
        ensures
            final(self).wf(),
            final(self)@ == changed(old(self)@, Change::Collapse(path@)),
    {
        let ghost p = path::parts(path@);
        let ghost before = places(self.expanded@);
        match find(&self.expanded, path) {
            None => {
                assert(before.to_set().remove(p) =~= before.to_set());
            },
            Some(i) => {
                self.expanded.remove(i);
                proof {
                    let after = places(self.expanded@);
                    assert(after =~= before.remove(i as int));
                    lemma_ascending_distinct(before);
                    assert forall|a: int, b: int|
                        0 <= a < b < after.len() implies order::parts_before(
                        #[trigger] after[a],
                        #[trigger] after[b],
                    ) by {
                        let x = if a < i {
                            a
                        } else {
                            a + 1
                        };
                        let y = if b < i {
                            b
                        } else {
                            b + 1
                        };
                        assert(order::parts_before(before[x], before[y]));
                    }
                    assert forall|q: Place| after.contains(q) == (before.contains(q) && q != p) by {
                        if before.contains(q) && q != p {
                            let k = choose|k: int| 0 <= k < before.len() && before[k] == q;
                            if k < i {
                                assert(after[k] == q);
                            } else {
                                assert(after[k - 1] == q);
                            }
                        }
                        if after.contains(q) {
                            let k = choose|k: int| 0 <= k < after.len() && after[k] == q;
                            if k < i {
                                assert(before[k] == q);
                            } else {
                                assert(before[k + 1] == q);
                            }
                        }
                    }
                    assert(after.to_set() =~= before.to_set().remove(p));
                }
            },
        }
    }

    /// Collapse every expanded directory.
    pub fn collapse_all(&mut self)
        requires
            old(self).wf(),
        ensures
            final(self).wf(),
            final(self)@ == changed(old(self)@, Change::CollapseAll),
    {
        self.expanded = Vec::new();
        assert(self@.expanded =~= Set::empty());
    }

    pub fn toggle(&mut self, path: &str)
        requires
            old(self).wf(),
        ensures
            final(self).wf(),
            final(self)@ == changed(old(self)@, Change::Toggle(path@)),
    {
        if self.is_expanded(path) {
            self.collapse(path);
        } else {
            self.expand(path);
        }
    }

    /// Restore a persisted expanded set. Paths outside this tree's root are
    /// dropped, and so are all cached listings.
    pub fn set_expanded(&mut self, paths: Vec<String>)
        requires
            old(self).wf(),
        ensures
            final(self).wf(),
            final(self)@ == changed(
                old(self)@,
                Change::Restore(places_under(old(self)@.root, paths@)),
            ),
    {
        self.refresh();
        self.collapse_all();
        let mut i: usize = 0;
        while i < paths.len()
            invariant
                i <= paths@.len(),
                self.wf(),
                self@ == (TreeView {
                    expanded: self@.expanded,
                    cache: Map::empty(),
                    ..old(self)@
                }),
                forall|p: Place| #[trigger]
                    self@.expanded.contains(p) == exists|k: int|
                        0 <= k < i && p == path::parts((#[trigger] paths@[k])@) && path::is_under(
                            paths@[k]@,
                            old(self)@.root,
                        ),
            decreases paths@.len() - i,
        {
            let ghost before = self@.expanded;
            let inside = path::starts_with(paths[i].as_str(), self.root.as_str());
            if inside {
                self.expand(paths[i].as_str());
            }
            proof {
                let added = path::parts(paths@[i as int]@);
                assert forall|p: Place| #[trigger]
                    self@.expanded.contains(p) == exists|k: int|
                        0 <= k < i + 1 && p == path::parts((#[trigger] paths@[k])@)
                            && path::is_under(paths@[k]@, old(self)@.root) by {
                    if before.contains(p) {
                        let k = choose|k: int|
                            0 <= k < i && p == path::parts((#[trigger] paths@[k])@)
                                && path::is_under(paths@[k]@, old(self)@.root);
                        assert(0 <= k < i + 1);
                    }
                    if inside && p == added {
                        assert(path::parts(paths@[i as int]@) == p);
                    }
                }
            }
            i += 1;
        }
        proof {
            assert(self@.expanded =~= Set::new(
                |p: Place|
                    exists|i: int|
                        0 <= i < paths@.len() && p == path::parts((#[trigger] paths@[i])@)
                            && path::is_under(paths@[i]@, old(self)@.root),
            ));
        }
    }

    /// Take the listing of a directory that was wanted: its modification time as
    /// it stood before the read, and what the read found.
    pub fn supply(&mut self, dir: &str, stamp: Option<i128>, entries: Vec<Entry>)
        requires
            old(self).wf(),
            !old(self)@.cache.contains_key(path::parts(dir@)),
            well_named(entry::entries(entries@)),
        ensures
            final(self).wf(),
            final(self)@ == changed(
                old(self)@,
                Change::Supply(path::parts(dir@), final(self)@.cache[path::parts(dir@)]),
            ),
            final(self)@.cache[path::parts(dir@)].stamp == stamp,
            entry::in_order(final(self)@.cache[path::parts(dir@)].entries),
            final(self)@.cache[path::parts(dir@)].entries.to_multiset() == entry::entries(
                entries@,
            ).to_multiset(),
    {
        let ghost p = path::parts(dir@);
        let ghost dirs = places(self.dirs@);
        let ghost listings = self.listings@;
        let ghost found = entry::entries(entries@);
        let mut sorted = entries;
        sort_entries(&mut sorted);
        proof {
            broadcast use vstd::seq_lib::group_to_multiset_ensures;

            let now = entry::entries(sorted@);
            assert forall|i: int| 0 <= i < now.len() implies path::is_entry_name(
                #[trigger] now[i].name,
            ) by {
                assert(now.contains(now[i]));
                assert(now.to_multiset().count(now[i]) > 0);
                assert(found.contains(now[i]));
            }
        }
        self.dirs.push(dir.to_owned());
        self.listings.push(Listing { stamp, entries: sorted });
        proof {
            let after = places(self.dirs@);
            assert(after =~= dirs.push(p));
            assert(!dirs.contains(p));
            assert forall|i: int, j: int|
                0 <= i < after.len() && 0 <= j < after.len() && i != j implies after[i]
                != after[j] by {
                if i == dirs.len() {
                    assert(dirs.contains(dirs[j]));
                }
                if j == dirs.len() {
                    assert(dirs.contains(dirs[i]));
                }
            }
            assert(self@.cache =~= old(self)@.cache.insert(p, self@.cache[p])) by {
                assert forall|q: Place| after.contains(q) == (dirs.contains(q) || q == p) by {
                    assert(after[dirs.len() as int] == p);
                    if dirs.contains(q) {
                        let k = dirs.index_of(q);
                        assert(after[k] == q);
                    }
                }
                assert forall|q: Place| dirs.contains(q) implies #[trigger] self@.cache[q]
                    == old(self)@.cache[q] by {
                    let k = dirs.index_of(q);
                    assert(after[k] == q);
                    assert(after.index_of(q) == k);
                }
            }
            assert(after.index_of(p) == dirs.len()) by {
                assert(after[dirs.len() as int] == p);
            }
        }
    }

    /// Keep the listings of some of the cached directories, by their index.
    fn keep(&mut self, kept: &Vec<bool>)
        requires
            old(self).wf(),
            kept@.len() == old(self).watch_list().len(),
        ensures
            final(self).wf(),
            final(self)@ == (TreeView { cache: final(self)@.cache, ..old(self)@ }),
            final(self)@.cache == old(self)@.cache.restrict(
                Set::new(
                    |p: Place|
                        exists|i: int|
                            0 <= i < kept@.len() && kept@[i] && p == path::parts(
                                #[trigger] old(self).watch_list()[i],
                            ),
                ),
            ),
    {
        let ghost before = places(self.dirs@);
        let ghost before_listings = self.listings@;
        let mut dirs: Vec<String> = Vec::new();
        let mut listings: Vec<Listing> = Vec::new();
        let ghost mut origin: Seq<int> = Seq::empty();
        let mut i: usize = 0;
        while i < self.dirs.len()
            invariant
                *self == *old(self),
                old(self).wf(),
                before == places(self.dirs@),
                before_listings == self.listings@,
                kept@.len() == self.dirs@.len(),
                i <= self.dirs@.len(),
                dirs@.len() == listings@.len(),
                origin.len() == dirs@.len(),
                forall|k: int|
                    0 <= k < origin.len() ==> 0 <= #[trigger] origin[k] < i && kept@[origin[k]]
                        && places(dirs@)[k] == before[origin[k]] && listing_view(listings@[k])
                        == listing_view(before_listings[origin[k]]),
                forall|k: int, m: int|
                    0 <= k < m < origin.len() ==> #[trigger] origin[k] < #[trigger] origin[m],
                forall|j: int| 0 <= j < i && #[trigger] kept@[j] ==> origin.contains(j),
            decreases self.dirs@.len() - i,
        {
            if kept[i] {
                let l = &self.listings[i];
                let mut entries: Vec<Entry> = Vec::new();
                let mut j: usize = 0;
                while j < l.entries.len()
                    invariant
                        j <= l.entries@.len(),
                        entry::entries(entries@) == entry::entries(l.entries@).take(j as int),
                    decreases l.entries@.len() - j,
                {
                    let ghost so_far = entry::entries(entries@);
                    entries.push(l.entries[j].clone());
                    j += 1;
                    assert(entry::entries(entries@) =~= so_far.push(l.entries@[j - 1]@));
                    assert(entry::entries(entries@) =~= entry::entries(l.entries@).take(j as int));
                }
                assert(entry::entries(entries@) =~= entry::entries(l.entries@));
                let ghost origin0 = origin;
                let ghost dirs0 = places(dirs@);
                dirs.push(self.dirs[i].clone());
                listings.push(Listing { stamp: l.stamp, entries });
                proof {
                    origin = origin.push(i as int);
                    assert(places(dirs@) =~= dirs0.push(before[i as int]));
                    assert forall|j: int| 0 <= j < i + 1 && #[trigger] kept@[j] implies origin.contains(
                        j,
                    ) by {
                        if j < i {
                            let k = origin0.index_of(j);
                            assert(origin[k] == j);
                        } else {
                            assert(origin[origin0.len() as int] == j);
                        }
                    }
                }
            }
            i += 1;
        }
        self.dirs = dirs;
        self.listings = listings;
        proof {
            let after = places(self.dirs@);
            let chosen = Set::new(
                |p: Place|
                    exists|i: int|
                        0 <= i < kept@.len() && kept@[i] && p == path::parts(
                            #[trigger] old(self).watch_list()[i],
                        ),
            );
            assert forall|j: int| 0 <= j < before.len() implies #[trigger] before[j] == path::parts(
                old(self).watch_list()[j],
            ) by {}
            assert forall|k: int, m: int|
                0 <= k < after.len() && 0 <= m < after.len() && k != m implies after[k]
                != after[m] by {
                assert(origin[k] != origin[m]) by {
                    if k < m {
                        assert(origin[k] < origin[m]);
                    } else {
                        assert(origin[m] < origin[k]);
                    }
                }
                assert(before[origin[k]] != before[origin[m]]);
            }
            assert forall|k: int| 0 <= k < self.listings@.len() implies listing_ok(
                #[trigger] self.listings@[k],
            ) by {
                assert(listing_ok(before_listings[origin[k]]));
                assert(listing_view(self.listings@[k]) == listing_view(
                    before_listings[origin[k]],
                ));
            }
            assert forall|p: Place| after.contains(p) == (before.contains(p) && chosen.contains(p)) by {
                if after.contains(p) {
                    let k = after.index_of(p);
                    assert(before[origin[k]] == p);
                    assert(old(self).watch_list()[origin[k]] == old(self).watch_list()[origin[k]]);
                }
                if before.contains(p) && chosen.contains(p) {
                    let j = choose|j: int|
                        0 <= j < kept@.len() && kept@[j] && p == path::parts(
                            #[trigger] old(self).watch_list()[j],
                        );
                    let k = origin.index_of(j);
                    assert(origin.contains(j));
                    assert(after[k] == before[j]);
                    assert(after.contains(after[k]));
                }
            }
            assert forall|p: Place| after.contains(p) implies #[trigger] self@.cache[p] == old(self)@.cache[p] by {
                let k = after.index_of(p);
                assert(before[origin[k]] == p);
                assert(before.contains(p));
                assert(before.index_of(p) == origin[k]);
            }
            assert(self@.cache =~= old(self)@.cache.restrict(chosen));
        }
    }

    /// Drop the listing of every visible directory the disk has moved on from,
    /// so that just those are read again. `stamps` are the modification times of
    /// the `watched` directories as they stand now, in that order. Reports
    /// whether anything was dropped, so a caller with nothing to do can do
    /// nothing.
    pub fn rescan(&mut self, stamps: &Vec<Option<i128>>) -> (moved: bool)
        requires
            old(self).wf(),
            stamps@.len() == old(self).watch_list().len(),
        ensures
            final(self).wf(),
            final(self)@ == changed(
                old(self)@,
                Change::Rescan(stamped(old(self).watch_list(), stamps@)),
            ),
            moved == (moved_on(old(self)@, stamped(old(self).watch_list(), stamps@)).len() > 0),
            final(self).watch_list().len() == old(self).watch_list().len() - moved_on(
                old(self)@,
                stamped(old(self).watch_list(), stamps@),
            ).len(),
            !moved ==> final(self)@ == old(self)@,
    {
        let ghost before = places(self.dirs@);
        let mut kept: Vec<bool> = Vec::new();
        let mut moved = false;
        let mut i: usize = 0;
        while i < self.dirs.len()
            invariant
                *self == *old(self),
                old(self).wf(),
                before == places(self.dirs@),
                stamps@.len() == self.dirs@.len(),
                i <= self.dirs@.len(),
                kept@.len() == i,
                forall|k: int|
                    0 <= k < i ==> #[trigger] kept@[k] == (stamps@[k] == self.listings@[k].stamp),
                moved == exists|k: int|
                    0 <= k < i && #[trigger] stamps@[k] != self.listings@[k].stamp,
            decreases self.dirs@.len() - i,
        {
            let same = stamps[i] == self.listings[i].stamp;
            kept.push(same);
            if !same {
                moved = true;
                assert(stamps@[i as int] != self.listings@[i as int].stamp);
            }
            i += 1;
        }
        proof {
            assert forall|k: int| 0 <= k < before.len() implies self@.cache[path::parts(
                #[trigger] self.watch_list()[k],
            )] == listing_view(self.listings@[k]) by {
                assert(before[k] == path::parts(self.watch_list()[k]));
                assert(before.contains(before[k]));
                assert(before.index_of(before[k]) == k);
            }
        }
        self.keep(&kept);
        proof {
            let o = old(self);
            let disk = stamped(o.watch_list(), stamps@);
            let gone = moved_on(o@, disk);
            o.lemma_view();
            self.lemma_view();
            assert(places_of(o.watch_list()) =~= before);
            assert forall|k: int| 0 <= k < before.len() implies kept@[k] == !gone.contains(
                #[trigger] before[k],
            ) by {
                assert(before.contains(before[k]));
                assert(before.index_of(before[k]) == k);
                assert(disk[before[k]] == stamps@[k]);
                assert(before[k] == path::parts(o.watch_list()[k]));
                assert(o@.cache[before[k]] == listing_view(o.listings@[k]));
            }
            assert forall|p: Place| o@.cache.contains_key(p) implies self@.cache.contains_key(p)
                == !gone.contains(p) by {
                let k = before.index_of(p);
                assert(before.contains(p));
                assert(before[k] == path::parts(o.watch_list()[k]));
                if self@.cache.contains_key(p) {
                    let m = choose|i: int|
                        0 <= i < kept@.len() && kept@[i] && p == path::parts(
                            #[trigger] o.watch_list()[i],
                        );
                    assert(before[m] == p);
                }
            }
            assert(self@.cache =~= rescanned(o@, disk).cache);
            lemma_rescan_counts(o@, disk);
            if moved {
                let k = choose|k: int|
                    0 <= k < stamps@.len() && #[trigger] stamps@[k] != o.listings@[k].stamp;
                assert(!kept@[k]);
                assert(gone.contains(before[k]));
                if gone.len() == 0 {
                    assert(gone =~= Set::<Place>::empty());
                }
            } else {
                assert forall|p: Place| !gone.contains(p) by {
                    if gone.contains(p) {
                        let k = before.index_of(p);
                        assert(before.contains(p));
                        assert(!kept@[k]);
                        assert(stamps@[k] != o.listings@[k].stamp);
                    }
                }
                assert(gone =~= Set::<Place>::empty());
                assert(self@.cache =~= o@.cache);
            }
        }
        moved
    }

    /// The next directory whose listing the rows need, in the order the walk
    /// comes to them.
    pub fn wanted(&self) -> (dir: Option<String>)
        requires
            self.wf(),
        ensures
            dir is Some == first_missing(self@, self@.root) is Some,
            dir is Some ==> dir->0@ == first_missing(self@, self@.root)->0,
    {
        self.missing_from(self.root.as_str())
    }

    fn missing_from(&self, dir: &str) -> (missing: Option<String>)
        requires
            self.wf(),
        ensures
            missing is Some == first_missing(self@, dir@) is Some,
            missing is Some ==> missing->0@ == first_missing(self@, dir@)->0,
        decreases room(self@, dir@),
    {
        proof {
            self.lemma_view();
        }
        let ghost t = self@;
        let ghost here = path::parts(dir@);
        let index = match find(&self.dirs, dir) {
            None => {
                return Some(dir.to_owned());
            },
            Some(index) => index,
        };
        let list = &self.listings[index].entries;
        let ghost all = entry::entries(list@);
        proof {
            self.lemma_listing_at(index as int);
            assert(all.skip(0) =~= all);
        }
        let mut i: usize = 0;
        while i < list.len()
            invariant
                self.wf(),
                t == self@,
                t.expanded.finite(),
                i <= list@.len(),
                all == entry::entries(list@),
                well_named(all),
                first_missing(t, dir@) == first_missing_entries(t, dir@, all.skip(i as int)),
            decreases list@.len() - i,
        {
            let e = &list[i];
            proof {
                assert(all.skip(i as int).first() == all[i as int]);
                assert(all.skip(i as int).drop_first() =~= all.skip(i + 1));
                assert(path::is_entry_name(all[i as int].name));
            }
            if visible(e.name.as_str(), self.show_hidden) && e.is_dir {
                let path = path::join(dir, e.name.as_str());
                if self.is_expanded(path.as_str()) {
                    proof {
                        lemma_room_shrinks(t, dir@, e.name@);
                    }
                    let inner = self.missing_from(path.as_str());
                    if inner.is_some() {
                        return inner;
                    }
                }
            }
            i += 1;
        }
        assert(all.skip(i as int) =~= Seq::<EntryView>::empty());
        None
    }

    proof fn lemma_listing_at(&self, index: int)
        requires
            self.wf(),
            0 <= index < self.dirs@.len(),
        ensures
            self@.cache.contains_key(places(self.dirs@)[index]),
            self@.cache[places(self.dirs@)[index]] == listing_view(self.listings@[index]),
            well_named(entry::entries(self.listings@[index].entries@)),
    {
        let d = places(self.dirs@);
        assert(d.contains(d[index]));
        assert(d.index_of(d[index]) == index);
        assert(listing_ok(self.listings@[index]));
    }

    /// The visible rows, depth-first through expanded directories. Every
    /// directory that is no longer on screen is forgotten: keeping its listing
    /// would have `rescan` look at directories the tree stopped showing.
    pub fn rows(&mut self) -> (out: Vec<Row>)
        requires
            old(self).wf(),
            is_complete(old(self)@),
        ensures
            final(self).wf(),
            rows_view(out@) == walk(old(self)@, old(self)@.root, 0),
            final(self)@ == changed(old(self)@, Change::Walk),
            rows_fit(out@),
    {
        let mut out: Vec<Row> = Vec::new();
        let mut seen: Vec<String> = Vec::new();
        let ghost t = self@;
        proof {
            self.lemma_view();
            let all = places(self.expanded@);
            lemma_ascending_distinct(all);
            all.unique_seq_to_set();
            let deeper = t.expanded.filter(|p: Place| p.len() > path::parts(t.root).len());
            vstd::set_lib::lemma_len_subset(deeper, t.expanded);
            if path::is_absolute(t.root) {
                assert(path::parts(t.root).len() >= 1);
            }
            assert(rows_view(out@) =~= Seq::<RowView>::empty());
            assert(places(seen@).to_set() =~= Set::<Place>::empty());
        }
        self.visit(self.root.as_str(), 0, &mut out, &mut seen);
        proof {
            assert(Seq::<RowView>::empty() + walk(t, t.root, 0) =~= walk(t, t.root, 0));
            assert(Set::<Place>::empty().union(walked(t, t.root)) =~= walked(t, t.root));
        }
        let mut kept: Vec<bool> = Vec::new();
        let mut i: usize = 0;
        while i < self.dirs.len()
            invariant
                i <= self.dirs@.len(),
                kept@.len() == i,
                places(seen@).to_set() == walked(t, t.root),
                forall|k: int|
                    0 <= k < i ==> #[trigger] kept@[k] == walked(t, t.root).contains(
                        places(self.dirs@)[k],
                    ),
            decreases self.dirs@.len() - i,
        {
            let at = find(&seen, self.dirs[i].as_str());
            proof {
                if let Some(k) = at {
                    assert(places(seen@).contains(places(seen@)[k as int]));
                }
            }
            kept.push(at.is_some());
            i += 1;
        }
        let ghost before = *self;
        self.keep(&kept);
        proof {
            let w = walked(t, t.root);
            let d = places(before.dirs@);
            assert(self@.cache =~= t.cache.restrict(w)) by {
                assert forall|p: Place| t.cache.contains_key(p) implies (#[trigger] w.contains(p)
                    == exists|i: int|
                    0 <= i < kept@.len() && kept@[i] && p == path::parts(
                        #[trigger] before.watch_list()[i],
                    )) by {
                    let k = d.index_of(p);
                    assert(d.contains(p));
                    assert(path::parts(before.watch_list()[k]) == p);
                    if w.contains(p) {
                        assert(kept@[k]);
                    }
                    if exists|i: int|
                        0 <= i < kept@.len() && kept@[i] && p == path::parts(
                            #[trigger] before.watch_list()[i],
                        ) {
                        let i = choose|i: int|
                            0 <= i < kept@.len() && kept@[i] && p == path::parts(
                                #[trigger] before.watch_list()[i],
                            );
                        assert(kept@[i]);
                        assert(d[i] == p);
                    }
                }
            }
        }
        out
    }

    /// Append the rows of `dir`, and the directories they come from.
    fn visit(&self, dir: &str, depth: usize, out: &mut Vec<Row>, seen: &mut Vec<String>)
        requires
            self.wf(),
            first_missing(self@, dir@) is None,
            depth + room(self@, dir@) <= self.expanded@.len(),
            depth + path::parts(self@.root).len() == path::parts(dir@).len(),
            path::is_absolute(dir@) ==> path::parts(self@.root).len() >= 1,
            rows_fit(old(out)@),
        ensures
            rows_view(final(out)@) == rows_view(old(out)@) + walk(self@, dir@, depth as nat),
            places(final(seen)@).to_set() == places(old(seen)@).to_set().union(
                walked(self@, dir@),
            ),
            rows_fit(final(out)@),
        decreases room(self@, dir@),
    {
        proof {
            self.lemma_view();
        }
        let ghost t = self@;
        let ghost out0 = rows_view(out@);
        let ghost seen0 = places(seen@).to_set();
        let index = match find(&self.dirs, dir) {
            None => {
                return ;
            },
            Some(index) => index,
        };
        let list = &self.listings[index].entries;
        let ghost all = entry::entries(list@);
        let ghost seen_before = places(seen@);
        seen.push(dir.to_owned());
        proof {
            self.lemma_listing_at(index as int);
            assert(all.skip(0) =~= all);
            assert(places(seen@) =~= seen_before.push(path::parts(dir@)));
            lemma_push_to_set(seen_before, path::parts(dir@));
            assert(seen0.insert(path::parts(dir@)).union(walked_entries(t, dir@, all))
                =~= seen0.union(walked(t, dir@)));
        }
        let mut i: usize = 0;
        while i < list.len()
            invariant
                self.wf(),
                t == self@,
                t.expanded.finite(),
                depth + room(t, dir@) <= self.expanded@.len(),
                depth + path::parts(t.root).len() == path::parts(dir@).len(),
                path::is_absolute(dir@) ==> path::parts(t.root).len() >= 1,
                i <= list@.len(),
                all == entry::entries(list@),
                well_named(all),
                first_missing_entries(t, dir@, all.skip(i as int)) is None,
                rows_fit(out@),
                rows_view(out@) + walk_entries(t, dir@, depth as nat, all.skip(i as int)) == out0
                    + walk(t, dir@, depth as nat),
                places(seen@).to_set().union(walked_entries(t, dir@, all.skip(i as int)))
                    == seen0.union(walked(t, dir@)),
            decreases list@.len() - i,
        {
            let e = &list[i];
            let ghost rest = all.skip(i + 1);
            proof {
                assert(all.skip(i as int).first() == all[i as int]);
                assert(all.skip(i as int).drop_first() =~= rest);
                assert(path::is_entry_name(all[i as int].name));
            }
            if visible(e.name.as_str(), self.show_hidden) {
                let path = path::join(dir, e.name.as_str());
                let expanded = e.is_dir && self.is_expanded(path.as_str());
                let length = path.as_str().unicode_len();
                proof {
                    path::joining_adds_one_component(dir@, e.name@);
                    path::deep_paths_are_long(path@);
                    assert(path::is_absolute(path@) ==> path::is_absolute(dir@)) by {
                        if path::is_absolute(e.name@) {
                            assert(e.name@.contains('/'));
                        }
                    }
                    assert(2 * depth + 1 <= length);
                }
                let row = Row {
                    name: e.name.clone(),
                    is_dir: e.is_dir,
                    depth,
                    expanded,
                    path: path.clone(),
                };
                let ghost before = rows_view(out@);
                let ghost one = row@;
                out.push(row);
                proof {
                    assert(rows_view(out@) =~= before.push(one));
                    assert(one == row_of(t, dir@, depth as nat, all[i as int]));
                }
                if expanded {
                    proof {
                        lemma_room_shrinks(t, dir@, e.name@);
                    }
                    let ghost seen_now = places(seen@).to_set();
                    self.visit(path.as_str(), depth + 1, out, seen);
                    proof {
                        let inner = walk(t, path@, (depth + 1) as nat);
                        let tail = walk_entries(t, dir@, depth as nat, rest);
                        assert(before.push(one) + inner + tail =~= before + (seq![one] + inner
                            + tail));
                        assert(seen_now.union(walked(t, path@)).union(
                            walked_entries(t, dir@, rest),
                        ) =~= seen_now.union(
                            walked(t, path@).union(walked_entries(t, dir@, rest)),
                        ));
                    }
                } else {
                    proof {
                        let tail = walk_entries(t, dir@, depth as nat, rest);
                        assert(before.push(one) + tail =~= before + (seq![one] + tail));
                    }
                }
            }
            i += 1;
        }
        proof {
            assert(all.skip(i as int) =~= Seq::<EntryView>::empty());
            assert(rows_view(out@) + Seq::<RowView>::empty() =~= rows_view(out@));
            assert(places(seen@).to_set().union(Set::empty()) =~= places(seen@).to_set());
        }
    }
}

/// Whether each row's indent, two columns per level and one more, can be
/// counted.
pub open spec fn rows_fit(list: Seq<Row>) -> bool {
    forall|i: int| 0 <= i < list.len() ==> 2 * (#[trigger] list[i]).depth + 1 <= usize::MAX
}

proof fn lemma_push_to_set(list: Seq<Place>, p: Place)
    ensures
        list.push(p).to_set() == list.to_set().insert(p),
{
    assert forall|q: Place| #[trigger]
        list.push(p).to_set().contains(q) == list.to_set().insert(p).contains(q) by {
        if list.contains(q) {
            let k = list.index_of(q);
            assert(list.push(p)[k] == q);
        }
        assert(list.push(p)[list.len() as int] == p);
        if list.push(p).contains(q) && q != p {
            let k = list.push(p).index_of(q);
            assert(list[k] == q);
        }
    }
}

/// Whether an entry shows: `.git` never does, and other dotfiles only when
/// `show_hidden` is on.
pub fn visible(name: &str, show_hidden: bool) -> (yes: bool)
    ensures
        yes == is_visible(name@, show_hidden),
{
    let chars = text::chars_of(name);
    !text::same_text(name, ".git") && (show_hidden || !(chars.len() > 0 && chars[0] == '.'))
}

} // verus!
