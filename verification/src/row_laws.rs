//! How the rows of every tree stand to one another and to the listings.
use crate::entry::EntryView;
use crate::path;
use crate::rows;
use crate::tree;
use crate::tree::{Change, Place, RowView, TreeView};
use vstd::prelude::*;

verus! {

// ---------------------------------------------------------------------------
// A row and its directory
// ---------------------------------------------------------------------------

/// Whether the row at `k` is of the directory that the row at `i` is an entry of:
/// an open one above it and indented one less, whose path is that of the entry
/// without its name, with nothing between the two that is indented less than the
/// entry.
pub open spec fn is_directory_of(all: Seq<RowView>, k: int, i: int) -> bool {
    &&& 0 <= k < i < all.len()
    &&& all[k].is_dir
    &&& all[k].expanded
    &&& all[k].depth + 1 == all[i].depth
    &&& path::parts(all[i].path) == path::parts(all[k].path).push(all[i].name)
    &&& forall|j: int| k < j < i ==> (#[trigger] all[j]).depth >= all[i].depth
}

/// Every row that is indented has its directory's row above it, and every other
/// is of an entry of the root.
pub proof fn every_indented_row_is_below_its_directory(t: TreeView, i: int)
    requires
        t.expanded.finite(),
        rows::cache_is_named(t),
        0 <= i < tree::walk(t, t.root, 0).len(),
    ensures
        ({
            let all = tree::walk(t, t.root, 0);
            &&& all[i].depth == 0 ==> path::parts(all[i].path) == path::parts(t.root).push(
                all[i].name,
            )
            &&& all[i].depth > 0 ==> exists|k: int| #[trigger] is_directory_of(all, k, i)
        }),
{
    lemma_directory(t, t.root, 0, i);
}

proof fn lemma_directory(t: TreeView, dir: Seq<char>, depth: nat, i: int)
    requires
        t.expanded.finite(),
        rows::cache_is_named(t),
        0 <= i < tree::walk(t, dir, depth).len(),
    ensures
        ({
            let all = tree::walk(t, dir, depth);
            &&& all[i].depth == depth ==> path::parts(all[i].path) == path::parts(dir).push(
                all[i].name,
            )
            &&& all[i].depth > depth ==> exists|k: int| #[trigger] is_directory_of(all, k, i)
        }),
    decreases tree::room(t, dir), 1nat, 0nat,
{
    let list = tree::entries_of(t, dir);
    assert(tree::walk(t, dir, depth) == tree::walk_entries(t, dir, depth, list));
    lemma_directory_entries(t, dir, depth, list, i);
}

proof fn lemma_directory_entries(
    t: TreeView,
    dir: Seq<char>,
    depth: nat,
    list: Seq<EntryView>,
    i: int,
)
    requires
        t.expanded.finite(),
        rows::cache_is_named(t),
        tree::well_named(list),
        0 <= i < tree::walk_entries(t, dir, depth, list).len(),
    ensures
        ({
            let all = tree::walk_entries(t, dir, depth, list);
            &&& all[i].depth == depth ==> path::parts(all[i].path) == path::parts(dir).push(
                all[i].name,
            )
            &&& all[i].depth > depth ==> exists|k: int| #[trigger] is_directory_of(all, k, i)
        }),
    decreases tree::room(t, dir), 0nat, list.len(),
{
    let e = list.first();
    let tail = list.drop_first();
    rows::lemma_well_named_tail(list);
    assert(path::is_entry_name(list[0].name));
    path::joining_adds_one_component(dir, e.name);
    let child = path::joined_path(dir, e.name);
    let rest = tree::walk_entries(t, dir, depth, tail);
    let row = tree::row_of(t, dir, depth, e);
    let all = tree::walk_entries(t, dir, depth, list);
    if !tree::is_visible(e.name, t.show_hidden) {
        lemma_directory_entries(t, dir, depth, tail, i);
    } else {
        let inner = if tree::is_open(t, dir, e) {
            tree::walk(t, child, depth + 1)
        } else {
            Seq::empty()
        };
        assert(all =~= seq![row] + inner + rest);
        if 0 < i <= inner.len() {
            tree::lemma_room_shrinks(t, dir, e.name);
            lemma_directory(t, child, depth + 1, i - 1);
            rows::lemma_deeper(t, child, depth + 1);
            assert(all[i] == inner[i - 1]);
            if inner[i - 1].depth == depth + 1 {
                assert forall|j: int| 0 < j < i implies (#[trigger] all[j]).depth >= all[i].depth by {
                    assert(all[j] == inner[j - 1]);
                }
                assert(is_directory_of(all, 0, i));
            } else {
                let k = choose|k: int| #[trigger] is_directory_of(inner, k, i - 1);
                lemma_directory_moves(inner, k, i - 1, all, 1);
            }
        } else if i > inner.len() {
            let n = 1 + inner.len();
            lemma_directory_entries(t, dir, depth, tail, i - n);
            assert(all[i] == rest[i - n]);
            if rest[i - n].depth > depth {
                let k = choose|k: int| #[trigger] is_directory_of(rest, k, i - n);
                lemma_directory_moves(rest, k, i - n, all, n as int);
            }
        }
    }
}

proof fn lemma_directory_moves(part: Seq<RowView>, k: int, i: int, all: Seq<RowView>, n: int)
    requires
        is_directory_of(part, k, i),
        n >= 0,
        n + part.len() <= all.len(),
        forall|j: int| 0 <= j < part.len() ==> #[trigger] part[j] == all[n + j],
    ensures
        is_directory_of(all, n + k, n + i),
{
    assert(part[k] == all[n + k]);
    assert(part[i] == all[n + i]);
    assert forall|j: int| n + k < j < n + i implies (#[trigger] all[j]).depth >= all[n + i].depth by {
        assert(part[j - n] == all[n + (j - n)]);
    }
}

// ---------------------------------------------------------------------------
// A directory and its rows
// ---------------------------------------------------------------------------

/// The entries that are cached for a place.
pub open spec fn listed_at(t: TreeView, p: Place) -> Seq<EntryView> {
    if t.cache.contains_key(p) {
        t.cache[p].entries
    } else {
        Seq::empty()
    }
}

/// Whether the rows past `i` and before `end` are what shows of the directory at
/// `i`: its visible entries one level deeper, all of them and in their order, with
/// nothing indented less in between; and none at all where it is not open.
pub open spec fn shows_up_to(t: TreeView, all: Seq<RowView>, i: int, end: int) -> bool {
    let inside = all.subrange(i + 1, end);
    &&& 0 <= i < end <= all.len()
    &&& forall|j: int| i < j < end ==> (#[trigger] all[j]).depth > all[i].depth
    &&& end < all.len() ==> all[end].depth <= all[i].depth
    &&& !all[i].expanded ==> end == i + 1
    &&& all[i].expanded ==> rows::at_depth(inside, all[i].depth + 1) == rows::shown_entries(
        listed_at(t, path::parts(all[i].path)),
        t.show_hidden,
    )
}

/// Under every row stands what its directory lists, where it is open, and nothing
/// where it is folded or is a file.
pub proof fn every_open_row_shows_its_listing(t: TreeView, i: int)
    requires
        t.expanded.finite(),
        rows::cache_is_named(t),
        0 <= i < tree::walk(t, t.root, 0).len(),
    ensures
        exists|end: int| #[trigger] shows_up_to(t, tree::walk(t, t.root, 0), i, end),
{
    lemma_shows(t, t.root, 0, i);
}

proof fn lemma_shows(t: TreeView, dir: Seq<char>, depth: nat, i: int)
    requires
        t.expanded.finite(),
        rows::cache_is_named(t),
        0 <= i < tree::walk(t, dir, depth).len(),
    ensures
        exists|end: int| #[trigger] shows_up_to(t, tree::walk(t, dir, depth), i, end),
    decreases tree::room(t, dir), 1nat, 0nat,
{
    let list = tree::entries_of(t, dir);
    assert(tree::walk(t, dir, depth) == tree::walk_entries(t, dir, depth, list));
    lemma_shows_entries(t, dir, depth, list, i);
}

proof fn lemma_first_depth(t: TreeView, dir: Seq<char>, depth: nat, list: Seq<EntryView>)
    requires
        t.expanded.finite(),
        tree::walk_entries(t, dir, depth, list).len() > 0,
    ensures
        tree::walk_entries(t, dir, depth, list)[0].depth == depth,
    decreases list.len(),
{
    if !tree::is_visible(list.first().name, t.show_hidden) {
        lemma_first_depth(t, dir, depth, list.drop_first());
    }
}

proof fn lemma_shows_entries(
    t: TreeView,
    dir: Seq<char>,
    depth: nat,
    list: Seq<EntryView>,
    i: int,
)
    requires
        t.expanded.finite(),
        rows::cache_is_named(t),
        tree::well_named(list),
        0 <= i < tree::walk_entries(t, dir, depth, list).len(),
    ensures
        exists|end: int|
            #[trigger] shows_up_to(t, tree::walk_entries(t, dir, depth, list), i, end),
    decreases tree::room(t, dir), 0nat, list.len(),
{
    let e = list.first();
    let tail = list.drop_first();
    rows::lemma_well_named_tail(list);
    assert(path::is_entry_name(list[0].name));
    let child = path::joined_path(dir, e.name);
    let rest = tree::walk_entries(t, dir, depth, tail);
    let row = tree::row_of(t, dir, depth, e);
    let all = tree::walk_entries(t, dir, depth, list);
    if !tree::is_visible(e.name, t.show_hidden) {
        lemma_shows_entries(t, dir, depth, tail, i);
    } else {
        let open = tree::is_open(t, dir, e);
        let inner = if open {
            tree::walk(t, child, depth + 1)
        } else {
            Seq::empty()
        };
        let n = 1 + inner.len() as int;
        assert(all =~= seq![row] + inner + rest);
        if rest.len() > 0 {
            lemma_first_depth(t, dir, depth, tail);
            assert(all[n] == rest[0]);
        }
        if open {
            tree::lemma_room_shrinks(t, dir, e.name);
            rows::lemma_deeper(t, child, depth + 1);
        }
        if i == 0 {
            assert(all.subrange(1, n) =~= inner);
            if open {
                let under = tree::entries_of(t, child);
                rows::lemma_level(t, child, depth + 1, under);
                assert(inner == tree::walk_entries(t, child, depth + 1, under));
            }
            assert forall|j: int| 0 < j < n implies (#[trigger] all[j]).depth > depth by {
                assert(all[j] == inner[j - 1]);
            }
            assert(shows_up_to(t, all, 0, n));
        } else if i < n {
            lemma_shows(t, child, depth + 1, i - 1);
            let end = choose|end: int| #[trigger] shows_up_to(t, inner, i - 1, end);
            assert(all[i] == inner[i - 1]);
            assert(all.subrange(i + 1, end + 1) =~= inner.subrange(i, end));
            assert forall|j: int| i < j < end + 1 implies (#[trigger] all[j]).depth > all[i].depth by {
                assert(all[j] == inner[j - 1]);
            }
            if end < inner.len() {
                assert(all[end + 1] == inner[end]);
            }
            assert(shows_up_to(t, all, i, end + 1));
        } else {
            lemma_shows_entries(t, dir, depth, tail, i - n);
            let end = choose|end: int| #[trigger] shows_up_to(t, rest, i - n, end);
            assert(all[i] == rest[i - n]);
            assert(all.subrange(i + 1, end + n) =~= rest.subrange(i - n + 1, end));
            assert forall|j: int| i < j < end + n implies (#[trigger] all[j]).depth > all[i].depth by {
                assert(all[j] == rest[j - n]);
            }
            if end < rest.len() {
                assert(all[end + n] == rest[end]);
            }
            assert(shows_up_to(t, all, i, end + n));
        }
    }
}

/// What may be shown: `.git` never, any other name that begins with a dot while
/// dotfiles show, and every name that does not always.
pub proof fn dotfiles_show_only_when_asked(name: Seq<char>, show: bool)
    ensures
        !tree::is_visible(seq!['.', 'g', 'i', 't'], show),
        name != seq!['.', 'g', 'i', 't'] ==> tree::is_visible(name, true),
        name.len() > 0 && name[0] == '.' ==> !tree::is_visible(name, false),
        name.len() == 0 || name[0] != '.' ==> tree::is_visible(name, show),
{
    reveal_strlit(".git");
    assert(".git"@ =~= seq!['.', 'g', 'i', 't']);
}

/// The entries that may be shown, told one by one: each is taken or passed over by
/// its name alone, and those taken keep their order, names and kinds.
pub proof fn a_listing_shows_entry_by_entry(list: Seq<EntryView>, e: EntryView, show: bool)
    ensures
        rows::shown_entries(Seq::empty(), show) == Seq::<(Seq<char>, bool)>::empty(),
        tree::is_visible(e.name, show) ==> rows::shown_entries(list.push(e), show)
            == rows::shown_entries(list, show).push((e.name, e.is_dir)),
        !tree::is_visible(e.name, show) ==> rows::shown_entries(list.push(e), show)
            == rows::shown_entries(list, show),
{
    reveal(Seq::filter);
    assert(list.push(e).drop_last() =~= list);
    assert(rows::shown_entries(Seq::<EntryView>::empty(), show) =~= Seq::<
        (Seq<char>, bool),
    >::empty());
    let kept = list.filter(|e: EntryView| tree::is_visible(e.name, show));
    if tree::is_visible(e.name, show) {
        assert(rows::shown_entries(list.push(e), show) =~= rows::shown_entries(list, show).push(
            (e.name, e.is_dir),
        ));
    }
}

// ---------------------------------------------------------------------------
// Changes
// ---------------------------------------------------------------------------

/// Expanding a directory opens that one and leaves every other as it was; it
/// changes nothing else, and doing it again changes nothing.
pub proof fn expanding_opens_one_directory(t: TreeView, dir: Seq<char>, p: Place)
    ensures
        ({
            let after = tree::changed(t, Change::Expand(dir));
            &&& after.expanded.contains(p) <==> p == path::parts(dir) || t.expanded.contains(p)
            &&& after == (TreeView { expanded: after.expanded, ..t })
            &&& tree::changed(after, Change::Expand(dir)) == after
        }),
{
    let after = tree::changed(t, Change::Expand(dir));
    assert(tree::changed(after, Change::Expand(dir)) =~= after);
}

/// Collapsing a directory folds that one and leaves every other as it was; it
/// changes nothing else, and what was expanded below it stays so.
pub proof fn collapsing_folds_one_directory(t: TreeView, dir: Seq<char>, p: Place)
    ensures
        ({
            let after = tree::changed(t, Change::Collapse(dir));
            &&& after.expanded.contains(p) <==> p != path::parts(dir) && t.expanded.contains(p)
            &&& after == (TreeView { expanded: after.expanded, ..t })
            &&& tree::changed(after, Change::Collapse(dir)) == after
            &&& !t.expanded.contains(path::parts(dir)) ==> tree::changed(
                tree::changed(t, Change::Expand(dir)),
                Change::Collapse(dir),
            ) == t
            &&& t.expanded.contains(path::parts(dir)) ==> tree::changed(
                after,
                Change::Expand(dir),
            ) == t
        }),
{
    let after = tree::changed(t, Change::Collapse(dir));
    assert(tree::changed(after, Change::Collapse(dir)) =~= after);
    if t.expanded.contains(path::parts(dir)) {
        assert(tree::changed(after, Change::Expand(dir)) =~= t);
    } else {
        assert(tree::changed(tree::changed(t, Change::Expand(dir)), Change::Collapse(dir)) =~= t);
    }
}

/// Toggling a directory folds it where it is open and opens it where it is folded,
/// and leaves every other as it was.
pub proof fn toggling_turns_one_directory(t: TreeView, dir: Seq<char>, p: Place)
    ensures
        ({
            let after = tree::changed(t, Change::Toggle(dir));
            &&& after.expanded.contains(path::parts(dir)) <==> !t.expanded.contains(
                path::parts(dir),
            )
            &&& p != path::parts(dir) ==> (after.expanded.contains(p) <==> t.expanded.contains(p))
            &&& after == (TreeView { expanded: after.expanded, ..t })
            &&& after == tree::toggled(t, dir)
        }),
{
}

/// Collapsing everything leaves nothing expanded and every listing where it was;
/// refreshing leaves no listing and everything expanded that was.
pub proof fn collapsing_everything_and_refreshing(t: TreeView, p: Place)
    ensures
        ({
            let folded = tree::changed(t, Change::CollapseAll);
            &&& !folded.expanded.contains(p)
            &&& folded == (TreeView { expanded: folded.expanded, ..t })
        }),
        ({
            let fresh = tree::changed(t, Change::Refresh);
            &&& !fresh.cache.contains_key(p)
            &&& fresh == (TreeView { cache: fresh.cache, ..t })
        }),
{
}

/// Another set of directories takes the place of what was expanded, and every
/// listing is read again.
pub proof fn restoring_replaces_what_is_expanded(t: TreeView, expanded: Set<Place>, p: Place)
    ensures
        ({
            let after = tree::changed(t, Change::Restore(expanded));
            &&& after.expanded.contains(p) <==> expanded.contains(p)
            &&& !after.cache.contains_key(p)
            &&& after.root == t.root
            &&& after.show_hidden == t.show_hidden
        }),
{
}

/// Only what lies inside the root can be expanded from a saved list of paths, and
/// all of the list that does.
pub proof fn only_paths_inside_the_root_are_restored(root: Seq<char>, paths: Seq<String>, p: Place)
    ensures
        tree::places_under(root, paths).contains(p) <==> path::parts(root).is_prefix_of(p)
            && exists|i: int|
            0 <= i < paths.len() && path::parts((#[trigger] paths[i])@) == p,
{
    let r = path::parts(root);
    let n = r.len() as int;
    if tree::places_under(root, paths).contains(p) {
        assert(p.take(n) == p.subrange(0, n));
        let i = choose|i: int|
            0 <= i < paths.len() && p == path::parts((#[trigger] paths[i])@) && path::is_under(
                paths[i]@,
                root,
            );
        assert(path::parts(paths[i]@) == p);
    }
    if r.is_prefix_of(p) && exists|i: int|
        0 <= i < paths.len() && path::parts((#[trigger] paths[i])@) == p {
        let i = choose|i: int| 0 <= i < paths.len() && path::parts((#[trigger] paths[i])@) == p;
        assert(p.take(n) =~= r);
        assert(path::is_under(paths[i]@, root));
    }
}

/// Taking a listing puts it where it belongs and leaves every other as it was; the
/// rows that need only what was cached before do not change.
pub proof fn supplying_adds_one_listing(
    t: TreeView,
    place: Place,
    listing: tree::ListingView,
    p: Place,
)
    ensures
        ({
            let after = tree::changed(t, Change::Supply(place, listing));
            &&& after.cache.contains_key(place) && after.cache[place] == listing
            &&& p != place ==> (after.cache.contains_key(p) <==> t.cache.contains_key(p))
            &&& p != place && t.cache.contains_key(p) ==> after.cache[p] == t.cache[p]
            &&& after == (TreeView { cache: after.cache, ..t })
        }),
{
}

/// Walking the rows forgets the listings that no row comes from, and no others.
pub proof fn walking_forgets_what_is_folded_away(t: TreeView, p: Place)
    requires
        t.expanded.finite(),
        rows::cache_is_named(t),
        tree::is_complete(t),
        rows::are_distinct(tree::walk(t, t.root, 0)),
    ensures
        ({
            let after = tree::changed(t, Change::Walk);
            let all = tree::walk(t, t.root, 0);
            &&& after.cache.contains_key(p) <==> p == path::parts(t.root) || exists|i: int|
                0 <= i < all.len() && (#[trigger] all[i]).expanded && path::parts(all[i].path) == p
            &&& after.cache.contains_key(p) ==> t.cache.contains_key(p) && after.cache[p]
                == t.cache[p]
            &&& after == (TreeView { cache: after.cache, ..t })
        }),
{
    rows::the_root_and_every_open_row_are_watched(t);
    rows::asking_again_gives_the_same_rows(t);
    rows::complete_means_every_walked_directory_is_cached(t);
    let after = tree::changed(t, Change::Walk);
    let all = tree::walk(t, t.root, 0);
    assert(after == tree::trimmed(t));
    assert(after.cache.dom().contains(p) == rows::opened(all).insert(path::parts(t.root)).contains(
        p,
    ));
}

/// The root is wanted before anything else: as long as its listing is missing, it is
/// what is asked for, and nothing shows.
pub proof fn the_root_is_wanted_first(t: TreeView)
    requires
        t.expanded.finite(),
    ensures
        !t.cache.contains_key(path::parts(t.root)) ==> tree::first_missing(t, t.root) == Some(
            t.root,
        ) && tree::walk(t, t.root, 0).len() == 0,
        t.cache.contains_key(path::parts(t.root)) && t.expanded == Set::<Place>::empty()
            ==> tree::first_missing(t, t.root) is None,
{
    assert(tree::walk(t, t.root, 0) == tree::walk_entries(
        t,
        t.root,
        0,
        tree::entries_of(t, t.root),
    ));
    if t.expanded == Set::<Place>::empty() {
        lemma_nothing_missing(t, t.root, tree::entries_of(t, t.root));
    }
}

proof fn lemma_nothing_missing(t: TreeView, dir: Seq<char>, list: Seq<EntryView>)
    requires
        t.expanded == Set::<Place>::empty(),
    ensures
        tree::first_missing_entries(t, dir, list) is None,
    decreases list.len(),
{
    if list.len() > 0 {
        lemma_nothing_missing(t, dir, list.drop_first());
    }
}

} // verus!
