//! What holds of the rows of every tree.
use crate::entry::EntryView;
use crate::path;
use crate::tree;
use crate::tree::{Change, Place, RowView, TreeView};
use vstd::prelude::*;

verus! {

/// Whether two caches hold the same listings for a set of places.
pub open spec fn agree_on(a: TreeView, b: TreeView, on: Set<Place>) -> bool {
    forall|p: Place|
        #[trigger]
        on.contains(p) ==> a.cache.contains_key(p) == b.cache.contains_key(p) && (
        a.cache.contains_key(p) ==> a.cache[p] == b.cache[p])
}

/// The rows depend on the listings of the directories that are walked, and on
/// no others: a tree whose cache agrees on those has the same rows.
pub proof fn rows_need_only_what_is_walked(a: TreeView, b: TreeView, dir: Seq<char>, depth: nat)
    requires
        a.expanded.finite(),
        a.expanded == b.expanded,
        a.show_hidden == b.show_hidden,
        agree_on(a, b, tree::walked(a, dir)),
    ensures
        tree::walk(a, dir, depth) == tree::walk(b, dir, depth),
        tree::walked(a, dir) == tree::walked(b, dir),
        tree::first_missing(a, dir) == tree::first_missing(b, dir),
    decreases tree::room(a, dir), 1nat, 0nat,
{
    let list = tree::entries_of(a, dir);
    let deeper = tree::walked_entries(a, dir, list);
    assert(tree::walked(a, dir) == deeper.insert(path::parts(dir)));
    assert(tree::walked(a, dir).contains(path::parts(dir)));
    lemma_agree_on_fewer(a, b, tree::walked(a, dir), deeper);
    lemma_entries_need_only_what_is_walked(a, b, dir, depth, list);
}

proof fn lemma_agree_on_fewer(a: TreeView, b: TreeView, on: Set<Place>, fewer: Set<Place>)
    requires
        agree_on(a, b, on),
        fewer.subset_of(on),
    ensures
        agree_on(a, b, fewer),
{
    assert forall|p: Place| #[trigger] fewer.contains(p) implies a.cache.contains_key(p)
        == b.cache.contains_key(p) && (a.cache.contains_key(p) ==> a.cache[p] == b.cache[p]) by {
        assert(on.contains(p));
    }
}

proof fn lemma_entries_need_only_what_is_walked(
    a: TreeView,
    b: TreeView,
    dir: Seq<char>,
    depth: nat,
    list: Seq<EntryView>,
)
    requires
        a.expanded.finite(),
        a.expanded == b.expanded,
        a.show_hidden == b.show_hidden,
        agree_on(a, b, tree::walked_entries(a, dir, list)),
    ensures
        tree::walk_entries(a, dir, depth, list) == tree::walk_entries(b, dir, depth, list),
        tree::walked_entries(a, dir, list) == tree::walked_entries(b, dir, list),
        tree::first_missing_entries(a, dir, list) == tree::first_missing_entries(b, dir, list),
    decreases tree::room(a, dir), 0nat, list.len(),
{
    if list.len() > 0 {
        let e = list.first();
        let all = tree::walked_entries(a, dir, list);
        let rest = tree::walked_entries(a, dir, list.drop_first());
        lemma_agree_on_fewer(a, b, all, rest);
        lemma_entries_need_only_what_is_walked(a, b, dir, depth, list.drop_first());
        if tree::is_visible(e.name, a.show_hidden) && tree::is_open(a, dir, e)
            && path::is_entry_name(e.name) {
            tree::lemma_room_shrinks(a, dir, e.name);
            let inner = tree::walked(a, path::joined_path(dir, e.name));
            assert(all == inner.union(rest));
            lemma_agree_on_fewer(a, b, all, inner);
            rows_need_only_what_is_walked(a, b, path::joined_path(dir, e.name), depth + 1);
        }
    }
}

/// Nothing is wanted exactly when every directory that the rows walk through
/// has a cached listing.
pub proof fn complete_means_every_walked_directory_is_cached(t: TreeView)
    requires
        t.expanded.finite(),
    ensures
        tree::is_complete(t) <==> tree::walked(t, t.root).subset_of(t.cache.dom()),
{
    lemma_missing(t, t.root);
}

proof fn lemma_missing(t: TreeView, dir: Seq<char>)
    requires
        t.expanded.finite(),
    ensures
        tree::first_missing(t, dir) is None <==> tree::walked(t, dir).subset_of(t.cache.dom()),
    decreases tree::room(t, dir), 1nat, 0nat,
{
    let list = tree::entries_of(t, dir);
    lemma_missing_entries(t, dir, list);
    assert(tree::walked(t, dir).contains(path::parts(dir)));
    assert(tree::walked(t, dir) =~= tree::walked_entries(t, dir, list).insert(path::parts(dir)));
    if tree::walked(t, dir).subset_of(t.cache.dom()) {
        assert(tree::walked_entries(t, dir, list).subset_of(t.cache.dom()));
    }
}

proof fn lemma_missing_entries(t: TreeView, dir: Seq<char>, list: Seq<EntryView>)
    requires
        t.expanded.finite(),
    ensures
        tree::first_missing_entries(t, dir, list) is None <==> tree::walked_entries(
            t,
            dir,
            list,
        ).subset_of(t.cache.dom()),
    decreases tree::room(t, dir), 0nat, list.len(),
{
    if list.len() > 0 {
        let e = list.first();
        let rest = tree::walked_entries(t, dir, list.drop_first());
        lemma_missing_entries(t, dir, list.drop_first());
        if tree::is_visible(e.name, t.show_hidden) && tree::is_open(t, dir, e)
            && path::is_entry_name(e.name) {
            tree::lemma_room_shrinks(t, dir, e.name);
            let inner = tree::walked(t, path::joined_path(dir, e.name));
            lemma_missing(t, path::joined_path(dir, e.name));
            if inner.union(rest).subset_of(t.cache.dom()) {
                assert(inner.subset_of(t.cache.dom()));
                assert(rest.subset_of(t.cache.dom()));
            }
        }
    }
}

/// Walking the rows leaves the rows as they were: asking again, with nothing in
/// between, gives the same rows, needs no directory to be read, and forgets
/// nothing more.
pub proof fn asking_again_gives_the_same_rows(t: TreeView)
    requires
        t.expanded.finite(),
        tree::is_complete(t),
    ensures
        tree::walk(tree::trimmed(t), t.root, 0) == tree::walk(t, t.root, 0),
        tree::is_complete(tree::trimmed(t)),
        tree::trimmed(tree::trimmed(t)) == tree::trimmed(t),
        tree::trimmed(t).cache.dom() == tree::walked(t, t.root),
{
    let trimmed = tree::trimmed(t);
    complete_means_every_walked_directory_is_cached(t);
    rows_need_only_what_is_walked(t, trimmed, t.root, 0);
    assert(trimmed.cache.dom() =~= tree::walked(t, t.root));
    assert(tree::trimmed(trimmed) =~= trimmed);
}

/// Only the root and expanded directories are ever wanted, and only while their
/// listings are missing: a tree asks for no more listings than it has expanded
/// directories, and its root's.
pub proof fn only_the_root_and_expanded_directories_are_wanted(t: TreeView)
    requires
        t.expanded.finite(),
    ensures
        match tree::first_missing(t, t.root) {
            Some(dir) => !t.cache.contains_key(path::parts(dir)) && (dir == t.root
                || t.expanded.contains(path::parts(dir))),
            None => true,
        },
{
    lemma_wanted(t, t.root);
}

proof fn lemma_wanted(t: TreeView, dir: Seq<char>)
    requires
        t.expanded.finite(),
    ensures
        tree::first_missing(t, dir) matches Some(missing) ==> !t.cache.contains_key(
            path::parts(missing),
        ) && (missing == dir || t.expanded.contains(path::parts(missing))),
    decreases tree::room(t, dir), 1nat, 0nat,
{
    lemma_wanted_entries(t, dir, tree::entries_of(t, dir));
}

proof fn lemma_wanted_entries(t: TreeView, dir: Seq<char>, list: Seq<EntryView>)
    requires
        t.expanded.finite(),
    ensures
        tree::first_missing_entries(t, dir, list) matches Some(missing) ==> !t.cache.contains_key(
            path::parts(missing),
        ) && t.expanded.contains(path::parts(missing)),
    decreases tree::room(t, dir), 0nat, list.len(),
{
    if list.len() > 0 {
        let e = list.first();
        lemma_wanted_entries(t, dir, list.drop_first());
        if tree::is_visible(e.name, t.show_hidden) && tree::is_open(t, dir, e)
            && path::is_entry_name(e.name) {
            tree::lemma_room_shrinks(t, dir, e.name);
            lemma_wanted(t, path::joined_path(dir, e.name));
        }
    }
}

/// What holds of one row: it shows an entry that may be shown, it lies below
/// `dir` by as many components as it is indented, and it is marked as expanded
/// exactly when it is a directory in the expanded set.
pub open spec fn is_sound_row(t: TreeView, dir: Seq<char>, depth: nat, row: RowView) -> bool {
    &&& tree::is_visible(row.name, t.show_hidden)
    &&& row.name != ".git"@
    &&& row.depth >= depth
    &&& path::is_under(row.path, dir)
    &&& path::parts(row.path).len() == path::parts(dir).len() + (row.depth - depth) + 1
    &&& row.expanded == (row.is_dir && t.expanded.contains(path::parts(row.path)))
}

/// Whether every listing in the cache is named as a directory's entries are.
pub open spec fn cache_is_named(t: TreeView) -> bool {
    forall|p: Place| #[trigger]
        t.cache.contains_key(p) ==> tree::well_named(t.cache[p].entries)
}

/// Every row of a tree lies inside its root, one component deeper for each level
/// of indent; `.git` is never among them, and a dotfile only while dotfiles
/// show.
pub proof fn every_row_is_inside_the_root(t: TreeView)
    requires
        t.expanded.finite(),
        cache_is_named(t),
    ensures
        forall|i: int|
            0 <= i < tree::walk(t, t.root, 0).len() ==> is_sound_row(
                t,
                t.root,
                0,
                #[trigger] tree::walk(t, t.root, 0)[i],
            ),
{
    lemma_sound_rows(t, t.root, 0);
}

proof fn lemma_sound_rows(t: TreeView, dir: Seq<char>, depth: nat)
    requires
        t.expanded.finite(),
        cache_is_named(t),
    ensures
        forall|i: int|
            0 <= i < tree::walk(t, dir, depth).len() ==> is_sound_row(
                t,
                dir,
                depth,
                #[trigger] tree::walk(t, dir, depth)[i],
            ),
    decreases tree::room(t, dir), 1nat, 0nat,
{
    let list = tree::entries_of(t, dir);
    lemma_sound_rows_of_entries(t, dir, depth, list);
    assert(tree::walk(t, dir, depth) == tree::walk_entries(t, dir, depth, list));
}

proof fn lemma_sound_rows_of_entries(
    t: TreeView,
    dir: Seq<char>,
    depth: nat,
    list: Seq<EntryView>,
)
    requires
        t.expanded.finite(),
        cache_is_named(t),
        tree::well_named(list),
    ensures
        forall|i: int|
            0 <= i < tree::walk_entries(t, dir, depth, list).len() ==> is_sound_row(
                t,
                dir,
                depth,
                #[trigger] tree::walk_entries(t, dir, depth, list)[i],
            ),
    decreases tree::room(t, dir), 0nat, list.len(),
{
    if list.len() > 0 {
        let e = list.first();
        let tail = list.drop_first();
        lemma_well_named_tail(list);
        lemma_sound_rows_of_entries(t, dir, depth, tail);
        let rest = tree::walk_entries(t, dir, depth, tail);
        let path = path::joined_path(dir, e.name);
        assert(path::is_entry_name(list[0].name));
        path::joining_adds_one_component(dir, e.name);
        let row = tree::row_of(t, dir, depth, e);
        let all = tree::walk_entries(t, dir, depth, list);
        if tree::is_visible(e.name, t.show_hidden) {
            assert(path::parts(path).take(path::parts(dir).len() as int) =~= path::parts(dir));
            assert(is_sound_row(t, dir, depth, row));
            if tree::is_open(t, dir, e) {
                tree::lemma_room_shrinks(t, dir, e.name);
                lemma_sound_rows(t, path, depth + 1);
                let inner = tree::walk(t, path, depth + 1);
                assert(all == seq![row] + inner + rest);
                assert forall|i: int| 0 <= i < all.len() implies is_sound_row(
                    t,
                    dir,
                    depth,
                    #[trigger] all[i],
                ) by {
                    if 0 < i <= inner.len() {
                        let r = inner[i - 1];
                        assert(all[i] == r);
                        assert(is_sound_row(t, path, depth + 1, r));
                        lemma_under_is_transitive(r.path, path, dir);
                    } else if i > inner.len() {
                        assert(all[i] == rest[i - 1 - inner.len()]);
                    }
                }
            } else {
                assert(all == seq![row] + rest);
                assert forall|i: int| 0 <= i < all.len() implies is_sound_row(
                    t,
                    dir,
                    depth,
                    #[trigger] all[i],
                ) by {
                    if i > 0 {
                        assert(all[i] == rest[i - 1]);
                    }
                }
            }
        }
    }
}

proof fn lemma_under_is_transitive(a: Seq<char>, b: Seq<char>, c: Seq<char>)
    requires
        path::is_under(a, b),
        path::is_under(b, c),
    ensures
        path::is_under(a, c),
{
    let n = path::parts(c).len() as int;
    assert(path::parts(a).take(n) =~= path::parts(a).take(path::parts(b).len() as int).take(n));
}

/// The rows that are indented so far, by name and kind.
pub open spec fn at_depth(rows: Seq<RowView>, depth: nat) -> Seq<(Seq<char>, bool)> {
    rows.filter(|r: RowView| r.depth == depth).map_values(|r: RowView| (r.name, r.is_dir))
}

/// The entries that may be shown, by name and kind.
pub open spec fn shown_entries(list: Seq<EntryView>, show_hidden: bool) -> Seq<(Seq<char>, bool)> {
    list.filter(|e: EntryView| tree::is_visible(e.name, show_hidden)).map_values(
        |e: EntryView| (e.name, e.is_dir),
    )
}

/// The rows of the top level are the visible entries of the root's listing, all
/// of them and in its order, whatever is expanded in between.
pub proof fn the_top_level_is_the_listing_of_the_root(t: TreeView)
    requires
        t.expanded.finite(),
    ensures
        at_depth(tree::walk(t, t.root, 0), 0) == shown_entries(
            tree::entries_of(t, t.root),
            t.show_hidden,
        ),
{
    lemma_level(t, t.root, 0, tree::entries_of(t, t.root));
    assert(tree::walk(t, t.root, 0) == tree::walk_entries(
        t,
        t.root,
        0,
        tree::entries_of(t, t.root),
    ));
}

/// The rows of any directory, likewise, at the depth it is walked at.
pub(crate) proof fn lemma_level(t: TreeView, dir: Seq<char>, depth: nat, list: Seq<EntryView>)
    requires
        t.expanded.finite(),
    ensures
        at_depth(tree::walk_entries(t, dir, depth, list), depth) == shown_entries(
            list,
            t.show_hidden,
        ),
    decreases list.len(),
{
    let here = |r: RowView| r.depth == depth;
    let name = |r: RowView| (r.name, r.is_dir);
    let may = |e: EntryView| tree::is_visible(e.name, t.show_hidden);
    let said = |e: EntryView| (e.name, e.is_dir);
    let all = tree::walk_entries(t, dir, depth, list);
    reveal_with_fuel(Seq::filter, 2);
    if list.len() == 0 {
        assert(at_depth(all, depth) =~= shown_entries(list, t.show_hidden));
    } else {
        let e = list.first();
        let row = tree::row_of(t, dir, depth, e);
        let tail = list.drop_first();
        let rest = tree::walk_entries(t, dir, depth, tail);
        lemma_level(t, dir, depth, tail);
        assert(list =~= seq![e] + tail);
        Seq::filter_distributes_over_add(seq![e], tail, may);
        assert(seq![e].drop_last() =~= Seq::<EntryView>::empty());
        if may(e) {
            assert(seq![e].filter(may) =~= seq![e]);
            assert(shown_entries(list, t.show_hidden) =~= seq![said(e)] + shown_entries(
                tail,
                t.show_hidden,
            ));
            assert(seq![row].drop_last() =~= Seq::<RowView>::empty());
            assert(seq![row].filter(here) =~= seq![row]);
            if tree::is_open(t, dir, e) && path::is_entry_name(e.name) {
                tree::lemma_room_shrinks(t, dir, e.name);
                let inner = tree::walk(t, path::joined_path(dir, e.name), depth + 1);
                lemma_deeper(t, path::joined_path(dir, e.name), depth + 1);
                lemma_none_at(inner, depth);
                assert(all == seq![row] + inner + rest);
                Seq::filter_distributes_over_add(seq![row] + inner, rest, here);
                Seq::filter_distributes_over_add(seq![row], inner, here);
            } else {
                assert(all == seq![row] + rest);
                Seq::filter_distributes_over_add(seq![row], rest, here);
            }
            assert(all.filter(here) =~= seq![row] + rest.filter(here));
            assert(at_depth(all, depth) =~= seq![name(row)] + at_depth(rest, depth));
        } else {
            assert(seq![e].filter(may) =~= Seq::<EntryView>::empty());
            assert(shown_entries(list, t.show_hidden) =~= shown_entries(tail, t.show_hidden));
        }
    }
}

/// No row is indented less than the walk that it comes from.
pub(crate) proof fn lemma_deeper(t: TreeView, dir: Seq<char>, depth: nat)
    requires
        t.expanded.finite(),
    ensures
        forall|i: int|
            0 <= i < tree::walk(t, dir, depth).len() ==> (#[trigger] tree::walk(
                t,
                dir,
                depth,
            )[i]).depth >= depth,
    decreases tree::room(t, dir), 1nat, 0nat,
{
    let list = tree::entries_of(t, dir);
    lemma_deeper_entries(t, dir, depth, list);
    assert(tree::walk(t, dir, depth) == tree::walk_entries(t, dir, depth, list));
}

proof fn lemma_deeper_entries(t: TreeView, dir: Seq<char>, depth: nat, list: Seq<EntryView>)
    requires
        t.expanded.finite(),
    ensures
        forall|i: int|
            0 <= i < tree::walk_entries(t, dir, depth, list).len() ==> (
            #[trigger] tree::walk_entries(t, dir, depth, list)[i]).depth >= depth,
    decreases tree::room(t, dir), 0nat, list.len(),
{
    if list.len() > 0 {
        let e = list.first();
        let tail = list.drop_first();
        let rest = tree::walk_entries(t, dir, depth, tail);
        let row = tree::row_of(t, dir, depth, e);
        let all = tree::walk_entries(t, dir, depth, list);
        lemma_deeper_entries(t, dir, depth, tail);
        if tree::is_visible(e.name, t.show_hidden) {
            let inner = if tree::is_open(t, dir, e) && path::is_entry_name(e.name) {
                tree::lemma_room_shrinks(t, dir, e.name);
                lemma_deeper(t, path::joined_path(dir, e.name), depth + 1);
                tree::walk(t, path::joined_path(dir, e.name), depth + 1)
            } else {
                Seq::empty()
            };
            assert(all =~= seq![row] + inner + rest);
            assert forall|i: int| 0 <= i < all.len() implies (#[trigger] all[i]).depth >= depth by {
                if 0 < i <= inner.len() {
                    assert(all[i] == inner[i - 1]);
                } else if i > inner.len() {
                    assert(all[i] == rest[i - 1 - inner.len()]);
                }
            }
        }
    }
}

proof fn lemma_none_at(rows: Seq<RowView>, depth: nat)
    requires
        forall|i: int| 0 <= i < rows.len() ==> (#[trigger] rows[i]).depth > depth,
    ensures
        rows.filter(|r: RowView| r.depth == depth) == Seq::<RowView>::empty(),
    decreases rows.len(),
{
    reveal(Seq::filter);
    if rows.len() > 0 {
        lemma_none_at(rows.drop_last(), depth);
    }
}

/// With nothing expanded, only the top level shows: no row is expanded or
/// indented, and only the root's listing is read.
pub proof fn folding_everything_leaves_the_top_level(t: TreeView)
    requires
        t.expanded == Set::<Place>::empty(),
    ensures
        tree::walked(t, t.root) == set![path::parts(t.root)],
        forall|i: int|
            #![trigger tree::walk(t, t.root, 0)[i]]
            0 <= i < tree::walk(t, t.root, 0).len() ==> !tree::walk(t, t.root, 0)[i].expanded
                && tree::walk(t, t.root, 0)[i].depth == 0,
{
    let list = tree::entries_of(t, t.root);
    lemma_flat_entries(t, t.root, list);
    assert(tree::walk(t, t.root, 0) == tree::walk_entries(t, t.root, 0, list));
    assert(tree::walked(t, t.root) =~= set![path::parts(t.root)]);
}

proof fn lemma_flat_entries(t: TreeView, dir: Seq<char>, list: Seq<EntryView>)
    requires
        t.expanded == Set::<Place>::empty(),
    ensures
        tree::walked_entries(t, dir, list) == Set::<Place>::empty(),
        forall|i: int|
            #![trigger tree::walk_entries(t, dir, 0, list)[i]]
            0 <= i < tree::walk_entries(t, dir, 0, list).len() ==> !tree::walk_entries(
                t,
                dir,
                0,
                list,
            )[i].expanded && tree::walk_entries(t, dir, 0, list)[i].depth == 0,
    decreases list.len(),
{
    if list.len() > 0 {
        let e = list.first();
        let rest = tree::walk_entries(t, dir, 0, list.drop_first());
        let all = tree::walk_entries(t, dir, 0, list);
        lemma_flat_entries(t, dir, list.drop_first());
        if tree::is_visible(e.name, t.show_hidden) {
            assert(all == seq![tree::row_of(t, dir, 0, e)] + rest);
            assert forall|i: int| 0 < i < all.len() implies !(#[trigger] all[i]).expanded
                && all[i].depth == 0 by {
                assert(all[i] == rest[i - 1]);
            }
        }
    }
}

// ---------------------------------------------------------------------------
// What is watched
// ---------------------------------------------------------------------------

/// The places of the rows that are expanded.
pub open spec fn opened(rows: Seq<RowView>) -> Set<Place> {
    Set::new(
        |p: Place|
            exists|i: int|
                0 <= i < rows.len() && (#[trigger] rows[i]).expanded && path::parts(rows[i].path)
                    == p,
    )
}

/// Whether no two rows are of the same path.
pub open spec fn are_distinct(rows: Seq<RowView>) -> bool {
    forall|i: int, j: int|
        0 <= i < j < rows.len() ==> path::parts((#[trigger] rows[i]).path) != path::parts(
            (#[trigger] rows[j]).path,
        )
}

/// Once the rows have been walked, what is watched is the root and every
/// directory that is open on the screen, and nothing that is folded away: one
/// more than there are expanded rows.
pub proof fn the_root_and_every_open_row_are_watched(t: TreeView)
    requires
        t.expanded.finite(),
        cache_is_named(t),
        tree::is_complete(t),
        are_distinct(tree::walk(t, t.root, 0)),
    ensures
        tree::trimmed(t).cache.dom() == opened(tree::walk(t, t.root, 0)).insert(
            path::parts(t.root),
        ),
        tree::trimmed(t).cache.dom().len() == 1 + tree::walk(t, t.root, 0).filter(
            |r: RowView| r.expanded,
        ).len(),
{
    let rows = tree::walk(t, t.root, 0);
    asking_again_gives_the_same_rows(t);
    lemma_walked_is_opened(t, t.root, 0);
    lemma_opened_count(rows);
    every_row_is_inside_the_root(t);
    assert(!opened(rows).contains(path::parts(t.root))) by {
        if opened(rows).contains(path::parts(t.root)) {
            let i = choose|i: int|
                0 <= i < rows.len() && (#[trigger] rows[i]).expanded && path::parts(rows[i].path)
                    == path::parts(t.root);
            assert(is_sound_row(t, t.root, 0, rows[i]));
        }
    }
}

proof fn lemma_opened_count(rows: Seq<RowView>)
    requires
        are_distinct(rows),
    ensures
        opened(rows).finite(),
        opened(rows).len() == rows.filter(|r: RowView| r.expanded).len(),
    decreases rows.len(),
{
    reveal(Seq::filter);
    if rows.len() == 0 {
        assert(opened(rows) =~= Set::<Place>::empty());
    } else {
        let fewer = rows.drop_last();
        let last = path::parts(rows.last().path);
        lemma_opened_count(fewer);
        lemma_opened_of_joined(fewer, seq![rows.last()]);
        assert(rows =~= fewer + seq![rows.last()]);
        if rows.last().expanded {
            assert(seq![rows.last()][0].expanded);
            assert(opened(seq![rows.last()]) =~= set![last]);
            assert(!opened(fewer).contains(last)) by {
                if opened(fewer).contains(last) {
                    let i = choose|i: int|
                        0 <= i < fewer.len() && (#[trigger] fewer[i]).expanded && path::parts(
                            fewer[i].path,
                        ) == last;
                    assert(rows[i] == fewer[i]);
                    assert(path::parts(rows[i].path) != path::parts(rows[rows.len() - 1].path));
                }
            }
            assert(opened(rows) =~= opened(fewer).insert(last));
        } else {
            assert(opened(seq![rows.last()]) =~= Set::<Place>::empty());
            assert(opened(rows) =~= opened(fewer));
        }
    }
}

proof fn lemma_opened_of_joined(a: Seq<RowView>, b: Seq<RowView>)
    ensures
        opened(a + b) == opened(a).union(opened(b)),
{
    let all = a + b;
    assert forall|p: Place| opened(all).contains(p) == (opened(a).contains(p) || opened(b).contains(p)) by {
        if opened(all).contains(p) {
            let i = choose|i: int|
                0 <= i < all.len() && (#[trigger] all[i]).expanded && path::parts(all[i].path) == p;
            if i < a.len() {
                assert(a[i] == all[i]);
            } else {
                assert(b[i - a.len()] == all[i]);
            }
        }
        if opened(a).contains(p) {
            let i = choose|i: int|
                0 <= i < a.len() && (#[trigger] a[i]).expanded && path::parts(a[i].path) == p;
            assert(all[i] == a[i]);
        }
        if opened(b).contains(p) {
            let i = choose|i: int|
                0 <= i < b.len() && (#[trigger] b[i]).expanded && path::parts(b[i].path) == p;
            assert(all[a.len() + i] == b[i]);
        }
    }
    assert(opened(all) =~= opened(a).union(opened(b)));
}

/// What a walk reads is the directory it starts from and every one it opens.
proof fn lemma_walked_is_opened(t: TreeView, dir: Seq<char>, depth: nat)
    requires
        t.expanded.finite(),
        cache_is_named(t),
    ensures
        tree::walked(t, dir) == opened(tree::walk(t, dir, depth)).insert(path::parts(dir)),
    decreases tree::room(t, dir), 1nat, 0nat,
{
    let list = tree::entries_of(t, dir);
    lemma_walked_entries_are_opened(t, dir, depth, list);
    assert(tree::walk(t, dir, depth) == tree::walk_entries(t, dir, depth, list));
    assert(tree::walked(t, dir) == tree::walked_entries(t, dir, list).insert(path::parts(dir)));
}

proof fn lemma_walked_entries_are_opened(
    t: TreeView,
    dir: Seq<char>,
    depth: nat,
    list: Seq<EntryView>,
)
    requires
        t.expanded.finite(),
        cache_is_named(t),
        tree::well_named(list),
    ensures
        tree::walked_entries(t, dir, list) == opened(tree::walk_entries(t, dir, depth, list)),
    decreases tree::room(t, dir), 0nat, list.len(),
{
    if list.len() == 0 {
        assert(opened(Seq::<RowView>::empty()) =~= Set::<Place>::empty());
    } else {
        let e = list.first();
        let tail = list.drop_first();
        lemma_well_named_tail(list);
        lemma_walked_entries_are_opened(t, dir, depth, tail);
        let rest = tree::walk_entries(t, dir, depth, tail);
        let child = path::joined_path(dir, e.name);
        let row = tree::row_of(t, dir, depth, e);
        let all = tree::walk_entries(t, dir, depth, list);
        assert(path::is_entry_name(list[0].name));
        if tree::is_visible(e.name, t.show_hidden) {
            if tree::is_open(t, dir, e) {
                tree::lemma_room_shrinks(t, dir, e.name);
                lemma_walked_is_opened(t, child, depth + 1);
                let inner = tree::walk(t, child, depth + 1);
                assert(all == seq![row] + inner + rest);
                lemma_opened_of_joined(seq![row] + inner, rest);
                lemma_opened_of_joined(seq![row], inner);
                assert(seq![row][0].expanded);
                assert(opened(seq![row]) =~= set![path::parts(child)]);
                assert(tree::walked_entries(t, dir, list) =~= opened(all));
            } else {
                assert(all == seq![row] + rest);
                lemma_opened_of_joined(seq![row], rest);
                assert(opened(seq![row]) =~= Set::<Place>::empty());
                assert(opened(all) =~= opened(rest));
            }
        }
    }
}

pub(crate) proof fn lemma_well_named_tail(list: Seq<EntryView>)
    requires
        tree::well_named(list),
        list.len() > 0,
    ensures
        tree::well_named(list.drop_first()),
{
    let tail = list.drop_first();
    assert forall|i: int| 0 <= i < tail.len() implies path::is_entry_name(#[trigger] tail[i].name) by {
        assert(tail[i] == list[i + 1]);
    }
}

/// A rescan stops watching exactly the directories that the disk has moved on
/// from, and keeps every other listing as it is.
pub proof fn a_rescan_drops_what_has_moved_on(t: TreeView, disk: Map<Place, Option<i128>>)
    requires
        t.cache.dom().finite(),
    ensures
        tree::rescanned(t, disk).cache.dom().len() == t.cache.dom().len() - tree::moved_on(
            t,
            disk,
        ).len(),
        forall|p: Place| #[trigger]
            tree::rescanned(t, disk).cache.contains_key(p) <==> t.cache.contains_key(p)
                && t.cache[p].stamp == disk[p],
        forall|p: Place| #[trigger]
            tree::rescanned(t, disk).cache.contains_key(p) ==> tree::rescanned(t, disk).cache[p]
                == t.cache[p],
{
    tree::lemma_rescan_counts(t, disk);
}

/// A still disk is nothing to act on: a second rescan that finds what the first
/// one found drops nothing.
pub proof fn a_still_disk_moves_nothing(
    t: TreeView,
    disk: Map<Place, Option<i128>>,
    again: Map<Place, Option<i128>>,
)
    requires
        forall|p: Place| #[trigger]
            tree::rescanned(t, disk).cache.contains_key(p) ==> again[p] == disk[p],
    ensures
        tree::moved_on(tree::rescanned(t, disk), again) == Set::<Place>::empty(),
        tree::rescanned(tree::rescanned(t, disk), again) == tree::rescanned(t, disk),
{
    let left = tree::rescanned(t, disk);
    assert forall|p: Place| !tree::moved_on(left, again).contains(p) by {
        if left.cache.contains_key(p) {
            assert(again[p] == disk[p]);
        }
    }
    assert(tree::moved_on(left, again) =~= Set::<Place>::empty());
    assert(tree::rescanned(left, again).cache =~= left.cache);
}

// ---------------------------------------------------------------------------
// Dotfiles
// ---------------------------------------------------------------------------

/// Whether a component of a row's path, past the first `from`, begins with a dot.
pub open spec fn is_dotted(row: RowView, from: int) -> bool {
    exists|i: int|
        from <= i < path::parts(row.path).len() && starts_with_dot(
            #[trigger] path::parts(row.path)[i],
        )
}

pub open spec fn starts_with_dot(name: Seq<char>) -> bool {
    name.len() > 0 && name[0] == '.'
}

/// The rows with no such component.
pub open spec fn undotted(rows: Seq<RowView>, from: int) -> Seq<RowView> {
    rows.filter(|r: RowView| !is_dotted(r, from))
}

/// The tree with dotfiles shown, or not.
pub open spec fn showing(t: TreeView, show_hidden: bool) -> TreeView {
    TreeView { show_hidden, ..t }
}

/// Hiding dotfiles takes out the rows with a dotted component below the root, and
/// so whatever is open inside a hidden directory; the others stay as they are and
/// in their order. It needs nothing read that was not already, and `.git` shows
/// neither way.
pub proof fn hiding_dotfiles_leaves_the_other_rows(t: TreeView)
    requires
        t.expanded.finite(),
        cache_is_named(t),
    ensures
        tree::walk(showing(t, false), t.root, 0) == undotted(
            tree::walk(showing(t, true), t.root, 0),
            path::parts(t.root).len() as int,
        ),
        tree::is_complete(showing(t, true)) ==> tree::is_complete(showing(t, false)),
        forall|i: int|
            0 <= i < tree::walk(showing(t, true), t.root, 0).len() ==> (#[trigger] tree::walk(
                showing(t, true),
                t.root,
                0,
            )[i]).name != ".git"@,
{
    let a = showing(t, true);
    let b = showing(t, false);
    let from = path::parts(t.root).len() as int;
    lemma_undotted(t, t.root, 0, from);
    lemma_sound_rows(a, t.root, 0);
    assert forall|i: int| 0 <= i < tree::walk(a, t.root, 0).len() implies (#[trigger] tree::walk(
        a,
        t.root,
        0,
    )[i]).name != ".git"@ by {
        assert(is_sound_row(a, t.root, 0, tree::walk(a, t.root, 0)[i]));
    }
    if tree::is_complete(a) {
        complete_means_every_walked_directory_is_cached(a);
        complete_means_every_walked_directory_is_cached(b);
        lemma_walked_is_opened(a, t.root, 0);
        lemma_walked_is_opened(b, t.root, 0);
        let all = tree::walk(a, t.root, 0);
        let some = tree::walk(b, t.root, 0);
        assert forall|p: Place| opened(some).contains(p) implies opened(all).contains(p) by {
            let i = choose|i: int|
                0 <= i < some.len() && (#[trigger] some[i]).expanded && path::parts(some[i].path)
                    == p;
            all.lemma_filter_contains_rev(|r: RowView| !is_dotted(r, from), some[i]);
            let j = all.index_of(some[i]);
            assert(all[j].expanded);
        }
    }
}

proof fn lemma_undotted(t: TreeView, dir: Seq<char>, depth: nat, from: int)
    requires
        t.expanded.finite(),
        cache_is_named(t),
        0 <= from <= path::parts(dir).len(),
        forall|i: int|
            from <= i < path::parts(dir).len() ==> !starts_with_dot(
                #[trigger] path::parts(dir)[i],
            ),
    ensures
        tree::walk(showing(t, false), dir, depth) == undotted(
            tree::walk(showing(t, true), dir, depth),
            from,
        ),
    decreases tree::room(t, dir), 1nat, 0nat,
{
    let list = tree::entries_of(t, dir);
    lemma_undotted_entries(t, dir, depth, list, from);
    assert(tree::entries_of(showing(t, true), dir) == list);
    assert(tree::entries_of(showing(t, false), dir) == list);
    assert(tree::walk(showing(t, true), dir, depth) == tree::walk_entries(
        showing(t, true),
        dir,
        depth,
        list,
    ));
    assert(tree::walk(showing(t, false), dir, depth) == tree::walk_entries(
        showing(t, false),
        dir,
        depth,
        list,
    ));
}

proof fn lemma_undotted_entries(
    t: TreeView,
    dir: Seq<char>,
    depth: nat,
    list: Seq<EntryView>,
    from: int,
)
    requires
        t.expanded.finite(),
        cache_is_named(t),
        tree::well_named(list),
        0 <= from <= path::parts(dir).len(),
        forall|i: int|
            from <= i < path::parts(dir).len() ==> !starts_with_dot(
                #[trigger] path::parts(dir)[i],
            ),
    ensures
        tree::walk_entries(showing(t, false), dir, depth, list) == undotted(
            tree::walk_entries(showing(t, true), dir, depth, list),
            from,
        ),
    decreases tree::room(t, dir), 0nat, list.len(),
{
    let a = showing(t, true);
    let b = showing(t, false);
    let keep = |r: RowView| !is_dotted(r, from);
    reveal(Seq::filter);
    if list.len() > 0 {
        let e = list.first();
        let tail = list.drop_first();
        lemma_well_named_tail(list);
        lemma_undotted_entries(t, dir, depth, tail, from);
        assert(path::is_entry_name(list[0].name));
        path::joining_adds_one_component(dir, e.name);
        let child = path::joined_path(dir, e.name);
        let row = tree::row_of(a, dir, depth, e);
        assert(tree::row_of(b, dir, depth, e) == row);
        assert(path::parts(child)[path::parts(dir).len() as int] == e.name);
        let all = tree::walk_entries(a, dir, depth, list);
        let some = tree::walk_entries(b, dir, depth, list);
        let rest_a = tree::walk_entries(a, dir, depth, tail);
        let rest_b = tree::walk_entries(b, dir, depth, tail);
        if e.name != ".git"@ {
            let open = tree::is_open(t, dir, e);
            assert(tree::is_open(a, dir, e) == open);
            assert(tree::is_open(b, dir, e) == open);
            let inner = if open {
                tree::walk(a, child, depth + 1)
            } else {
                Seq::empty()
            };
            if open {
                tree::lemma_room_shrinks(t, dir, e.name);
                lemma_sound_rows(a, child, depth + 1);
            }
            assert(all =~= seq![row] + inner + rest_a);
            Seq::filter_distributes_over_add(seq![row] + inner, rest_a, keep);
            Seq::filter_distributes_over_add(seq![row], inner, keep);
            assert(seq![row].drop_last() =~= Seq::<RowView>::empty());
            assert(seq![row].drop_last().filter(keep) =~= Seq::<RowView>::empty());
            if starts_with_dot(e.name) {
                assert(is_dotted(row, from));
                assert(seq![row].filter(keep) =~= Seq::<RowView>::empty());
                assert forall|i: int| 0 <= i < inner.len() implies is_dotted(
                    #[trigger] inner[i],
                    from,
                ) by {
                    let r = inner[i];
                    assert(is_sound_row(a, child, depth + 1, r));
                    let n = path::parts(dir).len() as int;
                    assert(path::parts(r.path).take(path::parts(child).len() as int)[n]
                        == path::parts(r.path)[n]);
                    assert(starts_with_dot(path::parts(r.path)[n]));
                }
                lemma_all_dotted(inner, from);
                assert(some == rest_b);
                assert(undotted(all, from) =~= undotted(rest_a, from));
            } else {
                assert forall|i: int|
                    from <= i < path::parts(child).len() implies !starts_with_dot(
                    #[trigger] path::parts(child)[i],
                ) by {
                    if i < path::parts(dir).len() {
                        assert(path::parts(child)[i] == path::parts(dir)[i]);
                    }
                }
                assert(!is_dotted(row, from));
                assert(seq![row].filter(keep) =~= seq![row]);
                if open {
                    lemma_undotted(t, child, depth + 1, from);
                    assert(some == seq![row] + tree::walk(b, child, depth + 1) + rest_b);
                } else {
                    assert(some == seq![row] + rest_b);
                    assert(inner.filter(keep) =~= Seq::<RowView>::empty());
                }
                assert(some =~= undotted(all, from));
            }
        }
    }
}

proof fn lemma_all_dotted(rows: Seq<RowView>, from: int)
    requires
        forall|i: int| 0 <= i < rows.len() ==> is_dotted(#[trigger] rows[i], from),
    ensures
        undotted(rows, from) == Seq::<RowView>::empty(),
    decreases rows.len(),
{
    reveal(Seq::filter);
    if rows.len() > 0 {
        lemma_all_dotted(rows.drop_last(), from);
    }
}

/// What a tree is once one thing after another has been done to it.
pub open spec fn after_all(t: TreeView, changes: Seq<Change>) -> TreeView
    decreases changes.len(),
{
    if changes.len() == 0 {
        t
    } else {
        tree::changed(after_all(t, changes.drop_last()), changes.last())
    }
}

/// The root never moves: whatever is done to a tree, and however often, it stays
/// the one that the tree was made with.
pub proof fn the_root_stays_where_it_is(t: TreeView, changes: Seq<Change>)
    ensures
        after_all(t, changes).root == t.root,
    decreases changes.len(),
{
    if changes.len() > 0 {
        the_root_stays_where_it_is(t, changes.drop_last());
    }
}

/// Showing dotfiles or hiding them changes nothing but that: the root, what is
/// expanded and every listing stay, and doing it again either way gives what
/// doing it once would have.
pub proof fn showing_dotfiles_changes_nothing_else(t: TreeView, show: bool, again: bool)
    ensures
        tree::changed(t, Change::ShowHidden(show)) == (TreeView { show_hidden: show, ..t }),
        tree::changed(tree::changed(t, Change::ShowHidden(show)), Change::ShowHidden(again))
            == tree::changed(t, Change::ShowHidden(again)),
{
}

/// Toggling a directory twice leaves the tree as it was.
pub proof fn toggling_twice_changes_nothing(t: TreeView, path: Seq<char>)
    ensures
        tree::toggled(tree::toggled(t, path), path) == t,
{
    assert(tree::toggled(tree::toggled(t, path), path) =~= t);
}

} // verus!
