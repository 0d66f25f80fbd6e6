//! What every event does to the pane, and what every frame does to the picture on
//! it, stated on the pane before and after.
use crate::pane;
use crate::pane::{App, Event, Key, Mouse, Picture};
use crate::path;
use crate::rect;
use crate::rect::Rect;
use crate::row_laws;
use crate::rows;
use crate::text;
use crate::tree;
use crate::tree::{Place, RowView, TreeView};
use vstd::prelude::*;

verus! {

// ---------------------------------------------------------------------------
// Stepping out
// ---------------------------------------------------------------------------

/// Stepping out goes up to the closest row that is indented less, and nowhere
/// where every row above is indented at least as far.
pub proof fn stepping_out_passes_over_what_is_indented_as_far(
    all: Seq<RowView>,
    at: nat,
    depth: nat,
)
    requires
        at <= all.len(),
    ensures
        match pane::parent_row(all, at, depth) {
            Some(k) => {
                &&& k < at
                &&& all[k as int].depth < depth
                &&& forall|j: int| k < j < at ==> (#[trigger] all[j]).depth >= depth
            },
            None => forall|j: int| 0 <= j < at ==> (#[trigger] all[j]).depth >= depth,
        },
    decreases at,
{
    if at > 0 && all[at - 1].depth >= depth {
        stepping_out_passes_over_what_is_indented_as_far(all, (at - 1) as nat, depth);
    }
}

/// The row that the cursor is on.
pub open spec fn under_the_cursor(app: App) -> RowView {
    app.rows@[app.selected as int]@
}

/// Left on anything but an open directory goes to the row of the directory that it
/// is in: an open one above it, whose path is its own without the last component.
/// On a row of the top level it does nothing. The rows are those of some tree.
pub proof fn left_goes_to_the_directory_it_is_in(
    before: App,
    after: App,
    asked: bool,
    control: bool,
    t: TreeView,
)
    requires
        before.wf(),
        t.expanded.finite(),
        rows::cache_is_named(t),
        tree::rows_view(before.rows@) == tree::walk(t, t.root, 0),
        before.rows@.len() > 0,
        !(under_the_cursor(before).is_dir && under_the_cursor(before).expanded),
        pane::is_handled(before, after, asked, Event::Press(Key::Left, control)),
    ensures
        !asked,
        under_the_cursor(before).depth == 0 ==> after == before,
        under_the_cursor(before).depth > 0 ==> {
            let row = under_the_cursor(before);
            &&& after == (App { selected: after.selected, stale: true, follow: true, ..before })
            &&& after.selected < before.selected
            &&& under_the_cursor(after).is_dir
            &&& under_the_cursor(after).expanded
            &&& under_the_cursor(after).depth + 1 == row.depth
            &&& path::parts(under_the_cursor(after).path) == path::parts(row.path).drop_last()
        },
{
    let all = tree::rows_view(before.rows@);
    let i = before.selected as int;
    assert(all[i] == under_the_cursor(before));
    stepping_out_passes_over_what_is_indented_as_far(all, i as nat, all[i].depth);
    row_laws::every_indented_row_is_below_its_directory(t, i);
    if all[i].depth > 0 {
        let k = choose|k: int| #[trigger] row_laws::is_directory_of(all, k, i);
        let parent = pane::parent_row(all, i as nat, all[i].depth);
        assert(parent == Some(k as nat)) by {
            match parent {
                Some(m) => {
                    if m < k {
                        assert(all[k].depth >= all[i].depth);
                    } else if m > k {
                        assert(all[m as int].depth >= all[i].depth);
                    }
                },
                None => {
                    assert(all[k].depth >= all[i].depth);
                },
            }
        }
        assert(under_the_cursor(after) == all[k]);
        assert(path::parts(all[i].path).drop_last() =~= path::parts(all[k].path));
    }
}

/// Left on an open directory folds that one and asks for the rows; nothing else
/// changes, and every other directory stays as it was.
pub proof fn left_folds_an_open_directory(
    before: App,
    after: App,
    asked: bool,
    control: bool,
    p: Place,
)
    requires
        before.wf(),
        before.rows@.len() > 0,
        under_the_cursor(before).is_dir,
        under_the_cursor(before).expanded,
        pane::is_handled(before, after, asked, Event::Press(Key::Left, control)),
    ensures
        asked,
        after == (App { tree: after.tree, ..before }),
        after.tree@ == (TreeView { expanded: after.tree@.expanded, ..before.tree@ }),
        after.tree@.expanded.contains(p) <==> before.tree@.expanded.contains(p) && p
            != path::parts(under_the_cursor(before).path),
{
}

/// Right on a folded directory opens that one and asks for the rows; nothing else
/// changes. On anything else it does nothing at all.
pub proof fn right_opens_a_folded_directory(
    before: App,
    after: App,
    asked: bool,
    control: bool,
    p: Place,
)
    requires
        before.wf(),
        before.rows@.len() > 0,
        pane::is_handled(before, after, asked, Event::Press(Key::Right, control)),
    ensures
        ({
            let row = under_the_cursor(before);
            let opens = row.is_dir && !row.expanded;
            &&& asked == opens
            &&& after == (App { tree: after.tree, ..before })
            &&& !opens ==> after == before
            &&& opens ==> after.tree@ == (TreeView {
                expanded: after.tree@.expanded,
                ..before.tree@
            })
            &&& opens ==> (after.tree@.expanded.contains(p) <==> before.tree@.expanded.contains(p)
                || p == path::parts(row.path))
        }),
{
}

/// Up and Down move the cursor by one row and stop at the first and the last;
/// either way the preview is to be loaded and the viewport follows, and nothing
/// else changes.
pub proof fn up_and_down_move_by_one_row(
    before: App,
    after: App,
    asked: bool,
    key: Key,
    control: bool,
)
    requires
        before.wf(),
        before.rows@.len() > 0,
        key == Key::Up || key == Key::Down,
        pane::is_handled(before, after, asked, Event::Press(key, control)),
    ensures
        !asked,
        after == (App { selected: after.selected, stale: true, follow: true, ..before }),
        key == Key::Up && before.selected > 0 ==> after.selected == before.selected - 1,
        key == Key::Up && before.selected == 0 ==> after.selected == 0,
        key == Key::Down && before.selected + 1 < before.rows@.len() ==> after.selected
            == before.selected + 1,
        key == Key::Down && before.selected + 1 >= before.rows@.len() ==> after.selected
            == before.selected,
{
    assert(before.rows.len() == before.rows@.len());
}

/// A move by any number of rows goes that far, or as far as there are rows.
pub proof fn a_move_goes_as_far_as_there_are_rows(before: App, after: App, delta: int)
    requires
        before.wf(),
        before.rows@.len() > 0,
        isize::MIN <= delta <= isize::MAX,
        pane::is_moved(before, after, delta),
    ensures
        0 <= before.selected + delta < before.rows@.len() ==> after.selected == before.selected
            + delta,
        before.selected + delta < 0 ==> after.selected == 0,
        before.selected + delta >= before.rows@.len() ==> after.selected == before.rows@.len() - 1,
        after.stale && after.follow,
        after == (App { selected: after.selected, stale: true, follow: true, ..before }),
{
    assert(before.rows.len() == before.rows@.len());
}

/// Enter on a directory opens it where it is folded and folds it where it is open,
/// by what the tree holds; on a file it drops every listing. Either way the rows
/// and the preview are read again, and the cursor stays.
pub proof fn enter_turns_a_directory_or_reads_again(
    before: App,
    after: App,
    asked: bool,
    control: bool,
    p: Place,
)
    requires
        before.wf(),
        before.rows@.len() > 0,
        pane::is_handled(before, after, asked, Event::Press(Key::Enter, control)),
    ensures
        ({
            let row = under_the_cursor(before);
            let here = path::parts(row.path);
            &&& asked
            &&& after.stale
            &&& after == (App { tree: after.tree, stale: true, ..before })
            &&& after.tree@.root == before.tree@.root
            &&& after.tree@.show_hidden == before.tree@.show_hidden
            &&& row.is_dir ==> after.tree@.cache == before.tree@.cache
            &&& row.is_dir ==> (after.tree@.expanded.contains(here)
                <==> !before.tree@.expanded.contains(here))
            &&& p != here ==> (after.tree@.expanded.contains(p) <==> before.tree@.expanded.contains(
                p,
            ))
            &&& !row.is_dir ==> !after.tree@.cache.contains_key(p)
            &&& !row.is_dir ==> after.tree@.expanded == before.tree@.expanded
        }),
{
}

/// With no rows, no key but Ctrl+C does anything.
pub proof fn without_rows_keys_do_nothing(before: App, after: App, asked: bool, key: Key)
    requires
        before.wf(),
        before.rows@.len() == 0,
        pane::is_handled(before, after, asked, Event::Press(key, false)),
    ensures
        !asked && after == before,
{
}

/// Ctrl+C quits and does nothing else; a plain `c`, any other character with or
/// without Ctrl, and anything that is neither a key nor the mouse do nothing.
pub proof fn only_control_c_quits(before: App, after: App, asked: bool, event: Event)
    requires
        before.wf(),
        pane::is_handled(before, after, asked, event),
    ensures
        after.quit <==> before.quit || event == Event::Press(Key::Char('c'), true),
        event == Event::Press(Key::Char('c'), true) ==> !asked && after == (App {
            quit: true,
            ..before
        }),
        event is Other ==> !asked && after == before,
        (event matches Event::Press(key, control) ==> (key is Other || (key is Char && !(control
            && key == Key::Char('c')))) ==> !asked && after == before),
        (event matches Event::Mouse(kind, _, _) ==> (kind is Other ==> !asked && after == before)),
{
}

/// A click on a row of the tree selects that row, the one as far below the first
/// row shown as the pointer is below the top; on a directory it turns that one,
/// and a click anywhere else does nothing.
pub proof fn a_click_selects_the_row_under_it(
    before: App,
    after: App,
    asked: bool,
    column: u16,
    row: u16,
    p: Place,
)
    requires
        before.wf(),
        rect::is_bounded(before.tree_body),
        pane::is_handled(before, after, asked, Event::Mouse(Mouse::LeftDown, column, row)),
    ensures
        ({
            let body = before.tree_body;
            let inside = body.x <= column < body.x + body.width && body.y <= row < body.y
                + body.height;
            let index = before.offset + (row - body.y);
            let hit = inside && index < before.rows@.len();
            let clicked = before.rows@[index]@;
            let here = path::parts(clicked.path);
            &&& !hit ==> !asked && after == before
            &&& hit ==> after.selected == index
            &&& hit ==> after == (App {
                tree: after.tree,
                selected: after.selected,
                stale: true,
                follow: true,
                ..before
            })
            &&& hit ==> asked == clicked.is_dir
            &&& hit && !clicked.is_dir ==> after.tree == before.tree
            &&& hit && clicked.is_dir ==> after.tree@ == (TreeView {
                expanded: after.tree@.expanded,
                ..before.tree@
            })
            &&& hit && clicked.is_dir ==> (after.tree@.expanded.contains(here)
                <==> !before.tree@.expanded.contains(here))
            &&& hit && p != here ==> (after.tree@.expanded.contains(p)
                <==> before.tree@.expanded.contains(p))
        }),
{
    assert(before.rows.len() == before.rows@.len());
}

/// The wheel moves whichever half it is over by three rows, up or down, and stops
/// at the ends: over the preview the document and nothing of the tree, over the
/// tree its viewport and not the cursor.
pub proof fn the_wheel_moves_the_half_it_is_over(
    before: App,
    after: App,
    asked: bool,
    down: bool,
    column: u16,
    row: u16,
)
    requires
        before.wf(),
        pane::is_handled(
            before,
            after,
            asked,
            Event::Mouse(
                if down {
                    Mouse::ScrollDown
                } else {
                    Mouse::ScrollUp
                },
                column,
                row,
            ),
        ),
    ensures
        !asked,
        after.selected == before.selected && after.rows == before.rows && after.tree
            == before.tree,
        column >= before.body.x ==> {
            let last = before.doc.rows@.len() - 1;
            let moved = before.doc.scroll + (if down {
                3int
            } else {
                -3int
            });
            &&& after == (App { doc: after.doc, ..before })
            &&& after.doc@ == before.doc@
            &&& 0 <= moved <= last ==> after.doc.scroll == moved
            &&& moved < 0 ==> after.doc.scroll == 0
            &&& moved > last && last >= 0 ==> after.doc.scroll == last
        },
        column < before.body.x ==> {
            &&& after == (App { offset: after.offset, follow: false, ..before })
            &&& down && before.offset + 3 <= usize::MAX ==> after.offset == before.offset + 3
            &&& !down && before.offset >= 3 ==> after.offset == before.offset - 3
            &&& !down && before.offset < 3 ==> after.offset == 0
        },
{
    assert(before.doc.rows.len() == before.doc.rows@.len());
}

// ---------------------------------------------------------------------------
// The cursor when the rows change
// ---------------------------------------------------------------------------

/// When the rows change and the path that the cursor was on has no row any more,
/// the cursor stays at its index, or goes to the last row where there are fewer.
pub proof fn a_cursor_without_its_path_stays_at_its_index(
    before: Seq<RowView>,
    selected: nat,
    after: Seq<RowView>,
)
    requires
        selected < before.len() ==> forall|i: int|
            0 <= i < after.len() ==> path::parts((#[trigger] after[i]).path) != path::parts(
                before[selected as int].path,
            ),
    ensures
        selected < after.len() ==> pane::kept_selection(before, selected, after) == selected,
        selected >= after.len() > 0 ==> pane::kept_selection(before, selected, after)
            == after.len() - 1,
        after.len() == 0 ==> pane::kept_selection(before, selected, after) == 0,
{
    if selected < before.len() {
        lemma_no_row(after, path::parts(before[selected as int].path));
    }
}

proof fn lemma_no_row(all: Seq<RowView>, p: Place)
    requires
        forall|i: int| 0 <= i < all.len() ==> path::parts((#[trigger] all[i]).path) != p,
    ensures
        pane::row_index(all, p) == all.len(),
    decreases all.len(),
{
    if all.len() > 0 {
        assert(path::parts(all[0].path) != p);
        let rest = all.drop_first();
        assert forall|i: int| 0 <= i < rest.len() implies path::parts((#[trigger] rest[i]).path)
            != p by {
            assert(rest[i] == all[i + 1]);
        }
        lemma_no_row(rest, p);
    }
}

/// Where several rows are of the path that the cursor was on, it goes to the first
/// of them.
pub proof fn the_cursor_goes_to_the_first_row_of_its_path(
    before: Seq<RowView>,
    selected: nat,
    after: Seq<RowView>,
    at: int,
)
    requires
        selected < before.len(),
        0 <= at < after.len(),
        path::parts(after[at].path) == path::parts(before[selected as int].path),
    ensures
        pane::kept_selection(before, selected, after) <= at,
{
    lemma_first_row(after, path::parts(before[selected as int].path), at);
}

proof fn lemma_first_row(all: Seq<RowView>, p: Place, at: int)
    requires
        0 <= at < all.len(),
        path::parts(all[at].path) == p,
    ensures
        pane::row_index(all, p) <= at,
    decreases all.len(),
{
    if path::parts(all.first().path) != p {
        lemma_first_row(all.drop_first(), p, at - 1);
    }
}

// ---------------------------------------------------------------------------
// The picture
// ---------------------------------------------------------------------------

/// Whether a rectangle has the size of `cells` as far as the body has room, and
/// stands in the middle of what is left.
pub open spec fn is_centred(at: Rect, body: Rect, cells: (u16, u16)) -> bool {
    &&& at.width == (if cells.0 <= body.width {
        cells.0
    } else {
        body.width
    })
    &&& at.height == (if cells.1 <= body.height {
        cells.1
    } else {
        body.height
    })
    &&& at.x == body.x + (body.width - at.width) / 2
    &&& at.y == body.y + (body.height - at.height) / 2
}

/// A frame settles the picture: with a graphics layer, a preview that has caught up
/// and a picture that was built for the body there is, what is on the pane after
/// it is the loaded picture in the middle of the body, whatever was there before;
/// and nothing where none is loaded.
pub proof fn a_frame_settles_the_picture(before: App, after: App)
    requires
        before.wf(),
        before.cell is Some,
        !before.stale,
        before.thumb is Some ==> before.thumb_body == before.body,
        pane::placed_at(after) == pane::placed_after(before),
    ensures
        match before.thumb {
            Some((path, thumb)) => match after.placed {
                Some((shown, at)) => path::parts(shown@) == path::parts(path@) && is_centred(
                    at,
                    before.body,
                    thumb.cells,
                ),
                None => false,
            },
            None => after.placed is None,
        },
{
}

/// What a frame asks of the graphics layer comes to what is on the pane after it:
/// the picture asked for is the loaded one, on the rectangle asked for; and what is
/// left or hidden is left or hidden.
pub proof fn a_frame_does_what_it_asks(before: App, after: App)
    requires
        before.wf(),
        pane::placed_at(after) == pane::placed_after(before),
    ensures
        match pane::frame_action(before) {
            Picture::Leave => match (before.placed, after.placed) {
                (Some((a, x)), Some((b, y))) => a@ == b@ && x == y,
                (None, None) => true,
                _ => false,
            },
            Picture::Hide => after.placed is None && before.placed is Some,
            Picture::Show(at) => match (before.thumb, after.placed) {
                (Some((path, _)), Some((shown, there))) => shown@ == path@ && there == at,
                _ => false,
            },
        },
{
}

/// With no layer, with a preview that has not caught up, or with a picture built
/// for a body that has changed since, a frame leaves what is on the pane.
pub proof fn an_unsettled_frame_leaves_the_pane(before: App)
    requires
        before.wf(),
        before.cell is None || before.stale || (before.thumb is Some && before.thumb_body
            != before.body),
    ensures
        pane::frame_action(before) == Picture::Leave,
{
}

/// A picture is to be loaded again exactly when the body it was built for is not
/// the one there is.
pub proof fn a_resize_outgrows_the_picture(app: App)
    ensures
        pane::is_outgrown(app) <==> app.cell is Some && app.thumb is Some && app.thumb_body
            != app.body,
{
}

/// A picture is sent for a path and a place, and sent only when either is not what
/// is up already: with one loaded the answer is to leave the pane exactly when
/// that path is up on that rectangle, and otherwise to show it there; with none
/// it is to hide what is up, if anything is.
pub proof fn a_picture_is_sent_when_its_path_or_place_changes(
    path: Seq<char>,
    cells: (u16, u16),
    body: Rect,
    placed: Option<(Seq<char>, Rect)>,
)
    requires
        rect::is_bounded(body),
    ensures
        match pane::action_for(false, Some((path, cells)), body, placed) {
            Picture::Leave => match placed {
                Some((shown, at)) => path::parts(shown) == path::parts(path) && is_centred(
                    at,
                    body,
                    cells,
                ),
                None => false,
            },
            Picture::Show(at) => is_centred(at, body, cells) && match placed {
                Some((shown, there)) => !(path::parts(shown) == path::parts(path) && there == at),
                None => true,
            },
            Picture::Hide => false,
        },
        pane::action_for(false, None, body, placed) == (if placed is Some {
            Picture::Hide
        } else {
            Picture::Leave
        }),
{
}

/// A picture is wanted for a document that has one, once there is a layer to draw
/// it on and a body to draw it in: as large as the body, in cells of the layer's
/// size.
pub proof fn a_picture_is_wanted_for_the_body(app: App)
    ensures
        match pane::wanted_picture(app) {
            Some(wanted) => {
                &&& app.doc.media == Some(wanted.kind)
                &&& app.cell == Some(wanted.cell)
                &&& wanted.max_cells.0 == app.body.width > 0
                &&& wanted.max_cells.1 == app.body.height > 0
            },
            None => app.doc.media is None || app.cell is None || app.body.width == 0
                || app.body.height == 0,
        },
{
}

/// The caption of a picture gives its width and height, and then what the document
/// said.
pub proof fn a_caption_gives_both_sides(source: (u32, u32), info: Seq<char>)
    ensures
        pane::captioned(source, info) == text::decimal(source.0 as nat) + seq![' ', '×', ' ']
            + text::decimal(source.1 as nat) + seq![' ', ' ', ' '] + info,
{
    reveal_strlit(" × ");
    reveal_strlit("   ");
    assert(" × "@ =~= seq![' ', '×', ' ']);
    assert("   "@ =~= seq![' ', ' ', ' ']);
}

} // verus!
