//! The whole of grove between one event and the next: the tree, the cursor, the
//! document it is on, and the picture that goes with it. The root is wherever
//! grove was launched and never moves.
//!
//! Keys are the whole surface: arrows and Enter. The mouse wheel scrolls
//! whichever half it is over. Ctrl+C quits.
//!
//! Nothing here reads the disk or draws. Whatever changes which rows show says
//! so, and `rebuild` is called once the tree has the listings it wants; a
//! preview is loaded in steps, with the reading in between; and drawing comes to
//! lines and rectangles.
use crate::doc;
use crate::doc::{Doc, Found};
use crate::media;
use crate::media::{Kind, Thumb};
use crate::path;
use crate::rect;
use crate::rect::{centre, row_at, Rect};
use crate::shift;
use crate::text;
use crate::tree;
use crate::tree::{Place, Row, RowView, Tree};
use vstd::prelude::*;
use vstd::string::StringExecFns;

verus! {

/// The tree takes a third of the pane, clamped to something usable at either
/// end.
pub const TREE_MIN: u16 = 16;

pub const TREE_MAX: u16 = 46;

pub const PREVIEW_MIN: u16 = 24;

pub struct App {
    pub tree: Tree,
    pub rows: Vec<Row>,
    pub selected: usize,
    pub offset: usize,
    pub doc: Doc,
    /// Body rectangle of the preview half, captured while drawing: the thumbnail
    /// is built to fit it, so it has to be known before loading.
    pub body: Rect,
    /// Body rectangle of the tree half, captured while drawing, so a click can be
    /// turned back into the row under it.
    pub tree_body: Rect,
    /// Set when the selection moved and the preview has not caught up yet.
    pub stale: bool,
    /// Whether the viewport should chase the cursor. The wheel scrolls the tree
    /// away from the selection on purpose, so chasing is off until the arrows
    /// move again: otherwise every scroll snaps straight back.
    pub follow: bool,
    /// The pixel size of a cell, where there is a graphics layer to draw on.
    pub cell: Option<(u32, u32)>,
    /// The loaded picture and the file it came from. The path travels with the
    /// picture: the selection has already moved on by the time it is published.
    pub thumb: Option<(String, Thumb)>,
    /// The preview body the picture was built for, so a resize rebuilds it at
    /// the new size instead of rescaling it.
    pub thumb_body: Rect,
    /// What the graphics layer is actually showing, and where.
    pub placed: Option<(String, Rect)>,
    pub trouble: Option<String>,
    pub quit: bool,
    pub light: bool,
}

/// A key, as far as keys mean anything here.
#[derive(Clone, Copy, PartialEq, Eq, Structural, Debug)]
pub enum Key {
    Up,
    Down,
    Left,
    Right,
    Enter,
    Char(char),
    Other,
}

/// What the mouse did, as far as it means anything here.
#[derive(Clone, Copy, PartialEq, Eq, Structural, Debug)]
pub enum Mouse {
    LeftDown,
    ScrollUp,
    ScrollDown,
    Other,
}

#[derive(Clone, Copy, PartialEq, Eq, Structural, Debug)]
pub enum Event {
    /// A key went down, with or without Ctrl.
    Press(Key, bool),
    /// The mouse did something at a column and a row.
    Mouse(Mouse, u16, u16),
    Other,
}

// ---------------------------------------------------------------------------
// Models
// ---------------------------------------------------------------------------

/// Where the row of a path first stands; the number of rows when it does not.
pub open spec fn row_index(rows: Seq<RowView>, p: Place) -> nat
    decreases rows.len(),
{
    if rows.len() == 0 || path::parts(rows.first().path) == p {
        0
    } else {
        1 + row_index(rows.drop_first(), p)
    }
}

/// The last of so many rows.
pub open spec fn last_of(count: nat) -> nat {
    if count == 0 {
        0
    } else {
        (count - 1) as nat
    }
}

pub open spec fn at_most(n: nat, bound: nat) -> nat {
    if n < bound {
        n
    } else {
        bound
    }
}

/// Where the cursor goes when the rows change: with the path it was on, and
/// where that path is gone it stays at its index, as far as there are rows.
pub open spec fn kept_selection(before: Seq<RowView>, selected: nat, after: Seq<RowView>) -> nat {
    let index = if selected < before.len() && row_index(
        after,
        path::parts(before[selected as int].path),
    ) < after.len() {
        row_index(after, path::parts(before[selected as int].path))
    } else {
        selected
    };
    at_most(index, last_of(after.len()))
}

/// The closest row above `at` that is indented less than `depth`.
pub open spec fn parent_row(rows: Seq<RowView>, at: nat, depth: nat) -> Option<nat>
    decreases at,
{
    if at == 0 {
        None
    } else if rows[at - 1].depth < depth {
        Some((at - 1) as nat)
    } else {
        parent_row(rows, (at - 1) as nat, depth)
    }
}

/// The row the cursor is on.
pub open spec fn current_row(app: App) -> Option<RowView> {
    if app.selected < app.rows@.len() {
        Some(app.rows@[app.selected as int]@)
    } else {
        None
    }
}

/// The cursor moved by `delta`, no further than the first row or the last.
pub open spec fn is_moved(before: App, after: App, delta: int) -> bool {
    if before.rows@.len() == 0 {
        after == before
    } else {
        after == (App {
            selected: at_most(
                shift::shifted(before.selected as int, delta) as nat,
                last_of(before.rows@.len()),
            ) as usize,
            stale: true,
            follow: true,
            ..before
        })
    }
}

/// The tree changed and nothing else did.
pub open spec fn is_replanted(before: App, after: App, tree: tree::TreeView) -> bool {
    &&& after.tree.wf()
    &&& after.tree@ == tree
    &&& after == (App { tree: after.tree, ..before })
}

/// A folded directory under the cursor was expanded; otherwise nothing changed.
/// `asked` is whether the rows have to be rebuilt.
pub open spec fn is_expanded(before: App, after: App, asked: bool) -> bool {
    match current_row(before) {
        Some(row) => if row.is_dir && !row.expanded {
            asked && is_replanted(
                before,
                after,
                tree::TreeView {
                    expanded: before.tree@.expanded.insert(path::parts(row.path)),
                    ..before.tree@
                },
            )
        } else {
            !asked && after == before
        },
        None => !asked && after == before,
    }
}

/// An expanded directory under the cursor was folded; otherwise the cursor
/// stepped out to the row it is indented under, where there is one.
pub open spec fn is_collapsed(before: App, after: App, asked: bool) -> bool {
    match current_row(before) {
        Some(row) => if row.is_dir && row.expanded {
            asked && is_replanted(
                before,
                after,
                tree::TreeView {
                    expanded: before.tree@.expanded.remove(path::parts(row.path)),
                    ..before.tree@
                },
            )
        } else {
            !asked && match parent_row(
                tree::rows_view(before.rows@),
                before.selected as nat,
                row.depth,
            ) {
                Some(parent) => after == (App {
                    selected: parent as usize,
                    stale: true,
                    follow: true,
                    ..before
                }),
                None => after == before,
            }
        },
        None => !asked && after == before,
    }
}

/// A directory under the cursor was toggled, or all listings were dropped so
/// that a file is read again; either way the preview is loaded anew.
pub open spec fn is_entered(before: App, after: App, asked: bool) -> bool {
    match current_row(before) {
        Some(row) => asked && is_replanted(
            App { stale: true, ..before },
            after,
            if row.is_dir {
                tree::toggled(before.tree@, row.path)
            } else {
                tree::TreeView { cache: Map::empty(), ..before.tree@ }
            },
        ),
        None => !asked && after == before,
    }
}

/// The row under the pointer was selected, and toggled if it is a directory;
/// nothing changed where there is no row under it.
pub open spec fn is_clicked(before: App, after: App, asked: bool, column: u16, row: u16) -> bool {
    match rect::row_under(
        before.tree_body,
        before.offset as int,
        before.rows@.len() as int,
        column,
        row,
    ) {
        Some(index) => {
            let hit = before.rows@[index]@;
            let chosen = App { selected: index as usize, stale: true, follow: true, ..before };
            if hit.is_dir {
                asked && is_replanted(chosen, after, tree::toggled(before.tree@, hit.path))
            } else {
                !asked && after == chosen
            }
        },
        None => !asked && after == before,
    }
}

/// Whichever half the pointer is over was scrolled by `delta`: the document, or
/// the tree with the selection staying put.
pub open spec fn is_scrolled(before: App, after: App, column: u16, delta: int) -> bool {
    if column >= before.body.x {
        &&& after.doc.wf()
        &&& after.doc@ == before.doc@
        &&& after.doc.rows_width == before.doc.rows_width
        &&& after.doc.scroll == doc::clamped(before.doc.scroll + delta, before.doc.rows@.len())
        &&& after == (App { doc: after.doc, ..before })
    } else {
        after == (App {
            offset: shift::shifted(before.offset as int, delta) as usize,
            follow: false,
            ..before
        })
    }
}

/// What an event does. `asked` is whether the rows have to be rebuilt.
pub open spec fn is_handled(before: App, after: App, asked: bool, event: Event) -> bool {
    match event {
        Event::Press(Key::Char('c'), true) => !asked && after == (App { quit: true, ..before }),
        Event::Press(Key::Up, _) => !asked && is_moved(before, after, -1),
        Event::Press(Key::Down, _) => !asked && is_moved(before, after, 1),
        Event::Press(Key::Right, _) => is_expanded(before, after, asked),
        Event::Press(Key::Left, _) => is_collapsed(before, after, asked),
        Event::Press(Key::Enter, _) => is_entered(before, after, asked),
        Event::Mouse(Mouse::LeftDown, column, row) => is_clicked(before, after, asked, column, row),
        Event::Mouse(Mouse::ScrollUp, column, _) => !asked && is_scrolled(
            before,
            after,
            column,
            -3,
        ),
        Event::Mouse(Mouse::ScrollDown, column, _) => !asked && is_scrolled(
            before,
            after,
            column,
            3,
        ),
        _ => !asked && after == before,
    }
}

// ---------------------------------------------------------------------------
// The cursor and the tree
// ---------------------------------------------------------------------------

impl App {
    /// The tree and the document are sound, the cursor is on a row, and what has
    /// been drawn can be measured.
    pub open spec fn wf(&self) -> bool {
        &&& self.tree.wf()
        &&& self.doc.wf()
        &&& self.selected <= last_of(self.rows@.len())
        &&& tree::rows_fit(self.rows@)
        &&& rect::is_bounded(self.body)
    }

    /// A pane rooted at `root`, before its rows have been built.
    pub fn new(root: String, cell: Option<(u32, u32)>, light: bool) -> (app: App)
        ensures
            app.wf(),
            app.tree@ == (tree::TreeView {
                root: root@,
                expanded: Set::empty(),
                cache: Map::empty(),
                show_hidden: true,
            }),
            app.rows@.len() == 0,
            app.selected == 0 && app.offset == 0,
            app.doc@ == doc::body(Seq::empty(), false, false),
            app.doc.scroll == 0 && app.doc.rows_width is None,
            app.thumb_body == rect::nowhere(),
            app.body == rect::nowhere() && app.tree_body == rect::nowhere(),
            app.stale && app.follow && !app.quit,
            app.cell == cell && app.light == light,
            app.thumb is None && app.placed is None && app.trouble is None,
    {
        App {
            tree: Tree::new(root),
            rows: Vec::new(),
            selected: 0,
            offset: 0,
            doc: Doc::empty(),
            body: Rect::zero(),
            tree_body: Rect::zero(),
            stale: true,
            follow: true,
            cell,
            thumb: None,
            thumb_body: Rect::zero(),
            placed: None,
            trouble: None,
            quit: false,
            light,
        }
    }

    /// The row the cursor is on.
    pub fn current(&self) -> (row: Option<&Row>)
        ensures
            match row {
                Some(row) => current_row(*self) == Some(row@),
                None => current_row(*self) is None,
            },
    {
        if self.selected < self.rows.len() {
            Some(&self.rows[self.selected])
        } else {
            None
        }
    }

    /// Rebuild the visible rows after an expand or a collapse, keeping the cursor
    /// on the same path rather than the same index.
    pub fn rebuild(&mut self)
        requires
            old(self).wf(),
            tree::is_complete(old(self).tree@),
        ensures
            final(self).wf(),
            tree::rows_view(final(self).rows@) == tree::walk(
                old(self).tree@,
                old(self).tree@.root,
                0,
            ),
            final(self).tree@ == tree::trimmed(old(self).tree@),
            final(self).selected == kept_selection(
                tree::rows_view(old(self).rows@),
                old(self).selected as nat,
                tree::rows_view(final(self).rows@),
            ),
            *final(self) == (App {
                tree: final(self).tree,
                rows: final(self).rows,
                selected: final(self).selected,
                ..*old(self)
            }),
    {
        let keep = match self.current() {
            Some(row) => Some(row.path.clone()),
            None => None,
        };
        let ghost before = tree::rows_view(self.rows@);
        let ghost selected = self.selected as nat;
        self.rows = self.tree.rows();
        let ghost after = tree::rows_view(self.rows@);
        if let Some(path) = keep {
            let index = self.find(path.as_str());
            if index < self.rows.len() {
                self.selected = index;
            }
        }
        let last = if self.rows.len() == 0 {
            0
        } else {
            self.rows.len() - 1
        };
        if self.selected > last {
            self.selected = last;
        }
    }

    /// Where the row of a path first stands.
    fn find(&self, path: &str) -> (index: usize)
        ensures
            index == row_index(tree::rows_view(self.rows@), path::parts(path@)),
            index <= self.rows@.len(),
    {
        let ghost all = tree::rows_view(self.rows@);
        let ghost p = path::parts(path@);
        let mut i: usize = 0;
        assert(all.skip(0) =~= all);
        while i < self.rows.len()
            invariant
                i <= self.rows@.len(),
                all == tree::rows_view(self.rows@),
                p == path::parts(path@),
                row_index(all, p) == i + row_index(all.skip(i as int), p),
            decreases self.rows@.len() - i,
        {
            proof {
                assert(all.skip(i as int).first() == self.rows@[i as int]@);
                assert(all.skip(i as int).drop_first() =~= all.skip(i + 1));
            }
            if path::same_path(self.rows[i].path.as_str(), path) {
                return i;
            }
            i += 1;
        }
        assert(all.skip(i as int) =~= Seq::<RowView>::empty());
        i
    }

    /// Move the cursor by so many rows.
    pub fn move_by(&mut self, delta: isize)
        requires
            old(self).wf(),
        ensures
            final(self).wf(),
            is_moved(*old(self), *final(self), delta as int),
    {
        if self.rows.len() == 0 {
            return;
        }
        let last = self.rows.len() - 1;
        let moved = shift::shift(self.selected, delta);
        self.selected = if moved < last {
            moved
        } else {
            last
        };
        self.stale = true;
        self.follow = true;
    }

    /// Expand a folded directory under the cursor.
    pub fn expand(&mut self) -> (asked: bool)
        requires
            old(self).wf(),
        ensures
            final(self).wf(),
            is_expanded(*old(self), *final(self), asked),
    {
        let path = match self.current() {
            Some(row) => if row.is_dir && !row.expanded {
                row.path.clone()
            } else {
                return false;
            },
            None => {
                return false;
            },
        };
        self.tree.expand(path.as_str());
        true
    }

    /// Collapse an open directory, otherwise step out to the parent row: the
    /// motion people expect from a tree even without a binding for it.
    pub fn collapse(&mut self) -> (asked: bool)
        requires
            old(self).wf(),
        ensures
            final(self).wf(),
            is_collapsed(*old(self), *final(self), asked),
    {
        let (path, depth) = match self.current() {
            Some(row) => if row.is_dir && row.expanded {
                (Some(row.path.clone()), row.depth)
            } else {
                (None, row.depth)
            },
            None => {
                return false;
            },
        };
        if let Some(path) = path {
            self.tree.collapse(path.as_str());
            return true;
        }
        let ghost all = tree::rows_view(self.rows@);
        let ghost row = self.rows@[self.selected as int]@;
        let mut i: usize = self.selected;
        while i > 0
            invariant
                i <= self.selected < self.rows@.len(),
                *self == *old(self),
                self.wf(),
                all == tree::rows_view(self.rows@),
                current_row(*self) == Some(row),
                depth == row.depth,
                !(row.is_dir && row.expanded),
                parent_row(all, self.selected as nat, depth as nat) == parent_row(
                    all,
                    i as nat,
                    depth as nat,
                ),
            decreases i,
        {
            i -= 1;
            assert(all[i as int] == self.rows@[i as int]@);
            if self.rows[i].depth < depth {
                self.selected = i;
                self.stale = true;
                self.follow = true;
                return false;
            }
        }
        false
    }

    /// Toggle a folder. A file is already previewed by arrowing onto it; Enter
    /// re-reads it from disk.
    pub fn enter(&mut self) -> (asked: bool)
        requires
            old(self).wf(),
        ensures
            final(self).wf(),
            is_entered(*old(self), *final(self), asked),
    {
        let (path, is_dir) = match self.current() {
            Some(row) => (row.path.clone(), row.is_dir),
            None => {
                return false;
            },
        };
        if is_dir {
            self.tree.toggle(path.as_str());
        } else {
            self.tree.refresh();
        }
        self.stale = true;
        true
    }

    /// A click in the tree selects the row under the pointer; on a folder it
    /// toggles, which is what the chevron looks like it promises. Clicks in the
    /// preview do nothing: there is nothing there to activate.
    pub fn click(&mut self, column: u16, row: u16) -> (asked: bool)
        requires
            old(self).wf(),
        ensures
            final(self).wf(),
            is_clicked(*old(self), *final(self), asked, column, row),
    {
        let index = match row_at(self.tree_body, self.offset, self.rows.len(), column, row) {
            Some(index) => index,
            None => {
                return false;
            },
        };
        let is_dir = self.rows[index].is_dir;
        let path = self.rows[index].path.clone();
        self.selected = index;
        self.stale = true;
        self.follow = true;
        if is_dir {
            self.tree.toggle(path.as_str());
        }
        is_dir
    }

    fn scroll(&mut self, column: u16, delta: isize)
        requires
            old(self).wf(),
        ensures
            final(self).wf(),
            is_scrolled(*old(self), *final(self), column, delta as int),
    {
        if column >= self.body.x {
            self.doc.scroll_by(delta);
        } else {
            // The tree scrolls under the cursor; the selection stays put.
            self.offset = shift::shift(self.offset, delta);
            self.follow = false;
        }
    }

    /// Act on an event. Says whether the rows have to be rebuilt.
    pub fn handle(&mut self, event: Event) -> (asked: bool)
        requires
            old(self).wf(),
        ensures
            final(self).wf(),
            is_handled(*old(self), *final(self), asked, event),
            final(self).tree@.root == old(self).tree@.root,
    {
        match event {
            Event::Press(key, control) => {
                if control && key == Key::Char('c') {
                    self.quit = true;
                    return false;
                }
                match key {
                    Key::Up => {
                        self.move_by(-1);
                        false
                    },
                    Key::Down => {
                        self.move_by(1);
                        false
                    },
                    Key::Right => self.expand(),
                    Key::Left => self.collapse(),
                    Key::Enter => self.enter(),
                    _ => false,
                }
            },
            Event::Mouse(kind, column, row) => match kind {
                Mouse::LeftDown => self.click(column, row),
                Mouse::ScrollUp => {
                    self.scroll(column, -3);
                    false
                },
                Mouse::ScrollDown => {
                    self.scroll(column, 3);
                    false
                },
                Mouse::Other => false,
            },
            Event::Other => false,
        }
    }
}

/// The cursor stays on the path it was on, wherever that path's row has moved
/// to, as long as it has one.
pub proof fn the_cursor_stays_on_its_path(
    before: Seq<RowView>,
    selected: nat,
    after: Seq<RowView>,
    at: int,
)
    requires
        selected < before.len(),
        0 <= at < after.len(),
        path::parts(after[at].path) == path::parts(before[selected as int].path),
    ensures
        kept_selection(before, selected, after) < after.len(),
        path::parts(after[kept_selection(before, selected, after) as int].path) == path::parts(
            before[selected as int].path,
        ),
{
    lemma_row_index(after, path::parts(before[selected as int].path), at);
}

proof fn lemma_row_index(rows: Seq<RowView>, p: Place, at: int)
    requires
        0 <= at < rows.len(),
        path::parts(rows[at].path) == p,
    ensures
        row_index(rows, p) <= at,
        path::parts(rows[row_index(rows, p) as int].path) == p,
    decreases rows.len(),
{
    if path::parts(rows.first().path) != p {
        lemma_row_index(rows.drop_first(), p, at - 1);
    }
}

/// The cursor is on a row whenever there are rows.
pub proof fn there_is_always_a_current_row(app: App)
    requires
        app.wf(),
    ensures
        current_row(app) is Some <==> app.rows@.len() > 0,
{
}

/// The root never moves: no event changes it, nor does rebuilding the rows after
/// one.
pub proof fn the_root_never_moves(before: App, after: App, asked: bool, event: Event)
    requires
        before.wf(),
        is_handled(before, after, asked, event),
    ensures
        after.tree@.root == before.tree@.root,
        tree::trimmed(after.tree@).root == before.tree@.root,
{
}

/// The preview follows the cursor: an event that moves the cursor leaves the
/// preview to be loaded again, and none takes that back.
pub proof fn the_preview_follows_the_cursor(before: App, after: App, asked: bool, event: Event)
    requires
        before.wf(),
        is_handled(before, after, asked, event),
        before.stale || after.selected != before.selected,
    ensures
        after.stale,
{
}

// ---------------------------------------------------------------------------
// Loading the preview
// ---------------------------------------------------------------------------

/// A picture that is wanted for the preview.
#[derive(Clone, Copy, PartialEq, Eq, Debug)]
pub struct Wanted {
    pub kind: Kind,
    pub max_cells: (u16, u16),
    pub cell: (u32, u32),
}

/// Why there is no picture where there is no graphics layer.
pub open spec fn no_layer() -> Seq<char> {
    "no picture outside herdr — run grove in a herdr pane"@
}

/// The picture that a document wants, where it has one, the body has been drawn
/// and there is a layer to draw on.
pub open spec fn wanted_picture(app: App) -> Option<Wanted> {
    match (app.doc.media, app.cell) {
        (Some(kind), Some(cell)) => if app.body.width > 0 && app.body.height > 0 {
            Some(Wanted { kind, max_cells: (app.body.width, app.body.height), cell })
        } else {
            None
        },
        _ => None,
    }
}

/// What a loaded picture adds to the caption: the size of the original.
pub open spec fn captioned(source: (u32, u32), info: Seq<char>) -> Seq<char> {
    text::decimal(source.0 as nat) + " × "@ + text::decimal(source.1 as nat) + "   "@ + info
}

impl App {
    /// Start loading the preview of the row under the cursor: what to read, or
    /// `None` when there is no row and so nothing to show.
    pub fn begin_load(&mut self) -> (target: Option<(String, bool)>)
        requires
            old(self).wf(),
        ensures
            final(self).wf(),
            match (target, current_row(*old(self))) {
                (Some((path, is_dir)), Some(row)) => {
                    &&& path@ == row.path
                    &&& is_dir == row.is_dir
                    &&& final(self).doc == old(self).doc
                },
                (None, None) => {
                    &&& final(self).doc@ == doc::body(Seq::empty(), false, false)
                    &&& final(self).doc.scroll == 0
                    &&& final(self).doc.rows_width is None
                },
                _ => false,
            },
            *final(self) == (App {
                stale: false,
                thumb: None,
                trouble: None,
                doc: final(self).doc,
                ..*old(self)
            }),
    {
        let target = match self.current() {
            Some(row) => Some((row.path.clone(), row.is_dir)),
            None => None,
        };
        self.stale = false;
        self.thumb = None;
        self.trouble = None;
        if target.is_none() {
            self.doc = Doc::empty();
        }
        target
    }

    /// Take what was read, and say what picture goes with it, if any. The
    /// picture is sized in pixels, so the body has to have been drawn once:
    /// until then the preview stays stale.
    pub fn finish_load(&mut self, path: &str, is_dir: bool, found: Found) -> (wanted: Option<
        Wanted,
    >)
        requires
            old(self).wf(),
            doc::answers(found, doc::reading_of(path@, is_dir)),
        ensures
            final(self).wf(),
            doc::is_document_of(final(self).doc@, path@, found, old(self).light),
            final(self).doc.scroll == 0,
            final(self).doc.rows_width is None,
            wanted == wanted_picture(*final(self)),
            final(self).stale == (old(self).stale || (final(self).doc.media is Some && (
            old(self).body.width == 0 || old(self).body.height == 0))),
            final(self).doc.media is Some && old(self).cell is None && old(self).body.width > 0
                && old(self).body.height > 0 ==> text::option_view(final(self).trouble) == Some(
                no_layer(),
            ),
            !(final(self).doc.media is Some && old(self).cell is None && old(self).body.width > 0
                && old(self).body.height > 0) ==> final(self).trouble == old(self).trouble,
            *final(self) == (App {
                doc: final(self).doc,
                stale: final(self).stale,
                trouble: final(self).trouble,
                ..*old(self)
            }),
    {
        self.doc = Doc::load(path, is_dir, found, self.light);
        let kind = match self.doc.media {
            Some(kind) => kind,
            None => {
                return None;
            },
        };
        if self.body.width == 0 || self.body.height == 0 {
            self.stale = true;
            return None;
        }
        match self.cell {
            Some(cell) => Some(
                Wanted { kind, max_cells: (self.body.width, self.body.height), cell },
            ),
            None => {
                self.trouble = Some(
                    "no picture outside herdr — run grove in a herdr pane".to_owned(),
                );
                None
            },
        }
    }

    /// Take the picture, or why there is none.
    pub fn picture_loaded(&mut self, path: String, out: Result<Thumb, String>)
        requires
            old(self).wf(),
        ensures
            final(self).wf(),
            match out {
                Ok(thumb) => {
                    &&& final(self).doc@ == (doc::DocView {
                        info: captioned(thumb.source, old(self).doc@.info),
                        ..old(self).doc@
                    })
                    &&& final(self).doc.scroll == old(self).doc.scroll
                    &&& final(self).doc.rows_width == old(self).doc.rows_width
                    &&& *final(self) == (App {
                        doc: final(self).doc,
                        thumb: Some((path, thumb)),
                        thumb_body: old(self).body,
                        ..*old(self)
                    })
                },
                Err(why) => *final(self) == (App { trouble: Some(why), ..*old(self) }),
            },
    {
        match out {
            Ok(thumb) => {
                let info = text::decimal_text(thumb.source.0 as u64).concat(" × ").concat(
                    text::decimal_text(thumb.source.1 as u64).as_str(),
                ).concat("   ").concat(self.doc.info.as_str());
                self.doc.caption(info);
                self.thumb = Some((path, thumb));
                self.thumb_body = self.body;
            },
            Err(why) => {
                self.trouble = Some(why);
            },
        }
    }
}

// ---------------------------------------------------------------------------
// The picture on the pane
// ---------------------------------------------------------------------------

/// What the graphics layer should do this frame.
#[derive(Clone, Copy, PartialEq, Eq, Structural, Debug)]
pub enum Picture {
    /// Leave the pane exactly as it is.
    Leave,
    /// Put the loaded picture on this rectangle.
    Show(Rect),
    /// Take whatever is on the pane off it.
    Hide,
}

/// What to do about the picture: nothing while the preview has not caught up;
/// otherwise what is loaded goes up where it is not already, and what is no
/// longer wanted comes down.
pub open spec fn action_for(
    stale: bool,
    thumb: Option<(Seq<char>, (u16, u16))>,
    body: Rect,
    placed: Option<(Seq<char>, Rect)>,
) -> Picture {
    if stale {
        Picture::Leave
    } else {
        match thumb {
            None => if placed is Some {
                Picture::Hide
            } else {
                Picture::Leave
            },
            Some((path, cells)) => {
                let spot = rect::centre_of(body, cells);
                match placed {
                    Some((shown, at)) => if path::parts(shown) == path::parts(path) && at == spot {
                        Picture::Leave
                    } else {
                        Picture::Show(spot)
                    },
                    None => Picture::Show(spot),
                }
            },
        }
    }
}

/// A path and something that goes with it.
pub open spec fn pair_view<T>(pair: Option<(&str, T)>) -> Option<(Seq<char>, T)> {
    match pair {
        Some((path, other)) => Some((path@, other)),
        None => None,
    }
}

/// Decide from the picture that was loaded, never from the row the cursor is on.
///
/// Between an arrow press and the load that follows it, the two disagree: the
/// document, its thumbnail and its caption still belong to the previous row.
/// Publishing then would put the old picture on the pane under the new row's
/// name, and the next frame, believing itself up to date, would never correct
/// it.
pub fn picture_action(
    stale: bool,
    thumb: Option<(&str, (u16, u16))>,
    body: Rect,
    placed: Option<(&str, Rect)>,
) -> (action: Picture)
    requires
        !stale ==> (thumb matches Some((_, cells)) ==> rect::can_centre(body, cells)),
    ensures
        action == action_for(stale, pair_view(thumb), body, pair_view(placed)),
{
    if stale {
        return Picture::Leave;
    }
    match thumb {
        None => if placed.is_some() {
            Picture::Hide
        } else {
            Picture::Leave
        },
        Some((path, cells)) => {
            let spot = centre(body, cells);
            match placed {
                Some((shown, at)) => if path::same_path(shown, path) && at == spot {
                    Picture::Leave
                } else {
                    Picture::Show(spot)
                },
                None => Picture::Show(spot),
            }
        },
    }
}

/// The loaded picture's path and cells.
pub open spec fn thumb_cells(app: App) -> Option<(Seq<char>, (u16, u16))> {
    match app.thumb {
        Some((path, thumb)) => Some((path@, thumb.cells)),
        None => None,
    }
}

/// What is on the pane, and where.
pub open spec fn placed_at(app: App) -> Option<(Seq<char>, Rect)> {
    match app.placed {
        Some((path, at)) => Some((path@, at)),
        None => None,
    }
}

/// Whether the picture was built for a body that has since changed.
pub open spec fn is_outgrown(app: App) -> bool {
    app.cell is Some && app.thumb is Some && app.thumb_body != app.body
}

/// What a frame does about the picture.
pub open spec fn frame_action(app: App) -> Picture {
    if app.cell is None {
        Picture::Leave
    } else {
        action_for(app.stale || is_outgrown(app), thumb_cells(app), app.body, placed_at(app))
    }
}

/// What is on the pane once a frame has done that.
pub open spec fn placed_after(app: App) -> Option<(Seq<char>, Rect)> {
    match frame_action(app) {
        Picture::Leave => placed_at(app),
        Picture::Hide => None,
        Picture::Show(at) => match thumb_cells(app) {
            Some((path, _)) => Some((path, at)),
            None => placed_at(app),
        },
    }
}

impl App {
    /// Decide what the graphics layer does this frame, and take it as done. Every
    /// picture shown is a round trip, so this asks for one only when something
    /// actually changed.
    pub fn sync_picture(&mut self) -> (action: Picture)
        requires
            old(self).wf(),
        ensures
            final(self).wf(),
            action == frame_action(*old(self)),
            placed_at(*final(self)) == placed_after(*old(self)),
            *final(self) == (App {
                stale: old(self).stale || is_outgrown(*old(self)),
                placed: final(self).placed,
                ..*old(self)
            }),
    {
        if self.cell.is_none() {
            return Picture::Leave;
        }
        // A resize means the picture was built for a rectangle that no longer
        // exists; rebuild it rather than let the compositor rescale it.
        if self.thumb.is_some() && self.thumb_body != self.body {
            self.stale = true;
        }
        let thumb = match &self.thumb {
            Some((path, thumb)) => Some((path.as_str(), thumb.cells)),
            None => None,
        };
        let placed = match &self.placed {
            Some((path, at)) => Some((path.as_str(), *at)),
            None => None,
        };
        let action = picture_action(self.stale, thumb, self.body, placed);
        match action {
            Picture::Leave => {},
            Picture::Hide => {
                self.placed = None;
            },
            Picture::Show(at) => {
                let path = match &self.thumb {
                    Some((path, _)) => Some(path.clone()),
                    None => None,
                };
                if let Some(path) = path {
                    self.placed = Some((path, at));
                }
            },
        }
        action
    }
}

/// While the preview has not caught up with the cursor, the pane is left as it
/// is: the picture of the row before is never published for the row after.
pub proof fn a_stale_preview_publishes_nothing(
    thumb: Option<(Seq<char>, (u16, u16))>,
    body: Rect,
    placed: Option<(Seq<char>, Rect)>,
)
    ensures
        action_for(true, thumb, body, placed) == Picture::Leave,
{
}

/// Once a frame has dealt with the picture, the next one has nothing to do: a
/// picture that is up is not sent again, and one that was taken down stays down.
pub proof fn a_settled_picture_is_not_resent(before: App, after: App)
    requires
        before.wf(),
        placed_at(after) == placed_after(before),
        after == (App {
            stale: before.stale || is_outgrown(before),
            placed: after.placed,
            ..before
        }),
    ensures
        frame_action(after) == Picture::Leave,
{
}

/// What goes up is the picture that was loaded, inside the body it was loaded
/// for.
pub proof fn a_shown_picture_is_the_loaded_one(app: App)
    requires
        app.wf(),
        frame_action(app) is Show,
    ensures
        !app.stale,
        app.thumb is Some && app.thumb_body == app.body,
        placed_after(app) == Some(((thumb_cells(app)->0).0, frame_action(app)->Show_0)),
        rect::is_inside(frame_action(app)->Show_0, app.body),
{
    if let Some((_, cells)) = thumb_cells(app) {
        rect::a_centred_picture_stays_in_the_body(app.body, cells);
    }
}

// ---------------------------------------------------------------------------
// What to do next
// ---------------------------------------------------------------------------

#[derive(Clone, Copy, PartialEq, Eq, Structural, Debug)]
pub enum Next {
    Quit,
    /// Load the preview, and draw again.
    Load,
    /// Wait for an event.
    Wait,
}

impl App {
    /// What to do once a frame has been drawn. The preview is loaded only once
    /// the arrow keys settle: holding Down through a folder of videos must not
    /// run a decoder for every row it passes over.
    pub fn next(&self, waiting: bool) -> (next: Next)
        ensures
            next == (if self.quit {
                Next::Quit
            } else if self.stale && !waiting {
                Next::Load
            } else {
                Next::Wait
            }),
    {
        if self.quit {
            Next::Quit
        } else if self.stale && !waiting {
            Next::Load
        } else {
            Next::Wait
        }
    }
}

} // verus!
