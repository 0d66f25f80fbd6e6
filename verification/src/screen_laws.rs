//! What holds of every frame: where its halves stand, which rows show in them, and
//! what each row says.
use crate::doc;
use crate::line;
use crate::line::LineView;
use crate::pane::App;
use crate::path;
use crate::rect::Rect;
use crate::screen;
use crate::screen::{PreviewHalf, Screen, TreeHalf};
use crate::theme;
use crate::tree::RowView;
use vstd::prelude::*;

verus! {

// ---------------------------------------------------------------------------
// The halves
// ---------------------------------------------------------------------------

/// The tree takes a third of the pane, and sixteen columns at the least and forty-six
/// at the most, as long as that leaves twenty-four for the preview; where it does
/// not, it takes what is left beside those, and a column in any case.
pub proof fn the_tree_takes_a_third(width: u16)
    ensures
        48 <= width <= 138 ==> screen::tree_width_of(width) == width / 3,
        width > 138 ==> screen::tree_width_of(width) == 46,
        40 <= width < 48 ==> screen::tree_width_of(width) == 16,
        25 <= width < 40 ==> screen::tree_width_of(width) == width - 24,
        width < 25 ==> screen::tree_width_of(width) == 1,
{
}

/// The columns of a frame lie side by side and cover the area: each begins where the
/// one before it ends, they are as high as the area, and their widths add up to its
/// own.
pub proof fn columns_cover_the_area(area: Rect, first: u16, second: u16)
    requires
        area.x + area.width <= u16::MAX,
        first + second <= area.width,
    ensures
        ({
            let (a, b, c) = screen::columns_of(area, first, second);
            &&& a.width == first && b.width == second
            &&& a.x == area.x
            &&& b.x == a.x + a.width
            &&& c.x == b.x + b.width
            &&& c.x + c.width == area.x + area.width
            &&& a.y == area.y && b.y == area.y && c.y == area.y
            &&& a.height == area.height && b.height == area.height && c.height == area.height
        }),
{
}

/// The body of the tree is its half without the header's row; that of the preview is
/// its half without the header's row and a column at the left.
pub proof fn a_body_is_below_its_header(area: Rect)
    requires
        area.height > 0,
        area.width > 0,
        area.x + area.width <= u16::MAX,
        area.y + area.height <= u16::MAX,
    ensures
        ({
            let tree = screen::below(area);
            let preview = screen::preview_body(area);
            &&& tree.x == area.x && tree.width == area.width
            &&& tree.y == area.y + 1 && tree.y + tree.height == area.y + area.height
            &&& preview.x == area.x + 1 && preview.x + preview.width == area.x + area.width
            &&& preview.y == area.y + 1 && preview.y + preview.height == area.y + area.height
        }),
{
}

/// The rule is a stroke on every row.
pub proof fn the_rule_is_a_stroke_on_every_row(height: nat, i: int)
    requires
        0 <= i < height,
    ensures
        screen::rule_of(height).len() == height,
        screen::rule_of(height)[i] == line::raw_line("│"@),
{
}

/// A frame has the tree in its first column, a stroke on every row of the pane in the
/// second and the preview in the third; and drawing it changes nothing of the pane
/// but where the bodies are, which row of the tree shows first and how the document is
/// laid out.
pub proof fn a_frame_has_both_halves_and_a_rule(
    before: App,
    between: App,
    after: App,
    area: Rect,
    columns: (Rect, Rect, Rect),
    frame: Screen,
)
    requires
        before.wf(),
        between.wf(),
        screen::is_frame(before, between, after, area, columns, frame),
    ensures
        frame.rule == columns.1,
        frame.rule_lines@.len() == area.height,
        forall|i: int|
            0 <= i < area.height ==> (#[trigger] frame.rule_lines@[i])@ == line::raw_line("│"@),
        frame.rule_style.fg == Some(theme::rule_color(before.light)),
        frame.tree is Some <==> columns.0.height > 0,
        frame.preview is Some <==> columns.2.height > 0 && columns.2.width > 0,
        after.doc@ == before.doc@,
        after == (App {
            tree_body: after.tree_body,
            offset: after.offset,
            body: after.body,
            doc: after.doc,
            ..before
        }),
{
    let lines = line::lines_view(frame.rule_lines@);
    assert(lines.len() == frame.rule_lines@.len());
    assert forall|i: int| 0 <= i < area.height implies (#[trigger] frame.rule_lines@[i])@
        == line::raw_line("│"@) by {
        assert(lines[i] == frame.rule_lines@[i]@);
    }
}

// ---------------------------------------------------------------------------
// The tree half
// ---------------------------------------------------------------------------

/// The viewport moves no further than it has to: it stays where it was while the
/// cursor is in it and there are rows to fill it, or the cursor is not followed; and
/// otherwise the cursor is on its first row or its last.
pub proof fn the_viewport_moves_no_further_than_it_has_to(
    offset: nat,
    selected: nat,
    follow: bool,
    height: nat,
    count: nat,
)
    requires
        height > 0,
        selected < count,
    ensures
        ({
            let first = screen::first_shown(offset, selected, follow, height, count);
            &&& offset + height <= count && (!follow || offset <= selected < offset + height)
                ==> first == offset
            &&& offset + height > count && count > height && !follow ==> first == count - height
            &&& count <= height ==> first == 0
            &&& follow && selected < offset && selected + height <= count ==> first == selected
            &&& follow && selected >= offset + height ==> first + height == selected + 1
        }),
{
}

/// What shows of the tree begins where the viewport does and goes on as far as there
/// are rows or room.
pub proof fn as_many_rows_show_as_there_is_room_for(first: nat, height: nat, count: nat)
    ensures
        first + height <= count ==> screen::past_shown(first, height, count) == first + height,
        first <= count < first + height ==> screen::past_shown(first, height, count) == count,
        first > count ==> screen::past_shown(first, height, count) == first,
{
}

/// Drawing the tree changes where its body is and which row shows first, and nothing
/// else; the header gives the name of the root.
pub proof fn drawing_the_tree_moves_nothing_but_the_viewport(
    before: App,
    after: App,
    area: Rect,
    half: Option<TreeHalf>,
)
    requires
        before.wf(),
        area.height > 0,
        screen::is_tree_drawn(before, after, area, half),
    ensures
        after == (App { tree_body: after.tree_body, offset: after.offset, ..before }),
        match half {
            Some(half) => {
                &&& half.body == after.tree_body
                &&& half.first == after.offset
                &&& half.first <= half.last
                &&& half.last - half.first <= half.body.height
                &&& half.header@.spans.len() == 1
                &&& half.header@.spans[0].content == seq![' '] + path::title(before.tree@.root)
                &&& half.header@.spans[0].style.bold
            },
            None => false,
        },
{
    reveal_strlit(" ");
    assert(" "@ =~= seq![' ']);
}

/// A row says how deep it is by two spaces for each level and one before them, then
/// whether it is an open directory, a folded one or neither, then its glyph and its
/// name. Only the selected row has a background, and is filled up to the width.
pub proof fn a_row_says_depth_kind_and_name(
    row: RowView,
    glyph: Seq<char>,
    rgb: Option<(u8, u8, u8)>,
    selected: bool,
    width: nat,
    light: bool,
)
    ensures
        ({
            let out = screen::row_line(row, glyph, rgb, selected, width, light);
            let own = out.spans.take(4);
            let used = line::spans_width(own);
            &&& 4 <= out.spans.len() <= 5
            &&& own[0].content.len() == 2 * row.depth + 1
            &&& forall|i: int|
                0 <= i < own[0].content.len() ==> #[trigger] own[0].content[i] == ' '
            &&& own[1].content == (if row.is_dir && row.expanded {
                seq!['▾', ' ']
            } else if row.is_dir {
                seq!['▸', ' ']
            } else {
                seq![' ', ' ']
            })
            &&& own[2].content == glyph.push(' ')
            &&& own[3].content == row.name
            &&& (out.spans.len() == 5) == (selected && used < width)
            &&& out.spans.len() == 5 ==> out.spans[4].content.len() == width - used
            &&& out.spans.len() == 5 ==> forall|i: int|
                0 <= i < out.spans[4].content.len() ==> #[trigger] out.spans[4].content[i] == ' '
            &&& out.style.bg == (if selected {
                Some(theme::selection_color(light))
            } else {
                None
            })
            &&& own[2].style.fg == (match rgb {
                Some((r, g, b)) => Some(line::Color::Rgb(r, g, b)),
                None => None,
            })
        }),
{
    reveal_strlit("▾ ");
    reveal_strlit("▸ ");
    reveal_strlit("  ");
    reveal_strlit(" ");
    assert("▾ "@ =~= seq!['▾', ' ']);
    assert("▸ "@ =~= seq!['▸', ' ']);
    assert("  "@ =~= seq![' ', ' ']);
    assert(glyph + " "@ =~= glyph.push(' '));
    let spans = screen::row_spans(row, glyph, rgb, light);
    let out = screen::row_line(row, glyph, rgb, selected, width, light);
    assert(out.spans.take(4) =~= spans);
}

// ---------------------------------------------------------------------------
// The preview half
// ---------------------------------------------------------------------------

/// What shows of some rows is those from where they are scrolled to, one after
/// another, as many as there is room for.
pub proof fn rows_show_from_where_they_are_scrolled_to(
    rows: Seq<LineView>,
    from: nat,
    height: nat,
    k: int,
)
    ensures
        ({
            let shown = screen::window(rows, from, height);
            &&& shown.len() <= height
            &&& from + height <= rows.len() ==> shown.len() == height
            &&& from <= rows.len() < from + height ==> shown.len() == rows.len() - from
            &&& from > rows.len() ==> shown.len() == 0
            &&& 0 <= k < shown.len() ==> shown[k] == rows[from + k]
        }),
{
}

/// The preview shows why there is no picture where there is a reason; nothing under a
/// picture; and otherwise the rows of the document as wide as the body, from where it
/// is scrolled to.
pub proof fn the_preview_shows_the_document(app: App, body: Rect, k: int)
    ensures
        ({
            let shown = screen::preview_lines(app, body);
            let rows = doc::rendered(app.doc@, body.width as nat);
            &&& app.trouble matches Some(why) ==> shown.len() == 1 && shown[0]
                == line::line_over(
                seq!['('] + why@ + seq![')'],
                line::in_color(theme::dim_color(app.light)),
            )
            &&& app.trouble is None && app.doc.media is Some ==> shown.len() == 0
            &&& app.trouble is None && app.doc.media is None ==> {
                &&& app.doc.scroll + body.height <= rows.len() ==> shown.len() == body.height
                &&& app.doc.scroll <= rows.len() < app.doc.scroll + body.height ==> shown.len()
                    == rows.len() - app.doc.scroll
                &&& 0 <= k < shown.len() ==> shown[k] == rows[app.doc.scroll + k]
            }
        }),
{
    reveal_strlit("(");
    reveal_strlit(")");
    assert("("@ =~= seq!['(']);
    assert(")"@ =~= seq![')']);
}

/// Drawing the preview changes where its body is and how the document is laid out,
/// and nothing else: not what the document says.
pub proof fn drawing_the_preview_changes_no_document(
    before: App,
    after: App,
    area: Rect,
    half: Option<PreviewHalf>,
)
    requires
        before.wf(),
        screen::is_preview_drawn(before, after, area, half),
    ensures
        after == (App { body: after.body, doc: after.doc, ..before }),
        after.doc@ == before.doc@,
        half is Some <==> area.width > 0 && area.height > 0,
        half matches Some(half) ==> half.body == after.body && after.body.width == area.width - 1
            && after.body.height == area.height - 1 && after.body.x == (area.x + 1) as u16
            && after.body.y == (area.y + 1) as u16,
{
}

/// The header of the preview gives the title in bold, and beside it what there is to
/// say of the document, if there is anything.
pub proof fn the_preview_is_headed_by_title_and_info(doc: doc::DocView, light: bool)
    ensures
        ({
            let header = screen::preview_header(doc, light);
            &&& header.spans.len() == (if doc.info.len() == 0 {
                1nat
            } else {
                2nat
            })
            &&& header.spans[0].content == seq![' '] + doc.title
            &&& header.spans[0].style.bold
            &&& doc.info.len() > 0 ==> header.spans[1].content == seq![' ', ' ', ' '] + doc.info
        }),
{
    reveal_strlit(" ");
    reveal_strlit("   ");
    assert(" "@ =~= seq![' ']);
    assert("   "@ =~= seq![' ', ' ', ' ']);
}

/// A document that is laid out anew stays where it is scrolled to as far as it has
/// rows, and goes to its last one where it has fewer.
pub proof fn a_document_laid_out_anew_stays_as_far_as_it_has_rows(
    before: App,
    after: App,
    area: Rect,
    half: Option<PreviewHalf>,
)
    requires
        before.wf(),
        area.width > 0,
        area.height > 0,
        before.trouble is None,
        before.doc.media is None,
        screen::is_preview_drawn(before, after, area, half),
        before.doc.rows_width != Some(after.body.width),
    ensures
        ({
            let rows = doc::rendered(before.doc@, after.body.width as nat).len();
            &&& after.doc.rows_width == Some(after.body.width)
            &&& before.doc.scroll < rows ==> after.doc.scroll == before.doc.scroll
            &&& before.doc.scroll >= rows > 0 ==> after.doc.scroll == rows - 1
            &&& rows == 0 ==> after.doc.scroll == 0
        }),
{
}

} // verus!
