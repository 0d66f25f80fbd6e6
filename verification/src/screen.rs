//! What a frame looks like: the tree on the left, a rule, and the preview on the
//! right, each as lines and the rectangle they go in.
use crate::doc;
use crate::line;
use crate::line::{Color, Line, LineView, Span, SpanView, Style};
use crate::pane;
use crate::pane::{App, PREVIEW_MIN, TREE_MAX, TREE_MIN};
use crate::path;
use crate::rect;
use crate::rect::Rect;
use crate::text;
use crate::theme;
use crate::tree;
use crate::tree::{Row, RowView};
use vstd::prelude::*;
use vstd::string::StringExecFns;

verus! {

/// The glyph that stands before a row's name.
pub struct Icon {
    pub glyph: String,
    pub rgb: Option<(u8, u8, u8)>,
}

/// The tree half of a frame: its header, and the rows that show in its body.
pub struct TreeHalf {
    pub header: Line,
    pub body: Rect,
    /// The first row that shows, and one past the last.
    pub first: usize,
    pub last: usize,
}

/// The preview half of a frame: its header, and the lines in its body.
pub struct PreviewHalf {
    pub header: Line,
    pub body: Rect,
    pub lines: Vec<Line>,
}

/// A whole frame.
pub struct Screen {
    pub tree: Option<TreeHalf>,
    pub rule: Rect,
    pub rule_lines: Vec<Line>,
    pub rule_style: Style,
    pub preview: Option<PreviewHalf>,
}

// ---------------------------------------------------------------------------
// Rows of the tree
// ---------------------------------------------------------------------------

/// What shows whether a row is a directory, and whether it is expanded.
pub open spec fn chevron(row: RowView) -> Seq<char> {
    if row.is_dir {
        if row.expanded {
            "▾ "@
        } else {
            "▸ "@
        }
    } else {
        "  "@
    }
}

/// The style of a glyph.
pub open spec fn glyph_style(rgb: Option<(u8, u8, u8)>) -> Style {
    match rgb {
        Some((r, g, b)) => line::in_color(Color::Rgb(r, g, b)),
        None => line::no_style(),
    }
}

/// The spans of a row: indent, chevron, icon, name.
pub open spec fn row_spans(
    row: RowView,
    glyph: Seq<char>,
    rgb: Option<(u8, u8, u8)>,
    light: bool,
) -> Seq<SpanView> {
    seq![
        SpanView { content: text::run_of(' ', 2 * row.depth + 1), style: line::no_style() },
        SpanView {
            content: chevron(row),
            style: line::in_color(theme::dim_color(light)),
        },
        SpanView { content: glyph + " "@, style: glyph_style(rgb) },
        SpanView { content: row.name, style: line::in_color(theme::chrome_color(light)) },
    ]
}

/// What is behind the selected row.
pub open spec fn selection_style(light: bool) -> Style {
    Style { fg: None, bg: Some(theme::selection_color(light)), bold: false }
}

/// One row of the tree. The selected one is padded to the full width so the
/// highlight reads as a row, not a label.
pub open spec fn row_line(
    row: RowView,
    glyph: Seq<char>,
    rgb: Option<(u8, u8, u8)>,
    selected: bool,
    width: nat,
    light: bool,
) -> LineView {
    let spans = row_spans(row, glyph, rgb, light);
    let used = line::spans_width(spans);
    if !selected {
        LineView { spans, style: line::no_style() }
    } else if used < width {
        LineView {
            spans: spans.push(
                SpanView {
                    content: text::run_of(' ', (width - used) as nat),
                    style: line::no_style(),
                },
            ),
            style: selection_style(light),
        }
    } else {
        LineView { spans, style: selection_style(light) }
    }
}

/// One row: indent, chevron, icon, name, and nothing else.
pub fn tree_line(row: &Row, icon: &Icon, selected: bool, width: u16, light: bool) -> (out: Line)
    requires
        2 * row.depth + 1 <= usize::MAX,
    ensures
        out@ == row_line(row@, icon.glyph@, icon.rgb, selected, width as nat, light),
{
    let chevron = if row.is_dir {
        if row.expanded {
            "▾ "
        } else {
            "▸ "
        }
    } else {
        "  "
    };
    let glyph = match icon.rgb {
        Some((r, g, b)) => Style::colored(Color::Rgb(r, g, b)),
        None => Style::plain(),
    };
    let mut spans: Vec<Span> = Vec::new();
    spans.push(Span::raw(text::repeat(' ', row.depth * 2 + 1)));
    spans.push(Span::styled(chevron.to_owned(), Style::colored(theme::dim(light))));
    spans.push(Span::styled(icon.glyph.clone().concat(" "), glyph));
    spans.push(Span::styled(row.name.clone(), Style::colored(theme::chrome(light))));
    let ghost expected = row_spans(row@, icon.glyph@, icon.rgb, light);
    assert(line::spans_view(spans@) =~= expected);
    let mut out = Line::of(spans);
    if selected {
        if let Some(free) = out.spare(width as usize) {
            if free > 0 {
                let pad = Span::raw(text::repeat(' ', free));
                out.spans.push(pad);
                assert(line::spans_view(out.spans@) =~= expected.push(pad@));
            }
        }
        out.style = Style { fg: None, bg: Some(theme::selection_bg(light)), bold: false };
    }
    out
}

// ---------------------------------------------------------------------------
// The tree half
// ---------------------------------------------------------------------------

/// The first row that shows: moved to keep the cursor on screen, where that is
/// wanted, and never so far that there is room below the last row.
pub open spec fn first_shown(
    offset: nat,
    selected: nat,
    follow: bool,
    height: nat,
    count: nat,
) -> nat {
    let chased = if follow && selected < offset {
        selected
    } else if follow && height > 0 && selected >= offset + height {
        (selected + 1 - height) as nat
    } else {
        offset
    };
    let page = if height > 1 {
        height
    } else {
        1
    };
    pane::at_most(
        chased,
        if count > page {
            (count - page) as nat
        } else {
            0
        },
    )
}

/// One past the last row that shows.
pub open spec fn past_shown(first: nat, height: nat, count: nat) -> nat {
    if first >= count {
        first
    } else {
        pane::at_most(first + height, count)
    }
}

/// A rectangle without its first row.
pub open spec fn below(area: Rect) -> Rect {
    Rect { y: (area.y + 1) as u16, height: (area.height - 1) as u16, ..area }
}

/// The name at the top of the tree.
pub open spec fn tree_header(root: Seq<char>, light: bool) -> LineView {
    LineView {
        spans: seq![
            SpanView {
                content: " "@ + path::title(root),
                style: (Style { bold: true, ..line::in_color(theme::chrome_color(light)) }),
            },
        ],
        style: line::no_style(),
    }
}

/// What drawing the tree half comes to: nothing where there is no room for the
/// header.
pub open spec fn is_tree_drawn(
    before: App,
    after: App,
    area: Rect,
    half: Option<TreeHalf>,
) -> bool {
    if area.height == 0 {
        half is None && after == before
    } else {
        let body = below(area);
        let first = first_shown(
            before.offset as nat,
            before.selected as nat,
            before.follow,
            body.height as nat,
            before.rows@.len(),
        );
        &&& half matches Some(half) && {
            &&& half.header@ == tree_header(before.tree@.root, before.light)
            &&& half.body == body
            &&& half.first == first
            &&& half.last == past_shown(first, body.height as nat, before.rows@.len())
        }
        &&& after == (App { tree_body: body, offset: first as usize, ..before })
    }
}

/// A header: text in bold, with a space before it.
fn bold_header(content: &str, light: bool) -> (span: Span)
    ensures
        span@ == (SpanView {
            content: " "@ + content@,
            style: (Style { bold: true, ..line::in_color(theme::chrome_color(light)) }),
        }),
{
    let style = Style { fg: Some(theme::chrome(light)), bg: None, bold: true };
    Span::styled(" ".to_owned().concat(content), style)
}

impl App {
    /// Draw the tree half. The cursor is kept on screen, but only when the cursor
    /// is what moved; and the tree never scrolls past the last row, however the
    /// offset got there.
    pub fn draw_tree(&mut self, area: Rect) -> (half: Option<TreeHalf>)
        requires
            old(self).wf(),
            rect::is_bounded(area),
        ensures
            final(self).wf(),
            is_tree_drawn(*old(self), *final(self), area, half),
    {
        if area.height == 0 {
            return None;
        }
        let name = self.tree.root_name();
        let mut spans: Vec<Span> = Vec::new();
        spans.push(bold_header(name.as_str(), self.light));
        let header = Line::of(spans);
        assert(header@ =~= tree_header(self.tree@.root, self.light));
        let body = Rect { x: area.x, y: area.y + 1, width: area.width, height: area.height - 1 };
        self.tree_body = body;
        let height = body.height as usize;
        let count = self.rows.len();
        let mut offset = self.offset;
        if self.follow {
            if self.selected < offset {
                offset = self.selected;
            } else if height > 0 && self.selected - offset >= height {
                offset = self.selected + 1 - height;
            }
        }
        let page = if height > 1 {
            height
        } else {
            1
        };
        let most = count.saturating_sub(page);
        if offset > most {
            offset = most;
        }
        self.offset = offset;
        let last = if offset >= count {
            offset
        } else if height < count - offset {
            offset + height
        } else {
            count
        };
        Some(TreeHalf { header, body, first: offset, last })
    }

    /// The lines of the rows that show, with an icon for each of them.
    pub fn tree_lines(&self, half: &TreeHalf, icons: &Vec<Icon>) -> (lines: Vec<Line>)
        requires
            self.wf(),
            half.first <= half.last,
            half.first < half.last ==> half.last <= self.rows@.len(),
            icons@.len() == half.last - half.first,
        ensures
            line::lines_view(lines@) == Seq::new(
                icons@.len(),
                |k: int|
                    row_line(
                        self.rows@[half.first + k]@,
                        icons@[k].glyph@,
                        icons@[k].rgb,
                        half.first + k == self.selected,
                        half.body.width as nat,
                        self.light,
                    ),
            ),
    {
        let ghost expected = Seq::new(
            icons@.len(),
            |k: int|
                row_line(
                    self.rows@[half.first + k]@,
                    icons@[k].glyph@,
                    icons@[k].rgb,
                    half.first + k == self.selected,
                    half.body.width as nat,
                    self.light,
                ),
        );
        let mut lines: Vec<Line> = Vec::new();
        let mut k: usize = 0;
        let count = half.last - half.first;
        while k < count
            invariant
                k <= count == icons@.len(),
                half.first + count == half.last,
                half.first < half.last ==> half.last <= self.rows@.len(),
                tree::rows_fit(self.rows@),
                expected == Seq::new(
                    icons@.len(),
                    |k: int|
                        row_line(
                            self.rows@[half.first + k]@,
                            icons@[k].glyph@,
                            icons@[k].rgb,
                            half.first + k == self.selected,
                            half.body.width as nat,
                            self.light,
                        ),
                ),
                line::lines_view(lines@) == expected.take(k as int),
            decreases count - k,
        {
            let index = half.first + k;
            let ghost before = line::lines_view(lines@);
            assert(2 * self.rows@[index as int].depth + 1 <= usize::MAX);
            lines.push(
                tree_line(
                    &self.rows[index],
                    &icons[k],
                    index == self.selected,
                    half.body.width,
                    self.light,
                ),
            );
            proof {
                assert(line::lines_view(lines@) =~= before.push(expected[k as int]));
                assert(expected.take(k + 1) =~= expected.take(k as int).push(expected[k as int]));
            }
            k += 1;
        }
        assert(expected.take(k as int) =~= expected);
        lines
    }
}

/// While the viewport follows the cursor, the cursor is on screen.
pub proof fn the_cursor_stays_on_screen(
    offset: nat,
    selected: nat,
    height: nat,
    count: nat,
)
    requires
        selected < count,
        height > 0,
    ensures
        ({
            let first = first_shown(offset, selected, true, height, count);
            first <= selected < past_shown(first, height, count)
        }),
{
}

/// While the viewport does not follow the cursor, the tree stays where it was
/// put, wherever the cursor is.
pub proof fn a_scrolled_tree_stays_put(
    offset: nat,
    selected: nat,
    moved: nat,
    height: nat,
    count: nat,
)
    ensures
        first_shown(offset, selected, false, height, count) == first_shown(
            offset,
            moved,
            false,
            height,
            count,
        ),
        first_shown(offset, selected, false, height, count) <= offset,
{
}

/// The tree never scrolls past its last row: either all of them show, or the
/// body is full of them.
pub proof fn the_body_is_never_short_of_rows(
    offset: nat,
    selected: nat,
    follow: bool,
    height: nat,
    count: nat,
)
    requires
        height > 0,
    ensures
        ({
            let first = first_shown(offset, selected, follow, height, count);
            let past = past_shown(first, height, count);
            past - first == pane::at_most(height, count)
        }),
{
}

// ---------------------------------------------------------------------------
// The preview half
// ---------------------------------------------------------------------------

/// The title of the document and, beside it, what there is to say of it.
pub open spec fn preview_header(doc: doc::DocView, light: bool) -> LineView {
    let title = SpanView {
        content: " "@ + doc.title,
        style: (Style { bold: true, ..line::in_color(theme::chrome_color(light)) }),
    };
    LineView {
        spans: if doc.info.len() == 0 {
            seq![title]
        } else {
            seq![
                title,
                SpanView {
                    content: "   "@ + doc.info,
                    style: line::in_color(theme::dim_color(light)),
                },
            ]
        },
        style: line::no_style(),
    }
}

/// Where the body of the preview goes: under the header, and a column in.
pub open spec fn preview_body(area: Rect) -> Rect {
    Rect {
        x: (area.x + 1) as u16,
        y: (area.y + 1) as u16,
        width: (area.width - 1) as u16,
        height: (area.height - 1) as u16,
    }
}

/// At most `height` of these rows, from the one at `from`.
pub open spec fn window(rows: Seq<LineView>, from: nat, height: nat) -> Seq<LineView> {
    if from >= rows.len() {
        Seq::empty()
    } else {
        rows.subrange(from as int, pane::at_most(from + height, rows.len()) as int)
    }
}

/// The lines of the preview: what went wrong; or nothing under a picture, whose
/// cells must stay empty; or the rows of the document from where it is scrolled
/// to.
pub open spec fn preview_lines(app: App, body: Rect) -> Seq<LineView> {
    match app.trouble {
        Some(trouble) => seq![
            line::line_over(
                "("@ + trouble@ + ")"@,
                line::in_color(theme::dim_color(app.light)),
            ),
        ],
        None => if app.doc.media is Some {
            Seq::empty()
        } else {
            window(
                doc::rendered(app.doc@, body.width as nat),
                app.doc.scroll as nat,
                body.height as nat,
            )
        },
    }
}

/// What drawing the preview half comes to: nothing where there is no room. The
/// document is laid out for the body it is drawn in, and keeps its place.
pub open spec fn is_preview_drawn(
    before: App,
    after: App,
    area: Rect,
    half: Option<PreviewHalf>,
) -> bool {
    if area.height == 0 || area.width == 0 {
        half is None && after == before
    } else {
        let body = preview_body(area);
        &&& half matches Some(half) && {
            &&& half.header@ == preview_header(before.doc@, before.light)
            &&& half.body == body
            &&& line::lines_view(half.lines@) == preview_lines(before, body)
        }
        &&& if before.trouble is Some || before.doc.media is Some {
            after.doc == before.doc
        } else {
            &&& after.doc@ == before.doc@
            &&& after.doc.rows_width == Some(body.width)
            &&& after.doc.scroll == (if before.doc.rows_width == Some(body.width) {
                before.doc.scroll as nat
            } else {
                doc::clamped(
                    before.doc.scroll as int,
                    doc::rendered(before.doc@, body.width as nat).len(),
                )
            })
        }
        &&& after == (App { body, doc: after.doc, ..before })
    }
}

/// The preview stays where it was scrolled to: drawing it again, in a body as
/// wide as before, does not move it.
pub proof fn a_scrolled_preview_stays_put(
    before: App,
    after: App,
    area: Rect,
    half: Option<PreviewHalf>,
)
    requires
        before.wf(),
        is_preview_drawn(before, after, area, half),
        before.doc.rows_width == Some(preview_body(area).width),
    ensures
        after.doc.scroll == before.doc.scroll,
        after.doc.rows_width == before.doc.rows_width,
{
}

/// At most `height` of these rows, from the one at `from`.
fn rows_from(rows: &Vec<Line>, from: usize, height: usize) -> (out: Vec<Line>)
    ensures
        line::lines_view(out@) == window(
            line::lines_view(rows@),
            from as nat,
            height as nat,
        ),
{
    let ghost all = line::lines_view(rows@);
    let mut out: Vec<Line> = Vec::new();
    let count = rows.len();
    if from >= count {
        assert(line::lines_view(out@) =~= Seq::<LineView>::empty());
        return out;
    }
    let end = if height < count - from {
        from + height
    } else {
        count
    };
    let mut i: usize = from;
    assert(line::lines_view(out@) =~= all.subrange(from as int, from as int));
    while i < end
        invariant
            from <= i <= end <= rows@.len(),
            all == line::lines_view(rows@),
            line::lines_view(out@) == all.subrange(from as int, i as int),
        decreases end - i,
    {
        let ghost before = line::lines_view(out@);
        out.push(rows[i].clone());
        i += 1;
        assert(line::lines_view(out@) =~= before.push(all[i - 1]));
        assert(all.subrange(from as int, i as int) =~= all.subrange(from as int, i - 1).push(
            all[i - 1],
        ));
    }
    out
}

impl App {
    /// Draw the preview half.
    pub fn draw_preview(&mut self, area: Rect) -> (half: Option<PreviewHalf>)
        requires
            old(self).wf(),
            rect::is_bounded(area),
        ensures
            final(self).wf(),
            is_preview_drawn(*old(self), *final(self), area, half),
    {
        if area.height == 0 || area.width == 0 {
            return None;
        }
        let mut spans: Vec<Span> = Vec::new();
        spans.push(bold_header(self.doc.title.as_str(), self.light));
        if !self.doc.info.as_str().is_empty() {
            spans.push(
                Span::styled(
                    "   ".to_owned().concat(self.doc.info.as_str()),
                    Style::colored(theme::dim(self.light)),
                ),
            );
        }
        let header = Line::of(spans);
        assert(header@ =~= preview_header(self.doc@, self.light));
        let body = Rect {
            x: area.x + 1,
            y: area.y + 1,
            width: area.width - 1,
            height: area.height - 1,
        };
        self.body = body;
        let mut lines: Vec<Line> = Vec::new();
        if let Some(trouble) = &self.trouble {
            lines.push(
                Line::styled(
                    "(".to_owned().concat(trouble.as_str()).concat(")").as_str(),
                    Style::colored(theme::dim(self.light)),
                ),
            );
            assert(line::lines_view(lines@) =~= preview_lines(*old(self), body));
            return Some(PreviewHalf { header, body, lines });
        }
        // A picture's cells stay empty: the image is composited over them.
        if self.doc.media.is_some() {
            assert(line::lines_view(lines@) =~= preview_lines(*old(self), body));
            return Some(PreviewHalf { header, body, lines });
        }
        let scroll = self.doc.scroll;
        let rows = self.doc.rows(body.width);
        let lines = rows_from(rows, scroll, body.height as usize);
        Some(PreviewHalf { header, body, lines })
    }
}

// ---------------------------------------------------------------------------
// The whole frame
// ---------------------------------------------------------------------------

/// How wide the tree is: a third of the pane, within bounds, leaving the preview
/// its minimum, and never nothing.
pub open spec fn tree_width_of(width: u16) -> nat {
    let third = (width / 3) as nat;
    let wanted = if third < TREE_MIN {
        TREE_MIN as nat
    } else {
        pane::at_most(third, TREE_MAX as nat)
    };
    let left = if width > PREVIEW_MIN {
        (width - PREVIEW_MIN) as nat
    } else {
        0
    };
    if pane::at_most(wanted, left) < 1 {
        1
    } else {
        pane::at_most(wanted, left)
    }
}

fn tree_width(width: u16) -> (out: u16)
    ensures
        out == tree_width_of(width),
{
    let third = width / 3;
    let wanted = if third < TREE_MIN {
        TREE_MIN
    } else if third < TREE_MAX {
        third
    } else {
        TREE_MAX
    };
    let left = width.saturating_sub(PREVIEW_MIN);
    let out = if wanted < left {
        wanted
    } else {
        left
    };
    if out < 1 {
        1
    } else {
        out
    }
}

/// A rectangle cut into columns: two of a given width, side by side, and the
/// rest.
pub open spec fn columns_of(area: Rect, first: u16, second: u16) -> (Rect, Rect, Rect) {
    (
        Rect { width: first, ..area },
        Rect { x: (area.x + first) as u16, width: second, ..area },
        Rect {
            x: (area.x + first + second) as u16,
            width: (area.width - first - second) as u16,
            ..area
        },
    )
}

/// Whether a rectangle is a column of an area: as high as it, and bounded.
pub open spec fn is_column(column: Rect, area: Rect) -> bool {
    column.y == area.y && column.height == area.height && column.x + column.width <= u16::MAX
}

/// Cut a rectangle into columns: two of a given width, and the rest.
///
/// `ratatui::layout::Layout::horizontal` over two `Length` constraints and a
/// `Min` of nothing, and `split`. Columns are as high as the area. Where both
/// widths fit they are given exactly, from left to right, and the third column
/// takes the rest. Where they do not fit, which of them gives way is left to the
/// solver; the columns still end within the largest coordinate.
#[verifier::external_body]
fn split_columns(area: Rect, first: u16, second: u16) -> (columns: (Rect, Rect, Rect))
    requires
        rect::is_bounded(area),
    ensures
        is_column(columns.0, area),
        is_column(columns.1, area),
        is_column(columns.2, area),
        first + second <= area.width ==> columns == columns_of(area, first, second),
{
    let whole = ratatui::layout::Rect::new(area.x, area.y, area.width, area.height);
    let parts = ratatui::layout::Layout::horizontal([
        ratatui::layout::Constraint::Length(first),
        ratatui::layout::Constraint::Length(second),
        ratatui::layout::Constraint::Min(0),
    ]).split(whole);
    let own = |r: ratatui::layout::Rect| Rect { x: r.x, y: r.y, width: r.width, height: r.height };
    (own(parts[0]), own(parts[1]), own(parts[2]))
}

/// The lines of the rule: a stroke for each row of the pane.
pub open spec fn rule_of(height: nat) -> Seq<LineView> {
    Seq::new(height, |i: int| line::raw_line("│"@))
}

/// What drawing a frame in given columns comes to. `between` is what is left by
/// the tree half and found by the preview half.
pub open spec fn is_frame(
    before: App,
    between: App,
    after: App,
    area: Rect,
    columns: (Rect, Rect, Rect),
    screen: Screen,
) -> bool {
    &&& is_tree_drawn(before, between, columns.0, screen.tree)
    &&& is_preview_drawn(between, after, columns.2, screen.preview)
    &&& screen.rule == columns.1
    &&& line::lines_view(screen.rule_lines@) == rule_of(area.height as nat)
    &&& screen.rule_style == line::in_color(theme::rule_color(before.light))
}

impl App {
    /// Draw a frame in columns that have been cut already.
    pub fn draw_columns(&mut self, area: Rect, columns: (Rect, Rect, Rect)) -> (screen: Screen)
        requires
            old(self).wf(),
            rect::is_bounded(columns.0),
            rect::is_bounded(columns.2),
        ensures
            final(self).wf(),
            exists|between: App|
                is_frame(*old(self), between, *final(self), area, columns, screen),
    {
        let tree = self.draw_tree(columns.0);
        let ghost between = *self;
        let mut rule_lines: Vec<Line> = Vec::new();
        let mut i: u16 = 0;
        while i < area.height
            invariant
                i <= area.height,
                line::lines_view(rule_lines@) == rule_of(i as nat),
            decreases area.height - i,
        {
            let ghost before = line::lines_view(rule_lines@);
            rule_lines.push(Line::raw("│"));
            i += 1;
            assert(line::lines_view(rule_lines@) =~= before.push(line::raw_line("│"@)));
            assert(rule_of(i as nat) =~= rule_of((i - 1) as nat).push(line::raw_line("│"@)));
        }
        let preview = self.draw_preview(columns.2);
        let screen = Screen {
            tree,
            rule: columns.1,
            rule_lines,
            rule_style: Style::colored(theme::rule(self.light)),
            preview,
        };
        assert(is_frame(*old(self), between, *self, area, columns, screen));
        screen
    }

    /// Draw a frame.
    pub fn draw(&mut self, area: Rect) -> (screen: Screen)
        requires
            old(self).wf(),
            rect::is_bounded(area),
        ensures
            final(self).wf(),
            exists|between: App, columns: (Rect, Rect, Rect)|
                #![trigger is_frame(*old(self), between, *final(self), area, columns, screen)]
                is_frame(*old(self), between, *final(self), area, columns, screen) && is_column(
                    columns.0,
                    area,
                ) && is_column(columns.1, area) && is_column(columns.2, area) && (
                tree_width_of(area.width) + 1 <= area.width ==> columns == columns_of(
                    area,
                    tree_width_of(area.width) as u16,
                    1,
                )),
    {
        let columns = split_columns(area, tree_width(area.width), 1);
        self.draw_columns(area, columns)
    }
}

} // verus!
