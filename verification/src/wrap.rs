//! Width-aware wrapping of styled lines, so that continuations are rows like any
//! other. A line is broken wherever it runs out of room, and a tab comes out as
//! spaces.
use crate::line;
use crate::line::{Line, LineView, Span, SpanView, Style};
use crate::text;
use vstd::prelude::*;

verus! {

/// How many spaces a tab comes out as.
pub const TAB_WIDTH: usize = 4;

/// One character in its style.
#[derive(Clone, Copy)]
pub struct Cell {
    pub ch: char,
    pub style: Style,
}

// ---------------------------------------------------------------------------
// Models
// ---------------------------------------------------------------------------

pub open spec fn spaces(n: nat, style: Style) -> Seq<Cell> {
    Seq::new(n, |i: int| Cell { ch: ' ', style })
}

/// What one character comes out as.
pub open spec fn cells_of_char(ch: char, style: Style) -> Seq<Cell> {
    if ch == '\t' {
        spaces(TAB_WIDTH as nat, style)
    } else {
        seq![Cell { ch, style }]
    }
}

/// What text in one style comes out as.
pub open spec fn cells_of_text(s: Seq<char>, style: Style) -> Seq<Cell>
    decreases s.len(),
{
    if s.len() == 0 {
        Seq::empty()
    } else {
        cells_of_text(s.drop_last(), style) + cells_of_char(s.last(), style)
    }
}

/// What spans side by side come out as.
pub open spec fn cells_of(spans: Seq<SpanView>) -> Seq<Cell>
    decreases spans.len(),
{
    if spans.len() == 0 {
        Seq::empty()
    } else {
        cells_of(spans.drop_last()) + cells_of_text(spans.last().content, spans.last().style)
    }
}

/// How many columns one character takes up on its own.
pub open spec fn cell_width(cell: Cell) -> nat {
    line::display_width(seq![cell.ch])
}

/// How many columns these characters take up, one by one.
pub open spec fn cells_width(cells: Seq<Cell>) -> nat
    decreases cells.len(),
{
    if cells.len() == 0 {
        0
    } else {
        cells_width(cells.drop_last()) + cell_width(cells.last())
    }
}

/// How many of these characters fit, from the first, into so many columns.
pub open spec fn fitting(cells: Seq<Cell>, columns: nat) -> nat
    decreases cells.len(),
{
    if cells.len() == 0 || cell_width(cells.first()) > columns {
        0
    } else {
        1 + fitting(cells.drop_first(), (columns - cell_width(cells.first())) as nat)
    }
}

/// How many of these characters go on one row: as many as fit, and one at the
/// least.
pub open spec fn row_length(cells: Seq<Cell>, columns: nat) -> nat {
    if fitting(cells, columns) == 0 {
        1
    } else {
        fitting(cells, columns)
    }
}

/// These characters, row by row.
pub open spec fn broken(cells: Seq<Cell>, columns: nat) -> Seq<Seq<Cell>>
    decreases cells.len(),
{
    if cells.len() == 0 {
        Seq::empty()
    } else {
        proof {
            lemma_fitting(cells, columns);
        }
        let n = row_length(cells, columns) as int;
        seq![cells.take(n)] + broken(cells.skip(n), columns)
    }
}

pub proof fn lemma_fitting(cells: Seq<Cell>, columns: nat)
    ensures
        fitting(cells, columns) <= cells.len(),
    decreases cells.len(),
{
    if cells.len() > 0 && cell_width(cells.first()) <= columns {
        lemma_fitting(cells.drop_first(), (columns - cell_width(cells.first())) as nat);
    }
}

/// Characters gathered into spans, one for each run of the same style.
pub open spec fn gathered(cells: Seq<Cell>) -> Seq<SpanView>
    decreases cells.len(),
{
    if cells.len() == 0 {
        Seq::empty()
    } else {
        let before = gathered(cells.drop_last());
        let cell = cells.last();
        if before.len() > 0 && before.last().style == cell.style {
            before.drop_last().push(
                SpanView { content: before.last().content.push(cell.ch), style: cell.style },
            )
        } else {
            before.push(SpanView { content: seq![cell.ch], style: cell.style })
        }
    }
}

/// The rows that a line wraps into: one at the least, each over the line's own
/// style.
pub open spec fn wrapped(line: LineView, columns: nat) -> Seq<LineView> {
    let cells = cells_of(line.spans);
    if cells.len() == 0 {
        seq![LineView { spans: Seq::empty(), style: line.style }]
    } else {
        broken(cells, columns).map_values(
            |row: Seq<Cell>| LineView { spans: gathered(row), style: line.style },
        )
    }
}

// ---------------------------------------------------------------------------
// What holds of every wrapped line
// ---------------------------------------------------------------------------

/// What rows one after another come out as.
pub open spec fn cells_of_rows(rows: Seq<LineView>) -> Seq<Cell>
    decreases rows.len(),
{
    if rows.len() == 0 {
        Seq::empty()
    } else {
        cells_of(rows.first().spans) + cells_of_rows(rows.drop_first())
    }
}

/// Whether there is no tab among these characters.
pub open spec fn is_tabless(cells: Seq<Cell>) -> bool {
    forall|i: int| 0 <= i < cells.len() ==> (#[trigger] cells[i]).ch != '\t'
}

/// Wrapping loses nothing and adds nothing: the rows one after another say what
/// the line said, in the same styles, with its tabs as spaces.
pub proof fn wrapping_loses_nothing(line: LineView, columns: nat)
    ensures
        cells_of_rows(wrapped(line, columns)) == cells_of(line.spans),
        wrapped(line, columns).len() >= 1,
{
    let cells = cells_of(line.spans);
    let rows = wrapped(line, columns);
    if cells.len() == 0 {
        assert(rows.drop_first() =~= Seq::<LineView>::empty());
        assert(cells_of(rows.first().spans) =~= Seq::<Cell>::empty());
        assert(cells_of_rows(rows) =~= Seq::<Cell>::empty()) by {
            reveal_with_fuel(cells_of_rows, 2);
        }
    } else {
        lemma_tabless(line.spans);
        lemma_rows_say_all(cells, columns, line.style);
    }
}

proof fn lemma_tabless(spans: Seq<SpanView>)
    ensures
        is_tabless(cells_of(spans)),
    decreases spans.len(),
{
    if spans.len() > 0 {
        lemma_tabless(spans.drop_last());
        lemma_tabless_text(spans.last().content, spans.last().style);
    }
}

proof fn lemma_tabless_char(ch: char, style: Style)
    ensures
        is_tabless(cells_of_char(ch, style)),
{
}

proof fn lemma_tabless_text(s: Seq<char>, style: Style)
    ensures
        is_tabless(cells_of_text(s, style)),
    decreases s.len(),
{
    if s.len() > 0 {
        lemma_tabless_text(s.drop_last(), style);
        lemma_tabless_char(s.last(), style);
    }
}

proof fn lemma_rows_say_all(cells: Seq<Cell>, columns: nat, style: Style)
    requires
        is_tabless(cells),
    ensures
        cells_of_rows(
            broken(cells, columns).map_values(
                |row: Seq<Cell>| LineView { spans: gathered(row), style },
            ),
        ) == cells,
    decreases cells.len(),
{
    let shape = |row: Seq<Cell>| LineView { spans: gathered(row), style };
    let rows = broken(cells, columns).map_values(shape);
    if cells.len() > 0 {
        lemma_fitting(cells, columns);
        let n = row_length(cells, columns) as int;
        let rest = broken(cells.skip(n), columns).map_values(shape);
        assert(broken(cells, columns) == seq![cells.take(n)] + broken(cells.skip(n), columns));
        assert(rows =~= seq![shape(cells.take(n))] + rest);
        assert(rows.drop_first() =~= rest);
        lemma_rows_say_all(cells.skip(n), columns, style);
        lemma_gathered(cells.take(n));
        assert(cells.take(n) + cells.skip(n) =~= cells);
    } else {
        assert(rows =~= Seq::<LineView>::empty());
        assert(cells =~= Seq::<Cell>::empty());
    }
}

/// Gathering characters into spans changes none of them.
proof fn lemma_gathered(cells: Seq<Cell>)
    requires
        is_tabless(cells),
    ensures
        cells_of(gathered(cells)) == cells,
    decreases cells.len(),
{
    if cells.len() > 0 {
        let head = cells.drop_last();
        let cell = cells.last();
        let before = gathered(head);
        let after = gathered(cells);
        lemma_gathered(head);
        assert(cells_of_char(cell.ch, cell.style) =~= seq![cell]);
        assert(head + seq![cell] =~= cells);
        if before.len() > 0 && before.last().style == cell.style {
            let content = before.last().content;
            assert(after.drop_last() =~= before.drop_last());
            assert(after.last().content.drop_last() =~= content);
            assert(cells_of(after) =~= cells_of(before.drop_last()) + (cells_of_text(
                content,
                cell.style,
            ) + seq![cell]));
            assert(cells_of(after) =~= cells_of(before) + seq![cell]);
        } else {
            assert(after.drop_last() =~= before);
            assert(seq![cell.ch].drop_last() =~= Seq::<char>::empty());
            assert(cells_of_text(seq![cell.ch], cell.style) =~= seq![cell]) by {
                reveal_with_fuel(cells_of_text, 2);
            }
        }
    } else {
        assert(cells =~= Seq::<Cell>::empty());
    }
}

/// Every row is within the columns it was wrapped to, unless it is a single
/// character that is wider than all of them.
pub proof fn every_row_fits(cells: Seq<Cell>, columns: nat)
    ensures
        forall|i: int|
            0 <= i < broken(cells, columns).len() ==> {
                let row = #[trigger] broken(cells, columns)[i];
                &&& row.len() >= 1
                &&& cells_width(row) <= columns || row.len() == 1
            },
    decreases cells.len(),
{
    if cells.len() > 0 {
        lemma_fitting(cells, columns);
        let n = row_length(cells, columns) as int;
        let rest = broken(cells.skip(n), columns);
        every_row_fits(cells.skip(n), columns);
        lemma_fitting_width(cells, columns);
        let all = broken(cells, columns);
        assert(all == seq![cells.take(n)] + rest);
        assert forall|i: int| 0 <= i < all.len() implies {
            let row = #[trigger] all[i];
            &&& row.len() >= 1
            &&& cells_width(row) <= columns || row.len() == 1
        } by {
            if i > 0 {
                assert(all[i] == rest[i - 1]);
            }
        }
    }
}

proof fn lemma_fitting_width(cells: Seq<Cell>, columns: nat)
    ensures
        fitting(cells, columns) <= cells.len(),
        cells_width(cells.take(fitting(cells, columns) as int)) <= columns,
    decreases cells.len(),
{
    if cells.len() > 0 && cell_width(cells.first()) <= columns {
        let left = (columns - cell_width(cells.first())) as nat;
        let rest = cells.drop_first();
        lemma_fitting_width(rest, left);
        let n = fitting(rest, left) as int;
        assert(cells.take(n + 1) =~= seq![cells.first()] + rest.take(n));
        lemma_width_of_longer(cells.first(), rest.take(n));
    } else {
        assert(cells.take(0) =~= Seq::<Cell>::empty());
    }
}

proof fn lemma_width_of_longer(first: Cell, rest: Seq<Cell>)
    ensures
        cells_width(seq![first] + rest) == cell_width(first) + cells_width(rest),
    decreases rest.len(),
{
    let all = seq![first] + rest;
    if rest.len() > 0 {
        assert(all.drop_last() =~= seq![first] + rest.drop_last());
        assert(all.last() == rest.last());
        lemma_width_of_longer(first, rest.drop_last());
    } else {
        assert(all.drop_last() =~= Seq::<Cell>::empty());
        assert(cells_width(all) == cell_width(first)) by {
            reveal_with_fuel(cells_width, 2);
        }
    }
}

/// A row takes as much as fits: what begins the next one would not have gone on it
/// as well.
pub proof fn no_row_is_broken_early(cells: Seq<Cell>, columns: nat)
    ensures
        forall|i: int|
            0 <= i < broken(cells, columns).len() - 1 ==> cells_width(
                #[trigger] broken(cells, columns)[i],
            ) + cell_width(broken(cells, columns)[i + 1][0]) > columns,
    decreases cells.len(),
{
    if cells.len() > 0 {
        lemma_fitting(cells, columns);
        let n = row_length(cells, columns) as int;
        let rest = broken(cells.skip(n), columns);
        let all = broken(cells, columns);
        no_row_is_broken_early(cells.skip(n), columns);
        every_row_fits(cells.skip(n), columns);
        assert(all == seq![cells.take(n)] + rest);
        assert forall|i: int| 0 <= i < all.len() - 1 implies cells_width(#[trigger] all[i])
            + cell_width(all[i + 1][0]) > columns by {
            if i == 0 {
                let more = cells.skip(n);
                lemma_fitting(more, columns);
                assert(rest[0] == more.take(row_length(more, columns) as int));
                assert(all[1][0] == cells[n]);
                lemma_next_does_not_fit(cells, columns);
            } else {
                assert(all[i] == rest[i - 1]);
                assert(all[i + 1] == rest[i]);
            }
        }
    }
}

proof fn lemma_next_does_not_fit(cells: Seq<Cell>, columns: nat)
    requires
        cells.len() > 0,
        row_length(cells, columns) < cells.len(),
    ensures
        cells_width(cells.take(row_length(cells, columns) as int)) + cell_width(
            cells[row_length(cells, columns) as int],
        ) > columns,
{
    if fitting(cells, columns) == 0 {
        let one = cells.take(1);
        assert(one =~= seq![cells.first()] + Seq::<Cell>::empty());
        lemma_width_of_longer(cells.first(), Seq::empty());
    } else {
        lemma_after_fitting(cells, columns);
    }
}

proof fn lemma_after_fitting(cells: Seq<Cell>, columns: nat)
    requires
        fitting(cells, columns) < cells.len(),
    ensures
        cells_width(cells.take(fitting(cells, columns) as int)) + cell_width(
            cells[fitting(cells, columns) as int],
        ) > columns,
    decreases cells.len(),
{
    if cell_width(cells.first()) > columns {
        assert(cells.take(0) =~= Seq::<Cell>::empty());
    } else {
        let left = (columns - cell_width(cells.first())) as nat;
        let rest = cells.drop_first();
        lemma_after_fitting(rest, left);
        let n = fitting(rest, left) as int;
        assert(cells.take(n + 1) =~= seq![cells.first()] + rest.take(n));
        lemma_width_of_longer(cells.first(), rest.take(n));
        assert(cells[n + 1] == rest[n]);
    }
}

/// Each row of a wrapped line but the last is full: what begins the next would not
/// have gone on it as well. So a line takes no more rows than it needs.
pub proof fn wrapped_rows_are_full(line: LineView, columns: nat, i: int)
    requires
        0 <= i < wrapped(line, columns).len() - 1,
    ensures
        ({
            let row = cells_of(wrapped(line, columns)[i].spans);
            let next = cells_of(wrapped(line, columns)[i + 1].spans);
            next.len() > 0 && cells_width(row) + cell_width(next[0]) > columns
        }),
{
    let cells = cells_of(line.spans);
    let all = broken(cells, columns);
    lemma_tabless(line.spans);
    lemma_rows_tabless(cells, columns);
    no_row_is_broken_early(cells, columns);
    every_row_fits(cells, columns);
    assert(is_tabless(all[i]) && is_tabless(all[i + 1]));
    lemma_gathered(all[i]);
    lemma_gathered(all[i + 1]);
    assert(cells_width(all[i]) + cell_width(all[i + 1][0]) > columns);
}

/// Columns add up: characters side by side take what each of them takes.
pub proof fn columns_add_up(a: Seq<Cell>, b: Seq<Cell>, cell: Cell)
    ensures
        cells_width(a + b) == cells_width(a) + cells_width(b),
        cells_width(seq![cell]) == line::display_width(seq![cell.ch]),
        cells_width(Seq::empty()) == 0,
    decreases b.len(),
{
    let one = seq![cell];
    assert(one.drop_last() =~= Seq::<Cell>::empty());
    reveal_with_fuel(cells_width, 2);
    if b.len() == 0 {
        assert(a + b =~= a);
    } else {
        assert((a + b).drop_last() =~= a + b.drop_last());
        columns_add_up(a, b.drop_last(), cell);
    }
}

/// Characters are gathered into as few spans as their styles allow: none is empty,
/// and no two side by side are of the same style.
pub proof fn a_span_takes_a_whole_run(cells: Seq<Cell>)
    ensures
        forall|i: int|
            0 <= i < gathered(cells).len() ==> (#[trigger] gathered(cells)[i]).content.len() > 0,
        forall|i: int|
            0 < i < gathered(cells).len() ==> (#[trigger] gathered(cells)[i]).style != gathered(
                cells,
            )[i - 1].style,
    decreases cells.len(),
{
    if cells.len() > 0 {
        let before = gathered(cells.drop_last());
        let after = gathered(cells);
        a_span_takes_a_whole_run(cells.drop_last());
        assert forall|i: int| 0 <= i < after.len() implies (#[trigger] after[i]).content.len() > 0 by {
            if i < before.len() - 1 {
                assert(after[i] == before[i]);
            } else if i < before.len() && before.last().style != cells.last().style {
                assert(after[i] == before[i]);
            }
        }
        assert forall|i: int| 0 < i < after.len() implies (#[trigger] after[i]).style != after[i
            - 1].style by {
            assert(after[i - 1].style == before[i - 1].style);
            if i < before.len() {
                assert(after[i].style == before[i].style);
                assert(before[i].style != before[i - 1].style);
            }
        }
    }
}

/// Each row of a wrapped line is over the line's own style, and within the columns
/// it was wrapped to unless it is a single character.
pub proof fn wrapped_rows_fit_their_columns(line: LineView, columns: nat)
    ensures
        forall|i: int|
            0 <= i < wrapped(line, columns).len() ==> {
                let row = #[trigger] wrapped(line, columns)[i];
                &&& row.style == line.style
                &&& cells_width(cells_of(row.spans)) <= columns || cells_of(row.spans).len() == 1
            },
{
    let cells = cells_of(line.spans);
    let rows = wrapped(line, columns);
    if cells.len() == 0 {
        assert(cells_of(Seq::<SpanView>::empty()) =~= Seq::<Cell>::empty());
    } else {
        lemma_tabless(line.spans);
        every_row_fits(cells, columns);
        lemma_rows_tabless(cells, columns);
        assert forall|i: int| 0 <= i < rows.len() implies {
            let row = #[trigger] rows[i];
            &&& row.style == line.style
            &&& cells_width(cells_of(row.spans)) <= columns || cells_of(row.spans).len() == 1
        } by {
            let row = broken(cells, columns)[i];
            assert(is_tabless(row));
            lemma_gathered(row);
        }
    }
}

proof fn lemma_rows_tabless(cells: Seq<Cell>, columns: nat)
    requires
        is_tabless(cells),
    ensures
        forall|i: int|
            0 <= i < broken(cells, columns).len() ==> is_tabless(
                #[trigger] broken(cells, columns)[i],
            ),
    decreases cells.len(),
{
    if cells.len() > 0 {
        lemma_fitting(cells, columns);
        let n = row_length(cells, columns) as int;
        let rest = broken(cells.skip(n), columns);
        lemma_rows_tabless(cells.skip(n), columns);
        let all = broken(cells, columns);
        assert(all == seq![cells.take(n)] + rest);
        assert forall|i: int| 0 <= i < all.len() implies is_tabless(#[trigger] all[i]) by {
            if i > 0 {
                assert(all[i] == rest[i - 1]);
            }
        }
    }
}

/// Whether cells are the characters of some text, each in the same style.
pub open spec fn is_text_in(cells: Seq<Cell>, s: Seq<char>, style: Style) -> bool {
    &&& cells.len() == s.len()
    &&& forall|i: int|
        0 <= i < s.len() ==> (#[trigger] cells[i]).ch == s[i] && cells[i].style == style
}

/// Spans come out side by side, and each of them character by character in its
/// style: a tab as four spaces, and anything else as itself.
pub proof fn spans_come_out_character_by_character(
    a: Seq<SpanView>,
    b: Seq<SpanView>,
    s: Seq<char>,
    style: Style,
)
    ensures
        cells_of(a + b) == cells_of(a) + cells_of(b),
        cells_of(Seq::empty()) == Seq::<Cell>::empty(),
        !s.contains('\t') ==> is_text_in(
            cells_of(seq![SpanView { content: s, style }]),
            s,
            style,
        ),
        cells_of(seq![SpanView { content: s.push('\t'), style }]) == cells_of(
            seq![SpanView { content: s, style }],
        ) + seq![
            Cell { ch: ' ', style },
            Cell { ch: ' ', style },
            Cell { ch: ' ', style },
            Cell { ch: ' ', style },
        ],
{
    lemma_cells_of_both(a, b);
    lemma_cells_of_one(s, style);
    lemma_cells_of_one(s.push('\t'), style);
    assert(s.push('\t').drop_last() =~= s);
    assert(spaces(TAB_WIDTH as nat, style) =~= seq![
        Cell { ch: ' ', style },
        Cell { ch: ' ', style },
        Cell { ch: ' ', style },
        Cell { ch: ' ', style },
    ]);
    if !s.contains('\t') {
        lemma_tabless_cells(s, style);
    }
}

/// A character more, unless it is a tab, comes out as that character.
pub proof fn a_character_more_is_a_cell_more(s: Seq<char>, c: char, style: Style)
    requires
        c != '\t',
    ensures
        cells_of(seq![SpanView { content: s.push(c), style }]) == cells_of(
            seq![SpanView { content: s, style }],
        ).push(Cell { ch: c, style }),
{
    lemma_cells_of_one(s, style);
    lemma_cells_of_one(s.push(c), style);
    lemma_cells_of_plain(c, style);
    assert(s.push(c).drop_last() =~= s);
    assert(cells_of_text(s, style) + seq![Cell { ch: c, style }] =~= cells_of_text(s, style).push(
        Cell { ch: c, style },
    ));
}

pub proof fn lemma_cells_of_both(a: Seq<SpanView>, b: Seq<SpanView>)
    ensures
        cells_of(a + b) == cells_of(a) + cells_of(b),
    decreases b.len(),
{
    if b.len() == 0 {
        assert(a + b =~= a);
        assert(cells_of(a) + cells_of(b) =~= cells_of(a));
    } else {
        assert((a + b).drop_last() =~= a + b.drop_last());
        lemma_cells_of_both(a, b.drop_last());
        assert(cells_of(a + b) =~= cells_of(a) + cells_of(b));
    }
}

proof fn lemma_cells_of_one(s: Seq<char>, style: Style)
    ensures
        cells_of(seq![SpanView { content: s, style }]) == cells_of_text(s, style),
{
    let one = seq![SpanView { content: s, style }];
    assert(one.drop_last() =~= Seq::<SpanView>::empty());
    reveal_with_fuel(cells_of, 2);
    assert(cells_of(one) =~= cells_of_text(s, style));
}

proof fn lemma_tabless_cells(s: Seq<char>, style: Style)
    requires
        !s.contains('\t'),
    ensures
        is_text_in(cells_of_text(s, style), s, style),
    decreases s.len(),
{
    if s.len() > 0 {
        let front = s.drop_last();
        assert(!front.contains('\t')) by {
            if front.contains('\t') {
                let i = front.index_of('\t');
                assert(s[i] == '\t');
            }
        }
        assert(s[s.len() - 1] != '\t');
        lemma_tabless_cells(front, style);
        let cells = cells_of_text(s, style);
        lemma_plain_behind(cells_of_text(front, style), s.last(), style);
        assert forall|i: int| 0 <= i < s.len() implies (#[trigger] cells[i]).ch == s[i]
            && cells[i].style == style by {
            if i < front.len() {
                assert(cells[i] == cells_of_text(front, style)[i]);
                assert(front[i] == s[i]);
            }
        }
    }
}

proof fn lemma_plain_behind(before: Seq<Cell>, c: char, style: Style)
    requires
        c != '\t',
    ensures
        (before + cells_of_char(c, style)).len() == before.len() + 1,
        (before + cells_of_char(c, style)).last().ch == c,
        (before + cells_of_char(c, style)).last().style == style,
{
}

proof fn lemma_cells_of_plain(c: char, style: Style)
    requires
        c != '\t',
    ensures
        cells_of_char(c, style) == seq![Cell { ch: c, style }],
{
}

// ---------------------------------------------------------------------------
// Wrapping
// ---------------------------------------------------------------------------

/// Append what one character comes out as.
fn push_cells(out: &mut Vec<Cell>, ch: char, style: Style)
    ensures
        final(out)@ == old(out)@ + cells_of_char(ch, style),
{
    let ghost before = out@;
    if ch == '\t' {
        let mut k: usize = 0;
        while k < TAB_WIDTH
            invariant
                k <= TAB_WIDTH,
                out@ == before + spaces(k as nat, style),
            decreases TAB_WIDTH - k,
        {
            out.push(Cell { ch: ' ', style });
            k += 1;
            assert(out@ =~= before + spaces(k as nat, style));
        }
    } else {
        out.push(Cell { ch, style });
        assert(out@ =~= before + cells_of_char(ch, style));
    }
}

/// The characters of a line, tabs as spaces.
fn line_cells(line: &Line) -> (out: Vec<Cell>)
    ensures
        out@ == cells_of(line@.spans),
{
    let mut out: Vec<Cell> = Vec::new();
    let ghost all = line@.spans;
    let mut i: usize = 0;
    while i < line.spans.len()
        invariant
            i <= line.spans@.len(),
            all == line@.spans,
            out@ == cells_of(all.take(i as int)),
        decreases line.spans@.len() - i,
    {
        let chars = text::chars_of(line.spans[i].content.as_str());
        let style = line.spans[i].style;
        let ghost start = out@;
        let mut j: usize = 0;
        assert(chars@.take(0) =~= Seq::<char>::empty());
        assert(start + Seq::<Cell>::empty() =~= start);
        while j < chars.len()
            invariant
                j <= chars@.len(),
                out@ == start + cells_of_text(chars@.take(j as int), style),
            decreases chars@.len() - j,
        {
            let ch = chars[j];
            proof {
                assert(chars@.take(j + 1).drop_last() =~= chars@.take(j as int));
                assert(chars@.take(j + 1).last() == ch);
            }
            let ghost before = out@;
            push_cells(&mut out, ch, style);
            j += 1;
            assert(out@ =~= start + cells_of_text(chars@.take(j as int), style));
        }
        i += 1;
        proof {
            assert(chars@.take(chars@.len() as int) =~= chars@);
            assert(all.take(i as int).drop_last() =~= all.take(i - 1));
            assert(all.take(i as int).last() == line.spans@[i - 1]@);
        }
    }
    assert(all.take(i as int) =~= all);
    out
}

/// How many columns a character takes up on its own.
fn char_width(cell: Cell) -> (width: usize)
    ensures
        width == cell_width(cell),
{
    let mut s = String::new();
    s.push(cell.ch);
    assert(s@ =~= seq![cell.ch]);
    line::text_width(s.as_str())
}

/// Where the row that starts at `from` ends.
fn row_end(cells: &Vec<Cell>, from: usize, columns: usize) -> (to: usize)
    requires
        from < cells@.len(),
    ensures
        to == from + row_length(cells@.skip(from as int), columns as nat),
        from < to <= cells@.len(),
{
    let ghost rest = cells@.skip(from as int);
    let count = cells.len();
    let mut left: usize = columns;
    let mut to: usize = from;
    while to < count
        invariant
            from <= to <= count,
            from < count == cells@.len(),
            rest == cells@.skip(from as int),
            fitting(rest, columns as nat) == (to - from) + fitting(
                cells@.skip(to as int),
                left as nat,
            ),
        ensures
            from <= to <= count,
            from < count == cells@.len(),
            fitting(rest, columns as nat) == to - from,
        decreases cells@.len() - to,
    {
        let width = char_width(cells[to]);
        proof {
            assert(cells@.skip(to as int).first() == cells@[to as int]);
            assert(cells@.skip(to as int).drop_first() =~= cells@.skip(to + 1));
        }
        if width > left {
            break;
        }
        left -= width;
        to += 1;
        proof {
            if to == cells@.len() {
                assert(cells@.skip(to as int) =~= Seq::<Cell>::empty());
            }
        }
    }
    if to == from {
        from + 1
    } else {
        to
    }
}

/// Characters gathered into spans, one for each run of the same style.
fn gather(cells: &Vec<Cell>, from: usize, to: usize) -> (spans: Vec<Span>)
    requires
        from <= to <= cells@.len(),
    ensures
        line::spans_view(spans@) == gathered(cells@.subrange(from as int, to as int)),
{
    let mut spans: Vec<Span> = Vec::new();
    let mut i: usize = from;
    while i < to
        invariant
            from <= i <= to <= cells@.len(),
            line::spans_view(spans@) == gathered(cells@.subrange(from as int, i as int)),
        decreases to - i,
    {
        let cell = cells[i];
        let ghost before = line::spans_view(spans@);
        let ghost now = cells@.subrange(from as int, i + 1);
        proof {
            assert(now.drop_last() =~= cells@.subrange(from as int, i as int));
            assert(now.last() == cell);
        }
        let joins = if spans.len() > 0 {
            assert(before.last() == spans@[spans@.len() - 1]@);
            spans[spans.len() - 1].style == cell.style
        } else {
            false
        };
        if joins {
            let last = spans.pop();
            match last {
                Some(last) => {
                    let mut content = last.content;
                    content.push(cell.ch);
                    assert(line::spans_view(spans@) =~= before.drop_last());
                    spans.push(Span { content, style: last.style });
                },
                None => {},
            }
            assert(line::spans_view(spans@) =~= gathered(now));
        } else {
            let mut content = String::new();
            content.push(cell.ch);
            assert(content@ =~= seq![cell.ch]);
            spans.push(Span { content, style: cell.style });
            assert(line::spans_view(spans@) =~= gathered(now));
        }
        i += 1;
    }
    spans
}

/// Wrap a line to so many columns. There is always a row, even for a line with
/// nothing on it, and a character wider than all the columns gets one to
/// itself.
pub fn wrap_line(line: &Line, columns: usize) -> (rows: Vec<Line>)
    ensures
        line::lines_view(rows@) == wrapped(line@, columns as nat),
{
    let cells = line_cells(line);
    let ghost all = cells_of(line@.spans);
    let ghost expected = wrapped(line@, columns as nat);
    let ghost shape = |row: Seq<Cell>| LineView { spans: gathered(row), style: line@.style };
    let mut rows: Vec<Line> = Vec::new();
    if cells.len() == 0 {
        rows.push(Line { spans: Vec::new(), style: line.style });
        assert(line::spans_view(rows@[0].spans@) =~= Seq::<SpanView>::empty());
        assert(line::lines_view(rows@) =~= expected);
        return rows;
    }
    let mut from: usize = 0;
    assert(cells@.skip(0) =~= cells@);
    assert(line::lines_view(rows@) + expected =~= expected);
    while from < cells.len()
        invariant
            from <= cells@.len(),
            shape == (|row: Seq<Cell>| LineView { spans: gathered(row), style: line@.style }),
            line::lines_view(rows@) + broken(cells@.skip(from as int), columns as nat).map_values(
                shape,
            ) == expected,
        decreases cells@.len() - from,
    {
        let to = row_end(&cells, from, columns);
        let ghost rest = cells@.skip(from as int);
        let ghost before = line::lines_view(rows@);
        rows.push(Line { spans: gather(&cells, from, to), style: line.style });
        proof {
            let n = to - from;
            assert(cells@.subrange(from as int, to as int) =~= rest.take(n));
            assert(cells@.skip(to as int) =~= rest.skip(n));
            assert(line::lines_view(rows@) =~= before.push(shape(rest.take(n))));
            assert(broken(rest, columns as nat) == seq![rest.take(n)] + broken(
                rest.skip(n),
                columns as nat,
            ));
            assert(before + broken(rest, columns as nat).map_values(shape) =~= before.push(
                shape(rest.take(n)),
            ) + broken(rest.skip(n), columns as nat).map_values(shape));
        }
        from = to;
    }
    proof {
        assert(cells@.skip(from as int) =~= Seq::<Cell>::empty());
        assert(line::lines_view(rows@) + Seq::<Seq<Cell>>::empty().map_values(shape)
            =~= line::lines_view(rows@));
    }
    rows
}

} // verus!
