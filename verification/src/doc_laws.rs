//! What holds of every document and its rows, stated on the lines it is made of.
use crate::doc;
use crate::doc::{Details, DocView, Found, Reading, TextFile};
use crate::entry;
use crate::entry::{Entry, EntryView};
use crate::line;
use crate::line::{LineView, SpanView};
use crate::media;
use crate::media::Kind;
use crate::path;
use crate::text;
use crate::text_laws;
use crate::wrap;
use crate::wrap::Cell;
use vstd::prelude::*;

verus! {

// ---------------------------------------------------------------------------
// Rows
// ---------------------------------------------------------------------------

/// The spans of a row that come from the document, without the gutter.
pub open spec fn own_spans(row: LineView, numbered: bool) -> Seq<SpanView> {
    if numbered {
        row.spans.drop_first()
    } else {
        row.spans
    }
}

/// What the rows that come from line `n` say, one after another.
pub open spec fn cells_under(
    rows: Seq<LineView>,
    origins: Seq<usize>,
    numbered: bool,
    n: int,
) -> Seq<Cell>
    decreases rows.len(),
{
    if rows.len() == 0 {
        Seq::empty()
    } else {
        let before = cells_under(rows.drop_last(), origins.drop_last(), numbered, n);
        if origins.last() == n {
            before + wrap::cells_of(own_spans(rows.last(), numbered))
        } else {
            before
        }
    }
}

/// Whether there is room for text beside the line numbers.
pub open spec fn has_room(doc: DocView, width: nat) -> bool {
    width > (if doc.numbered {
        text::decimal(doc.lines.len()).len() + 1
    } else {
        0
    })
}

/// The rows of a document lose nothing and add nothing: those that come from a
/// line, each without its gutter, say one after another what the line says, in its
/// styles and with its tabs as spaces. That holds of every line, and whether or
/// not they are numbered.
pub proof fn the_rows_of_a_line_say_what_it_says(doc: DocView, width: nat, n: int)
    requires
        0 <= n < doc.lines.len() <= usize::MAX,
        has_room(doc, width),
    ensures
        cells_under(doc::rendered(doc, width), doc::origins(doc, width), doc.numbered, n)
            == wrap::cells_of(doc.lines[n].spans),
        doc::rendered(doc, width).len() == doc::origins(doc, width).len(),
        exists|i: int|
            0 <= i < doc::origins(doc, width).len() && #[trigger] doc::origins(doc, width)[i] == n,
{
    let content = doc::content_width(doc.lines.len(), doc.numbered, width);
    lemma_cells_upto(doc, content, doc.lines.len(), n);
    doc::rows_follow_their_lines(doc, width);
    assert(doc::origins(doc, width).contains(n as usize));
    let i = doc::origins(doc, width).index_of(n as usize);
    assert(doc::origins(doc, width)[i] == n);
}

proof fn lemma_cells_upto(doc: DocView, content: nat, upto: nat, n: int)
    requires
        upto <= doc.lines.len() <= usize::MAX,
    ensures
        doc::rows_upto(doc, content, upto).len() == doc::origins_upto(doc, content, upto).len(),
        cells_under(
            doc::rows_upto(doc, content, upto),
            doc::origins_upto(doc, content, upto),
            doc.numbered,
            n,
        ) == (if 0 <= n < upto {
            wrap::cells_of(doc.lines[n].spans)
        } else {
            Seq::empty()
        }),
    decreases upto,
{
    if upto > 0 {
        let last = (upto - 1) as nat;
        lemma_cells_upto(doc, content, last, n);
        let rows = doc::rows_upto(doc, content, last);
        let from = doc::origins_upto(doc, content, last);
        let pieces = doc::pieces_of(doc.lines[upto - 1], content);
        let more = doc::rows_of_line(doc, last, content);
        let origin = Seq::new(pieces.len(), |j: int| (upto - 1) as usize);
        lemma_cells_joined(rows, from, more, origin, doc.numbered, n);
        lemma_cells_of_pieces(doc, content, last, more, origin, pieces.len(), n);
        assert(pieces.take(pieces.len() as int) =~= pieces);
        assert(more.take(pieces.len() as int) =~= more);
        assert(origin.take(pieces.len() as int) =~= origin);
        if n == last {
            lemma_pieces_say_all(doc.lines[n], content);
            assert(Seq::<Cell>::empty() + wrap::cells_of(doc.lines[n].spans) =~= wrap::cells_of(
                doc.lines[n].spans,
            ));
        } else if 0 <= n < last {
            assert(wrap::cells_of(doc.lines[n].spans) + Seq::<Cell>::empty() =~= wrap::cells_of(
                doc.lines[n].spans,
            ));
        } else {
            assert(Seq::<Cell>::empty() + Seq::<Cell>::empty() =~= Seq::<Cell>::empty());
        }
    }
}

proof fn lemma_cells_joined(
    rows: Seq<LineView>,
    from: Seq<usize>,
    more: Seq<LineView>,
    origin: Seq<usize>,
    numbered: bool,
    n: int,
)
    requires
        rows.len() == from.len(),
        more.len() == origin.len(),
    ensures
        cells_under(rows + more, from + origin, numbered, n) == cells_under(
            rows,
            from,
            numbered,
            n,
        ) + cells_under(more, origin, numbered, n),
    decreases more.len(),
{
    if more.len() == 0 {
        assert(rows + more =~= rows);
        assert(from + origin =~= from);
        assert(cells_under(rows, from, numbered, n) + Seq::<Cell>::empty() =~= cells_under(
            rows,
            from,
            numbered,
            n,
        ));
    } else {
        lemma_cells_joined(rows, from, more.drop_last(), origin.drop_last(), numbered, n);
        assert((rows + more).drop_last() =~= rows + more.drop_last());
        assert((from + origin).drop_last() =~= from + origin.drop_last());
        assert((rows + more).last() == more.last());
        assert((from + origin).last() == origin.last());
        assert(cells_under(rows + more, from + origin, numbered, n) =~= cells_under(
            rows,
            from,
            numbered,
            n,
        ) + cells_under(more, origin, numbered, n));
    }
}

proof fn lemma_cells_of_pieces(
    doc: DocView,
    content: nat,
    index: nat,
    rows: Seq<LineView>,
    origin: Seq<usize>,
    k: nat,
    n: int,
)
    requires
        index < doc.lines.len() <= usize::MAX,
        rows == doc::rows_of_line(doc, index, content),
        origin == Seq::new(
            doc::pieces_of(doc.lines[index as int], content).len(),
            |j: int| index as usize,
        ),
        k <= rows.len(),
    ensures
        cells_under(rows.take(k as int), origin.take(k as int), doc.numbered, n) == (if n == index {
            wrap::cells_of_rows(doc::pieces_of(doc.lines[index as int], content).take(k as int))
        } else {
            Seq::empty()
        }),
    decreases k,
{
    let pieces = doc::pieces_of(doc.lines[index as int], content);
    if k == 0 {
        assert(pieces.take(0) =~= Seq::<LineView>::empty());
    } else {
        let j = k - 1;
        lemma_cells_of_pieces(doc, content, index, rows, origin, j as nat, n);
        assert(rows.take(k as int).drop_last() =~= rows.take(j));
        assert(origin.take(k as int).drop_last() =~= origin.take(j));
        assert(origin.take(k as int).last() == index as usize);
        assert(rows.take(k as int).last() == rows[j]);
        assert(own_spans(rows[j], doc.numbered) =~= pieces[j].spans);
        assert(pieces.take(k as int) =~= pieces.take(j).push(pieces[j]));
        lemma_rows_pushed(pieces.take(j), pieces[j]);
    }
}

proof fn lemma_rows_pushed(rows: Seq<LineView>, last: LineView)
    ensures
        wrap::cells_of_rows(rows.push(last)) == wrap::cells_of_rows(rows) + wrap::cells_of(
            last.spans,
        ),
    decreases rows.len(),
{
    let all = rows.push(last);
    if rows.len() == 0 {
        assert(all.drop_first() =~= Seq::<LineView>::empty());
        reveal_with_fuel(wrap::cells_of_rows, 2);
        assert(wrap::cells_of_rows(all) =~= wrap::cells_of_rows(rows) + wrap::cells_of(last.spans));
    } else {
        assert(all.drop_first() =~= rows.drop_first().push(last));
        lemma_rows_pushed(rows.drop_first(), last);
        assert(wrap::cells_of_rows(all) =~= wrap::cells_of_rows(rows) + wrap::cells_of(last.spans));
    }
}

proof fn lemma_pieces_say_all(line: LineView, content: nat)
    ensures
        wrap::cells_of_rows(doc::pieces_of(line, content)) == wrap::cells_of(line.spans),
{
    if line::line_width(line) > content || line::has_tab(line) {
        wrap::wrapping_loses_nothing(line, content);
    } else {
        let one = seq![line];
        lemma_rows_pushed(Seq::empty(), line);
        assert(Seq::<LineView>::empty().push(line) =~= one);
        assert(wrap::cells_of_rows(Seq::<LineView>::empty()) =~= Seq::<Cell>::empty());
        assert(Seq::<Cell>::empty() + wrap::cells_of(line.spans) =~= wrap::cells_of(line.spans));
    }
}

/// How many columns there are for text beside the line numbers.
pub open spec fn columns_for_text(doc: DocView, width: nat) -> int {
    if doc.numbered {
        width - text::decimal(doc.lines.len()).len() - 1
    } else {
        width as int
    }
}

/// Whether a line goes on one row as it is.
pub open spec fn goes_on_one_row(line: LineView, columns: int) -> bool {
    line::line_width(line) <= columns && forall|i: int|
        0 <= i < line.spans.len() ==> !(#[trigger] line.spans[i]).content.contains('\t')
}

/// Whether the row at `i` is the last of the rows of its line.
pub open spec fn ends_its_line(origins: Seq<usize>, i: int) -> bool {
    i == origins.len() - 1 || origins[i + 1] != origins[i]
}

/// A line that fits and has no tabs is one row, with the spans it has; any other is
/// broken into rows that stay within the columns, unless a row is a single
/// character, and each but the last of which is as full as it can be.
pub proof fn a_row_is_as_full_as_it_can_be(doc: DocView, width: nat, i: int)
    requires
        doc.lines.len() <= usize::MAX,
        has_room(doc, width),
        0 <= i < doc::rendered(doc, width).len(),
    ensures
        ({
            let all = doc::rendered(doc, width);
            let from = doc::origins(doc, width);
            let columns = columns_for_text(doc, width);
            let line = doc.lines[from[i] as int];
            let spans = own_spans(all[i], doc.numbered);
            let cells = wrap::cells_of(spans);
            let next = wrap::cells_of(own_spans(all[i + 1], doc.numbered));
            &&& goes_on_one_row(line, columns) ==> {
                &&& spans == line.spans
                &&& begins_its_line(from, i)
                &&& ends_its_line(from, i)
            }
            &&& !goes_on_one_row(line, columns) ==> wrap::cells_width(cells) <= columns
                || cells.len() == 1
            &&& !ends_its_line(from, i) ==> next.len() > 0 && wrap::cells_width(cells)
                + wrap::cell_width(next[0]) > columns
        }),
{
    let content = doc::content_width(doc.lines.len(), doc.numbered, width);
    assert(content == columns_for_text(doc, width));
    doc::rows_follow_their_lines(doc, width);
    lemma_place(doc, content, doc.lines.len(), i);
    let from = doc::origins(doc, width);
    let all = doc::rendered(doc, width);
    let j = choose|j: int| #[trigger] is_piece(doc, content, doc.lines.len(), i, j);
    let line = doc.lines[from[i] as int];
    let pieces = doc::pieces_of(line, content);
    let columns = columns_for_text(doc, width);
    assert(own_spans(all[i], doc.numbered) =~= pieces[j].spans);
    if goes_on_one_row(line, columns) {
        assert(!line::has_tab(line));
        assert(pieces == seq![line]);
    } else {
        assert(line::line_width(line) > content || line::has_tab(line));
        wrap::wrapped_rows_fit_their_columns(line, content);
    }
    if !ends_its_line(from, i) {
        assert(j + 1 < pieces.len());
        assert(own_spans(all[i + 1], doc.numbered) =~= pieces[j + 1].spans);
        assert(pieces == wrap::wrapped(line, content));
        wrap::wrapped_rows_are_full(line, content, j);
    }
}

/// Whether the row at `i` is the piece at `j` of its line, with the piece after it
/// below it where there is one.
spec fn is_piece(doc: DocView, content: nat, upto: nat, i: int, j: int) -> bool {
    let all = doc::rows_upto(doc, content, upto);
    let from = doc::origins_upto(doc, content, upto);
    let n = from[i] as int;
    let pieces = doc::pieces_of(doc.lines[n], content);
    let width = text::decimal(doc.lines.len()).len();
    &&& 0 <= n < upto
    &&& 0 <= j < pieces.len()
    &&& all[i] == doc::row_of(pieces[j], doc.numbered, width, n as nat, j as nat, doc.light)
    &&& begins_its_line(from, i) == (j == 0)
    &&& ends_its_line(from, i) == (j == pieces.len() - 1)
    &&& j + 1 < pieces.len() ==> all[i + 1] == doc::row_of(
        pieces[j + 1],
        doc.numbered,
        width,
        n as nat,
        (j + 1) as nat,
        doc.light,
    )
}

proof fn lemma_place(doc: DocView, content: nat, upto: nat, i: int)
    requires
        upto <= doc.lines.len() <= usize::MAX,
        0 <= i < doc::rows_upto(doc, content, upto).len(),
    ensures
        doc::rows_upto(doc, content, upto).len() == doc::origins_upto(doc, content, upto).len(),
        exists|j: int| #[trigger] is_piece(doc, content, upto, i, j),
    decreases upto,
{
    let last = (upto - 1) as nat;
    let part = doc::rows_upto(doc, content, last);
    let part_from = doc::origins_upto(doc, content, last);
    let all = doc::rows_upto(doc, content, upto);
    let from = doc::origins_upto(doc, content, upto);
    let pieces = doc::pieces_of(doc.lines[upto - 1], content);
    lemma_cells_upto(doc, content, last, 0);
    lemma_cells_upto(doc, content, upto, 0);
    if i < part.len() {
        lemma_place(doc, content, last, i);
        let j = choose|j: int| #[trigger] is_piece(doc, content, last, i, j);
        assert(all[i] == part[i]);
        assert(from[i] == part_from[i]);
        if i > 0 {
            assert(from[i - 1] == part_from[i - 1]);
        }
        if i + 1 < part.len() {
            assert(from[i + 1] == part_from[i + 1]);
            assert(all[i + 1] == part[i + 1]);
        } else if i + 1 < all.len() {
            assert(from[i + 1] == last as usize);
        }
        assert(is_piece(doc, content, upto, i, j));
    } else {
        let j = i - part.len();
        assert(from[i] == last as usize);
        if j > 0 {
            assert(from[i - 1] == last as usize);
        } else if i > 0 {
            lemma_place(doc, content, last, i - 1);
            let k = choose|k: int| #[trigger] is_piece(doc, content, last, i - 1, k);
            assert(from[i - 1] == part_from[i - 1]);
        }
        if j + 1 < pieces.len() {
            assert(from[i + 1] == last as usize);
        }
        assert(is_piece(doc, content, upto, i, j));
    }
}

/// Where the line numbers leave no room for text, or there is no width at all, nothing
/// shows.
pub proof fn nothing_shows_without_room(doc: DocView, width: nat)
    requires
        !has_room(doc, width),
    ensures
        doc::rendered(doc, width).len() == 0,
        doc::origins(doc, width).len() == 0,
{
}

/// Whether the row at `i` is the first of the rows of its line.
pub open spec fn begins_its_line(origins: Seq<usize>, i: int) -> bool {
    i == 0 || origins[i - 1] != origins[i]
}

/// Whether a gutter shows a number flush right, with a space behind it.
pub open spec fn shows_number(gutter: Seq<char>, number: nat) -> bool {
    let digits = text::decimal(number);
    &&& gutter.len() >= digits.len() + 1
    &&& gutter.last() == ' '
    &&& gutter.subrange(gutter.len() - 1 - digits.len(), gutter.len() - 1) == digits
    &&& forall|k: int| 0 <= k < gutter.len() - 1 - digits.len() ==> #[trigger] gutter[k] == ' '
}

/// Whether a gutter shows nothing.
pub open spec fn shows_nothing(gutter: Seq<char>) -> bool {
    forall|k: int| 0 <= k < gutter.len() ==> #[trigger] gutter[k] == ' '
}

/// Where lines are numbered, every row has a gutter as wide as that of any other,
/// with the number of its line, counted from one, on the first row of the line and
/// nothing on the rows that continue it. Where they are not, none has one.
pub proof fn a_gutter_numbers_the_first_row_of_a_line(doc: DocView, width: nat, i: int)
    requires
        doc.lines.len() <= usize::MAX,
        doc.numbered,
        0 <= i < doc::rendered(doc, width).len(),
    ensures
        ({
            let row = doc::rendered(doc, width)[i];
            let origins = doc::origins(doc, width);
            let gutter = row.spans[0].content;
            &&& row.spans.len() >= 1
            &&& origins.len() == doc::rendered(doc, width).len()
            &&& gutter.len() == text::decimal(doc.lines.len()).len() + 1
            &&& begins_its_line(origins, i) ==> shows_number(gutter, origins[i] as nat + 1)
            &&& !begins_its_line(origins, i) ==> shows_nothing(gutter)
        }),
{
    let content = doc::content_width(doc.lines.len(), doc.numbered, width);
    doc::rows_follow_their_lines(doc, width);
    lemma_gutter(doc, content, doc::lines_shown(doc, width), i);
}

proof fn lemma_gutter(doc: DocView, content: nat, upto: nat, i: int)
    requires
        upto <= doc.lines.len() <= usize::MAX,
        doc.numbered,
        0 <= i < doc::rows_upto(doc, content, upto).len(),
    ensures
        doc::rows_upto(doc, content, upto).len() == doc::origins_upto(doc, content, upto).len(),
        ({
            let row = doc::rows_upto(doc, content, upto)[i];
            let origins = doc::origins_upto(doc, content, upto);
            let gutter = row.spans[0].content;
            &&& row.spans.len() >= 1
            &&& origins[i] < upto
            &&& gutter.len() == text::decimal(doc.lines.len()).len() + 1
            &&& begins_its_line(origins, i) ==> shows_number(gutter, origins[i] as nat + 1)
            &&& !begins_its_line(origins, i) ==> shows_nothing(gutter)
        }),
    decreases upto,
{
    if upto > 0 {
        let last = (upto - 1) as nat;
        let rows = doc::rows_upto(doc, content, last);
        let from = doc::origins_upto(doc, content, last);
        lemma_cells_upto(doc, content, last, 0);
        let pieces = doc::pieces_of(doc.lines[upto - 1], content);
        let all = doc::origins_upto(doc, content, upto);
        if i < rows.len() {
            lemma_gutter(doc, content, last, i);
            assert(all[i] == from[i]);
            if i > 0 {
                assert(all[i - 1] == from[i - 1]);
            }
        } else {
            let j = i - rows.len();
            let width = text::decimal(doc.lines.len()).len();
            let number = text::decimal(last + 1);
            assert(all[i] == last as usize);
            assert(doc::rows_upto(doc, content, upto)[i] == doc::row_of(
                pieces[j],
                true,
                width,
                last,
                j as nat,
                doc.light,
            ));
            let gutter = doc::label(width, last, j as nat);
            lemma_digits_grow(last + 1, doc.lines.len());
            reveal_strlit(" ");
            if j == 0 {
                assert(gutter.len() == width + 1);
                assert(gutter.subrange(gutter.len() - 1 - number.len(), gutter.len() - 1)
                    =~= number);
                assert(shows_number(gutter, last + 1));
                if i > 0 {
                    lemma_gutter(doc, content, last, i - 1);
                    assert(all[i - 1] == from[i - 1]);
                }
                assert(begins_its_line(all, i));
            } else {
                assert(all[i - 1] == last as usize);
            }
        }
    }
}

/// A larger number has no fewer digits.
proof fn lemma_digits_grow(a: nat, b: nat)
    requires
        a <= b,
    ensures
        text::decimal(a).len() <= text::decimal(b).len(),
    decreases b,
{
    text_laws::a_number_is_written_in_digits(a);
    text_laws::a_number_is_written_in_digits(b);
    if a >= 10 {
        lemma_digits_grow(a / 10, b / 10);
    }
}

// ---------------------------------------------------------------------------
// Snippets
// ---------------------------------------------------------------------------

/// A selection between two rows of what is being shown is from the line of the
/// upper one to the line of the lower one, and takes no line more; one that runs
/// past what is being shown, or past the last row, ends with its last line.
pub proof fn a_selection_runs_from_end_to_end(doc: DocView, width: nat, a: nat, b: nat)
    requires
        doc.own <= doc.lines.len() <= usize::MAX,
        a <= b,
        a < doc::origins(doc, width).len(),
    ensures
        ({
            let all = doc::origins(doc, width);
            let taken = doc::lines_under(all, doc.own, a, b);
            &&& all[a as int] >= doc.own ==> taken is None
            &&& all[a as int] < doc.own && b < all.len() && all[b as int] < doc.own ==> taken
                == Some((all[a as int] as nat, all[b as int] as nat))
            &&& all[a as int] < doc.own && b < all.len() && all[b as int] >= doc.own ==> taken
                == Some((all[a as int] as nat, (doc.own - 1) as nat))
            &&& all[a as int] < doc.own && b >= all.len() && all.last() < doc.own ==> taken
                == Some((all[a as int] as nat, all.last() as nat))
            &&& all[a as int] < doc.own && b >= all.len() && all.last() >= doc.own ==> taken
                == Some((all[a as int] as nat, (doc.own - 1) as nat))
        }),
{
}

/// What a selection says is what its lines say with a newline between each two:
/// one line by itself, and a longer selection in two parts as in one.
pub proof fn a_selection_says_what_its_lines_say(
    lines: Seq<LineView>,
    first: nat,
    middle: nat,
    last: nat,
)
    requires
        first <= middle < last < lines.len(),
    ensures
        doc::text_between(lines, first, first) == line::line_text(lines[first as int]),
        doc::text_between(lines, first, last) == doc::text_between(lines, first, middle) + seq![
            '\n',
        ] + doc::text_between(lines, middle + 1, last),
{
    let say = |l: LineView| line::line_text(l);
    let one = lines.subrange(first as int, first as int + 1).map_values(say);
    assert(one =~= seq![line::line_text(lines[first as int])]);
    let a = lines.subrange(first as int, middle as int + 1).map_values(say);
    let b = lines.subrange(middle as int + 1, last as int + 1).map_values(say);
    reveal_strlit("\n");
    assert("\n"@ =~= seq!['\n']);
    assert(lines.subrange(first as int, last as int + 1).map_values(say) =~= a + b);
    text_laws::joining_two_lists(a, b, seq!['\n']);
}

/// What a line says is what its spans say side by side, and a span with no newline
/// in it says its content.
pub proof fn a_line_says_what_its_spans_say(a: Seq<SpanView>, b: Seq<SpanView>, span: SpanView)
    ensures
        line::spans_text(a + b) == line::spans_text(a) + line::spans_text(b),
        !span.content.contains('\n') ==> line::spans_text(seq![span]) == span.content,
        line::spans_text(Seq::empty()) == Seq::<char>::empty(),
    decreases b.len(),
{
    if b.len() == 0 {
        assert(a + b =~= a);
        assert(line::spans_text(a) + line::spans_text(b) =~= line::spans_text(a));
    } else {
        assert((a + b).drop_last() =~= a + b.drop_last());
        a_line_says_what_its_spans_say(a, b.drop_last(), span);
        assert(line::spans_text(a + b) =~= line::spans_text(a) + line::spans_text(b));
    }
    if !span.content.contains('\n') {
        lemma_span_text(span);
    }
}

proof fn lemma_span_text(span: SpanView)
    requires
        !span.content.contains('\n'),
    ensures
        line::spans_text(seq![span]) == span.content,
{
    let one = seq![span];
    let content = span.content;
    assert(one.drop_last() =~= Seq::<SpanView>::empty());
    reveal_with_fuel(line::spans_text, 2);
    text_laws::a_line_ends_at_its_newline(content, Seq::empty());
    if content.len() > 0 {
        assert(text::line_list(content) =~= seq![content]);
        assert(text::joined(seq![content], Seq::empty()) == content);
    } else {
        assert(content =~= Seq::<char>::empty());
    }
    assert(line::spans_text(one) =~= content);
}

/// A snippet of a file that is shown as it is, without highlighting, is the text
/// of the file's own lines.
pub proof fn a_snippet_is_the_text_of_the_file(content: Seq<char>, first: nat, last: nat)
    requires
        first <= last < doc::plain_lines(content).len(),
    ensures
        doc::text_between(doc::plain_lines(content), first, last) == text::joined(
            text::line_list(content).subrange(first as int, last as int + 1),
            seq!['\n'],
        ),
{
    let lines = doc::plain_lines(content);
    let all = text::line_list(content);
    reveal_strlit("\n");
    assert("\n"@ =~= seq!['\n']);
    let say = |l: LineView| line::line_text(l);
    assert forall|i: int| 0 <= i < lines.len() implies line::line_text(#[trigger] lines[i]) == all[i] by {
        assert(lines[i] == line::raw_line(all[i]));
        lemma_no_newline(content, i);
        lemma_raw_line_text(all[i]);
    }
    assert(lines.subrange(first as int, last as int + 1).map_values(say) =~= all.subrange(
        first as int,
        last as int + 1,
    ));
}

proof fn lemma_raw_line_text(s: Seq<char>)
    requires
        !s.contains('\n'),
    ensures
        line::line_text(line::raw_line(s)) == s,
{
    text_laws::a_line_ends_at_its_newline(s, Seq::empty());
    let spans = line::raw_line(s).spans;
    if s.len() > 0 {
        let span = SpanView { content: s, style: line::no_style() };
        assert(spans =~= seq![span]);
        lemma_span_text(span);
    } else {
        assert(s =~= Seq::<char>::empty());
        assert(spans =~= Seq::<SpanView>::empty());
    }
}

proof fn lemma_no_newline(s: Seq<char>, i: int)
    requires
        0 <= i < text::line_list(s).len(),
    ensures
        !text::line_list(s)[i].contains('\n'),
    decreases s.len(),
{
    let at = text::position(s, '\n') as int;
    text::lemma_position(s, '\n');
    if at >= s.len() {
        if s.contains('\n') {
            let k = s.index_of('\n');
            assert(s[k] != '\n');
        }
    } else if i == 0 {
        let line = text::without_return(s.take(at));
        if line.contains('\n') {
            let k = line.index_of('\n');
            assert(s[k] == line[k]);
        }
    } else {
        lemma_no_newline(s.skip(at + 1), i - 1);
        assert(text::line_list(s)[i] == text::line_list(s.skip(at + 1))[i - 1]);
    }
}

// ---------------------------------------------------------------------------
// Text files and directories
// ---------------------------------------------------------------------------

/// A text file shows its lines, each as it is and in their order, up to five
/// thousand of them out of the first half mebibyte; where that is not all of it
/// there is one line more to say so, and where there is nothing there is one line
/// to say that.
pub proof fn a_text_file_shows_its_lines(
    path: Seq<char>,
    size: u64,
    bytes: Seq<u8>,
    light: bool,
)
    requires
        !bytes.take(if bytes.len() < 524288 {
            bytes.len() as int
        } else {
            524288
        }).contains(0u8),
    ensures
        ({
            let read = bytes.take(
                if bytes.len() < 524288 {
                    bytes.len() as int
                } else {
                    524288
                },
            );
            let all = text::line_list(doc::as_text(read));
            let shown = doc::text_doc(path, size, Ok(bytes), None, light);
            let count = if all.len() < 5000 {
                all.len()
            } else {
                5000
            };
            let cut = bytes.len() > 524288 || all.len() > 5000;
            &&& shown.numbered
            &&& shown.media is None
            &&& shown.own == count
            &&& forall|i: int|
                0 <= i < count ==> line::line_text(#[trigger] shown.lines[i]) == all[i]
            &&& shown.lines.len() == count + (if cut || count == 0 {
                1nat
            } else {
                0nat
            })
        }),
{
    let n = if bytes.len() < 524288 {
        bytes.len() as int
    } else {
        524288
    };
    let read = bytes.take(n);
    assert(doc::head(bytes) =~= read);
    let content = doc::as_text(read);
    let all = text::line_list(content);
    let plain = doc::plain_lines(content);
    assert forall|i: int| 0 <= i < plain.len() implies line::line_text(#[trigger] plain[i]) == all[i] by {
        assert(plain[i] == line::raw_line(all[i]));
        lemma_no_newline(content, i);
        lemma_raw_line_text(all[i]);
    }
    let shown = doc::text_doc(path, size, Ok(bytes), None, light);
    assert forall|i: int| 0 <= i < plain.len() implies line::line_text(#[trigger] shown.lines[i])
        == all[i] by {
        assert(shown.lines[i] == plain[i]);
    }
}

/// A file that cannot be read, or whose head holds a NUL, has no lines of its own
/// and one line to say so, without a number.
pub proof fn what_is_no_text_is_one_line(
    path: Seq<char>,
    size: u64,
    content: Result<Seq<u8>, Seq<char>>,
    highlighted: Option<Seq<LineView>>,
    light: bool,
)
    requires
        content matches Ok(bytes) ==> bytes.take(
            if bytes.len() < 524288 {
                bytes.len() as int
            } else {
                524288
            },
        ).contains(0u8),
    ensures
        ({
            let shown = doc::text_doc(path, size, content, highlighted, light);
            shown.own == 0 && shown.lines.len() == 1 && !shown.numbered && shown.media is None
        }),
{
    if let Ok(bytes) = content {
        let n = if bytes.len() < 524288 {
            bytes.len() as int
        } else {
            524288
        };
        assert(doc::head(bytes) =~= bytes.take(n));
    }
}

/// A directory lists its entries one to a line and in the order given, a folder
/// with a slash behind its name and a file without; and all of it is its own.
pub proof fn a_directory_lists_every_entry(
    path: Seq<char>,
    sorted: Seq<EntryView>,
    light: bool,
    i: int,
)
    requires
        0 <= i < sorted.len(),
    ensures
        ({
            let shown = doc::directory_doc(path, sorted, light);
            &&& shown.lines.len() == sorted.len()
            &&& shown.own == sorted.len()
            &&& !shown.numbered
            &&& shown.lines[i].spans.len() == 1
            &&& sorted[i].is_dir ==> shown.lines[i].spans[0].content == sorted[i].name.push('/')
            &&& !sorted[i].is_dir ==> shown.lines[i].spans[0].content == sorted[i].name
        }),
{
    reveal_strlit("/");
    assert(sorted[i].name + "/"@ =~= sorted[i].name.push('/'));
}

/// Every entry of a directory is counted once, among the folders or among the
/// files.
pub proof fn a_directory_counts_its_folders(list: Seq<EntryView>, e: EntryView)
    ensures
        doc::folders(Seq::empty()) == 0,
        doc::folders(list.push(e)) == doc::folders(list) + (if e.is_dir {
            1nat
        } else {
            0nat
        }),
        doc::folders(list) <= list.len(),
        doc::folders(list) == list.filter(|e: EntryView| e.is_dir).len(),
    decreases list.len(),
{
    assert(list.push(e).drop_last() =~= list);
    reveal(Seq::filter);
    if list.len() > 0 {
        a_directory_counts_its_folders(list.drop_last(), e);
    }
}

/// Bytes that are valid UTF-8 are shown as the text that they encode.
pub proof fn valid_text_is_shown_as_it_is(content: Seq<char>)
    ensures
        doc::as_text(vstd::utf8::encode_utf8(content)) == content,
{
    vstd::utf8::encode_utf8_valid_utf8(content);
    vstd::utf8::encode_utf8_decode_utf8(content);
}

/// The document of a text file is made of its bytes and of what the highlighter made of
/// them, and that of a picture of its details.
pub proof fn a_document_is_made_of_what_was_read(
    shown: DocView,
    path: Seq<char>,
    file: TextFile,
    details: Details,
    light: bool,
)
    ensures
        doc::is_document_of(shown, path, Found::Text(file), light) ==> shown == doc::text_doc(
            path,
            file.size,
            match file.content {
                Ok(bytes) => Ok(bytes@),
                Err(why) => Err(why@),
            },
            match file.highlighted {
                Some(lines) => Some(line::lines_view(lines@)),
                None => None,
            },
            light,
        ),
        doc::is_document_of(shown, path, Found::Media(details), light) ==> shown == doc::media_doc(
            path,
            media::kind_of_path(path),
            details,
            light,
        ),
{
}

/// What is read of a path is a listing of a directory, a picture of a file whose
/// kind has one, and the text of every other.
pub proof fn what_is_read_follows_from_the_kind(path: Seq<char>)
    ensures
        doc::reading_of(path, true) is Directory,
        media::kind_of_path(path) is Other ==> doc::reading_of(path, false) is Text,
        !(media::kind_of_path(path) is Other) ==> doc::reading_of(path, false) == Reading::Media(
            media::kind_of_path(path),
        ),
{
}

/// A document is headed by the name of its file, and by what there is to say of it:
/// the size of a text file, how many folders and files a directory has, and the
/// caption of a picture.
pub proof fn a_document_is_headed_by_its_name(
    path: Seq<char>,
    size: u64,
    content: Result<Seq<u8>, Seq<char>>,
    highlighted: Option<Seq<LineView>>,
    sorted: Seq<EntryView>,
    kind: Kind,
    found: Details,
    light: bool,
)
    ensures
        ({
            let title = path::title(path);
            let text = doc::text_doc(path, size, content, highlighted, light);
            let listing = doc::directory_doc(path, sorted, light);
            let picture = doc::media_doc(path, kind, found, light);
            let folders = sorted.filter(|e: EntryView| e.is_dir).len();
            &&& text.title == title && listing.title == title && picture.title == title
            &&& text.light == light && listing.light == light && picture.light == light
            &&& text.info == media::size_text(size as nat)
            &&& listing.info == text::decimal(folders) + " folders   "@ + text::decimal(
                (sorted.len() - folders) as nat,
            ) + " files"@
            &&& picture.media == Some(kind)
            &&& picture.lines.len() == 0 && picture.own == 0 && !picture.numbered
            &&& picture.info == text::joined(
                media::detail_lines(
                    kind,
                    found.size,
                    found.secs,
                    text::option_view(found.codec),
                    text::option_view(found.pages),
                ),
                seq![' ', ' ', ' '],
            )
        }),
{
    lemma_folders(sorted);
    reveal_strlit("   ");
    assert("   "@ =~= seq![' ', ' ', ' ']);
}

proof fn lemma_folders(sorted: Seq<EntryView>)
    ensures
        doc::folders(sorted) == sorted.filter(|e: EntryView| e.is_dir).len(),
    decreases sorted.len(),
{
    reveal(Seq::filter);
    if sorted.len() > 0 {
        lemma_folders(sorted.drop_last());
    }
}

/// What a highlighter made of a file takes the place of its plain lines, and all of
/// it is the file's own; only the word on what was left out follows it.
pub proof fn highlighted_lines_are_shown_as_they_are(
    path: Seq<char>,
    size: u64,
    bytes: Seq<u8>,
    lines: Seq<LineView>,
    light: bool,
)
    requires
        !bytes.take(
            if bytes.len() < 524288 {
                bytes.len() as int
            } else {
                524288
            },
        ).contains(0u8),
        lines.len() > 0,
    ensures
        ({
            let shown = doc::text_doc(path, size, Ok(bytes), Some(lines), light);
            &&& shown.own == lines.len()
            &&& shown.numbered
            &&& lines.is_prefix_of(shown.lines)
            &&& shown.lines.len() <= lines.len() + 1
            &&& bytes.len() > 524288 ==> shown.lines.len() == lines.len() + 1
        }),
{
    let n = if bytes.len() < 524288 {
        bytes.len() as int
    } else {
        524288
    };
    assert(doc::head(bytes) =~= bytes.take(n));
    let shown = doc::text_doc(path, size, Ok(bytes), Some(lines), light);
    assert(shown.lines.subrange(0, lines.len() as int) =~= lines);
}

/// The document of a directory has a line for every entry that was found, and no
/// other: as many lines as entries, each entry among them by its name, and no
/// directory below a file.
pub proof fn a_directory_document_lists_what_was_found(
    shown: DocView,
    path: Seq<char>,
    found: Vec<Entry>,
    light: bool,
    i: int,
)
    requires
        doc::is_document_of(shown, path, Found::Directory(found), light),
        0 <= i < found@.len(),
    ensures
        shown.lines.len() == found@.len(),
        shown.own == found@.len(),
        exists|k: int| #[trigger] is_listed_at(shown, k, found@[i]@),
        forall|j: int, k: int|
            #![trigger shown.lines[j], shown.lines[k]]
            0 <= j < k < shown.lines.len() && names_a_folder(shown.lines[k]) ==> names_a_folder(
                shown.lines[j],
            ),
{
    let all = entry::entries(found@);
    let sorted = choose|sorted: Seq<EntryView>| #[trigger]
        entry::in_order(sorted) && sorted.to_multiset() == all.to_multiset() && shown
            == doc::directory_doc(path, sorted, light);
    sorted.to_multiset_ensures();
    all.to_multiset_ensures();
    assert(all[i] == found@[i]@);
    assert(all.to_multiset().count(all[i]) > 0) by {
        assert(all.contains(all[i]));
    }
    assert(sorted.contains(all[i]));
    let k = sorted.index_of(all[i]);
    a_directory_lists_every_entry(path, sorted, light, k);
    assert(is_listed_at(shown, k, found@[i]@));
    assert forall|j: int, k: int|
        #![trigger shown.lines[j], shown.lines[k]]
        0 <= j < k < shown.lines.len() && names_a_folder(
            shown.lines[k],
        ) implies names_a_folder(shown.lines[j]) by {
        assert(shown.lines[j] == doc::listed(sorted[j], light));
        assert(shown.lines[k] == doc::listed(sorted[k], light));
        entry::directories_come_first(sorted, j, k);
    }
}

/// Whether an entry's line is at `k`: its name, with a slash behind that of a folder.
pub open spec fn is_listed_at(shown: DocView, k: int, e: EntryView) -> bool {
    &&& 0 <= k < shown.lines.len()
    &&& shown.lines[k].spans.len() == 1
    &&& shown.lines[k].spans[0].content == (if e.is_dir {
        e.name.push('/')
    } else {
        e.name
    })
}

/// Whether a line of a listing is of a folder, which is in bold.
pub open spec fn names_a_folder(line: LineView) -> bool {
    line.spans[0].style.bold
}

// ---------------------------------------------------------------------------
// Scrolling
// ---------------------------------------------------------------------------

/// A place to scroll to is kept where there is a row at it, and otherwise comes to
/// the nearest row there is.
pub proof fn scrolling_stops_at_the_ends(scroll: int, rows: nat)
    ensures
        0 <= scroll < rows ==> doc::clamped(scroll, rows) == scroll,
        rows > 0 ==> doc::clamped(scroll, rows) < rows,
        scroll < 0 ==> doc::clamped(scroll, rows) == 0,
        scroll >= rows && rows > 0 ==> doc::clamped(scroll, rows) == rows - 1,
        rows == 0 ==> doc::clamped(scroll, rows) == 0,
{
}

} // verus!
