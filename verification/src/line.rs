//! Styled lines of text, and how wide they come out on a terminal.
use crate::text;
use vstd::prelude::*;
use vstd::string::StringExecFns;

verus! {

#[derive(Clone, Copy, PartialEq, Eq, Structural, Debug)]
pub enum Color {
    Rgb(u8, u8, u8),
}

/// How text is drawn; what is not set is left to what lies underneath.
#[derive(Clone, Copy, PartialEq, Eq, Structural, Debug)]
pub struct Style {
    pub fg: Option<Color>,
    pub bg: Option<Color>,
    pub bold: bool,
}

/// The style that sets nothing.
pub open spec fn no_style() -> Style {
    Style { fg: None, bg: None, bold: false }
}

/// The style that sets the colour of the text.
pub open spec fn in_color(color: Color) -> Style {
    Style { fg: Some(color), bg: None, bold: false }
}

impl Style {
    pub fn plain() -> (style: Style)
        ensures
            style == no_style(),
    {
        Style { fg: None, bg: None, bold: false }
    }

    pub fn colored(color: Color) -> (style: Style)
        ensures
            style == in_color(color),
    {
        Style { fg: Some(color), bg: None, bold: false }
    }
}

/// Text in one style.
#[derive(PartialEq, Eq, Debug)]
pub struct Span {
    pub content: String,
    pub style: Style,
}

/// Spans side by side, with a style of their own underneath.
#[derive(PartialEq, Eq, Debug)]
pub struct Line {
    pub spans: Vec<Span>,
    pub style: Style,
}

/// What a span says.
pub struct SpanView {
    pub content: Seq<char>,
    pub style: Style,
}

/// What a line says.
#[verifier::ext_equal]
pub struct LineView {
    pub spans: Seq<SpanView>,
    pub style: Style,
}

impl View for Span {
    type V = SpanView;

    open spec fn view(&self) -> SpanView {
        SpanView { content: self.content@, style: self.style }
    }
}

/// What each span of a list says.
pub open spec fn spans_view(spans: Seq<Span>) -> Seq<SpanView> {
    Seq::new(spans.len(), |i: int| spans[i]@)
}

impl View for Line {
    type V = LineView;

    open spec fn view(&self) -> LineView {
        LineView { spans: spans_view(self.spans@), style: self.style }
    }
}

/// What each line of a list says.
pub open spec fn lines_view(lines: Seq<Line>) -> Seq<LineView> {
    Seq::new(lines.len(), |i: int| lines[i]@)
}

impl Clone for Span {
    fn clone(&self) -> (copy: Span)
        ensures
            copy@ == self@,
    {
        Span { content: self.content.clone(), style: self.style }
    }
}

impl Clone for Line {
    fn clone(&self) -> (copy: Line)
        ensures
            copy@ == self@,
    {
        let mut spans: Vec<Span> = Vec::new();
        let mut i: usize = 0;
        while i < self.spans.len()
            invariant
                i <= self.spans@.len(),
                spans_view(spans@) == spans_view(self.spans@).take(i as int),
            decreases self.spans@.len() - i,
        {
            let ghost before = spans_view(spans@);
            let ghost all = spans_view(self.spans@);
            spans.push(self.spans[i].clone());
            i += 1;
            assert(spans_view(spans@) =~= before.push(all[i - 1]));
            assert(all.take(i as int) =~= all.take(i - 1).push(all[i - 1]));
        }
        assert(spans_view(spans@) =~= spans_view(self.spans@));
        Line { spans, style: self.style }
    }
}

// ---------------------------------------------------------------------------
// Making lines
// ---------------------------------------------------------------------------

/// A line of unstyled text over a style: one span for each line of the text.
pub open spec fn line_over(content: Seq<char>, style: Style) -> LineView {
    LineView {
        spans: text::line_list(content).map_values(
            |piece: Seq<char>| SpanView { content: piece, style: no_style() },
        ),
        style,
    }
}

/// A line of unstyled text.
pub open spec fn raw_line(content: Seq<char>) -> LineView {
    line_over(content, no_style())
}

impl Span {
    pub fn styled(content: String, style: Style) -> (span: Span)
        ensures
            span@ == (SpanView { content: content@, style }),
    {
        Span { content, style }
    }

    pub fn raw(content: String) -> (span: Span)
        ensures
            span@ == (SpanView { content: content@, style: no_style() }),
    {
        Span { content, style: Style::plain() }
    }
}

impl Line {
    /// The spans side by side, with nothing underneath.
    pub fn of(spans: Vec<Span>) -> (line: Line)
        ensures
            line@ == (LineView { spans: spans_view(spans@), style: no_style() }),
    {
        Line { spans, style: Style::plain() }
    }

    /// Text with a style underneath it.
    pub fn styled(content: &str, style: Style) -> (line: Line)
        ensures
            line@ == line_over(content@, style),
    {
        let pieces = text::lines_of(content);
        let ghost list = text::line_list(content@);
        let ghost expected = line_over(content@, style).spans;
        let mut spans: Vec<Span> = Vec::new();
        let mut i: usize = 0;
        while i < pieces.len()
            invariant
                i <= pieces@.len(),
                text::texts(pieces@) == list,
                list == text::line_list(content@),
                expected == line_over(content@, style).spans,
                spans_view(spans@) == expected.take(i as int),
            decreases pieces@.len() - i,
        {
            let ghost before = spans_view(spans@);
            spans.push(Span::raw(pieces[i].clone()));
            proof {
                assert(list[i as int] == pieces@[i as int]@);
                assert(spans_view(spans@) =~= before.push(expected[i as int]));
                assert(expected.take(i + 1) =~= expected.take(i as int).push(expected[i as int]));
            }
            i += 1;
        }
        assert(spans_view(spans@) =~= expected);
        Line { spans, style }
    }

    /// Text with no style.
    pub fn raw(content: &str) -> (line: Line)
        ensures
            line@ == raw_line(content@),
    {
        Line::styled(content, Style::plain())
    }
}

// ---------------------------------------------------------------------------
// Reading lines
// ---------------------------------------------------------------------------

/// What a list of spans says when it is written out: the text of each, without
/// its line endings.
pub open spec fn spans_text(spans: Seq<SpanView>) -> Seq<char>
    decreases spans.len(),
{
    if spans.len() == 0 {
        Seq::empty()
    } else {
        spans_text(spans.drop_last()) + text::joined(
            text::line_list(spans.last().content),
            Seq::empty(),
        )
    }
}

/// What a line says when it is written out.
pub open spec fn line_text(line: LineView) -> Seq<char> {
    spans_text(line.spans)
}

impl Line {
    /// What the line says, without its styles.
    pub fn text(&self) -> (out: String)
        ensures
            out@ == line_text(self@),
    {
        let mut out = String::new();
        let empty = String::new();
        let ghost all = self@.spans;
        let mut i: usize = 0;
        while i < self.spans.len()
            invariant
                i <= self.spans@.len(),
                all == self@.spans,
                empty@ == Seq::<char>::empty(),
                out@ == spans_text(all.take(i as int)),
            decreases self.spans@.len() - i,
        {
            let pieces = text::lines_of(self.spans[i].content.as_str());
            out.append(text::join(&pieces, empty.as_str()).as_str());
            i += 1;
            assert(all.take(i as int).drop_last() =~= all.take(i - 1));
            assert(all.take(i as int).last() == self.spans@[i - 1]@);
        }
        assert(all.take(i as int) =~= all);
        out
    }
}

/// Whether some text has a tab in it.
fn text_has_tab(s: &str) -> (yes: bool)
    ensures
        yes == s@.contains('\t'),
{
    let chars = text::chars_of(s);
    let at = text::find_from(&chars, 0, '\t');
    proof {
        if at < chars@.len() {
            assert(s@[at as int] == '\t');
        }
    }
    at < chars.len()
}

/// Whether a line has a tab anywhere in it.
pub open spec fn has_tab(line: LineView) -> bool {
    exists|i: int| 0 <= i < line.spans.len() && (#[trigger] line.spans[i]).content.contains('\t')
}

impl Line {
    pub fn has_tab(&self) -> (yes: bool)
        ensures
            yes == has_tab(self@),
    {
        let mut i: usize = 0;
        while i < self.spans.len()
            invariant
                i <= self.spans@.len(),
                forall|k: int| 0 <= k < i ==> !(#[trigger] self@.spans[k]).content.contains('\t'),
            decreases self.spans@.len() - i,
        {
            if text_has_tab(self.spans[i].content.as_str()) {
                assert(self@.spans[i as int].content.contains('\t'));
                return true;
            }
            i += 1;
        }
        false
    }
}

// ---------------------------------------------------------------------------
// Widths
// ---------------------------------------------------------------------------

/// How many columns of a terminal some text takes up.
pub uninterp spec fn display_width(s: Seq<char>) -> nat;

/// Whether text is made of letters, digits, punctuation and spaces of ASCII.
pub open spec fn is_printable(s: Seq<char>) -> bool {
    forall|i: int| 0 <= i < s.len() ==> ' ' <= #[trigger] s[i] <= '~'
}

/// How many columns of a terminal `s` takes up.
///
/// `ratatui::text::Span::width`: "Returns the unicode width of the content held
/// by this span", a function of the text that is left to the name
/// `display_width`. Printable ASCII takes a column for each character.
#[verifier::external_body]
pub(crate) fn text_width(s: &str) -> (width: usize)
    ensures
        width == display_width(s@),
        is_printable(s@) ==> width == s@.len(),
{
    ratatui::text::Span::raw(s).width()
}

/// How many columns a list of spans takes up: the sum over the spans.
pub open spec fn spans_width(spans: Seq<SpanView>) -> nat
    decreases spans.len(),
{
    if spans.len() == 0 {
        0
    } else {
        spans_width(spans.drop_last()) + display_width(spans.last().content)
    }
}

/// How many columns a line takes up.
pub open spec fn line_width(line: LineView) -> nat {
    spans_width(line.spans)
}

proof fn lemma_width_grows(spans: Seq<SpanView>, n: int)
    requires
        0 <= n <= spans.len(),
    ensures
        spans_width(spans.take(n)) <= spans_width(spans),
    decreases spans.len() - n,
{
    if n < spans.len() {
        lemma_width_grows(spans, n + 1);
        assert(spans.take(n + 1).drop_last() =~= spans.take(n));
    } else {
        assert(spans.take(n) =~= spans);
    }
}

impl Line {
    /// How many columns of `limit` the line leaves free, or `None` when it takes
    /// up more than that.
    pub fn spare(&self, limit: usize) -> (free: Option<usize>)
        ensures
            match free {
                Some(n) => line_width(self@) + n == limit,
                None => line_width(self@) > limit,
            },
    {
        let ghost all = self@.spans;
        let mut free: usize = limit;
        let mut i: usize = 0;
        while i < self.spans.len()
            invariant
                i <= self.spans@.len(),
                all == self@.spans,
                spans_width(all.take(i as int)) + free == limit,
            decreases self.spans@.len() - i,
        {
            let width = text_width(self.spans[i].content.as_str());
            proof {
                assert(all.take(i + 1).drop_last() =~= all.take(i as int));
                assert(all.take(i + 1).last() == self.spans@[i as int]@);
                lemma_width_grows(all, i + 1);
            }
            if width > free {
                return None;
            }
            free -= width;
            i += 1;
        }
        assert(all.take(i as int) =~= all);
        Some(free)
    }
}

/// Columns add up: spans side by side take what each of them takes.
pub proof fn columns_of_spans_add_up(a: Seq<SpanView>, b: Seq<SpanView>, span: SpanView)
    ensures
        spans_width(a + b) == spans_width(a) + spans_width(b),
        spans_width(seq![span]) == display_width(span.content),
        spans_width(Seq::empty()) == 0,
    decreases b.len(),
{
    let one = seq![span];
    assert(one.drop_last() =~= Seq::<SpanView>::empty());
    reveal_with_fuel(spans_width, 2);
    if b.len() == 0 {
        assert(a + b =~= a);
    } else {
        assert((a + b).drop_last() =~= a + b.drop_last());
        columns_of_spans_add_up(a, b.drop_last(), span);
    }
}

} // verus!
