//! What the right-hand half shows. Text is wrapped to the pane; media becomes a
//! caption under a picture the graphics layer draws; directories get a listing
//! so arrowing over a folder still tells you something.
//!
//! Wrapping happens here rather than while drawing so that scrolling counts
//! rendered rows: a continuation row is reachable like any other.
use crate::entry;
use crate::entry::{sort_entries, Entry, EntryView};
use crate::line;
use crate::line::{Line, LineView, Span, SpanView, Style};
use crate::media;
use crate::media::Kind;
use crate::path;
use crate::shift::shift;
use crate::text;
use crate::theme;
use crate::wrap;
use vstd::prelude::*;
use vstd::slice::slice_subrange;
use vstd::string::StringExecFns;

verus! {

/// Read at most this much of a file, and show at most this many lines: a preview
/// that has to chew through a 200MB log is a hang, not a preview.
pub const MAX_BYTES: usize = 524288;

pub const MAX_LINES: usize = 5000;

/// A piece of a document, lifted out to be pasted somewhere else.
#[derive(PartialEq, Eq, Debug)]
pub struct Snippet {
    /// The source lines it covers, counted from one and inclusive; `None` for a
    /// document that has no line numbers to speak of, like a directory listing.
    pub lines: Option<(usize, usize)>,
    /// The original text, unwrapped and with no line-number gutter. What you want
    /// in a paste is the file's own bytes, not grove's rendering of them.
    pub text: String,
}

pub struct Doc {
    pub title: String,
    pub info: String,
    /// Set when the picture for this document belongs on the graphics layer.
    pub media: Option<Kind>,
    pub lines: Vec<Line>,
    /// How many of the lines, from the first, are what is being shown. Any after
    /// them are a word from grove about it, and no part of it.
    pub own: usize,
    pub numbered: bool,
    pub light: bool,
    pub scroll: usize,
    pub rows: Vec<Line>,
    /// Which source line each rendered row came from. A wrapped line occupies
    /// several rows but is one line, and a reference has to name the line.
    pub row_lines: Vec<usize>,
    pub rows_width: Option<u16>,
}

/// What a document says: everything but how it is laid out on the screen.
pub struct DocView {
    pub title: Seq<char>,
    pub info: Seq<char>,
    pub media: Option<Kind>,
    pub lines: Seq<LineView>,
    pub own: nat,
    pub numbered: bool,
    pub light: bool,
}

impl View for Doc {
    type V = DocView;

    open spec fn view(&self) -> DocView {
        DocView {
            title: self.title@,
            info: self.info@,
            media: self.media,
            lines: line::lines_view(self.lines@),
            own: self.own as nat,
            numbered: self.numbered,
            light: self.light,
        }
    }
}

/// A document that is nothing but lines.
pub open spec fn body(lines: Seq<LineView>, numbered: bool, light: bool) -> DocView {
    DocView {
        title: Seq::empty(),
        info: Seq::empty(),
        media: None,
        lines,
        own: lines.len(),
        numbered,
        light,
    }
}

// ---------------------------------------------------------------------------
// Rows
// ---------------------------------------------------------------------------

/// How many digits the largest line number has.
pub open spec fn number_width(count: nat) -> nat {
    text::decimal(count).len()
}

/// How many columns the line numbers take up, the space after them included.
pub open spec fn gutter(count: nat, numbered: bool) -> nat {
    if numbered {
        number_width(count) + 1
    } else {
        0
    }
}

/// How many columns are left for the text.
pub open spec fn content_width(count: nat, numbered: bool, width: nat) -> nat {
    if width > gutter(count, numbered) {
        (width - gutter(count, numbered)) as nat
    } else {
        0
    }
}

/// The rows of a line before the gutter: the line itself where it fits and has
/// no tabs to expand, and what it wraps into otherwise.
pub open spec fn pieces_of(line: LineView, content: nat) -> Seq<LineView> {
    if line::line_width(line) > content || line::has_tab(line) {
        wrap::wrapped(line, content)
    } else {
        seq![line]
    }
}

/// What stands in a gutter for numbers of `width` digits: the line's number on
/// its first row, flush right, and nothing on the rows that continue it.
pub open spec fn label(width: nat, index: nat, piece: nat) -> Seq<char> {
    let number = text::decimal(index + 1);
    if piece == 0 {
        text::run_of(' ', if number.len() < width { (width - number.len()) as nat } else { 0 })
            + number + " "@
    } else {
        text::run_of(' ', width + 1)
    }
}

/// A row as it is drawn: the piece itself, behind its gutter if lines are
/// numbered.
pub open spec fn row_of(
    line: LineView,
    numbered: bool,
    width: nat,
    index: nat,
    piece: nat,
    light: bool,
) -> LineView {
    if numbered {
        LineView {
            spans: seq![
                SpanView {
                    content: label(width, index, piece),
                    style: line::in_color(theme::dim_color(light)),
                },
            ] + line.spans,
            style: line::no_style(),
        }
    } else {
        line
    }
}

/// The rows of one line.
pub open spec fn rows_of_line(doc: DocView, index: nat, content: nat) -> Seq<LineView> {
    let pieces = pieces_of(doc.lines[index as int], content);
    let width = number_width(doc.lines.len());
    Seq::new(
        pieces.len(),
        |j: int| row_of(pieces[j], doc.numbered, width, index, j as nat, doc.light),
    )
}

/// The rows of the first `n` lines.
pub open spec fn rows_upto(doc: DocView, content: nat, n: nat) -> Seq<LineView>
    decreases n,
{
    if n == 0 {
        Seq::empty()
    } else {
        rows_upto(doc, content, (n - 1) as nat) + rows_of_line(doc, (n - 1) as nat, content)
    }
}

/// The line that each row of the first `n` lines came from.
pub open spec fn origins_upto(doc: DocView, content: nat, n: nat) -> Seq<usize>
    decreases n,
{
    if n == 0 {
        Seq::empty()
    } else {
        origins_upto(doc, content, (n - 1) as nat) + Seq::new(
            pieces_of(doc.lines[n - 1], content).len(),
            |j: int| (n - 1) as usize,
        )
    }
}

/// How many of a document's lines have rows when it is `width` columns wide: all
/// of them, or none where the gutter leaves no room for text.
pub open spec fn lines_shown(doc: DocView, width: nat) -> nat {
    if content_width(doc.lines.len(), doc.numbered, width) == 0 {
        0
    } else {
        doc.lines.len()
    }
}

/// The rendered rows of a document, `width` columns wide.
pub open spec fn rendered(doc: DocView, width: nat) -> Seq<LineView> {
    rows_upto(
        doc,
        content_width(doc.lines.len(), doc.numbered, width),
        lines_shown(doc, width),
    )
}

/// The line that each rendered row came from.
pub open spec fn origins(doc: DocView, width: nat) -> Seq<usize> {
    origins_upto(
        doc,
        content_width(doc.lines.len(), doc.numbered, width),
        lines_shown(doc, width),
    )
}

/// Every row has a line it came from, the lines come in order, and every line
/// that is shown has a row.
pub proof fn rows_follow_their_lines(doc: DocView, width: nat)
    requires
        doc.lines.len() <= usize::MAX,
    ensures
        rendered(doc, width).len() == origins(doc, width).len(),
        forall|i: int|
            0 <= i < origins(doc, width).len() ==> #[trigger] origins(doc, width)[i]
                < doc.lines.len(),
        forall|i: int, j: int|
            0 <= i <= j < origins(doc, width).len() ==> #[trigger] origins(doc, width)[i]
                <= #[trigger] origins(doc, width)[j],
        forall|n: int|
            0 <= n < lines_shown(doc, width) ==> #[trigger] origins(doc, width).contains(
                n as usize,
            ),
{
    let content = content_width(doc.lines.len(), doc.numbered, width);
    lemma_origins(doc, content, lines_shown(doc, width));
}

proof fn lemma_origins(doc: DocView, content: nat, n: nat)
    requires
        n <= doc.lines.len() <= usize::MAX,
    ensures
        rows_upto(doc, content, n).len() == origins_upto(doc, content, n).len(),
        forall|i: int|
            0 <= i < origins_upto(doc, content, n).len() ==> #[trigger] origins_upto(
                doc,
                content,
                n,
            )[i] < n,
        forall|i: int, j: int|
            0 <= i <= j < origins_upto(doc, content, n).len() ==> #[trigger] origins_upto(
                doc,
                content,
                n,
            )[i] <= #[trigger] origins_upto(doc, content, n)[j],
        forall|m: int|
            0 <= m < n ==> #[trigger] origins_upto(doc, content, n).contains(m as usize),
    decreases n,
{
    if n > 0 {
        let last = (n - 1) as nat;
        lemma_origins(doc, content, last);
        let before = origins_upto(doc, content, last);
        let after = origins_upto(doc, content, n);
        let pieces = pieces_of(doc.lines[n - 1], content);
        wrap::wrapping_loses_nothing(doc.lines[n - 1], content);
        assert(pieces.len() >= 1);
        assert forall|m: int| 0 <= m < n implies #[trigger] after.contains(m as usize) by {
            if m < last {
                let k = before.index_of(m as usize);
                assert(before.contains(m as usize));
                assert(after[k] == m as usize);
            } else {
                assert(after[before.len() as int] == last as usize);
            }
        }
    }
}

/// The number of the line at `index`, flush right in `width` columns, and a space.
fn number_label(index: usize, width: usize) -> (out: String)
    requires
        index < usize::MAX,
    ensures
        out@ == label(width as nat, index as nat, 0),
{
    let digits = text::decimal_text((index + 1) as u64);
    let length = text::chars_of(digits.as_str()).len();
    let pad: usize = if length < width {
        width - length
    } else {
        0
    };
    text::repeat(' ', pad).concat(digits.as_str()).concat(" ")
}

/// Wrap each source line to the body width and prefix a line-number gutter,
/// blank on continuation rows so code stays aligned under its own first row.
///
/// Returns the rows and, alongside them, the source line each row came from.
pub fn build_rows(lines: &Vec<Line>, numbered: bool, width: u16, light: bool) -> (out: (
    Vec<Line>,
    Vec<usize>,
))
    ensures
        line::lines_view(out.0@) == rendered(
            body(line::lines_view(lines@), numbered, light),
            width as nat,
        ),
        out.1@ == origins(body(line::lines_view(lines@), numbered, light), width as nat),
{
    let ghost model = body(line::lines_view(lines@), numbered, light);
    let count = lines.len();
    let digits = text::decimal_text(count as u64);
    let number_width = text::chars_of(digits.as_str()).len();
    let mut rows: Vec<Line> = Vec::new();
    let mut row_lines: Vec<usize> = Vec::new();
    let room = width as usize;
    let content: usize = if numbered {
        if room > number_width {
            room - number_width - 1
        } else {
            0
        }
    } else {
        room
    };
    if content == 0 {
        assert(line::lines_view(rows@) =~= Seq::<LineView>::empty());
        return (rows, row_lines);
    }
    let mut i: usize = 0;
    assert(line::lines_view(rows@) =~= Seq::<LineView>::empty());
    while i < count
        invariant
            i <= count == lines@.len(),
            model.lines == line::lines_view(lines@),
            model.numbered == numbered,
            model.light == light,
            number_width == self::number_width(count as nat),
            numbered ==> number_width < room,
            line::lines_view(rows@) == rows_upto(model, content as nat, i as nat),
            row_lines@ == origins_upto(model, content as nat, i as nat),
        decreases count - i,
    {
        let line = &lines[i];
        let ghost expected = pieces_of(line@, content as nat);
        let fits = line.spare(content).is_some();
        let pieces = if !fits || line.has_tab() {
            wrap::wrap_line(line, content)
        } else {
            let mut only: Vec<Line> = Vec::new();
            only.push(line.clone());
            assert(line::lines_view(only@) =~= seq![line@]);
            only
        };
        assert(line::lines_view(pieces@) == expected);
        append_rows(&mut rows, &mut row_lines, pieces, i, numbered, number_width, light);
        proof {
            let n = (i + 1) as nat;
            assert(model.lines[i as int] == line@);
            let drawn = Seq::new(
                expected.len(),
                |j: int| row_of(expected[j], numbered, number_width as nat, i as nat, j as nat, light),
            );
            assert(drawn =~= rows_of_line(model, i as nat, content as nat));
            assert(line::lines_view(rows@) == rows_upto(model, content as nat, n));
            assert(Seq::new(expected.len(), |j: int| i) =~= Seq::new(
                expected.len(),
                |j: int| (n - 1) as usize,
            ));
        }
        i += 1;
    }
    (rows, row_lines)
}

/// Append the rows of the line at `index`, and where they came from.
fn append_rows(
    rows: &mut Vec<Line>,
    row_lines: &mut Vec<usize>,
    pieces: Vec<Line>,
    index: usize,
    numbered: bool,
    width: usize,
    light: bool,
)
    requires
        index < usize::MAX,
        numbered ==> width < usize::MAX,
    ensures
        line::lines_view(final(rows)@) == line::lines_view(old(rows)@) + Seq::new(
            pieces@.len(),
            |j: int| row_of(pieces@[j]@, numbered, width as nat, index as nat, j as nat, light),
        ),
        final(row_lines)@ == old(row_lines)@ + Seq::new(pieces@.len(), |j: int| index),
{
    let ghost drawn = Seq::new(
        pieces@.len(),
        |j: int| row_of(pieces@[j]@, numbered, width as nat, index as nat, j as nat, light),
    );
    let ghost rows0 = line::lines_view(rows@);
    let ghost lines0 = row_lines@;
    let mut j: usize = 0;
    while j < pieces.len()
        invariant
            j <= pieces@.len(),
            index < usize::MAX,
            numbered ==> width < usize::MAX,
            drawn == Seq::new(
                pieces@.len(),
                |j: int| row_of(pieces@[j]@, numbered, width as nat, index as nat, j as nat, light),
            ),
            line::lines_view(rows@) == rows0 + drawn.take(j as int),
            row_lines@ == lines0 + Seq::new(j as nat, |j: int| index),
        decreases pieces@.len() - j,
    {
        let ghost before = line::lines_view(rows@);
        row_lines.push(index);
        if numbered {
            let label = if j == 0 {
                number_label(index, width)
            } else {
                text::repeat(' ', width + 1)
            };
            let mut spans: Vec<Span> = Vec::new();
            spans.push(Span::styled(label, Style::colored(theme::dim(light))));
            append_spans(&mut spans, &pieces[j]);
            rows.push(Line::of(spans));
            assert(rows@[rows@.len() - 1]@ =~= drawn[j as int]);
        } else {
            rows.push(pieces[j].clone());
        }
        proof {
            assert(line::lines_view(rows@) =~= before.push(drawn[j as int]));
            assert(drawn.take(j + 1) =~= drawn.take(j as int).push(drawn[j as int]));
            assert(row_lines@ =~= lines0 + Seq::new((j + 1) as nat, |j: int| index));
        }
        j += 1;
    }
    assert(drawn.take(j as int) =~= drawn);
}

/// Append the spans of a line.
fn append_spans(spans: &mut Vec<Span>, line: &Line)
    ensures
        line::spans_view(final(spans)@) == line::spans_view(old(spans)@) + line@.spans,
{
    let ghost before = line::spans_view(spans@);
    let mut i: usize = 0;
    assert(before + line@.spans.take(0) =~= before);
    while i < line.spans.len()
        invariant
            i <= line.spans@.len(),
            line::spans_view(spans@) == before + line@.spans.take(i as int),
        decreases line.spans@.len() - i,
    {
        let ghost now = line::spans_view(spans@);
        spans.push(line.spans[i].clone());
        i += 1;
        assert(line::spans_view(spans@) =~= now.push(line@.spans[i - 1]));
        assert(line@.spans.take(i as int) =~= line@.spans.take(i - 1).push(line@.spans[i - 1]));
    }
    assert(line@.spans.take(i as int) =~= line@.spans);
}

// ---------------------------------------------------------------------------
// Documents
// ---------------------------------------------------------------------------

/// What has to be read to make a document of a path.
#[derive(Clone, Copy, PartialEq, Eq, Structural, Debug)]
pub enum Reading {
    /// The directory's entries.
    Directory,
    /// The file's size and its bytes.
    Text,
    /// The file's size, and what the probes say of it.
    Media(Kind),
}

/// What was read.
pub enum Found {
    Directory(Vec<Entry>),
    Text(TextFile),
    Media(Details),
}

/// A text file: its size, what reading it gave, and its lines with their syntax
/// highlighted, where there is a highlighter for them. No more has to be read than
/// a preview shows and one byte past it, which tells that the file goes on.
pub struct TextFile {
    pub size: u64,
    pub content: Result<Vec<u8>, String>,
    pub highlighted: Option<Vec<Line>>,
}

/// What is known of a picture, a video, a sound or a document with pages.
pub struct Details {
    pub size: Option<u64>,
    pub secs: Option<u64>,
    pub codec: Option<String>,
    pub pages: Option<String>,
}

/// What has to be read to make a document of a path.
pub open spec fn reading_of(path: Seq<char>, is_dir: bool) -> Reading {
    if is_dir {
        Reading::Directory
    } else if media::kind_of_path(path) == Kind::Other {
        Reading::Text
    } else {
        Reading::Media(media::kind_of_path(path))
    }
}

/// Whether what was read is what had to be.
pub open spec fn answers(found: Found, reading: Reading) -> bool {
    match reading {
        Reading::Directory => found is Directory,
        Reading::Text => found is Text,
        Reading::Media(_) => found is Media,
    }
}

/// How many of these entries are directories.
pub open spec fn folders(list: Seq<EntryView>) -> nat
    decreases list.len(),
{
    if list.len() == 0 {
        0
    } else if list.last().is_dir {
        folders(list.drop_last()) + 1
    } else {
        folders(list.drop_last())
    }
}

/// An entry as a listing shows it: a folder in bold and with a slash, a file
/// without.
pub open spec fn listed(e: EntryView, light: bool) -> LineView {
    LineView {
        spans: seq![
            if e.is_dir {
                SpanView {
                    content: e.name + "/"@,
                    style: (Style { bold: true, ..line::in_color(theme::chrome_color(light)) }),
                }
            } else {
                SpanView { content: e.name, style: line::in_color(theme::dim_color(light)) }
            },
        ],
        style: line::no_style(),
    }
}

/// A directory's document, its entries given in listing order.
pub open spec fn directory_doc(path: Seq<char>, sorted: Seq<EntryView>, light: bool) -> DocView {
    DocView {
        title: path::title(path),
        info: text::decimal(folders(sorted)) + " folders   "@ + text::decimal(
            (sorted.len() - folders(sorted)) as nat,
        ) + " files"@,
        media: None,
        lines: sorted.map_values(|e: EntryView| listed(e, light)),
        own: sorted.len(),
        numbered: false,
        light,
    }
}

/// What `String::from_utf8_lossy` makes of some bytes.
pub uninterp spec fn lossy(bytes: Seq<u8>) -> Seq<char>;

/// Decode UTF-8, with something to stand for what is not.
///
/// `String::from_utf8_lossy`: "Converts a slice of bytes to a string, including
/// invalid characters". Bytes that are valid UTF-8 give the text they encode;
/// what others give is left to the name `lossy`.
#[verifier::external_body]
fn decode_lossy(bytes: &[u8]) -> (out: String)
    ensures
        out@ == lossy(bytes@),
        vstd::utf8::valid_utf8(bytes@) ==> out@ == vstd::utf8::decode_utf8(bytes@),
{
    String::from_utf8_lossy(bytes).into_owned()
}

/// Bytes as text: what they encode where they are valid UTF-8, and with something
/// to stand for what is not where they are not.
pub open spec fn as_text(bytes: Seq<u8>) -> Seq<char> {
    if vstd::utf8::valid_utf8(bytes) {
        vstd::utf8::decode_utf8(bytes)
    } else {
        lossy(bytes)
    }
}

/// As much of a file's bytes as a preview reads.
pub open spec fn head(bytes: Seq<u8>) -> Seq<u8> {
    if bytes.len() > MAX_BYTES {
        bytes.take(MAX_BYTES as int)
    } else {
        bytes
    }
}

/// The first lines of a text, as many as a preview shows, without styles.
pub open spec fn plain_lines(content: Seq<char>) -> Seq<LineView> {
    let all = text::line_list(content);
    let shown = if all.len() > MAX_LINES {
        all.take(MAX_LINES as int)
    } else {
        all
    };
    shown.map_values(|l: Seq<char>| line::raw_line(l))
}

/// The lines of a text file that are shown, highlighted where they could be.
pub open spec fn file_lines(bytes: Seq<u8>, highlighted: Option<Seq<LineView>>) -> Seq<LineView> {
    match highlighted {
        Some(lines) => lines,
        None => plain_lines(as_text(head(bytes))),
    }
}

/// The body of a text file that can be shown as text: its lines, with a word on
/// what was left out and one where there is nothing at all.
pub open spec fn text_body(
    bytes: Seq<u8>,
    highlighted: Option<Seq<LineView>>,
    light: bool,
) -> Seq<LineView> {
    let note = line::in_color(theme::dim_color(light));
    let lines = file_lines(bytes, highlighted);
    let lines = if bytes.len() > MAX_BYTES || text::line_list(as_text(head(bytes))).len()
        > MAX_LINES {
        lines.push(line::line_over("… truncated"@, note))
    } else {
        lines
    };
    if lines.len() == 0 {
        seq![line::line_over("(empty file)"@, note)]
    } else {
        lines
    }
}

/// A text file's document.
pub open spec fn text_doc(
    path: Seq<char>,
    size: u64,
    content: Result<Seq<u8>, Seq<char>>,
    highlighted: Option<Seq<LineView>>,
    light: bool,
) -> DocView {
    let (lines, own, numbered) = match content {
        Err(why) => (seq![line::raw_line("(unreadable: "@ + why + ")"@)], 0, false),
        Ok(bytes) => if head(bytes).contains(0u8) {
            (
                seq![
                    line::raw_line("(binary — "@ + media::size_text(size as nat) + ")"@),
                ],
                0,
                false,
            )
        } else {
            (text_body(bytes, highlighted, light), file_lines(bytes, highlighted).len(), true)
        },
    };
    DocView {
        title: path::title(path),
        info: media::size_text(size as nat),
        media: None,
        lines,
        own,
        numbered,
        light,
    }
}

/// Nothing past what a preview reads of a file has any part in it: two files that
/// are alike as far as that, and go on after it, look the same.
pub proof fn nothing_past_the_head_is_shown(
    path: Seq<char>,
    size: u64,
    a: Seq<u8>,
    b: Seq<u8>,
    highlighted: Option<Seq<LineView>>,
    light: bool,
)
    requires
        head(a) == head(b),
        a.len() > MAX_BYTES,
        b.len() > MAX_BYTES,
    ensures
        text_doc(path, size, Ok(a), highlighted, light) == text_doc(
            path,
            size,
            Ok(b),
            highlighted,
            light,
        ),
{
}

/// The document of something the graphics layer draws: a caption, and no lines,
/// so that nothing is painted over the picture.
pub open spec fn media_doc(path: Seq<char>, kind: Kind, found: Details, light: bool) -> DocView {
    DocView {
        title: path::title(path),
        info: text::joined(
            media::detail_lines(
                kind,
                found.size,
                found.secs,
                text::option_view(found.codec),
                text::option_view(found.pages),
            ),
            "   "@,
        ),
        media: Some(kind),
        lines: Seq::empty(),
        own: 0,
        numbered: false,
        light,
    }
}

/// What the lines of a highlighter say, where there are any.
pub open spec fn highlighted_view(lines: Option<Vec<Line>>) -> Option<Seq<LineView>> {
    match lines {
        Some(lines) => Some(line::lines_view(lines@)),
        None => None,
    }
}

/// Whether `shown` is the document of a path, given what was read of it.
pub open spec fn is_document_of(
    shown: DocView,
    path: Seq<char>,
    found: Found,
    light: bool,
) -> bool {
    match found {
        Found::Directory(entries) => exists|sorted: Seq<EntryView>| #[trigger]
            entry::in_order(sorted) && sorted.to_multiset() == entry::entries(
                entries@,
            ).to_multiset() && shown == directory_doc(path, sorted, light),
        Found::Text(file) => shown == text_doc(
            path,
            file.size,
            media::bytes_view(file.content),
            highlighted_view(file.highlighted),
            light,
        ),
        Found::Media(details) => shown == media_doc(
            path,
            media::kind_of_path(path),
            details,
            light,
        ),
    }
}

impl Doc {
    /// The rows are those of the lines at the width they were made for, and there
    /// are no fewer lines than those that are being shown.
    pub open spec fn wf(&self) -> bool {
        &&& self.own <= self.lines@.len()
        &&& match self.rows_width {
            Some(width) => {
                &&& line::lines_view(self.rows@) == rendered(self@, width as nat)
                &&& self.row_lines@ == origins(self@, width as nat)
            },
            None => self.rows@.len() == 0 && self.row_lines@.len() == 0,
        }
    }

    /// A document whose lines are all what is being shown.
    pub fn new(title: String, info: String, lines: Vec<Line>, numbered: bool, light: bool) -> (doc:
        Doc)
        ensures
            doc.wf(),
            doc@ == (DocView {
                title: title@,
                info: info@,
                media: None,
                lines: line::lines_view(lines@),
                own: lines@.len(),
                numbered,
                light,
            }),
            doc.scroll == 0,
            doc.rows_width is None,
    {
        let own = lines.len();
        Doc {
            title,
            info,
            media: None,
            lines,
            own,
            numbered,
            light,
            scroll: 0,
            rows: Vec::new(),
            row_lines: Vec::new(),
            rows_width: None,
        }
    }

    /// A document with nothing in it.
    pub fn empty() -> (doc: Doc)
        ensures
            doc.wf(),
            doc@ == body(Seq::empty(), false, false),
            doc.scroll == 0,
            doc.rows_width is None,
    {
        let doc = Doc::new(String::new(), String::new(), Vec::new(), false, false);
        assert(doc@.lines =~= Seq::<LineView>::empty());
        doc
    }

    /// What has to be read before `load` can make a document of a path.
    pub fn reading(path: &str, is_dir: bool) -> (reading: Reading)
        ensures
            reading == reading_of(path@, is_dir),
    {
        if is_dir {
            return Reading::Directory;
        }
        match media::classify(path) {
            Kind::Other => Reading::Text,
            kind => Reading::Media(kind),
        }
    }

    /// The document of a path, from what was read of it.
    pub fn load(path: &str, is_dir: bool, found: Found, light: bool) -> (doc: Doc)
        requires
            answers(found, reading_of(path@, is_dir)),
        ensures
            doc.wf(),
            is_document_of(doc@, path@, found, light),
            doc.scroll == 0,
            doc.rows_width is None,
    {
        match found {
            Found::Directory(entries) => Doc::directory(path, entries, light),
            Found::Text(file) => Doc::text(path, file, light),
            Found::Media(details) => Doc::media(path, media::classify(path), details, light),
        }
    }

    fn title_of(path: &str) -> (title: String)
        ensures
            title@ == path::title(path@),
    {
        path::title_of(path)
    }

    /// The caption for something the graphics layer is drawing. The body stays
    /// empty: those cells must not be painted over the picture.
    pub fn media(path: &str, kind: Kind, found: Details, light: bool) -> (doc: Doc)
        ensures
            doc.wf(),
            doc@ == media_doc(path@, kind, found, light),
            doc.scroll == 0,
            doc.rows_width is None,
    {
        let lines = media::details(kind, found.size, found.secs, &found.codec, &found.pages);
        let mut doc = Doc::new(
            Doc::title_of(path),
            text::join(&lines, "   "),
            Vec::new(),
            false,
            light,
        );
        doc.media = Some(kind);
        assert(doc@.lines =~= Seq::<LineView>::empty());
        doc
    }

    pub fn directory(path: &str, entries: Vec<Entry>, light: bool) -> (doc: Doc)
        ensures
            doc.wf(),
            is_document_of(doc@, path@, Found::Directory(entries), light),
            doc.scroll == 0,
            doc.rows_width is None,
    {
        let mut entries = entries;
        sort_entries(&mut entries);
        let ghost sorted = entry::entries(entries@);
        let ghost shown = sorted.map_values(|e: EntryView| listed(e, light));
        let mut dirs: usize = 0;
        let mut lines: Vec<Line> = Vec::new();
        let mut i: usize = 0;
        while i < entries.len()
            invariant
                i <= entries@.len(),
                dirs <= i,
                sorted == entry::entries(entries@),
                shown == sorted.map_values(|e: EntryView| listed(e, light)),
                dirs == folders(sorted.take(i as int)),
                line::lines_view(lines@) == shown.take(i as int),
            decreases entries@.len() - i,
        {
            let e = &entries[i];
            let ghost before = line::lines_view(lines@);
            let mut spans: Vec<Span> = Vec::new();
            if e.is_dir {
                let style = Style { fg: Some(theme::chrome(light)), bg: None, bold: true };
                spans.push(Span::styled(e.name.clone().concat("/"), style));
            } else {
                spans.push(Span::styled(e.name.clone(), Style::colored(theme::dim(light))));
            }
            lines.push(Line::of(spans));
            proof {
                assert(sorted.take(i + 1).drop_last() =~= sorted.take(i as int));
                assert(sorted.take(i + 1).last() == e@);
                assert(lines@[lines@.len() - 1]@ =~= listed(e@, light));
                assert(line::lines_view(lines@) =~= before.push(shown[i as int]));
                assert(shown.take(i + 1) =~= shown.take(i as int).push(shown[i as int]));
            }
            if e.is_dir {
                dirs += 1;
            }
            i += 1;
        }
        proof {
            assert(sorted.take(i as int) =~= sorted);
            assert(shown.take(i as int) =~= shown);
        }
        let info = text::decimal_text(dirs as u64).concat(" folders   ").concat(
            text::decimal_text((entries.len() - dirs) as u64).as_str(),
        ).concat(" files");
        let doc = Doc::new(Doc::title_of(path), info, lines, false, light);
        assert(doc@ == directory_doc(path@, sorted, light));
        doc
    }

    /// The text of a file, as much of it as is shown, or `None` when it is not
    /// text. This is what a highlighter works on.
    pub fn readable(bytes: &Vec<u8>) -> (content: Option<String>)
        ensures
            text::option_view(content) == (if head(bytes@).contains(0u8) {
                None
            } else {
                Some(as_text(head(bytes@)))
            }),
    {
        let end: usize = if bytes.len() > MAX_BYTES {
            MAX_BYTES
        } else {
            bytes.len()
        };
        let part = slice_subrange(bytes.as_slice(), 0, end);
        assert(part@ =~= head(bytes@));
        if contains_zero(part) {
            return None;
        }
        Some(decode_lossy(part))
    }

    pub fn text(path: &str, file: TextFile, light: bool) -> (doc: Doc)
        ensures
            doc.wf(),
            is_document_of(doc@, path@, Found::Text(file), light),
            doc.scroll == 0,
            doc.rows_width is None,
    {
        let name = Doc::title_of(path);
        let info = media::human_size(file.size);
        let mut lines: Vec<Line> = Vec::new();
        match file.content {
            Err(why) => {
                lines.push(
                    Line::raw("(unreadable: ".to_owned().concat(why.as_str()).concat(")").as_str()),
                );
                assert(line::lines_view(lines@) =~= seq![
                    line::raw_line("(unreadable: "@ + why@ + ")"@),
                ]);
                let mut doc = Doc::new(name, info, lines, false, light);
                doc.own = 0;
                doc
            },
            Ok(bytes) => match Doc::readable(&bytes) {
                None => {
                    let size = media::human_size(file.size);
                    lines.push(
                        Line::raw("(binary — ".to_owned().concat(size.as_str()).concat(")").as_str()),
                    );
                    assert(line::lines_view(lines@) =~= seq![
                        line::raw_line("(binary — "@ + size@ + ")"@),
                    ]);
                    let mut doc = Doc::new(name, info, lines, false, light);
                    doc.own = 0;
                    doc
                },
                Some(content) => {
                    let (lines, own) = Doc::text_lines(&bytes, content, file.highlighted, light);
                    let mut doc = Doc::new(name, info, lines, true, light);
                    doc.own = own;
                    doc
                },
            },
        }
    }

    fn text_lines(
        bytes: &Vec<u8>,
        content: String,
        highlighted: Option<Vec<Line>>,
        light: bool,
    ) -> (out: (Vec<Line>, usize))
        requires
            content@ == as_text(head(bytes@)),
        ensures
            line::lines_view(out.0@) == text_body(bytes@, highlighted_view(highlighted), light),
            out.1 == file_lines(bytes@, highlighted_view(highlighted)).len(),
            out.1 <= out.0@.len(),
    {
        let all = text::lines_of(content.as_str());
        let ghost list = text::line_list(content@);
        let ghost base = file_lines(bytes@, highlighted_view(highlighted));
        let mut lines = match highlighted {
            Some(lines) => lines,
            None => {
                let mut lines: Vec<Line> = Vec::new();
                let ghost shown = plain_lines(content@);
                let mut i: usize = 0;
                while i < all.len() && i < MAX_LINES
                    invariant
                        i <= all@.len(),
                        i <= MAX_LINES,
                        list == text::texts(all@),
                        list == text::line_list(content@),
                        shown == plain_lines(content@),
                        line::lines_view(lines@) == shown.take(i as int),
                    decreases all@.len() - i,
                {
                    let ghost before = line::lines_view(lines@);
                    lines.push(Line::raw(all[i].as_str()));
                    proof {
                        assert(list[i as int] == all@[i as int]@);
                        assert(line::lines_view(lines@) =~= before.push(shown[i as int]));
                        assert(shown.take(i + 1) =~= shown.take(i as int).push(shown[i as int]));
                    }
                    i += 1;
                }
                assert(shown.take(i as int) =~= shown);
                lines
            },
        };
        assert(line::lines_view(lines@) == base);
        let own = lines.len();
        let note = Style::colored(theme::dim(light));
        if bytes.len() > MAX_BYTES || all.len() > MAX_LINES {
            lines.push(Line::styled("… truncated", note));
            assert(line::lines_view(lines@) =~= base.push(line::line_over("… truncated"@, note)));
        }
        if lines.len() == 0 {
            lines.push(Line::styled("(empty file)", note));
            assert(line::lines_view(lines@) =~= seq![line::line_over("(empty file)"@, note)]);
        }
        (lines, own)
    }
}

// ---------------------------------------------------------------------------
// Reading documents
// ---------------------------------------------------------------------------

/// The last row that a document of so many rows can be scrolled to.
pub open spec fn last_row(rows: nat) -> nat {
    if rows == 0 {
        0
    } else {
        (rows - 1) as nat
    }
}

/// A place to scroll to, held between the first row and the last.
pub open spec fn clamped(scroll: int, rows: nat) -> nat {
    if scroll < 0 {
        0
    } else if scroll > last_row(rows) {
        last_row(rows)
    } else {
        scroll as nat
    }
}

/// The lines that a range of rows comes from, first and last, out of the first
/// `own` lines; `None` when the range begins past the last row, or holds none of
/// those lines. The range may be given either way round, and may end past the
/// last row.
pub open spec fn lines_under(origins: Seq<usize>, own: nat, a: nat, b: nat) -> Option<(nat, nat)> {
    let from = if a <= b {
        a
    } else {
        b
    };
    let to = if a <= b {
        b
    } else {
        a
    };
    if from >= origins.len() || origins[from as int] >= own {
        None
    } else {
        let end = if to >= origins.len() {
            origins.len() - 1
        } else {
            to as int
        };
        let last = if origins[end] < own {
            origins[end] as nat
        } else {
            (own - 1) as nat
        };
        Some((origins[from as int] as nat, last))
    }
}

/// What the lines from `first` to `last` say, one to a line.
pub open spec fn text_between(lines: Seq<LineView>, first: nat, last: nat) -> Seq<char> {
    text::joined(
        lines.subrange(first as int, last as int + 1).map_values(
            |l: LineView| line::line_text(l),
        ),
        "\n"@,
    )
}

impl Doc {
    /// Lay the document out `width` columns wide, and hold the scroll position
    /// to the rows there are. Nothing is done while the width stays the same.
    pub fn rows(&mut self, width: u16) -> (rows: &Vec<Line>)
        requires
            old(self).wf(),
        ensures
            line::lines_view(rows@) == rendered(old(self)@, width as nat),
            final(self).wf(),
            final(self)@ == old(self)@,
            final(self).rows_width == Some(width),
            final(self).scroll == (if old(self).rows_width == Some(width) {
                old(self).scroll as nat
            } else {
                clamped(old(self).scroll as int, rendered(old(self)@, width as nat).len())
            }),
    {
        let same = match self.rows_width {
            Some(made_for) => made_for == width,
            None => false,
        };
        if !same {
            let (rows, row_lines) = build_rows(&self.lines, self.numbered, width, self.light);
            proof {
                lemma_same_rows(
                    self@,
                    body(self@.lines, self.numbered, self.light),
                    width as nat,
                );
            }
            self.rows = rows;
            self.row_lines = row_lines;
            self.rows_width = Some(width);
            self.clamp();
        }
        &self.rows
    }

    /// How many rendered rows there are, for turning a pointer into a row.
    pub fn row_count(&self) -> (count: usize)
        requires
            self.wf(),
        ensures
            count == (match self.rows_width {
                Some(width) => rendered(self@, width as nat).len(),
                None => 0,
            }),
    {
        self.rows.len()
    }

    /// The snippet covered by a range of rendered rows, resolved back to whole
    /// source lines, which is what a reference can name. Selecting half of a
    /// wrapped line takes the whole line: a fragment of a line is not something
    /// you can paste and act on. What grove says about a file is not part of it, so
    /// a snippet ends where the file does, and there is none of grove's words
    /// alone.
    pub fn snippet(&self, from_row: usize, to_row: usize) -> (snippet: Option<Snippet>)
        requires
            self.wf(),
        ensures
            match (
                snippet,
                lines_under(self.row_lines@, self.own as nat, from_row as nat, to_row as nat),
            ) {
                (Some(snippet), Some((first, last))) => {
                    &&& snippet.text@ == text_between(self@.lines, first, last)
                    &&& match snippet.lines {
                        Some((a, b)) => self.numbered && a == first + 1 && b == last + 1,
                        None => !self.numbered,
                    }
                },
                (None, None) => true,
                _ => false,
            },
    {
        let (from, to) = if from_row <= to_row {
            (from_row, to_row)
        } else {
            (to_row, from_row)
        };
        let count = self.row_lines.len();
        if from >= count {
            return None;
        }
        let end = if to >= count {
            count - 1
        } else {
            to
        };
        let first = self.row_lines[from];
        if first >= self.own {
            return None;
        }
        let last = if self.row_lines[end] < self.own {
            self.row_lines[end]
        } else {
            self.own - 1
        };
        let size = self.lines.len();
        proof {
            if let Some(width) = self.rows_width {
                rows_follow_their_lines(self@, width as nat);
                assert(origins(self@, width as nat)[from as int] <= origins(
                    self@,
                    width as nat,
                )[end as int]);
                assert(origins(self@, width as nat)[end as int] < self@.lines.len());
            }
        }
        let mut texts: Vec<String> = Vec::new();
        let ghost said = self@.lines.subrange(first as int, last + 1).map_values(
            |l: LineView| line::line_text(l),
        );
        let mut i: usize = first;
        while i <= last
            invariant
                first <= i <= last + 1,
                last < self.lines@.len() == size,
                said == self@.lines.subrange(first as int, last + 1).map_values(
                    |l: LineView| line::line_text(l),
                ),
                text::texts(texts@) == said.take(i - first),
            decreases last + 1 - i,
        {
            let ghost before = text::texts(texts@);
            texts.push(self.lines[i].text());
            proof {
                let k = i - first;
                assert(said[k] == line::line_text(self@.lines[i as int]));
                assert(text::texts(texts@) =~= before.push(said[k]));
                assert(said.take(k + 1) =~= said.take(k).push(said[k]));
            }
            i += 1;
        }
        assert(said.take(i - first) =~= said);
        let text = text::join(&texts, "\n");
        // Line numbers only mean something where they are being shown.
        let lines = if self.numbered {
            Some((first + 1, last + 1))
        } else {
            None
        };
        Some(Snippet { lines, text })
    }

    /// Change the line of information beside the title.
    pub fn caption(&mut self, info: String)
        requires
            old(self).wf(),
        ensures
            final(self).wf(),
            final(self)@ == (DocView { info: info@, ..old(self)@ }),
            final(self).scroll == old(self).scroll,
            final(self).rows_width == old(self).rows_width,
    {
        self.info = info;
        proof {
            if let Some(width) = self.rows_width {
                lemma_same_rows(old(self)@, self@, width as nat);
            }
        }
    }

    /// Scroll by so many rows, no further than the first row or the last.
    pub fn scroll_by(&mut self, delta: isize)
        requires
            old(self).wf(),
        ensures
            final(self).wf(),
            final(self)@ == old(self)@,
            final(self).rows_width == old(self).rows_width,
            final(self).rows@ == old(self).rows@,
            final(self).row_lines@ == old(self).row_lines@,
            final(self).scroll == clamped(old(self).scroll + delta, old(self).rows@.len()),
    {
        let count = self.rows.len();
        assert(last_row(count as nat) <= usize::MAX);
        self.scroll = shift(self.scroll, delta);
        self.clamp();
    }

    fn clamp(&mut self)
        ensures
            *final(self) == (Doc {
                scroll: clamped(old(self).scroll as int, old(self).rows@.len()) as usize,
                ..*old(self)
            }),
    {
        let last = if self.rows.len() == 0 {
            0
        } else {
            self.rows.len() - 1
        };
        if self.scroll > last {
            self.scroll = last;
        }
    }
}

/// A drag selects the same lines in either direction.
pub proof fn a_backwards_drag_selects_the_same(origins: Seq<usize>, own: nat, a: nat, b: nat)
    ensures
        lines_under(origins, own, a, b) == lines_under(origins, own, b, a),
{
}

/// A selection with an end on a row of what is being shown is a selection: its
/// first line is no later than its last, both are lines of that and not words
/// about it, and each line under an end is among them, or is such a word.
pub proof fn a_selection_takes_whole_lines(doc: DocView, width: nat, a: nat, b: nat)
    requires
        doc.own <= doc.lines.len() <= usize::MAX,
        a < origins(doc, width).len() && origins(doc, width)[a as int] < doc.own || b < origins(
            doc,
            width,
        ).len() && origins(doc, width)[b as int] < doc.own,
    ensures
        match lines_under(origins(doc, width), doc.own, a, b) {
            Some((first, last)) => {
                &&& first <= last < doc.own
                &&& a < origins(doc, width).len() && origins(doc, width)[a as int] < doc.own
                    ==> first <= origins(doc, width)[a as int] <= last
                &&& b < origins(doc, width).len() && origins(doc, width)[b as int] < doc.own
                    ==> first <= origins(doc, width)[b as int] <= last
            },
            None => false,
        },
{
    rows_follow_their_lines(doc, width);
    let all = origins(doc, width);
    let from = if a <= b {
        a
    } else {
        b
    };
    let to = if a <= b {
        b
    } else {
        a
    };
    let end = if to >= all.len() {
        all.len() - 1
    } else {
        to as int
    };
    assert(all[from as int] <= all[end]);
}

/// Selecting from the first row to the last takes every line that is being shown.
pub proof fn selecting_every_row_takes_every_line(doc: DocView, width: nat)
    requires
        0 < doc.own <= doc.lines.len() <= usize::MAX,
        content_width(doc.lines.len(), doc.numbered, width) > 0,
    ensures
        lines_under(origins(doc, width), doc.own, 0, last_row(origins(doc, width).len())) == Some(
            (0nat, (doc.own - 1) as nat),
        ),
{
    rows_follow_their_lines(doc, width);
    let all = origins(doc, width);
    let n = doc.lines.len();
    assert(all.contains(0int as usize));
    assert(all.contains((n - 1) as usize));
    let i = all.index_of(0usize);
    let j = all.index_of((n - 1) as usize);
    assert(all[0] <= all[i]);
    assert(all[j] <= all[all.len() - 1]);
    assert(all[all.len() - 1] < n);
}

/// A snippet is never grove's own words: a selection that holds none of what is
/// being shown gives none.
pub proof fn a_word_about_a_file_is_no_snippet(doc: DocView, width: nat, a: nat, b: nat)
    requires
        forall|i: int|
            0 <= i < origins(doc, width).len() && (a <= i <= b || b <= i <= a)
                ==> #[trigger] origins(doc, width)[i] >= doc.own,
    ensures
        lines_under(origins(doc, width), doc.own, a, b) is None,
{
    let from = if a <= b {
        a
    } else {
        b
    };
    if from < origins(doc, width).len() {
        assert(origins(doc, width)[from as int] >= doc.own);
    }
}

fn contains_zero(bytes: &[u8]) -> (yes: bool)
    ensures
        yes == bytes@.contains(0u8),
{
    let mut i: usize = 0;
    while i < bytes.len()
        invariant
            i <= bytes@.len(),
            forall|k: int| 0 <= k < i ==> bytes@[k] != 0,
        decreases bytes@.len() - i,
    {
        if bytes[i] == 0 {
            return true;
        }
        i += 1;
    }
    false
}

/// The rows depend on the lines, the gutter and the palette alone.
proof fn lemma_same_rows(a: DocView, b: DocView, width: nat)
    requires
        a.lines == b.lines,
        a.numbered == b.numbered,
        a.light == b.light,
    ensures
        rendered(a, width) == rendered(b, width),
        origins(a, width) == origins(b, width),
{
    lemma_same_rows_upto(
        a,
        b,
        content_width(a.lines.len(), a.numbered, width),
        lines_shown(a, width),
    );
}

proof fn lemma_same_rows_upto(a: DocView, b: DocView, content: nat, n: nat)
    requires
        a.lines == b.lines,
        a.numbered == b.numbered,
        a.light == b.light,
    ensures
        rows_upto(a, content, n) == rows_upto(b, content, n),
        origins_upto(a, content, n) == origins_upto(b, content, n),
    decreases n,
{
    if n > 0 {
        lemma_same_rows_upto(a, b, content, (n - 1) as nat);
        assert(rows_of_line(a, (n - 1) as nat, content) =~= rows_of_line(
            b,
            (n - 1) as nat,
            content,
        ));
    }
}

} // verus!
