//! Documents: what they say, and how they are laid out.
use grove::doc::{build_rows, Details, Doc, Found, Reading, TextFile, MAX_BYTES, MAX_LINES};
use grove::entry::Entry;
use grove::line::{Color, Line, Span, Style};
use grove::media::Kind;
use grove::wrap::wrap_line;

fn details() -> Details {
    Details { size: None, secs: None, codec: None, pages: None }
}

fn text_file(content: Result<Vec<u8>, String>, size: u64) -> Found {
    Found::Text(TextFile { size, content, highlighted: None })
}

fn says(doc: &Doc) -> Vec<String> {
    doc.lines.iter().map(Line::text).collect()
}

#[test]
fn long_lines_wrap_into_reachable_rows() {
    let lines = vec![Line::raw("aaaa bbbb cccc dddd")];
    let (rows, _) = build_rows(&lines, false, 10, false);
    assert!(rows.len() > 1);
    let joined: String = rows.iter().map(|r| r.text()).collect();
    assert_eq!(joined, "aaaa bbbb cccc dddd");
}

#[test]
fn continuation_rows_indent_under_the_gutter() {
    let lines = vec![Line::raw("aaaa bbbb cccc")];
    let (rows, _) = build_rows(&lines, true, 8, false);
    assert!(rows[0].text().starts_with("1 "));
    assert!(
        rows[1].text().starts_with("  "),
        "{:?}",
        rows[1].text()
    );
}

/// Three source lines where the middle one wraps into three rows, so
/// rendered rows and source lines deliberately disagree.
fn wrapped_doc() -> Doc {
    let lines = vec![
        Line::raw("one"),
        Line::raw("aaaa bbbb cccc"),
        Line::raw("three"),
    ];
    let mut doc = Doc::new(String::new(), String::new(), lines, true, false);
    doc.rows(8);
    doc
}

#[test]
fn every_rendered_row_maps_back_to_the_line_it_came_from() {
    let doc = wrapped_doc();
    assert_eq!(doc.row_count(), 5, "1 + 3 continuation rows + 1");
    assert_eq!(doc.row_lines, vec![0, 1, 1, 1, 2]);
}

#[test]
fn selecting_part_of_a_wrapped_line_takes_the_whole_line() {
    let doc = wrapped_doc();
    // Rows 2 and 3 are both the middle of line 2. A reference to "half of
    // line 2" is not something anyone can act on.
    let snippet = doc.snippet(2, 3).unwrap();
    assert_eq!(snippet.lines, Some((2, 2)));
    assert_eq!(snippet.text, "aaaa bbbb cccc");
}

#[test]
fn a_snippet_carries_the_source_text_not_the_rendering() {
    let doc = wrapped_doc();
    let snippet = doc.snippet(0, 4).unwrap();
    assert_eq!(snippet.lines, Some((1, 3)));
    // No gutter, and the wrapped line is whole again: what you paste is the
    // file, not a picture of it.
    assert_eq!(snippet.text, "one\naaaa bbbb cccc\nthree");
}

#[test]
fn a_backwards_drag_selects_the_same_lines() {
    let doc = wrapped_doc();
    assert_eq!(
        doc.snippet(4, 0).unwrap().text,
        doc.snippet(0, 4).unwrap().text
    );
}

#[test]
fn a_document_without_line_numbers_cites_none() {
    // A directory listing renders lines but they are not a file's lines,
    // so there is nothing honest to put after the colon.
    let lines = vec![Line::raw("src/"), Line::raw("main.rs")];
    let mut doc = Doc::new(String::new(), String::new(), lines, false, false);
    doc.rows(40);
    let snippet = doc.snippet(0, 1).unwrap();
    assert_eq!(snippet.lines, None);
    assert_eq!(snippet.text, "src/\nmain.rs");
}

#[test]
fn selecting_past_the_last_row_stops_at_the_end() {
    let doc = wrapped_doc();
    assert_eq!(doc.snippet(0, 99).unwrap().lines, Some((1, 3)));
    assert!(
        doc.snippet(99, 99).is_none(),
        "starting past the end selects nothing"
    );
    let empty = Doc::empty();
    assert!(
        empty.snippet(0, 0).is_none(),
        "and an empty document has nothing"
    );
}

#[test]
fn media_documents_leave_the_body_empty_for_the_picture() {
    let doc = Doc::media("/tmp/x.png", Kind::Image, details(), false);
    assert_eq!(doc.media, Some(Kind::Image));
    assert!(doc.lines.is_empty());
}

#[test]
fn the_kind_of_document_goes_by_the_path() {
    assert_eq!(Doc::reading("/w/a.png", true), Reading::Directory);
    assert_eq!(Doc::reading("/w/a.png", false), Reading::Media(Kind::Image));
    assert_eq!(Doc::reading("/w/a.mp3", false), Reading::Media(Kind::Audio));
    assert_eq!(Doc::reading("/w/a.rs", false), Reading::Text);
}

#[test]
fn a_media_caption_is_its_details_side_by_side() {
    let found = Details {
        size: Some(2048),
        secs: Some(75),
        codec: Some("h264\naac".into()),
        pages: None,
    };
    let doc = Doc::load("/w/clip.mkv", false, Found::Media(found), false);
    assert_eq!(doc.title, "clip.mkv");
    assert_eq!(doc.info, "video  ·  2.0 KB   duration  1:15   codec  h264, aac");
    assert_eq!(doc.media, Some(Kind::Video));
    assert!(!doc.numbered);
}

#[test]
fn a_directory_lists_folders_first_and_counts_both() {
    let entries = vec![
        Entry { name: "b.rs".into(), is_dir: false },
        Entry { name: "src".into(), is_dir: true },
        Entry { name: "a.rs".into(), is_dir: false },
    ];
    let doc = Doc::load("/w/grove", true, Found::Directory(entries), false);
    assert_eq!(doc.title, "grove");
    assert_eq!(doc.info, "1 folders   2 files");
    assert_eq!(says(&doc), vec!["src/", "a.rs", "b.rs"]);
    assert!(!doc.numbered && doc.media.is_none());
    let folder = Style { fg: Some(Color::Rgb(0xcc, 0xcc, 0xcc)), bg: None, bold: true };
    let file = Style { fg: Some(Color::Rgb(0x85, 0x8b, 0x98)), bg: None, bold: false };
    assert_eq!(doc.lines[0].spans, vec![Span::styled("src/".into(), folder)]);
    assert_eq!(doc.lines[1].spans, vec![Span::styled("a.rs".into(), file)]);
    assert_eq!(doc.lines[1].style, Style::plain());
    let none = Doc::directory("/", vec![], true);
    assert_eq!((none.title.as_str(), none.info.as_str()), ("/", "0 folders   0 files"));
    assert!(none.lines.is_empty());
}

#[test]
fn a_text_file_shows_its_lines_numbered() {
    let doc = Doc::load("/w/a.rs", false, text_file(Ok(b"one\r\ntwo\n\n".to_vec()), 10), false);
    assert_eq!(says(&doc), vec!["one", "two", ""]);
    assert_eq!((doc.title.as_str(), doc.info.as_str(), doc.numbered), ("a.rs", "10 B", true));
}

#[test]
fn an_unreadable_file_says_why() {
    let doc = Doc::load("/w/a.rs", false, text_file(Err("denied".into()), 0), false);
    assert_eq!(says(&doc), vec!["(unreadable: denied)"]);
    assert!(!doc.numbered);
}

#[test]
fn a_binary_file_says_how_big_it_is() {
    let doc = Doc::load("/w/a.bin", false, text_file(Ok(vec![65, 0, 66]), 4096), false);
    assert_eq!(says(&doc), vec!["(binary — 4.0 KB)"]);
    assert!(!doc.numbered);
    assert_eq!(Doc::readable(&vec![65, 0, 66]), None);
}

#[test]
fn an_empty_file_says_so() {
    let doc = Doc::load("/w/a.rs", false, text_file(Ok(vec![]), 0), true);
    assert_eq!(says(&doc), vec!["(empty file)"]);
    assert_eq!(doc.lines[0].style.fg, Some(Color::Rgb(0x6a, 0x6f, 0x78)));
    assert!(doc.numbered);
}

#[test]
fn long_files_are_cut_and_say_so() {
    let many = "x\n".repeat(MAX_LINES + 1);
    let doc = Doc::load("/w/a.rs", false, text_file(Ok(many.into_bytes()), 1), false);
    assert_eq!(doc.lines.len(), MAX_LINES + 1);
    assert_eq!(doc.lines[MAX_LINES].text(), "… truncated");
    let whole = "x\n".repeat(MAX_LINES);
    let doc = Doc::load("/w/a.rs", false, text_file(Ok(whole.into_bytes()), 1), false);
    assert_eq!(doc.lines.len(), MAX_LINES);
    let wide = vec![b'x'; MAX_BYTES + 1];
    let doc = Doc::load("/w/a.rs", false, text_file(Ok(wide.clone()), 1), false);
    assert_eq!(doc.lines.len(), 2);
    assert_eq!(doc.lines[0].text().len(), MAX_BYTES);
    assert_eq!(doc.lines[1].text(), "… truncated");
    assert_eq!(Doc::readable(&wide).unwrap().len(), MAX_BYTES);
}

#[test]
fn highlighted_lines_take_the_place_of_plain_ones() {
    let style = Style { fg: Some(Color::Rgb(1, 2, 3)), bg: None, bold: true };
    let highlighted = Some(vec![Line::of(vec![Span::styled("fn".into(), style)])]);
    let file = TextFile { size: 2, content: Ok(b"fn".to_vec()), highlighted };
    let doc = Doc::text("/w/a.rs", file, false);
    assert_eq!(doc.lines[0].spans[0].style, style);
}

#[test]
fn bytes_that_are_not_text_are_decoded_as_far_as_they_go() {
    let doc = Doc::load("/w/a.txt", false, text_file(Ok(vec![b'a', 0xff, b'b']), 3), false);
    assert_eq!(says(&doc), vec!["a\u{fffd}b"]);
    assert_eq!(Doc::readable(&"naïve".as_bytes().to_vec()).as_deref(), Some("naïve"));
}

#[test]
fn numbers_are_flush_right_and_dim() {
    let lines: Vec<Line> = (0..10).map(|_| Line::raw("x")).collect();
    let (rows, origins) = build_rows(&lines, true, 8, false);
    assert_eq!(rows[0].text(), " 1 x");
    assert_eq!(rows[9].text(), "10 x");
    assert_eq!(rows[0].spans[0].style.fg, Some(Color::Rgb(0x85, 0x8b, 0x98)));
    assert_eq!(origins, (0..10).collect::<Vec<usize>>());
    // No room for text beside the gutter: no rows at all.
    let (none, no_origins) = build_rows(&lines, true, 3, false);
    assert!(none.is_empty() && no_origins.is_empty());
    let (some, _) = build_rows(&lines, true, 4, false);
    assert_eq!(some.len(), 10);
}

#[test]
fn tabs_become_spaces_even_where_they_fit() {
    let (rows, _) = build_rows(&vec![Line::raw("\tx")], false, 40, false);
    assert_eq!(rows[0].text(), "    x");
}

#[test]
fn wrapping_counts_columns_and_keeps_styles() {
    let red = Style::colored(Color::Rgb(255, 0, 0));
    let line = Line::of(vec![
        Span::styled("日本".into(), red),
        Span::raw("ab".into()),
    ]);
    let rows = wrap_line(&line, 3);
    let texts: Vec<String> = rows.iter().map(Line::text).collect();
    // Each of the first two takes two columns, so only one fits in three.
    assert_eq!(texts, vec!["日", "本a", "b"]);
    assert_eq!(rows[1].spans, vec![Span::styled("本".into(), red), Span::raw("a".into())]);
    // A character wider than everything still gets a row.
    assert_eq!(wrap_line(&line, 1).len(), 4);
    assert_eq!(wrap_line(&Line::raw(""), 5).len(), 1);
    // Marks that take no room stay with the letter they belong to.
    let marked = wrap_line(&Line::raw("ae\u{301}b"), 2);
    assert_eq!(marked[0].text(), "ae\u{301}");
}

#[test]
fn a_document_is_laid_out_anew_only_when_its_width_moves() {
    let mut doc = wrapped_doc();
    doc.scroll = 4;
    doc.rows(8);
    assert_eq!(doc.scroll, 4);
    assert_eq!(doc.rows(80).len(), 3);
    assert_eq!(doc.scroll, 2, "held to the last row there is");
}

#[test]
fn scrolling_stops_at_both_ends() {
    let mut doc = wrapped_doc();
    doc.scroll_by(3);
    assert_eq!(doc.scroll, 3);
    doc.scroll_by(isize::MAX);
    assert_eq!(doc.scroll, 4);
    doc.scroll_by(-1);
    assert_eq!(doc.scroll, 3);
    doc.scroll_by(isize::MIN);
    assert_eq!(doc.scroll, 0);
    let mut empty = Doc::empty();
    empty.scroll_by(5);
    assert_eq!(empty.scroll, 0);
}

#[test]
fn selecting_everything_takes_every_line() {
    let doc = wrapped_doc();
    let last = doc.row_count() - 1;
    assert_eq!(doc.snippet(0, last).unwrap().lines, Some((1, 3)));
}

#[test]
fn what_is_said_of_a_file_is_no_part_of_a_snippet() {
    // Nothing of an empty, unreadable or binary file can be selected.
    for content in [Ok(vec![]), Err("denied".to_string()), Ok(vec![65, 0, 66])] {
        let mut doc = Doc::load("/w/a.rs", false, text_file(content, 3), false);
        doc.rows(80);
        assert_eq!((doc.row_count(), doc.own), (1, 0));
        assert_eq!(doc.snippet(0, 0), None);
        assert_eq!(doc.snippet(0, 9), None);
    }
    // A selection that runs into the last word stops at the last line.
    let many = "x\n".repeat(MAX_LINES) + "y";
    let mut doc = Doc::load("/w/a.rs", false, text_file(Ok(many.into_bytes()), 1), false);
    doc.rows(80);
    assert_eq!((doc.row_count(), doc.own), (MAX_LINES + 1, MAX_LINES));
    let end = doc.snippet(MAX_LINES - 2, MAX_LINES).unwrap();
    assert_eq!(end.lines, Some((MAX_LINES - 1, MAX_LINES)));
    assert_eq!(end.text, "x\nx");
    assert_eq!(doc.snippet(MAX_LINES, MAX_LINES - 2), Some(end));
    assert_eq!(doc.snippet(MAX_LINES, MAX_LINES), None);
    // A listing is all its own.
    let entries = vec![Entry { name: "a.rs".into(), is_dir: false }];
    let mut doc = Doc::directory("/w", entries, false);
    doc.rows(80);
    assert_eq!(doc.snippet(0, 0).unwrap().text, "a.rs");
}

#[test]
fn nothing_past_the_head_of_a_file_is_shown() {
    let mut text = vec![b'x'; MAX_BYTES];
    text[9] = b'\n';
    let mut binary = text.clone();
    text.extend_from_slice(b"yz");
    binary.extend_from_slice(&[0, 7]);
    for bytes in [text, binary] {
        assert_eq!(Doc::readable(&bytes).unwrap().len(), MAX_BYTES);
        let doc = Doc::load("/w/a.rs", false, text_file(Ok(bytes), 1), false);
        assert_eq!((doc.lines.len(), doc.own, doc.numbered), (3, 2, true));
        assert_eq!(doc.lines[0].text(), "x".repeat(9));
        assert_eq!(doc.lines[1].text().len(), MAX_BYTES - 10);
        assert_eq!(doc.lines[2].text(), "… truncated");
    }
    // One inside it still counts.
    let mut bytes = vec![b'x'; MAX_BYTES + 1];
    bytes[MAX_BYTES - 1] = 0;
    assert_eq!(Doc::readable(&bytes), None);
}

#[test]
fn lines_of_text_over_a_style() {
    let line = Line::styled("a\nb", Style::colored(Color::Rgb(1, 2, 3)));
    assert_eq!(line.spans.len(), 2);
    assert_eq!(line.spans[0].style, Style::plain());
    assert_eq!(line.text(), "ab");
    assert!(Line::raw("").spans.is_empty());
    assert_eq!(Line::raw("abc").spare(5), Some(2));
    assert_eq!(Line::raw("日本").spare(3), None);
}

#[test]
fn lines_read_the_way_ratatui_writes_them() {
    for text in ["", "one", "one\ntwo", "one\r\ntwo\n", "a\rb", "\n\n", "naïve 日本 e\u{301}"] {
        let ours = Line::raw(text);
        let theirs = ratatui::text::Line::raw(text);
        assert_eq!(ours.text(), theirs.to_string(), "{text:?}");
        assert_eq!(ours.spans.len(), theirs.spans.len(), "{text:?}");
        assert_eq!(ours.spare(100), Some(100 - theirs.width()), "{text:?}");
        let span = ratatui::text::Span::raw(text);
        assert_eq!(Line::of(vec![Span::raw(text.into())]).text(), span.to_string(), "{text:?}");
    }
}
