//! The pane: the cursor, the picture and the frame.
use grove::doc::{Details, Doc, Found, Reading, TextFile};
use grove::entry::Entry;
use grove::line::{Color, Line, Style};
use grove::media::{Kind, Thumb};
use grove::pane::{picture_action, App, Event, Key, Mouse, Next, Picture, Wanted};
use grove::rect::{centre, row_at, Rect};
use grove::screen::{tree_line, Icon};
use grove::theme;
use grove::tree::Row;

const BODY: Rect = Rect { x: 0, y: 1, width: 20, height: 5 };
const PANE: Rect = Rect { x: 20, y: 1, width: 40, height: 20 };

#[test]
fn clicks_map_to_the_row_under_the_pointer() {
    assert_eq!(row_at(BODY, 0, 10, 3, 1), Some(0));
    assert_eq!(row_at(BODY, 0, 10, 3, 5), Some(4));
    // Scrolled: the same cell is a different row.
    assert_eq!(row_at(BODY, 7, 20, 3, 1), Some(7));
}

#[test]
fn clicks_outside_the_tree_or_past_the_last_row_select_nothing() {
    assert_eq!(row_at(BODY, 0, 10, 25, 2), None, "in the preview half");
    assert_eq!(row_at(BODY, 0, 10, 3, 0), None, "on the header");
    assert_eq!(row_at(BODY, 0, 10, 3, 9), None, "below the body");
    assert_eq!(row_at(BODY, 0, 2, 3, 4), None, "past the last row");
}

/// Arrowing from one image straight to another must not publish the first image
/// under the second one's name.
#[test]
fn a_stale_preview_never_publishes_the_previous_picture() {
    let old = "/pics/badge.png";
    let new = "/pics/gradient.png";
    // Cursor has moved to `new`; the loaded thumbnail is still `old`.
    assert_eq!(
        picture_action(true, Some((old, (13, 6))), PANE, Some((old, centre(PANE, (13, 6))))),
        Picture::Leave,
    );
    // Once the load catches up, the new picture goes up on its own rectangle.
    let action = picture_action(false, Some((new, (40, 12))), PANE, Some((old, centre(PANE, (13, 6)))));
    assert_eq!(action, Picture::Show(centre(PANE, (40, 12))));
}

#[test]
fn an_unchanged_picture_is_not_resent() {
    let path = "/pics/badge.png";
    let rect = centre(PANE, (13, 6));
    assert_eq!(picture_action(false, Some((path, (13, 6))), PANE, Some((path, rect))), Picture::Leave);
}

#[test]
fn a_moved_rectangle_republishes_the_same_picture() {
    let path = "/pics/badge.png";
    let stale_rect = Rect { x: 99, y: 99, width: 1, height: 1 };
    assert_eq!(
        picture_action(false, Some((path, (13, 6))), PANE, Some((path, stale_rect))),
        Picture::Show(centre(PANE, (13, 6))),
    );
}

#[test]
fn moving_onto_a_text_file_takes_the_picture_down() {
    let path = "/pics/badge.png";
    assert_eq!(picture_action(false, None, PANE, Some((path, centre(PANE, (13, 6))))), Picture::Hide);
    assert_eq!(picture_action(false, None, PANE, None), Picture::Leave);
}

#[test]
fn a_picture_is_centred_without_ever_leaving_the_body() {
    let body = Rect { x: 10, y: 2, width: 40, height: 20 };
    let placed = centre(body, (40, 12));
    assert_eq!(placed, Rect { x: 10, y: 6, width: 40, height: 12 });
    // A picture that would overflow is clipped to the body, not pushed out.
    let big = centre(body, (60, 30));
    assert!(big.x >= body.x && big.y >= body.y);
    assert!(big.width <= body.width && big.height <= body.height);
}

#[test]
fn the_far_edge_of_the_screen_is_not_wrapped_around() {
    let edge = Rect { x: 65000, y: 0, width: 1000, height: 5 };
    assert_eq!(row_at(edge, 0, 9, 65534, 2), Some(2));
    assert_eq!(row_at(edge, 0, 9, 65535, 2), None);
    assert_eq!(row_at(BODY, usize::MAX, usize::MAX, 3, 4), None);
}

// ---------------------------------------------------------------------------
// The cursor and the tree
// ---------------------------------------------------------------------------

/// `/w` with two folders in it, the first of them with two files.
fn listing(dir: &str) -> Vec<Entry> {
    let made: &[(&str, bool)] = match dir {
        "/w" => &[("a", true), ("b", true), ("c.png", false), ("d.txt", false)],
        "/w/a" => &[("x", false), ("y", false)],
        _ => &[],
    };
    made.iter().map(|(name, is_dir)| Entry { name: name.to_string(), is_dir: *is_dir }).collect()
}

fn rebuild(app: &mut App) {
    while let Some(dir) = app.tree.wanted() {
        let entries = listing(&dir);
        app.tree.supply(&dir, None, entries);
    }
    app.rebuild();
}

fn act(app: &mut App, event: Event) {
    if app.handle(event) {
        rebuild(app);
    }
}

fn press(app: &mut App, key: Key) {
    act(app, Event::Press(key, false));
}

fn app() -> App {
    let mut app = App::new("/w".into(), Some((16, 34)), false);
    rebuild(&mut app);
    app
}

fn names(app: &App) -> Vec<&str> {
    app.rows.iter().map(|r| r.name.as_str()).collect()
}

#[test]
fn a_new_pane_is_on_its_first_row_and_stale() {
    let app = app();
    assert_eq!(names(&app), ["a", "b", "c.png", "d.txt"]);
    assert_eq!(app.current().unwrap().name, "a");
    assert!(app.stale && app.follow && !app.quit);
    let empty = App::new("/nowhere".into(), None, false);
    assert!(empty.current().is_none());
}

#[test]
fn the_arrows_move_within_the_rows() {
    let mut app = app();
    press(&mut app, Key::Up);
    assert_eq!(app.selected, 0);
    press(&mut app, Key::Down);
    press(&mut app, Key::Down);
    assert_eq!(app.selected, 2);
    app.move_by(isize::MAX);
    assert_eq!(app.selected, 3);
    app.move_by(isize::MIN);
    assert_eq!(app.selected, 0);
    let mut empty = App::new("/nowhere".into(), None, false);
    empty.stale = false;
    empty.move_by(1);
    assert!(!empty.stale, "nothing to move over");
}

#[test]
fn right_expands_and_left_folds_or_steps_out() {
    let mut app = app();
    press(&mut app, Key::Right);
    assert_eq!(names(&app), ["a", "x", "y", "b", "c.png", "d.txt"]);
    press(&mut app, Key::Right);
    assert_eq!(app.rows.len(), 6, "already expanded");
    app.move_by(2);
    assert_eq!(app.current().unwrap().name, "y");
    press(&mut app, Key::Left);
    assert_eq!(app.current().unwrap().name, "a", "out to the parent");
    press(&mut app, Key::Left);
    assert_eq!(names(&app), ["a", "b", "c.png", "d.txt"]);
    press(&mut app, Key::Left);
    assert_eq!(app.selected, 0, "there is nowhere further out");
    app.move_by(2);
    app.stale = false;
    press(&mut app, Key::Right);
    assert!(!app.stale && app.selected == 2, "a file does not expand");
}

#[test]
fn the_cursor_stays_on_its_path_when_rows_come_and_go() {
    let mut app = app();
    app.move_by(3);
    assert_eq!(app.current().unwrap().name, "d.txt");
    app.tree.expand("/w/a");
    rebuild(&mut app);
    assert_eq!((app.current().unwrap().name.as_str(), app.selected), ("d.txt", 5));
    // Folding takes the row under the cursor away: the index is kept as far as
    // there are rows.
    app.selected = 1;
    app.tree.collapse("/w/a");
    rebuild(&mut app);
    assert_eq!((app.current().unwrap().name.as_str(), app.selected), ("b", 1));
}

#[test]
fn enter_toggles_a_folder_and_reads_a_file_again() {
    let mut app = app();
    press(&mut app, Key::Enter);
    assert_eq!(app.rows.len(), 6);
    press(&mut app, Key::Enter);
    assert_eq!(app.rows.len(), 4);
    app.move_by(3);
    app.stale = false;
    assert!(app.handle(Event::Press(Key::Enter, false)), "the listings are dropped");
    assert_eq!(app.tree.watched_dirs(), 0);
    assert!(app.stale);
    rebuild(&mut app);
    assert_eq!(app.current().unwrap().name, "d.txt");
    let mut empty = App::new("/nowhere".into(), None, false);
    assert!(!empty.enter() && !empty.expand() && !empty.collapse());
}

#[test]
fn only_control_c_quits() {
    let mut app = app();
    press(&mut app, Key::Char('c'));
    press(&mut app, Key::Char('q'));
    act(&mut app, Event::Press(Key::Char('C'), true));
    act(&mut app, Event::Other);
    assert!(!app.quit);
    act(&mut app, Event::Press(Key::Char('c'), true));
    assert!(app.quit);
    assert_eq!(app.next(false), Next::Quit);
}

#[test]
fn a_click_selects_a_row_and_folds_a_folder() {
    let mut app = app();
    app.draw(Rect { x: 0, y: 0, width: 80, height: 24 });
    assert_eq!(app.tree_body, Rect { x: 0, y: 1, width: 26, height: 23 });
    act(&mut app, Event::Mouse(Mouse::LeftDown, 3, 4));
    assert_eq!((app.selected, app.rows.len()), (3, 4));
    act(&mut app, Event::Mouse(Mouse::LeftDown, 3, 1));
    assert_eq!((app.selected, app.rows.len()), (0, 6));
    act(&mut app, Event::Mouse(Mouse::LeftDown, 60, 5));
    act(&mut app, Event::Mouse(Mouse::LeftDown, 3, 20));
    act(&mut app, Event::Mouse(Mouse::Other, 3, 2));
    assert_eq!(app.selected, 0, "nothing there to activate");
}

#[test]
fn the_wheel_scrolls_the_half_it_is_over() {
    let mut app = app();
    app.draw(Rect { x: 0, y: 0, width: 80, height: 4 });
    let lines = (0..30).map(|_| Line::raw("x")).collect();
    app.doc = Doc::new("t".into(), String::new(), lines, false, false);
    app.draw(Rect { x: 0, y: 0, width: 80, height: 4 });
    act(&mut app, Event::Mouse(Mouse::ScrollDown, 70, 2));
    assert_eq!((app.doc.scroll, app.offset, app.follow), (3, 0, true));
    act(&mut app, Event::Mouse(Mouse::ScrollUp, 70, 2));
    assert_eq!(app.doc.scroll, 0);
    act(&mut app, Event::Mouse(Mouse::ScrollDown, 3, 2));
    assert_eq!((app.offset, app.selected, app.follow), (3, 0, false));
    // Drawing holds the offset to the rows there are, and leaves the cursor.
    let screen = app.draw(Rect { x: 0, y: 0, width: 80, height: 4 });
    let half = screen.tree.unwrap();
    assert_eq!((half.first, half.last, app.offset, app.selected), (1, 4, 1, 0));
    // The arrows bring the viewport back to the cursor.
    press(&mut app, Key::Down);
    press(&mut app, Key::Up);
    let half = app.draw(Rect { x: 0, y: 0, width: 80, height: 4 }).tree.unwrap();
    assert_eq!((half.first, half.last), (0, 3));
}

#[test]
fn the_root_never_moves() {
    let mut app = app();
    for key in [Key::Right, Key::Down, Key::Enter, Key::Left, Key::Up, Key::Other] {
        press(&mut app, key);
        assert_eq!(app.tree.root_path(), "/w");
    }
}

#[test]
fn the_preview_follows_the_cursor() {
    let mut app = app();
    app.begin_load();
    assert!(!app.stale);
    // Nothing moved, so there is nothing to load.
    press(&mut app, Key::Right);
    assert_eq!((app.selected, app.stale), (0, false));
    press(&mut app, Key::Down);
    assert_eq!((app.selected, app.stale), (1, true));
    // Scrolling away does not take it back.
    act(&mut app, Event::Mouse(Mouse::ScrollDown, 0, 3));
    assert!(app.stale);
    assert_eq!(app.begin_load(), Some(("/w/a/x".to_string(), false)));
}

#[test]
fn loading_waits_for_the_keys_to_settle() {
    let mut app = app();
    assert_eq!(app.next(true), Next::Wait);
    assert_eq!(app.next(false), Next::Load);
    app.stale = false;
    assert_eq!(app.next(false), Next::Wait);
}

// ---------------------------------------------------------------------------
// Loading
// ---------------------------------------------------------------------------

fn thumb(cells: (u16, u16)) -> Thumb {
    Thumb { png: vec![1, 2, 3], size: (32, 34), cells, source: (640, 400) }
}

fn image_details() -> Found {
    Found::Media(Details { size: Some(2048), secs: None, codec: None, pages: None })
}

#[test]
fn a_text_file_loads_in_one_step() {
    let mut app = app();
    app.move_by(3);
    let (path, is_dir) = app.begin_load().unwrap();
    assert_eq!((path.as_str(), is_dir), ("/w/d.txt", false));
    assert!(!app.stale);
    assert_eq!(Doc::reading(&path, is_dir), Reading::Text);
    let found = Found::Text(TextFile { size: 3, content: Ok(b"hey".to_vec()), highlighted: None });
    assert_eq!(app.finish_load(&path, is_dir, found), None);
    assert_eq!(app.doc.title, "d.txt");
    assert_eq!(app.doc.lines[0].text(), "hey");
}

#[test]
fn a_picture_waits_for_the_body_to_be_drawn() {
    let mut app = app();
    app.move_by(2);
    let (path, is_dir) = app.begin_load().unwrap();
    assert_eq!(app.finish_load(&path, is_dir, image_details()), None);
    assert!(app.stale, "not drawn yet, so it has to be loaded again");
    app.draw(Rect { x: 0, y: 0, width: 80, height: 24 });
    let (path, is_dir) = app.begin_load().unwrap();
    assert_eq!(
        app.finish_load(&path, is_dir, image_details()),
        Some(Wanted { kind: Kind::Image, max_cells: (52, 23), cell: (16, 34) })
    );
    assert!(!app.stale && app.trouble.is_none());
    app.picture_loaded(path.clone(), Ok(thumb((13, 6))));
    assert_eq!(app.doc.info, "640 × 400   image  ·  2.0 KB");
    assert_eq!(app.thumb_body, app.body);
    app.picture_loaded(path, Err("decode failed: x".into()));
    assert_eq!(app.trouble.as_deref(), Some("decode failed: x"));
}

#[test]
fn without_a_graphics_layer_there_is_a_card_instead() {
    let mut app = App::new("/w".into(), None, false);
    rebuild(&mut app);
    app.draw(Rect { x: 0, y: 0, width: 80, height: 24 });
    app.move_by(2);
    let (path, is_dir) = app.begin_load().unwrap();
    assert_eq!(app.finish_load(&path, is_dir, image_details()), None);
    assert_eq!(
        app.trouble.as_deref(),
        Some("no picture outside herdr — run grove in a herdr pane")
    );
    let half = app.draw(Rect { x: 0, y: 0, width: 80, height: 24 }).preview.unwrap();
    assert_eq!(half.lines.len(), 1);
    assert_eq!(half.lines[0].text(), "(no picture outside herdr — run grove in a herdr pane)");
    assert_eq!(app.sync_picture(), Picture::Leave);
}

#[test]
fn with_no_rows_there_is_nothing_to_show() {
    let mut app = App::new("/nowhere".into(), None, false);
    app.doc = Doc::new("t".into(), "i".into(), vec![], false, false);
    assert_eq!(app.begin_load(), None);
    assert_eq!((app.doc.title.as_str(), app.doc.info.as_str()), ("", ""));
    assert!(!app.stale);
}

#[test]
fn a_frame_publishes_a_picture_once() {
    let mut app = app();
    app.body = PANE;
    app.stale = false;
    app.picture_loaded("/w/c.png".into(), Ok(thumb((13, 6))));
    let rect = centre(PANE, (13, 6));
    assert_eq!(app.sync_picture(), Picture::Show(rect));
    assert_eq!(app.placed, Some(("/w/c.png".to_string(), rect)));
    assert_eq!(app.sync_picture(), Picture::Leave);
    // A resize has the picture rebuilt rather than rescaled.
    app.body = Rect { x: 20, y: 1, width: 30, height: 20 };
    assert_eq!(app.sync_picture(), Picture::Leave);
    assert!(app.stale);
    // Loading something without a picture takes it down, once.
    app.begin_load();
    assert_eq!(app.sync_picture(), Picture::Hide);
    assert_eq!(app.placed, None);
    assert_eq!(app.sync_picture(), Picture::Leave);
}

// ---------------------------------------------------------------------------
// Frames
// ---------------------------------------------------------------------------

fn row(depth: usize, is_dir: bool, expanded: bool) -> Row {
    Row { path: "/w/n".into(), name: "n".into(), is_dir, depth, expanded }
}

fn icon() -> Icon {
    Icon { glyph: "*".into(), rgb: Some((1, 2, 3)) }
}

#[test]
fn a_row_is_indent_chevron_icon_name() {
    let line = tree_line(&row(0, false, false), &icon(), false, 20, false);
    assert_eq!(line.text(), "   * n");
    assert_eq!(line.style, Style::plain());
    assert_eq!(line.spans[2].style, Style::colored(Color::Rgb(1, 2, 3)));
    assert_eq!(line.spans[3].style, Style::colored(theme::chrome(false)));
    assert_eq!(tree_line(&row(2, true, true), &icon(), false, 20, false).text(), "     ▾ * n");
    assert_eq!(tree_line(&row(1, true, false), &icon(), false, 20, false).text(), "   ▸ * n");
    let bare = Icon { glyph: "*".into(), rgb: None };
    assert_eq!(tree_line(&row(0, true, false), &bare, false, 20, false).spans[2].style, Style::plain());
}

#[test]
fn the_selected_row_fills_the_width() {
    let line = tree_line(&row(0, false, false), &icon(), true, 20, true);
    assert_eq!(line.spare(20), Some(0));
    assert_eq!(line.spans.len(), 5);
    assert_eq!(line.style, Style { fg: None, bg: Some(theme::selection_bg(true)), bold: false });
    // One that is too long already is left as it is.
    let line = tree_line(&row(0, false, false), &icon(), true, 3, true);
    assert_eq!(line.spans.len(), 4);
}

#[test]
fn the_tree_takes_a_third_within_bounds() {
    for (width, expected) in
        [(200, 46), (120, 40), (80, 26), (60, 20), (48, 16), (40, 16), (30, 6), (25, 1), (10, 1), (2, 1)]
    {
        let mut app = app();
        let screen = app.draw(Rect { x: 5, y: 2, width, height: 10 });
        let tree = screen.tree.unwrap();
        assert_eq!(tree.body, Rect { x: 5, y: 3, width: expected, height: 9 }, "{width}");
        assert_eq!(screen.rule, Rect { x: 5 + expected, y: 2, width: 1, height: 10 }, "{width}");
        assert_eq!(screen.rule_lines.len(), 10);
        assert_eq!(screen.rule_lines[0].text(), "│");
        assert_eq!(screen.rule_style, Style::colored(theme::rule(false)));
        if width > expected + 1 {
            let left = width - expected - 1;
            assert_eq!(
                screen.preview.unwrap().body,
                Rect { x: 5 + expected + 2, y: 3, width: left - 1, height: 9 },
                "{width}"
            );
        } else {
            assert!(screen.preview.is_none());
        }
    }
}

#[test]
fn columns_are_cut_at_every_size() {
    for x in [0u16, 7, 1000] {
        for width in 0..260u16 {
            let mut app = app();
            let screen = app.draw(Rect { x, y: 4, width, height: 3 });
            assert_eq!((screen.rule.y, screen.rule.height), (4, 3), "{x} {width}");
            if width >= 2 {
                let tree = screen.tree.unwrap().body;
                assert_eq!(tree.x, x);
                assert_eq!(screen.rule.x, x + tree.width, "{x} {width}");
                assert_eq!(screen.rule.width, 1, "{x} {width}");
            }
        }
    }
}

#[test]
fn nothing_is_drawn_where_there_is_no_room() {
    let mut app = app();
    let screen = app.draw(Rect { x: 0, y: 0, width: 80, height: 0 });
    assert!(screen.tree.is_none() && screen.preview.is_none() && screen.rule_lines.is_empty());
    let half = app.draw(Rect { x: 0, y: 0, width: 80, height: 1 }).tree.unwrap();
    assert_eq!((half.first, half.last, half.body.height), (0, 0, 0));
}

#[test]
fn the_header_names_the_root_and_the_document() {
    let mut app = app();
    let screen = app.draw(Rect { x: 0, y: 0, width: 80, height: 5 });
    assert_eq!(screen.tree.unwrap().header.text(), " w");
    assert_eq!(screen.preview.unwrap().header.text(), " ");
    app.doc = Doc::new("d.txt".into(), "3 B".into(), vec![], false, false);
    let header = app.draw(Rect { x: 0, y: 0, width: 80, height: 5 }).preview.unwrap().header;
    assert_eq!(header.text(), " d.txt   3 B");
    assert!(header.spans[0].style.bold && !header.spans[1].style.bold);
}

#[test]
fn the_cursor_is_kept_on_screen() {
    let mut app = app();
    press(&mut app, Key::Right);
    for selected in [5usize, 0, 3, 4, 1] {
        app.selected = selected;
        app.follow = true;
        let half = app.draw(Rect { x: 0, y: 0, width: 80, height: 3 }).tree.unwrap();
        assert!(half.first <= selected && selected < half.last, "{selected}");
        assert_eq!(half.last - half.first, 2);
    }
    let half = app.draw(Rect { x: 0, y: 0, width: 80, height: 5 }).tree.unwrap();
    let icons: Vec<Icon> = (half.first..half.last).map(|_| icon()).collect();
    let lines = app.tree_lines(&half, &icons);
    assert_eq!(lines.len(), half.last - half.first);
    assert_eq!(lines[app.selected - half.first].style.bg, Some(theme::selection_bg(false)));
    assert_eq!(lines.iter().filter(|l| l.style.bg.is_some()).count(), 1);
}

#[test]
fn the_preview_shows_the_rows_from_where_it_is_scrolled_to() {
    let mut app = app();
    let lines = (0..30).map(|i| Line::raw(&format!("line {i}"))).collect();
    app.doc = Doc::new("t".into(), String::new(), lines, false, false);
    app.doc.scroll = 27;
    let area = Rect { x: 0, y: 0, width: 80, height: 6 };
    let texts = |app: &mut App| -> Vec<String> {
        app.draw(area).preview.unwrap().lines.iter().map(Line::text).collect()
    };
    assert_eq!(texts(&mut app), ["line 27", "line 28", "line 29"]);
    app.doc.scroll_by(-7);
    assert_eq!(texts(&mut app), ["line 20", "line 21", "line 22", "line 23", "line 24"]);
    // A picture's cells stay empty.
    app.doc.media = Some(Kind::Image);
    assert!(texts(&mut app).is_empty());
}

#[test]
fn drawing_keeps_the_preview_where_it_was_scrolled_to() {
    let mut app = app();
    app.doc = Doc::new(
        String::new(),
        String::new(),
        (0..40).map(|n| Line::raw(&format!("line {n}"))).collect(),
        false,
        false,
    );
    let area = Rect { x: 0, y: 0, width: 90, height: 12 };
    app.draw(area);
    act(&mut app, Event::Mouse(Mouse::ScrollDown, 80, 3));
    assert_eq!(app.doc.scroll, 3);
    for _ in 0..2 {
        app.draw(area);
        assert_eq!(app.doc.scroll, 3);
    }
    act(&mut app, Event::Mouse(Mouse::ScrollDown, 80, 3));
    assert_eq!(app.doc.scroll, 6);
    // Too narrow for any text, there are no rows left to be at.
    app.draw_preview(Rect { x: 0, y: 0, width: 1, height: 12 });
    assert_eq!((app.doc.scroll, app.doc.row_count()), (0, 0));
}

#[test]
fn the_palette_flips_with_the_theme() {
    assert!(theme::is_light(&Some("LIGHT".into())) && theme::is_light(&Some("light".into())));
    assert!(!theme::is_light(&Some("lights".into())) && !theme::is_light(&None));
    assert_eq!(theme::selection_bg(true), Color::Rgb(0xd6, 0xe4, 0xff));
    assert_eq!(theme::selection_bg(false), Color::Rgb(0x09, 0x47, 0x71));
    assert_eq!(theme::dim(true), Color::Rgb(0x6a, 0x6f, 0x78));
    assert_eq!(theme::dim(false), Color::Rgb(0x85, 0x8b, 0x98));
    assert_eq!(theme::chrome(true), Color::Rgb(0x33, 0x37, 0x3d));
    assert_eq!(theme::chrome(false), Color::Rgb(0xcc, 0xcc, 0xcc));
    assert_eq!(theme::rule(true), Color::Rgb(0xc8, 0xcc, 0xd2));
    assert_eq!(theme::rule(false), Color::Rgb(0x3a, 0x3f, 0x4b));
}
