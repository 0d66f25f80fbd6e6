//! Kinds, captions, fitting and thumbnails.
use grove::media::{
    classify, clock, compose, decode_bytes, details, first_line_of, fit, human_size, input_of,
    kind_label, kind_of, pdf_page, pdf_pages, preview, probe_answer, thumbnail,
    thumbnail_from_frame, video_frame, Attempt, Input, Kind, Thumb,
};
use grove::planes::has_planes_apart;

#[test]
fn extensions_classify() {
    assert_eq!(classify("a/b.PNG"), Kind::Image);
    assert_eq!(classify("clip.mkv"), Kind::Video);
    assert_eq!(classify("paper.pdf"), Kind::Pdf);
    assert_eq!(classify("main.rs"), Kind::Other);
    assert_eq!(classify("noext"), Kind::Other);
}

/// The canvas must have the same shape as the cell rectangle it is placed in,
/// or the picture is stretched to fill the pane.
#[test]
fn canvas_shape_matches_the_cell_rectangle_it_is_placed_in() {
    let cell = (16, 34);
    for source in [(640, 400), (400, 640), (3000, 200), (200, 3000), (1, 1)] {
        let cells = fit(source, (40, 20), cell);
        let canvas = (u32::from(cells.0) * cell.0, u32::from(cells.1) * cell.1);
        let placed = (u32::from(cells.0) * cell.0, u32::from(cells.1) * cell.1);
        assert_eq!(canvas, placed, "{source:?}");
        assert!(cells.0 <= 40 && cells.1 <= 20, "{source:?} overflowed the pane");
        assert!(cells.0 >= 1 && cells.1 >= 1, "{source:?} vanished");
    }
}

#[test]
fn wide_and_tall_pictures_use_the_axis_that_binds() {
    let cell = (16, 34);
    // 640x400 in a 40x20 cell box (640x680px): width binds, height is spare.
    assert_eq!(fit((640, 400), (40, 20), cell), (40, 12));
    // Taller than the box: height binds and the width comes in well under.
    let tall = fit((400, 2000), (40, 20), cell);
    assert_eq!(tall.1, 20);
    assert!(tall.0 < 40, "{tall:?}");
}

#[test]
fn small_pictures_are_never_blown_up() {
    let cell = (16, 34);
    let cells = fit((200, 200), (40, 20), cell);
    // 200x200 needs 13x6 cells; anything larger means it was upscaled.
    assert_eq!(cells, (13, 6));
}

#[test]
fn degenerate_inputs_do_not_panic() {
    assert_eq!(fit((0, 0), (40, 20), (16, 34)), (1, 1));
    assert_eq!(fit((640, 400), (0, 0), (16, 34)), (1, 1));
}

#[test]
fn sizes_read_like_a_file_manager() {
    assert_eq!(human_size(512), "512 B");
    assert_eq!(human_size(2048), "2.0 KB");
    assert_eq!(clock(3661), "1:01:01");
    assert_eq!(clock(75), "1:15");
}

/// The same sum in floating point.
fn float_size(bytes: u64) -> String {
    const UNITS: [&str; 5] = ["B", "KB", "MB", "GB", "TB"];
    let mut size = bytes as f64;
    let mut unit = 0;
    while size >= 1024.0 && unit < UNITS.len() - 1 {
        size /= 1024.0;
        unit += 1;
    }
    if unit == 0 { format!("{bytes} B") } else { format!("{size:.1} {}", UNITS[unit]) }
}

#[test]
fn sizes_round_the_way_doubles_do() {
    let mut sizes: Vec<u64> = vec![0, 1, 1023, 1024, 1025, 1075, 1076, 1126, 1177, 1228, 1229, u64::MAX];
    // Exact ties at one decimal, on either side of each power, and sizes that
    // no double holds exactly.
    for k in 0..64 {
        let p = 1u64 << k;
        for d in [0, 1, 2, 51, 52, 256, 768] {
            sizes.push(p.saturating_add(d));
            sizes.push(p.saturating_sub(d));
            sizes.push(p.saturating_mul(3).saturating_add(d));
        }
    }
    let mut seed = 0x2545_F491_4F6C_DD1Du64;
    for _ in 0..20_000 {
        seed ^= seed << 13;
        seed ^= seed >> 7;
        seed ^= seed << 17;
        sizes.push(seed >> (seed % 60));
    }
    for bytes in sizes {
        assert_eq!(human_size(bytes), float_size(bytes), "{bytes}");
    }
}

/// The same fit in floating point.
fn float_fit(source: (u32, u32), max_cells: (u16, u16), cell: (u32, u32)) -> (u16, u16) {
    if source.0 == 0 || source.1 == 0 || max_cells.0 == 0 || max_cells.1 == 0 {
        return (1, 1);
    }
    let max_px = (u32::from(max_cells.0) * cell.0, u32::from(max_cells.1) * cell.1);
    let scale = (f64::from(max_px.0) / f64::from(source.0))
        .min(f64::from(max_px.1) / f64::from(source.1))
        .min(1.0);
    let target = (
        ((f64::from(source.0) * scale).round() as u32).max(1),
        ((f64::from(source.1) * scale).round() as u32).max(1),
    );
    (
        (target.0.div_ceil(cell.0) as u16).clamp(1, max_cells.0),
        (target.1.div_ceil(cell.1) as u16).clamp(1, max_cells.1),
    )
}

#[test]
fn pictures_are_fitted_the_way_doubles_fit_them() {
    let mut seed = 0x9E37_79B9_7F4A_7C15u64;
    let mut roll = |bound: u64| {
        seed ^= seed << 13;
        seed ^= seed >> 7;
        seed ^= seed << 17;
        seed % bound
    };
    for i in 0..40_000u64 {
        let big = if i % 3 == 0 { 1 << 32 } else { 5000 };
        let source = (roll(big) as u32, roll(big) as u32);
        let max_cells = (roll(300) as u16, roll(100) as u16);
        let cell = (1 + roll(40) as u32, 1 + roll(60) as u32);
        assert_eq!(
            fit(source, max_cells, cell),
            float_fit(source, max_cells, cell),
            "{source:?} {max_cells:?} {cell:?}"
        );
    }
    // The largest there are.
    for source in [(u32::MAX, 1), (1, u32::MAX), (u32::MAX, u32::MAX)] {
        let (max_cells, cell) = ((u16::MAX, u16::MAX), (65537, 65537));
        assert_eq!(fit(source, max_cells, cell), float_fit(source, max_cells, cell));
    }
}

#[test]
fn every_extension_has_its_kind() {
    let lists: [(&[&str], Kind); 4] = [
        (
            &[
                "png", "jpg", "jpeg", "gif", "webp", "bmp", "tiff", "tif", "ico", "avif", "heic",
                "heif", "jxl", "ppm", "pgm",
            ],
            Kind::Image,
        ),
        (
            &[
                "mp4", "mov", "mkv", "webm", "avi", "m4v", "wmv", "flv", "mpg", "mpeg", "ts", "ogv",
            ],
            Kind::Video,
        ),
        (&["pdf"], Kind::Pdf),
        (&["mp3", "flac", "wav", "ogg", "m4a", "aac", "opus", "wma"], Kind::Audio),
    ];
    for (list, kind) in lists {
        for ext in list {
            assert_eq!(kind_of(ext), kind, "{ext}");
            assert_eq!(classify(&format!("/x.y/a.{}", ext.to_uppercase())), kind, "{ext}");
        }
    }
    assert_eq!(kind_of("PNG"), Kind::Other, "in lower case");
    assert_eq!(kind_of(""), Kind::Other);
    // A dotfile has no extension, and neither has a directory's dot.
    assert_eq!(classify(".png"), Kind::Other);
    assert_eq!(classify("a.png/b"), Kind::Other);
    assert_eq!(classify("a.b.png"), Kind::Image);
    // Lower case is Unicode's: the Kelvin sign becomes a plain k.
    assert_eq!(classify("clip.m\u{212a}v"), Kind::Video);
}

#[test]
fn a_file_goes_by_its_extension_alone() {
    for (p, q) in [("a.PNG", "/x/y.z/b.pnG"), ("A.MkV", "c.d.mkv"), ("n.ÉX", "m.Éx")] {
        assert_eq!(classify(p), classify(q), "{p} {q}");
    }
    // Case is folded outside ASCII too: that K is the Kelvin sign.
    assert_eq!(classify("clip.m\u{212a}v"), Kind::Video);
    for name in [".png", "png", "/x.png/y", "a.", "..", ".PNG/"] {
        assert_eq!(classify(name), Kind::Other, "{name}");
    }
}

#[test]
fn labels_and_inputs_go_by_kind() {
    let all = [Kind::Image, Kind::Video, Kind::Pdf, Kind::Audio, Kind::Other];
    let labels: Vec<&str> = all.iter().map(|k| kind_label(*k)).collect();
    assert_eq!(labels, ["image", "video", "pdf", "audio", "file"]);
    let inputs: Vec<Option<Input>> = all.iter().map(|k| input_of(*k)).collect();
    assert_eq!(
        inputs,
        [Some(Input::File), Some(Input::Frame), Some(Input::Page), None, None]
    );
}

#[test]
fn clocks_show_hours_only_when_there_are_any() {
    assert_eq!(clock(0), "0:00");
    assert_eq!(clock(59), "0:59");
    assert_eq!(clock(3599), "59:59");
    assert_eq!(clock(3600), "1:00:00");
    assert_eq!(clock(36_000 + 600 + 9), "10:10:09");
}

#[test]
fn details_say_what_is_known() {
    let codec = Some("h264\naac\nmov_text".to_string());
    let pages = Some("12".to_string());
    assert_eq!(
        details(Kind::Video, Some(2048), Some(75), &codec, &pages),
        vec!["video  ·  2.0 KB", "duration  1:15", "codec  h264, aac"]
    );
    assert_eq!(
        details(Kind::Pdf, Some(3), Some(75), &codec, &pages),
        vec!["pdf  ·  3 B", "pages  12"]
    );
    assert_eq!(details(Kind::Image, Some(3), Some(75), &codec, &pages), vec!["image  ·  3 B"]);
    assert_eq!(
        details(Kind::Audio, None, None, &Some("mp3".to_string()), &None),
        vec!["codec  mp3"]
    );
    assert!(details(Kind::Other, None, Some(1), &codec, &pages).is_empty());
}

#[test]
fn probes_answer_with_what_they_print() {
    assert_eq!(probe_answer("  12.5\n").as_deref(), Some("12.5"));
    assert_eq!(probe_answer(" \n\t"), None);
    assert_eq!(first_line_of("12.5\n13").as_deref(), Some("12.5"));
    assert_eq!(first_line_of(""), None);
    assert_eq!(
        pdf_pages("Title: Pages: 3\nPages:          7\nPages: 9\n").as_deref(),
        Some("7")
    );
    assert_eq!(pdf_pages("Title: x\n"), None);
    assert_eq!(video_frame(None), Err("ffmpeg not installed".to_string()));
    assert_eq!(video_frame(Some(vec![])), Err("no frame decoded".to_string()));
    assert_eq!(video_frame(Some(vec![7])), Ok(vec![7]));
    assert_eq!(pdf_page(None), Err("pdftoppm not installed (poppler-utils)".to_string()));
    assert_eq!(pdf_page(Some(vec![])), Err("no page rendered".to_string()));
    assert_eq!(pdf_page(Some(vec![7])), Ok(vec![7]));
}

// ---------------------------------------------------------------------------
// Thumbnails
// ---------------------------------------------------------------------------

fn flat(width: u32, height: u32, pixel: [u8; 4]) -> image::DynamicImage {
    image::DynamicImage::ImageRgba8(image::RgbaImage::from_pixel(width, height, image::Rgba(pixel)))
}

fn encode(picture: &image::DynamicImage, format: image::ImageFormat) -> Vec<u8> {
    let mut out = std::io::Cursor::new(Vec::new());
    picture.write_to(&mut out, format).unwrap();
    out.into_inner()
}

fn canvas(thumb: &Thumb) -> image::RgbaImage {
    image::load_from_memory(&thumb.png).unwrap().to_rgba8()
}

fn done(attempt: Attempt) -> Result<Thumb, String> {
    match attempt {
        Attempt::Done(out) => out,
        Attempt::TryFrame(why) => panic!("would try a frame: {why}"),
    }
}

const RED: [u8; 4] = [200, 10, 20, 255];

#[test]
fn a_small_picture_sits_in_the_middle_of_a_clear_canvas() {
    let thumb = compose(flat(10, 20, RED), (40, 20), (16, 34)).unwrap();
    assert_eq!(thumb.source, (10, 20));
    assert_eq!(thumb.cells, (1, 1));
    assert_eq!(thumb.size, (16, 34));
    let canvas = canvas(&thumb);
    assert_eq!(canvas.dimensions(), (16, 34));
    for (x, y, pixel) in canvas.enumerate_pixels() {
        let inside = (3..13).contains(&x) && (7..27).contains(&y);
        assert_eq!(pixel.0, if inside { RED } else { [0, 0, 0, 0] }, "{x},{y}");
    }
}

#[test]
fn a_large_picture_is_shrunk_and_keeps_its_shape() {
    let thumb = compose(flat(640, 100, RED), (4, 4), (16, 34)).unwrap();
    assert_eq!(thumb.source, (640, 100));
    assert_eq!(thumb.cells, (4, 1));
    assert_eq!(thumb.size, (64, 34));
    let canvas = canvas(&thumb);
    assert_eq!(canvas.dimensions(), (64, 34));
    // 640x100 in 64 columns is 64x10, centred in 34 rows.
    for (x, y, pixel) in canvas.enumerate_pixels() {
        let inside = (12..22).contains(&y);
        assert_eq!(pixel.0, if inside { RED } else { [0, 0, 0, 0] }, "{x},{y}");
    }
}

#[test]
fn deep_pictures_come_out_as_eight_bit_rgba() {
    let deep = image::DynamicImage::ImageLuma16(image::ImageBuffer::from_pixel(
        16,
        34,
        image::Luma([0x80ff]),
    ));
    let thumb = compose(deep, (1, 1), (16, 34)).unwrap();
    let canvas = canvas(&thumb);
    assert_eq!(canvas.get_pixel(0, 0).0[3], 255);
    assert_eq!(canvas.get_pixel(0, 0).0[0], canvas.get_pixel(15, 33).0[2]);
}

#[test]
fn an_empty_picture_is_a_clear_cell() {
    let thumb = compose(flat(0, 0, RED), (4, 4), (16, 34)).unwrap();
    assert_eq!((thumb.cells, thumb.size, thumb.source), ((1, 1), (16, 34), (0, 0)));
    assert!(canvas(&thumb).pixels().all(|p| p.0 == [0, 0, 0, 0]));
}

#[test]
fn images_are_decoded_from_the_file() {
    for format in [image::ImageFormat::Png, image::ImageFormat::Bmp, image::ImageFormat::Tiff] {
        let bytes = encode(&flat(10, 20, RED), format);
        let thumb = done(thumbnail("/x/a.png", Kind::Image, Ok(bytes), (40, 20), (16, 34))).unwrap();
        assert_eq!(thumb.source, (10, 20));
        assert_eq!(canvas(&thumb).get_pixel(8, 17).0, RED, "{format:?}");
    }
}

#[test]
fn what_cannot_be_decoded_asks_for_a_frame() {
    let bytes = vec![1, 2, 3];
    // Nothing known in the bytes, so the extension decides what was expected.
    let by_name = match thumbnail("/x/a.png", Kind::Image, Ok(bytes.clone()), (4, 4), (16, 34)) {
        Attempt::TryFrame(why) => why,
        Attempt::Done(_) => panic!("decoded"),
    };
    let unknown = match thumbnail("/x/a", Kind::Image, Ok(bytes), (4, 4), (16, 34)) {
        Attempt::TryFrame(why) => why,
        Attempt::Done(_) => panic!("decoded"),
    };
    assert_ne!(by_name, unknown);
    let unread = thumbnail("/x/a.png", Kind::Image, Err("gone".into()), (4, 4), (16, 34));
    assert!(matches!(unread, Attempt::TryFrame(why) if why == "gone"));
}

#[test]
fn a_frame_stands_in_for_a_file_that_would_not_decode() {
    let frame = encode(&flat(10, 20, RED), image::ImageFormat::Png);
    let thumb = thumbnail_from_frame("no".into(), Ok(frame), (40, 20), (16, 34)).unwrap();
    assert_eq!(thumb.source, (10, 20));
    assert_eq!(
        thumbnail_from_frame("no".into(), Err("ffmpeg not installed".into()), (4, 4), (16, 34)).err(),
        Some("no".to_string()),
        "without a frame, what stands is why the file itself would not do"
    );
    let bad = thumbnail_from_frame("no".into(), Ok(vec![9]), (4, 4), (16, 34)).err().unwrap();
    assert!(bad.starts_with("decode failed: "), "{bad}");
}

#[test]
fn videos_and_documents_go_by_what_was_rendered() {
    for kind in [Kind::Video, Kind::Pdf] {
        let bytes = encode(&flat(10, 20, RED), image::ImageFormat::Png);
        assert_eq!(done(thumbnail("/x/a", kind, Ok(bytes), (4, 4), (16, 34))).unwrap().source, (10, 20));
        assert_eq!(
            done(thumbnail("/x/a", kind, Err("no frame decoded".into()), (4, 4), (16, 34))).err(),
            Some("no frame decoded".to_string())
        );
        let bad = done(thumbnail("/x/a", kind, Ok(vec![9]), (4, 4), (16, 34))).err().unwrap();
        assert!(bad.starts_with("decode failed: "), "{bad}");
    }
    let said = image::load_from_memory(&[9]).err().unwrap().to_string();
    assert_eq!(
        decode_bytes(&vec![9], (4, 4), (16, 34)).err(),
        Some(format!("decode failed: {said}"))
    );
}

/// A TIFF of two pixels by one with eight bits to a sample, and `planar` under the
/// tag that says where they are, as a value of the type `kind`.
fn tiff(little: bool, big: bool, samples: u64, planar: u64, kind: u64) -> Vec<u8> {
    let write = |out: &mut Vec<u8>, n: u64, width: usize| {
        let bytes = n.to_le_bytes();
        if little {
            out.extend_from_slice(&bytes[..width]);
        } else {
            out.extend(bytes[..width].iter().rev());
        }
    };
    let wide = if big { 8 } else { 4 };
    let planes = if planar == 2 { samples } else { 1 };
    let entries: Vec<(u64, u64, Vec<u64>)> = vec![
        (256, 3, vec![2]),
        (257, 3, vec![1]),
        (258, 3, vec![8]),
        (259, 3, vec![1]),
        (262, 3, vec![if samples == 1 { 1 } else { 2 }]),
        (273, 4, vec![8; planes as usize]),
        (277, 3, vec![samples]),
        (278, 3, vec![1]),
        (279, 4, vec![2 * samples / planes; planes as usize]),
        (284, kind, vec![planar]),
    ];
    let mut out = if little { b"II".to_vec() } else { b"MM".to_vec() };
    write(&mut out, if big { 43 } else { 42 }, 2);
    if big {
        write(&mut out, 8, 2);
        write(&mut out, 0, 2);
    }
    let start = out.len() + wide;
    write(&mut out, start as u64, wide);
    write(&mut out, entries.len() as u64, if big { 8 } else { 2 });
    let mut rest = out.len() + entries.len() * (4 + 2 * wide) + wide;
    let mut after: Vec<u8> = Vec::new();
    for (tag, kind, values) in entries {
        let width = match kind {
            1 => 1,
            3 => 2,
            4 => 4,
            _ => 8,
        };
        write(&mut out, tag, 2);
        write(&mut out, kind, 2);
        write(&mut out, values.len() as u64, wide);
        let mut field: Vec<u8> = Vec::new();
        for value in values {
            write(&mut field, value, width);
        }
        if field.len() > wide {
            write(&mut out, rest as u64, wide);
            rest += field.len();
            after.extend_from_slice(&field);
        } else {
            field.resize(wide, 0);
            out.extend_from_slice(&field);
        }
    }
    write(&mut out, 0, wide);
    out.extend_from_slice(&after);
    out
}

#[test]
fn samples_in_planes_of_their_own_are_left_to_a_frame() {
    for little in [true, false] {
        for big in [true, false] {
            for kind in [1, 3, 4, 16] {
                for samples in [3, 4] {
                    let apart = tiff(little, big, samples, 2, kind);
                    assert!(has_planes_apart(&apart), "{little} {big} {kind} {samples}");
                    match thumbnail("/w/a.tif", Kind::Image, Ok(apart.clone()), (4, 4), (16, 34)) {
                        Attempt::TryFrame(why) => assert_eq!(why, "samples in separate planes"),
                        Attempt::Done(_) => panic!("decoded"),
                    }
                    assert_eq!(
                        decode_bytes(&apart, (4, 4), (16, 34)).err(),
                        Some("decode failed: samples in separate planes".to_string())
                    );
                    // Side by side, and one sample in a plane, are decoded.
                    for (samples, planar) in [(samples, 1), (1, 1), (1, 2)] {
                        let plain = tiff(little, big, samples, planar, kind);
                        assert!(!has_planes_apart(&plain));
                        let thumb =
                            done(thumbnail("/w/a.tif", Kind::Image, Ok(plain), (4, 4), (16, 34)));
                        assert_eq!(thumb.unwrap().source, (2, 1));
                    }
                    // What is cut short is an error of the decoder's own.
                    for end in 0..apart.len() {
                        let cut = apart[..end].to_vec();
                        let why = match thumbnail("/w/a.tif", Kind::Image, Ok(cut), (4, 4), (16, 34)) {
                            Attempt::TryFrame(why) => why,
                            Attempt::Done(_) => panic!("decoded at {end}"),
                        };
                        assert!(!why.is_empty());
                    }
                }
            }
        }
    }
    for other in [vec![], b"II".to_vec(), b"PNG, not TIFF at all".to_vec(), vec![0x49; 64]] {
        assert!(!has_planes_apart(&other));
    }
}

#[test]
fn a_whole_ratio_is_averaged_as_far_as_it_adds_up() {
    let white = |w, h| {
        image::DynamicImage::ImageLuma16(image::ImageBuffer::from_pixel(w, h, image::Luma([0xffff])))
    };
    // Exactly 65536 samples to a pixel.
    let thumb = preview(white(2560, 5120), (1, 1), (10, 20)).unwrap();
    assert!(canvas(&thumb).pixels().all(|p| p.0 == [255; 4]));
    // And 65792.
    assert_eq!(
        preview(white(2570, 5120), (1, 1), (10, 20)).err(),
        Some("too large to shrink".to_string())
    );
    assert_eq!(
        preview(white(2570, 5140), (1, 1), (10, 20)).err(),
        Some("too large to shrink".to_string())
    );
}

#[test]
fn other_files_are_not_previewable() {
    for kind in [Kind::Audio, Kind::Other] {
        assert_eq!(
            done(thumbnail("/x/a", kind, Ok(vec![]), (4, 4), (16, 34))).err(),
            Some("not previewable".to_string())
        );
    }
}

#[test]
fn a_picture_that_cannot_be_averaged_is_refused() {
    let deep = |side: u32| {
        image::DynamicImage::ImageLuma16(image::ImageBuffer::from_pixel(
            side,
            side,
            image::Luma([0xffff]),
        ))
    };
    // Two hundred pixels to one on each side still add up.
    let thumb = preview(deep(1000), (1, 1), (5, 5)).unwrap();
    assert!(canvas(&thumb).pixels().all(|p| p.0 == [255, 255, 255, 255]));
    // Three hundred do not, at sixteen bits.
    assert_eq!(
        preview(deep(1500), (1, 1), (5, 5)).err(),
        Some("too large to shrink".to_string())
    );
    let bytes = encode(&deep(1500), image::ImageFormat::Png);
    assert_eq!(
        decode_bytes(&bytes, (1, 1), (5, 5)).err(),
        Some("too large to shrink".to_string())
    );
    // They do at eight.
    let thumb = preview(flat(1500, 1500, [255; 4]), (1, 1), (5, 5)).unwrap();
    assert!(canvas(&thumb).pixels().all(|p| p.0 == [255, 255, 255, 255]));
}

#[test]
fn the_largest_averages_that_are_allowed_do_add_up() {
    // Wide, tall and square, as close to the limit as the layout allows.
    for (w, h) in [(65_000, 250), (250, 65_000), (2_500, 2_500), (20_000, 800)] {
        for cell in [(1, 1), (3, 2), (10, 20)] {
            let white = image::DynamicImage::ImageLuma16(image::ImageBuffer::from_pixel(
                w,
                h,
                image::Luma([0xffff]),
            ));
            match preview(white, (1, 1), cell) {
                Ok(thumb) => {
                    assert!(canvas(&thumb).pixels().all(|p| p.0 == [255; 4] || p.0 == [0; 4]));
                }
                Err(why) => assert_eq!(why, "too large to shrink"),
            }
        }
    }
}

#[test]
fn shrunk_pictures_have_the_size_that_doubles_give_them() {
    let mut seed = 0x1234_5678_9ABC_DEF1u64;
    let mut roll = |bound: u64| {
        seed ^= seed << 13;
        seed ^= seed >> 7;
        seed ^= seed << 17;
        1 + seed % bound
    };
    for _ in 0..300 {
        let source = (roll(300) as u32, roll(300) as u32);
        let max_cells = (roll(6) as u16, roll(6) as u16);
        let cell = (roll(12) as u32, roll(12) as u32);
        let thumb = preview(flat(source.0, source.1, RED), max_cells, cell).unwrap();
        let canvas = canvas(&thumb);
        assert_eq!(canvas.dimensions(), thumb.size);
        let inner = if source.0 > thumb.size.0 || source.1 > thumb.size.1 {
            let ratio = (f64::from(thumb.size.0) / f64::from(source.0))
                .min(f64::from(thumb.size.1) / f64::from(source.1));
            (
                ((f64::from(source.0) * ratio).round() as u32).max(1),
                ((f64::from(source.1) * ratio).round() as u32).max(1),
            )
        } else {
            source
        };
        assert!(inner.0 <= source.0 && inner.1 <= source.1, "never scaled up");
        let at = ((thumb.size.0 - inner.0) / 2, (thumb.size.1 - inner.1) / 2);
        for (x, y, pixel) in canvas.enumerate_pixels() {
            let inside = x >= at.0 && x < at.0 + inner.0 && y >= at.1 && y < at.1 + inner.1;
            assert_eq!(pixel.0, if inside { RED } else { [0; 4] }, "{source:?} {max_cells:?} {cell:?}");
        }
    }
}
