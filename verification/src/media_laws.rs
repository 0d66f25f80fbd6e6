//! What holds of every thumbnail and every caption, in numbers and characters.
use crate::media;
use crate::media::{AttemptView, Kind, ThumbView};
use crate::path;
use crate::picture;
use crate::picture::{Layout, PictureView};
use crate::planes;
use crate::rounding;
use crate::text;
use vstd::prelude::*;

verus! {

// ---------------------------------------------------------------------------
// Which pictures get a thumbnail
// ---------------------------------------------------------------------------

/// How many pixels along a side of `n` a single one of `m` can stand for: the exact
/// ratio where it is whole and the side short enough to be counted without error,
/// and otherwise two more, and one more for each four million pixels of the side.
pub open spec fn pixels_under(n: nat, m: nat) -> nat {
    if n % m == 0 && n < 16777216 {
        n / m
    } else {
        n / m + 2 + n / 4194304
    }
}

/// How many pixels can be added up for one: as many as leave room in 32 bits for
/// their samples and half as many again.
pub open spec fn most_pixels(layout: Layout) -> nat {
    match layout {
        Layout::Luma8 => 16810048,
        Layout::LumaAlpha8 => 16810048,
        Layout::Rgb8 => 16810048,
        Layout::Rgba8 => 16810048,
        Layout::Luma16 => 65536,
        Layout::LumaAlpha16 => 65536,
        Layout::Rgb16 => 65536,
        Layout::Rgba16 => 65536,
        Layout::Rgb32F => 4294967295,
        Layout::Rgba32F => 4294967295,
        Layout::Other => 65536,
    }
}

/// The pixels of the canvas that a picture gets: as many cells as fit it, of so
/// many pixels each.
pub open spec fn canvas_pixels(p: PictureView, max_cells: (u16, u16), cell: (u32, u32)) -> (
    nat,
    nat,
) {
    let cells = media::fitted((p.width, p.height), max_cells, cell);
    (cells.0 * cell.0 as nat, cells.1 * cell.1 as nat)
}

/// Whether the sums of a picture could overflow: it is larger than its canvas, and
/// the pixels that one of the canvas stands for, across times down, are more than
/// can be added up.
pub open spec fn overflows(p: PictureView, max_cells: (u16, u16), cell: (u32, u32)) -> bool {
    let size = canvas_pixels(p, max_cells, cell);
    let to = picture::scaled_size((p.width as nat, p.height as nat), size);
    &&& p.width > size.0 || p.height > size.1
    &&& p.width > 0 && p.height > 0
    &&& pixels_under(p.width as nat, to.0) * pixels_under(p.height as nat, to.1) > most_pixels(
        p.layout,
    )
}

/// Half of what is left beside a picture.
pub open spec fn half_left(whole: nat, part: nat) -> int {
    if part <= whole {
        (whole - part) / 2
    } else {
        0
    }
}

/// What comes of encoding a picture on its canvas: it goes up as large as it is, or
/// scaled down where it is larger than the canvas, in the middle of transparent
/// pixels; with its own size for the caption. If the encoder fails, so does this.
pub open spec fn encoding_of(p: PictureView, max_cells: (u16, u16), cell: (u32, u32)) -> Result<
    ThumbView,
    Seq<char>,
> {
    let cells = media::fitted((p.width, p.height), max_cells, cell);
    let size = canvas_pixels(p, max_cells, cell);
    let own = p.width <= size.0 && p.height <= size.1;
    let top = picture::recoloured(
        if own {
            p
        } else {
            picture::shrunk(p, size.0 as u32, size.1 as u32)
        },
    );
    let canvas = picture::overlaid(
        picture::transparent(size.0 as u32, size.1 as u32),
        top,
        half_left(size.0, top.width as nat) as i64,
        half_left(size.1, top.height as nat) as i64,
    );
    match picture::encoded(canvas) {
        Ok(png) => Ok(
            ThumbView { png, size, cells, source: (p.width as nat, p.height as nat) },
        ),
        Err(why) => Err(
            seq!['e', 'n', 'c', 'o', 'd', 'e', ' ', 'f', 'a', 'i', 'l', 'e', 'd', ':', ' '] + why,
        ),
    }
}

/// A picture is refused exactly where its sums could overflow in 32 bits, whatever
/// its channels; every other one gets its thumbnail, or the encoder's own error.
pub proof fn only_what_could_overflow_is_refused(
    p: PictureView,
    max_cells: (u16, u16),
    cell: (u32, u32),
)
    requires
        media::canvas_counts(max_cells, cell),
    ensures
        overflows(p, max_cells, cell) <==> media::preview_of(p, max_cells, cell) == Err::<
            ThumbView,
            Seq<char>,
        >("too large to shrink"@),
        !overflows(p, max_cells, cell) ==> media::preview_of(p, max_cells, cell) == encoding_of(
            p,
            max_cells,
            cell,
        ),
{
    reveal_strlit("too large to shrink");
    reveal_strlit("encode failed: ");
    assert("encode failed: "@ =~= seq![
        'e', 'n', 'c', 'o', 'd', 'e', ' ', 'f', 'a', 'i', 'l', 'e', 'd', ':', ' ',
    ]);
    assert("too large to shrink"@[0] == 't');
    let out = encoding_of(p, max_cells, cell);
    if let Err(why) = out {
        assert(why[0] == 'e');
    }
}

/// A picture of eight-bit samples, whatever its channels, is never refused while the
/// pixels that one of the canvas stands for come to no more than 16810048: so many
/// across, counted two too many and one more for each four million pixels of the
/// side, times so many down.
pub proof fn a_picture_of_bytes_is_shown_unless_it_shrinks_too_far(
    p: PictureView,
    max_cells: (u16, u16),
    cell: (u32, u32),
)
    requires
        media::canvas_counts(max_cells, cell),
        p.layout is Luma8 || p.layout is LumaAlpha8 || p.layout is Rgb8 || p.layout is Rgba8,
        ({
            let size = canvas_pixels(p, max_cells, cell);
            let to = picture::scaled_size((p.width as nat, p.height as nat), size);
            (p.width as nat / to.0 + p.width / 4194304 + 2) * (p.height as nat / to.1 + p.height
                / 4194304 + 2) <= 16810048
        }),
    ensures
        media::preview_of(p, max_cells, cell) == encoding_of(p, max_cells, cell),
{
    let size = canvas_pixels(p, max_cells, cell);
    let to = picture::scaled_size((p.width as nat, p.height as nat), size);
    let a = pixels_under(p.width as nat, to.0);
    let b = pixels_under(p.height as nat, to.1);
    let x = (p.width as nat / to.0 + p.width / 4194304 + 2) as nat;
    let y = (p.height as nat / to.1 + p.height / 4194304 + 2) as nat;
    assert(a * b <= x * y) by (nonlinear_arith)
        requires
            0 <= a <= x,
            0 <= b <= y,
    ;
    only_what_could_overflow_is_refused(p, max_cells, cell);
}

/// A picture no larger than its canvas is never refused, whatever its samples.
pub proof fn a_picture_that_fits_is_shown_as_it_is(
    p: PictureView,
    max_cells: (u16, u16),
    cell: (u32, u32),
)
    requires
        media::canvas_counts(max_cells, cell),
        p.width <= canvas_pixels(p, max_cells, cell).0,
        p.height <= canvas_pixels(p, max_cells, cell).1,
    ensures
        media::preview_of(p, max_cells, cell) == encoding_of(p, max_cells, cell),
{
    only_what_could_overflow_is_refused(p, max_cells, cell);
}

// ---------------------------------------------------------------------------
// How large a thumbnail is
// ---------------------------------------------------------------------------

/// Whether `to` is `from` brought to fit inside `bounds` along the axis that binds:
/// that side is the bound itself, and the other is the same share of what it was, to
/// within a pixel and one pixel at the least, and no more than its bound.
pub open spec fn is_brought_to_fit(from: (nat, nat), bounds: (nat, nat), to: (nat, nat)) -> bool {
    &&& 1 <= to.0 <= bounds.0
    &&& 1 <= to.1 <= bounds.1
    &&& bounds.0 * from.1 <= bounds.1 * from.0 ==> {
        &&& to.0 == bounds.0
        &&& (to.1 - 1) * from.0 < from.1 * bounds.0 < (to.1 + 1) * from.0
    }
    &&& bounds.0 * from.1 > bounds.1 * from.0 ==> {
        &&& to.1 == bounds.1
        &&& (to.0 - 1) * from.1 < from.0 * bounds.1 < (to.0 + 1) * from.1
    }
}

/// Shrinking to a canvas fills it along the axis that binds and keeps the shape.
pub proof fn shrinking_fills_the_canvas_along_one_axis(from: (nat, nat), bounds: (nat, nat))
    requires
        0 < from.0 <= u32::MAX,
        0 < from.1 <= u32::MAX,
        0 < bounds.0 <= u32::MAX,
        0 < bounds.1 <= u32::MAX,
    ensures
        is_brought_to_fit(from, bounds, picture::scaled_size(from, bounds)),
{
    let across = (bounds.0, from.0);
    let down = (bounds.1, from.1);
    let r = picture::lesser(across, down);
    assert(from.0 * bounds.0 == bounds.0 * from.0) by (nonlinear_arith);
    assert(from.1 * bounds.1 == bounds.1 * from.1) by (nonlinear_arith);
    assert(from.0 * bounds.1 == bounds.1 * from.0) by (nonlinear_arith);
    assert(from.1 * bounds.0 == bounds.0 * from.1) by (nonlinear_arith);
    media::lemma_scaled_side(from.0, r, bounds.0);
    media::lemma_scaled_side(from.1, r, bounds.1);
    if bounds.0 * from.1 <= bounds.1 * from.0 {
        assert(r == across);
        rounding::lemma_scaled_exact(from.0, r.0, r.1, bounds.0);
        media::lemma_scaled_side_is_close(from.1, r, bounds.1);
    } else {
        assert(r == down);
        rounding::lemma_scaled_exact(from.1, r.0, r.1, bounds.1);
        media::lemma_scaled_side_is_close(from.0, r, bounds.0);
    }
}

/// A picture larger than the preview is brought to fit it in the same way, and then
/// covered by whole cells: as many as it takes and no more.
pub proof fn a_large_picture_is_brought_to_fit_the_preview(
    source: (u32, u32),
    max_cells: (u16, u16),
    cell: (u32, u32),
)
    requires
        source.0 > 0,
        source.1 > 0,
        max_cells.0 > 0,
        max_cells.1 > 0,
        media::cells_count(max_cells, cell),
    ensures
        ({
            let bounds = (max_cells.0 as nat * cell.0 as nat, max_cells.1 as nat * cell.1 as nat);
            let from = (source.0 as nat, source.1 as nat);
            let cells = media::fitted(source, max_cells, cell);
            let to = media::target(from, bounds);
            &&& source.0 > bounds.0 || source.1 > bounds.1 ==> is_brought_to_fit(from, bounds, to)
            &&& source.0 <= bounds.0 && source.1 <= bounds.1 ==> to == from
            &&& (cells.0 - 1) * cell.0 < to.0 <= cells.0 * cell.0
            &&& (cells.1 - 1) * cell.1 < to.1 <= cells.1 * cell.1
        }),
{
    let bounds = media::cell_pixels(max_cells, cell);
    let from = media::pixels(source);
    let cells = media::fitted(source, max_cells, cell);
    media::lemma_product_positive(max_cells.0 as nat, cell.0 as nat);
    media::lemma_product_positive(max_cells.1 as nat, cell.1 as nat);
    media::lemma_fit_ratio(from, bounds);
    media::lemma_fitted(source, max_cells, cell);
    media::a_picture_is_never_scaled_up(source, max_cells, cell);
    assert((cells.0 - 1) * cell.0 == cells.0 * cell.0 - cell.0) by (nonlinear_arith);
    assert((cells.1 - 1) * cell.1 == cells.1 * cell.1 - cell.1) by (nonlinear_arith);
    if source.0 > bounds.0 || source.1 > bounds.1 {
        shrinking_fills_the_canvas_along_one_axis(from, bounds);
        let m = picture::lesser((bounds.0, from.0), (bounds.1, from.1));
        let r = media::fit_ratio(from, bounds);
        if r != m {
            assert(r == (1nat, 1nat));
            assert(from.0 * 1 <= bounds.0 * 1 && from.1 * 1 <= bounds.1 * 1);
        }
    }
}

/// Nothing to show, or nowhere to show it, comes to a single cell.
pub proof fn nothing_takes_one_cell(source: (u32, u32), max_cells: (u16, u16), cell: (u32, u32))
    requires
        source.0 == 0 || source.1 == 0 || max_cells.0 == 0 || max_cells.1 == 0,
    ensures
        media::fitted(source, max_cells, cell) == (1nat, 1nat),
{
}

/// A blank canvas has the size asked for and nothing on it.
pub proof fn a_blank_canvas_is_transparent(width: u32, height: u32, i: int)
    requires
        0 <= i < 4 * width * height,
    ensures
        ({
            let blank = picture::transparent(width, height);
            &&& blank.width == width
            &&& blank.height == height
            &&& blank.layout is Rgba8
            &&& blank.samples.len() == 4 * width * height
            &&& blank.samples[i] == 0
        }),
{
}

// ---------------------------------------------------------------------------
// From a file to a thumbnail
// ---------------------------------------------------------------------------

/// A picture that decodes gets what its own pixels get, whether it is a file, a
/// frame or a page; only a file that does not is tried again as a frame, and what
/// is no picture is never tried.
pub proof fn what_decodes_is_shown(
    path: Seq<char>,
    bytes: Seq<u8>,
    p: PictureView,
    max_cells: (u16, u16),
    cell: (u32, u32),
)
    requires
        !planes::planes_apart(bytes),
    ensures
        picture::decoded_file(path, bytes) == Ok::<PictureView, Seq<char>>(p) ==> media::attempted(
            path,
            Kind::Image,
            Ok(bytes),
            max_cells,
            cell,
        ) == AttemptView::Done(media::preview_of(p, max_cells, cell)),
        picture::decoded(bytes) == Ok::<PictureView, Seq<char>>(p) ==> {
            &&& media::attempted(path, Kind::Video, Ok(bytes), max_cells, cell)
                == AttemptView::Done(media::preview_of(p, max_cells, cell))
            &&& media::attempted(path, Kind::Pdf, Ok(bytes), max_cells, cell) == AttemptView::Done(
                media::preview_of(p, max_cells, cell),
            )
            &&& media::thumb_of_bytes(bytes, max_cells, cell) == media::preview_of(
                p,
                max_cells,
                cell,
            )
        },
{
}

/// Why there is no picture is passed on: what the decoder said of a frame or a page
/// is the reason itself, and of a file it is kept while a frame is tried.
pub proof fn what_does_not_decode_says_why(
    path: Seq<char>,
    bytes: Seq<u8>,
    why: Seq<char>,
    max_cells: (u16, u16),
    cell: (u32, u32),
)
    requires
        !planes::planes_apart(bytes),
    ensures
        picture::decoded_file(path, bytes) == Err::<PictureView, Seq<char>>(why)
            ==> media::attempted(path, Kind::Image, Ok(bytes), max_cells, cell)
            == AttemptView::TryFrame(why),
        picture::decoded(bytes) == Err::<PictureView, Seq<char>>(why) ==> media::thumb_of_bytes(
            bytes,
            max_cells,
            cell,
        ) == Err::<ThumbView, Seq<char>>(
            seq!['d', 'e', 'c', 'o', 'd', 'e', ' ', 'f', 'a', 'i', 'l', 'e', 'd', ':', ' '] + why,
        ),
        media::attempted(path, Kind::Image, Err(why), max_cells, cell) == AttemptView::TryFrame(
            why,
        ),
        media::attempted(path, Kind::Video, Err(why), max_cells, cell) == AttemptView::Done(
            Err::<ThumbView, Seq<char>>(why),
        ),
        media::attempted(path, Kind::Pdf, Err(why), max_cells, cell) == AttemptView::Done(
            Err::<ThumbView, Seq<char>>(why),
        ),
        media::attempted(path, Kind::Audio, Ok(bytes), max_cells, cell) == AttemptView::Done(
            Err::<ThumbView, Seq<char>>("not previewable"@),
        ),
        media::attempted(path, Kind::Other, Ok(bytes), max_cells, cell) == AttemptView::Done(
            Err::<ThumbView, Seq<char>>("not previewable"@),
        ),
{
    reveal_strlit("decode failed: ");
    assert("decode failed: "@ =~= seq![
        'd', 'e', 'c', 'o', 'd', 'e', ' ', 'f', 'a', 'i', 'l', 'e', 'd', ':', ' ',
    ]);
}

/// Only a TIFF can have its samples in planes of their own: eight bytes at the
/// least, which begin with `II` or `MM` and the number that TIFF or BigTIFF has.
/// Every other file is decoded.
pub proof fn only_a_tiff_has_planes(bytes: Seq<u8>)
    requires
        planes::planes_apart(bytes),
    ensures
        bytes.len() >= 8,
        bytes[0] == 0x49 && bytes[1] == 0x49 && (bytes[2] == 42 || bytes[2] == 43) && bytes[3] == 0
            || bytes[0] == 0x4d && bytes[1] == 0x4d && bytes[2] == 0 && (bytes[3] == 42 || bytes[3]
            == 43),
{
}

/// A TIFF with its samples in planes of their own is not decoded: as a file it is tried
/// as a frame, and as a frame or a page it says why.
pub proof fn planes_apart_are_not_decoded(
    path: Seq<char>,
    bytes: Seq<u8>,
    max_cells: (u16, u16),
    cell: (u32, u32),
)
    requires
        planes::planes_apart(bytes),
    ensures
        media::attempted(path, Kind::Image, Ok(bytes), max_cells, cell) == AttemptView::TryFrame(
            "samples in separate planes"@,
        ),
        media::thumb_of_bytes(bytes, max_cells, cell) == Err::<ThumbView, Seq<char>>(
            "decode failed: "@ + "samples in separate planes"@,
        ),
{
}

/// What a renderer printed is taken as it is, unless it printed nothing or could
/// not be run.
pub proof fn a_rendering_is_what_was_printed(
    bytes: Seq<u8>,
    missing: Seq<char>,
    nothing: Seq<char>,
)
    ensures
        bytes.len() > 0 ==> media::rendering(Some(bytes), missing, nothing) == Ok::<
            Seq<u8>,
            Seq<char>,
        >(bytes),
        media::rendering(Some(Seq::empty()), missing, nothing) == Err::<Seq<u8>, Seq<char>>(nothing),
        media::rendering(None, missing, nothing) == Err::<Seq<u8>, Seq<char>>(missing),
{
}

// ---------------------------------------------------------------------------
// Kinds
// ---------------------------------------------------------------------------

/// The kind of a file follows from what stands behind the last dot of its name, in
/// lower case, wherever the file is and whatever stands before the dot.
pub proof fn the_kind_is_behind_the_last_dot(
    path: Seq<char>,
    stem: Seq<char>,
    ext: Seq<char>,
)
    requires
        path::final_name(path) == Some(stem + seq!['.'] + ext),
        stem.len() > 0,
        !ext.contains('.'),
    ensures
        path::extension(path) == Some(ext),
        media::kind_of_path(path) == media::kind_of_extension(
            text::lowered(text::lowered_ascii(ext)),
        ),
{
    let name = stem + seq!['.'] + ext;
    let at = stem.len() as int;
    assert forall|i: int| at < i < name.len() implies name[i] != '.' by {
        assert(name[i] == ext[i - at - 1]);
    }
    path::lemma_last_position(name, '.', at);
    assert(name.skip(at + 1) =~= ext);
}

/// Pictures are the files with one of these extensions, and documents those with
/// this one; no extension makes a file both.
pub proof fn pictures_and_documents_go_by_these_extensions(ext: Seq<char>)
    ensures
        media::kind_of_extension(ext) is Image <==> ext == "png"@ || ext == "jpg"@ || ext
            == "jpeg"@ || ext == "gif"@ || ext == "webp"@ || ext == "bmp"@ || ext == "tiff"@ || ext
            == "tif"@ || ext == "ico"@ || ext == "avif"@ || ext == "heic"@ || ext == "heif"@ || ext
            == "jxl"@ || ext == "ppm"@ || ext == "pgm"@,
        media::kind_of_extension(ext) is Pdf <==> ext == "pdf"@,
{
    let images = media::image_extensions();
    assert(images[0] == "png"@ && images[1] == "jpg"@ && images[2] == "jpeg"@ && images[3]
        == "gif"@ && images[4] == "webp"@ && images[5] == "bmp"@ && images[6] == "tiff"@
        && images[7] == "tif"@ && images[8] == "ico"@ && images[9] == "avif"@ && images[10]
        == "heic"@ && images[11] == "heif"@ && images[12] == "jxl"@ && images[13] == "ppm"@
        && images[14] == "pgm"@);
    if images.contains(ext) {
        let i = images.index_of(ext);
        assert(images[i] == ext);
    }
    if ext == "pdf"@ {
        lemma_pdf_is_no_picture();
        lemma_pdf_is_no_video();
    }
}

proof fn lemma_pdf_is_no_picture()
    ensures
        !media::image_extensions().contains("pdf"@),
{
    let images = media::image_extensions();
    reveal_strlit("pdf");
    reveal_strlit("png");
    reveal_strlit("jpg");
    reveal_strlit("jpeg");
    reveal_strlit("gif");
    reveal_strlit("webp");
    reveal_strlit("bmp");
    reveal_strlit("tiff");
    reveal_strlit("tif");
    reveal_strlit("ico");
    reveal_strlit("avif");
    reveal_strlit("heic");
    reveal_strlit("heif");
    reveal_strlit("jxl");
    reveal_strlit("ppm");
    reveal_strlit("pgm");
    if images.contains("pdf"@) {
        let i = images.index_of("pdf"@);
        assert(images[i] == "pdf"@);
        assert(images[i][0] == 'p' && images[i][1] == 'd');
        assert(0 <= i < 15);
    }
}

proof fn lemma_pdf_is_no_video()
    ensures
        !media::video_extensions().contains("pdf"@),
{
    let videos = media::video_extensions();
    reveal_strlit("pdf");
    reveal_strlit("mp4");
    reveal_strlit("mov");
    reveal_strlit("mkv");
    reveal_strlit("webm");
    reveal_strlit("avi");
    reveal_strlit("m4v");
    reveal_strlit("wmv");
    reveal_strlit("flv");
    reveal_strlit("mpg");
    reveal_strlit("mpeg");
    reveal_strlit("ts");
    reveal_strlit("ogv");
    if videos.contains("pdf"@) {
        let i = videos.index_of("pdf"@);
        assert(videos[i] == "pdf"@);
        assert(videos[i][0] == 'p');
        assert(0 <= i < 12);
    }
}

/// Videos and sound files are those with one of these extensions.
pub proof fn what_plays_goes_by_these_extensions(ext: Seq<char>)
    ensures
        media::kind_of_extension(ext) is Video <==> is_video(ext),
        media::kind_of_extension(ext) is Audio <==> is_audio(ext),
{
    let videos = media::video_extensions();
    let sounds = media::audio_extensions();
    assert(videos[0] == "mp4"@ && videos[1] == "mov"@ && videos[2] == "mkv"@ && videos[3]
        == "webm"@ && videos[4] == "avi"@ && videos[5] == "m4v"@ && videos[6] == "wmv"@
        && videos[7] == "flv"@ && videos[8] == "mpg"@ && videos[9] == "mpeg"@ && videos[10]
        == "ts"@ && videos[11] == "ogv"@);
    assert(sounds[0] == "mp3"@ && sounds[1] == "flac"@ && sounds[2] == "wav"@ && sounds[3]
        == "ogg"@ && sounds[4] == "m4a"@ && sounds[5] == "aac"@ && sounds[6] == "opus"@
        && sounds[7] == "wma"@);
    if videos.contains(ext) {
        let i = videos.index_of(ext);
        assert(videos[i] == ext);
    }
    if sounds.contains(ext) {
        let i = sounds.index_of(ext);
        assert(sounds[i] == ext);
    }
    if is_video(ext) {
        lemma_no_picture_plays(ext);
    }
    if is_audio(ext) {
        lemma_no_picture_plays(ext);
        lemma_no_sound_is_a_video(ext);
        lemma_no_sound_is_a_document(ext);
    }
}

/// Whether an extension is that of a video.
pub open spec fn is_video(ext: Seq<char>) -> bool {
    ext == "mp4"@ || ext == "mov"@ || ext == "mkv"@ || ext == "webm"@ || ext == "avi"@ || ext
        == "m4v"@ || ext == "wmv"@ || ext == "flv"@ || ext == "mpg"@ || ext == "mpeg"@ || ext
        == "ts"@ || ext == "ogv"@
}

/// Whether an extension is that of a sound file.
pub open spec fn is_audio(ext: Seq<char>) -> bool {
    ext == "mp3"@ || ext == "flac"@ || ext == "wav"@ || ext == "ogg"@ || ext == "m4a"@ || ext
        == "aac"@ || ext == "opus"@ || ext == "wma"@
}

proof fn lemma_no_sound_is_a_document(ext: Seq<char>)
    requires
        is_audio(ext),
    ensures
        ext != "pdf"@,
{
    reveal_strlit("pdf");
    reveal_strlit("mp3");
    reveal_strlit("flac");
    reveal_strlit("wav");
    reveal_strlit("ogg");
    reveal_strlit("m4a");
    reveal_strlit("aac");
    reveal_strlit("opus");
    reveal_strlit("wma");
    assert("pdf"@[0] == 'p');
    assert("mp3"@[0] == 'm' && "wav"@[0] == 'w' && "ogg"@[0] == 'o');
    assert("m4a"@[0] == 'm' && "aac"@[0] == 'a' && "wma"@[0] == 'w');
    assert("flac"@.len() == 4 && "opus"@.len() == 4);
}

proof fn lemma_no_picture_plays(ext: Seq<char>)
    requires
        is_video(ext) || is_audio(ext),
    ensures
        !media::image_extensions().contains(ext),
{
    let images = media::image_extensions();
    reveal_strlit("png");
    reveal_strlit("jpg");
    reveal_strlit("jpeg");
    reveal_strlit("gif");
    reveal_strlit("webp");
    reveal_strlit("bmp");
    reveal_strlit("tiff");
    reveal_strlit("tif");
    reveal_strlit("ico");
    reveal_strlit("avif");
    reveal_strlit("heic");
    reveal_strlit("heif");
    reveal_strlit("jxl");
    reveal_strlit("ppm");
    reveal_strlit("pgm");
    reveal_strlit("mp4");
    reveal_strlit("mov");
    reveal_strlit("mkv");
    reveal_strlit("webm");
    reveal_strlit("avi");
    reveal_strlit("m4v");
    reveal_strlit("wmv");
    reveal_strlit("flv");
    reveal_strlit("mpg");
    reveal_strlit("mpeg");
    reveal_strlit("ts");
    reveal_strlit("ogv");
    reveal_strlit("mp3");
    reveal_strlit("flac");
    reveal_strlit("wav");
    reveal_strlit("ogg");
    reveal_strlit("m4a");
    reveal_strlit("aac");
    reveal_strlit("opus");
    reveal_strlit("wma");
    if images.contains(ext) {
        let i = images.index_of(ext);
        assert(images[i] == ext);
        assert(0 <= i < 15);
        assert("webm"@[3] == 'm' && "webp"@[3] == 'p');
        assert(ext[0] == 'm' || ext[0] == 'f' || ext[0] == 'o' || (ext[0] == 'w' && ext.len() == 3)
            || (ext[0] == 'a' && ext.len() == 3) || (ext[0] == 't' && ext.len() == 2) || ext
            == "webm"@);
        assert(images[i][0] == ext[0]);
    }
}

proof fn lemma_no_sound_is_a_video(ext: Seq<char>)
    requires
        is_audio(ext),
    ensures
        !media::video_extensions().contains(ext),
{
    let videos = media::video_extensions();
    reveal_strlit("mp4");
    reveal_strlit("mov");
    reveal_strlit("mkv");
    reveal_strlit("webm");
    reveal_strlit("avi");
    reveal_strlit("m4v");
    reveal_strlit("wmv");
    reveal_strlit("flv");
    reveal_strlit("mpg");
    reveal_strlit("mpeg");
    reveal_strlit("ts");
    reveal_strlit("ogv");
    reveal_strlit("mp3");
    reveal_strlit("flac");
    reveal_strlit("wav");
    reveal_strlit("ogg");
    reveal_strlit("m4a");
    reveal_strlit("aac");
    reveal_strlit("opus");
    reveal_strlit("wma");
    if videos.contains(ext) {
        let i = videos.index_of(ext);
        assert(videos[i] == ext);
        assert(0 <= i < 12);
        assert("mp3"@[2] == '3' && "m4a"@[2] == 'a' && "aac"@[1] == 'a' && "wav"@[1] == 'a');
        assert("ogg"@[2] == 'g' && "wma"@[2] == 'a' && "flac"@[0] == 'f' && "opus"@[0] == 'o');
        assert(videos[i][0] == ext[0] && videos[i][2] == ext[2]);
    }
}

// ---------------------------------------------------------------------------
// Captions
// ---------------------------------------------------------------------------

/// A clock shows hours, minutes and seconds, the last two with two digits, and no
/// hours where there are none; so it reads back as what it was made from.
pub proof fn a_clock_shows_its_hours_minutes_and_seconds(h: nat, m: nat, s: nat)
    requires
        m < 60,
        s < 60,
    ensures
        h > 0 ==> media::clock_text(3600 * h + 60 * m + s) == text::decimal(h) + seq![
            ':',
            text::digit(m / 10),
            text::digit(m % 10),
            ':',
            text::digit(s / 10),
            text::digit(s % 10),
        ],
        media::clock_text(60 * m + s) == text::decimal(m) + seq![
            ':',
            text::digit(s / 10),
            text::digit(s % 10),
        ],
{
    let total = 3600 * h + 60 * m + s;
    assert(total / 3600 == h && (total % 3600) / 60 == m && total % 60 == s);
    let short = 60 * m + s;
    assert(short / 3600 == 0 && (short % 3600) / 60 == m && short % 60 == s);
    reveal_strlit(":");
    lemma_two_digits(m);
    lemma_two_digits(s);
    if h > 0 {
        assert(media::clock_text(total) =~= text::decimal(h) + seq![
            ':',
            text::digit(m / 10),
            text::digit(m % 10),
            ':',
            text::digit(s / 10),
            text::digit(s % 10),
        ]);
    }
    assert(media::clock_text(short) =~= text::decimal(m) + seq![
        ':',
        text::digit(s / 10),
        text::digit(s % 10),
    ]);
}

proof fn lemma_two_digits(n: nat)
    requires
        n < 100,
    ensures
        media::two_digits(n) == seq![text::digit(n / 10), text::digit(n % 10)],
{
    reveal_strlit("0");
    reveal_with_fuel(text::decimal, 2);
    assert(text::digit(0) == '0');
    if n < 10 {
        assert("0"@ + text::decimal(n) =~= seq![text::digit(n / 10), text::digit(n % 10)]);
    } else {
        assert(text::decimal(n) =~= seq![text::digit(n / 10), text::digit(n % 10)]);
    }
}

/// A file below 1024 bytes is given in bytes.
pub proof fn a_small_size_is_given_in_bytes(bytes: nat)
    requires
        bytes < 1024,
    ensures
        media::size_text(bytes) == text::decimal(bytes) + seq![' ', 'B'],
{
    rounding::what_a_double_holds_is_exact(bytes);
    reveal_strlit(" ");
    reveal_strlit("B");
    assert(media::size_text(bytes) =~= text::decimal(bytes) + seq![' ', 'B']);
}

/// The largest unit that a size fills, and its name.
pub open spec fn is_unit_for(bytes: nat, unit: nat, name: Seq<char>) -> bool {
    ||| unit == 1024 && name == "KB"@ && 1024 <= bytes < 1048576
    ||| unit == 1048576 && name == "MB"@ && 1048576 <= bytes < 1073741824
    ||| unit == 1073741824 && name == "GB"@ && 1073741824 <= bytes < 1099511627776
    ||| unit == 1099511627776 && name == "TB"@ && 1099511627776 <= bytes
}

/// A larger size that a double holds is given in the largest unit that it fills,
/// as the number of tenths nearest to it, with one digit behind the point.
pub proof fn a_size_is_given_in_the_unit_that_it_fills(bytes: nat, unit: nat, name: Seq<char>)
    requires
        bytes < 0x20_0000_0000_0000,
        is_unit_for(bytes, unit, name),
    ensures
        exists|tenths: nat| #[trigger] is_given_as(bytes, unit, name, tenths),
{
    rounding::what_a_double_holds_is_exact(bytes);
    let tenths = rounding::half_even(10 * bytes, unit);
    rounding::lemma_half_even(10 * bytes, unit);
    reveal_strlit(".");
    reveal_strlit(" ");
    assert(text::decimal(tenths % 10) =~= seq![text::digit(tenths % 10)]);
    assert(2 * unit * tenths == 2 * (unit * tenths)) by (nonlinear_arith);
    assert(media::size_text(bytes) =~= text::decimal(tenths / 10) + seq![
        '.',
        text::digit(tenths % 10),
        ' ',
    ] + name);
    assert(is_given_as(bytes, unit, name, tenths));
}

/// Whether a size is written as so many tenths of a unit, and these are as near to
/// it as tenths can be.
pub open spec fn is_given_as(bytes: nat, unit: nat, name: Seq<char>, tenths: nat) -> bool {
    &&& media::size_text(bytes) == text::decimal(tenths / 10) + seq![
        '.',
        text::digit(tenths % 10),
        ' ',
    ] + name
    &&& 2 * (unit * tenths) <= 20 * bytes + unit
    &&& 20 * bytes <= 2 * (unit * tenths) + unit
}

/// What a caption says of each kind of file, line by line: what it is and how
/// large; how long and by which codec for what plays; how many pages for a
/// document; and nothing more of a picture or any other file.
pub proof fn a_caption_says_what_is_known(
    bytes: u64,
    secs: u64,
    codec: Seq<char>,
    pages: Seq<char>,
)
    ensures
        ({
            let gap = seq![' ', ' ', '·', ' ', ' '];
            let size = media::size_text(bytes as nat);
            let length = "duration  "@ + media::clock_text(secs as nat);
            let names = "codec  "@ + text::joined(
                media::first_two(text::line_list(codec)),
                seq![',', ' '],
            );
            let count = "pages  "@ + pages;
            let s = Some(bytes);
            let t = Some(secs);
            let c = Some(codec);
            let n = Some(pages);
            &&& media::detail_lines(Kind::Image, s, t, c, n) == seq!["image"@ + gap + size]
            &&& media::detail_lines(Kind::Other, s, t, c, n) == seq!["file"@ + gap + size]
            &&& media::detail_lines(Kind::Pdf, s, t, c, n) == seq!["pdf"@ + gap + size, count]
            &&& media::detail_lines(Kind::Video, s, t, c, n) == seq![
                "video"@ + gap + size,
                length,
                names,
            ]
            &&& media::detail_lines(Kind::Audio, s, t, c, n) == seq![
                "audio"@ + gap + size,
                length,
                names,
            ]
        }),
{
    reveal_strlit("  ·  ");
    reveal_strlit(", ");
    let gap = seq![' ', ' ', '·', ' ', ' '];
    assert("  ·  "@ =~= gap);
    assert(", "@ =~= seq![',', ' ']);
    let size = media::size_text(bytes as nat);
    let length = "duration  "@ + media::clock_text(secs as nat);
    let names = "codec  "@ + text::joined(
        media::first_two(text::line_list(codec)),
        seq![',', ' '],
    );
    let count = "pages  "@ + pages;
    let s = Some(bytes);
    let t = Some(secs);
    let c = Some(codec);
    let n = Some(pages);
    assert(media::detail_lines(Kind::Image, s, t, c, n) =~= seq!["image"@ + gap + size]);
    assert(media::detail_lines(Kind::Other, s, t, c, n) =~= seq!["file"@ + gap + size]);
    assert(media::detail_lines(Kind::Pdf, s, t, c, n) =~= seq!["pdf"@ + gap + size, count]);
    assert(media::detail_lines(Kind::Video, s, t, c, n) =~= seq![
        "video"@ + gap + size,
        length,
        names,
    ]);
    assert(media::detail_lines(Kind::Audio, s, t, c, n) =~= seq![
        "audio"@ + gap + size,
        length,
        names,
    ]);
}

/// What is not known is left out of a caption, and the rest stays as it is.
pub proof fn a_caption_leaves_out_what_is_not_known(
    kind: Kind,
    size: Option<u64>,
    secs: Option<u64>,
    codec: Option<Seq<char>>,
    pages: Option<Seq<char>>,
)
    ensures
        media::detail_lines(kind, size, secs, codec, pages) == media::detail_lines(
            kind,
            size,
            None,
            None,
            None,
        ) + media::detail_lines(kind, None, secs, None, None) + media::detail_lines(
            kind,
            None,
            None,
            codec,
            None,
        ) + media::detail_lines(kind, None, None, None, pages),
        media::detail_lines(kind, None, None, None, None) == Seq::<Seq<char>>::empty(),
{
    assert(media::detail_lines(kind, size, secs, codec, pages) =~= media::detail_lines(
        kind,
        size,
        None,
        None,
        None,
    ) + media::detail_lines(kind, None, secs, None, None) + media::detail_lines(
        kind,
        None,
        None,
        codec,
        None,
    ) + media::detail_lines(kind, None, None, None, pages));
}

/// No more than two codecs are named, and they are the first two.
pub proof fn no_more_than_two_codecs_are_named(a: Seq<char>, b: Seq<char>, rest: Seq<Seq<char>>)
    ensures
        media::first_two(seq![a, b] + rest) == seq![a, b],
        media::first_two(seq![a]) == seq![a],
        media::first_two(Seq::empty()) == Seq::<Seq<char>>::empty(),
{
    assert((seq![a, b] + rest).take(2) =~= seq![a, b]);
    assert(media::first_two(seq![a, b] + rest) =~= seq![a, b]);
}

/// The value of a key is what follows it on the first line that begins with it,
/// without the space around; there is none where no line does.
pub proof fn the_first_line_with_the_key_has_the_value(
    above: Seq<Seq<char>>,
    key: Seq<char>,
    value: Seq<char>,
    below: Seq<Seq<char>>,
)
    requires
        forall|i: int| 0 <= i < above.len() ==> !key.is_prefix_of(#[trigger] above[i]),
    ensures
        media::value_in(above + seq![key + value] + below, key) == Some(text::trimmed(value)),
        media::value_in(above, key) is None,
    decreases above.len(),
{
    let all = above + seq![key + value] + below;
    if above.len() == 0 {
        assert(all.first() =~= key + value);
        assert((key + value).take(key.len() as int) =~= key);
        assert((key + value).skip(key.len() as int) =~= value);
    } else {
        let rest = above.drop_first();
        assert forall|i: int| 0 <= i < rest.len() implies !key.is_prefix_of(#[trigger] rest[i]) by {
            assert(rest[i] == above[i + 1]);
        }
        assert(all.drop_first() =~= rest + seq![key + value] + below);
        assert(!key.is_prefix_of(above[0]));
        if text::begins(above[0], key) {
            assert(above[0].take(key.len() as int) =~= above[0].subrange(0, key.len() as int));
        }
        the_first_line_with_the_key_has_the_value(rest, key, value, below);
    }
}

/// A probe answers with what it printed but the space around it, and does not where
/// it printed nothing else.
pub proof fn a_probe_answers_with_what_it_printed(output: Seq<char>)
    ensures
        match media::answer(output) {
            Some(said) => said == text::trimmed(output) && said.len() > 0,
            None => text::trimmed(output) == Seq::<char>::empty(),
        },
{
    if text::trimmed(output).len() == 0 {
        assert(text::trimmed(output) =~= Seq::<char>::empty());
    }
}

} // verus!
