//! Turning a file into a picture and a caption: which files are previewable,
//! how a picture is fitted to the preview, and the lines under it.
use crate::path;
use crate::picture;
use crate::picture::{Layout, PictureView};
use crate::planes;
use crate::rounding;
use crate::text;
use vstd::prelude::*;
use vstd::string::StringExecFns;

verus! {

#[derive(Clone, Copy, PartialEq, Eq, Structural, Debug)]
pub enum Kind {
    Image,
    Video,
    Pdf,
    Audio,
    Other,
}

// ---------------------------------------------------------------------------
// What a file is
// ---------------------------------------------------------------------------

/// The extensions of pictures, in lower case.
pub open spec fn image_extensions() -> Seq<Seq<char>> {
    seq![
        "png"@, "jpg"@, "jpeg"@, "gif"@, "webp"@, "bmp"@, "tiff"@, "tif"@, "ico"@, "avif"@,
        "heic"@, "heif"@, "jxl"@, "ppm"@, "pgm"@,
    ]
}

/// The extensions of videos, in lower case.
pub open spec fn video_extensions() -> Seq<Seq<char>> {
    seq![
        "mp4"@, "mov"@, "mkv"@, "webm"@, "avi"@, "m4v"@, "wmv"@, "flv"@, "mpg"@, "mpeg"@, "ts"@,
        "ogv"@,
    ]
}

/// The extensions of sound files, in lower case.
pub open spec fn audio_extensions() -> Seq<Seq<char>> {
    seq!["mp3"@, "flac"@, "wav"@, "ogg"@, "m4a"@, "aac"@, "opus"@, "wma"@]
}

/// What a file with a given extension, in lower case, is.
pub open spec fn kind_of_extension(ext: Seq<char>) -> Kind {
    if image_extensions().contains(ext) {
        Kind::Image
    } else if video_extensions().contains(ext) {
        Kind::Video
    } else if ext == "pdf"@ {
        Kind::Pdf
    } else if audio_extensions().contains(ext) {
        Kind::Audio
    } else {
        Kind::Other
    }
}

/// Whether `word` is one of `list`.
fn is_one_of(word: &str, list: &Vec<&str>) -> (yes: bool)
    ensures
        yes == Seq::new(list@.len(), |i: int| list@[i]@).contains(word@),
{
    let ghost all = Seq::new(list@.len(), |i: int| list@[i]@);
    let mut i: usize = 0;
    while i < list.len()
        invariant
            i <= list@.len(),
            all == Seq::new(list@.len(), |i: int| list@[i]@),
            forall|k: int| 0 <= k < i ==> all[k] != word@,
        decreases list@.len() - i,
    {
        if text::same_text(word, list[i]) {
            assert(all[i as int] == word@);
            return true;
        }
        i += 1;
    }
    false
}

/// What a file with the extension `ext`, in lower case, is.
pub fn kind_of(ext: &str) -> (kind: Kind)
    ensures
        kind == kind_of_extension(ext@),
{
    let images: Vec<&str> = vec![
        "png", "jpg", "jpeg", "gif", "webp", "bmp", "tiff", "tif", "ico", "avif", "heic", "heif",
        "jxl", "ppm", "pgm",
    ];
    assert(Seq::new(images@.len(), |i: int| images@[i]@) =~= image_extensions());
    if is_one_of(ext, &images) {
        return Kind::Image;
    }
    let videos: Vec<&str> = vec![
        "mp4", "mov", "mkv", "webm", "avi", "m4v", "wmv", "flv", "mpg", "mpeg", "ts", "ogv",
    ];
    assert(Seq::new(videos@.len(), |i: int| videos@[i]@) =~= video_extensions());
    if is_one_of(ext, &videos) {
        return Kind::Video;
    }
    if text::same_text(ext, "pdf") {
        return Kind::Pdf;
    }
    let sounds: Vec<&str> = vec!["mp3", "flac", "wav", "ogg", "m4a", "aac", "opus", "wma"];
    assert(Seq::new(sounds@.len(), |i: int| sounds@[i]@) =~= audio_extensions());
    if is_one_of(ext, &sounds) {
        return Kind::Audio;
    }
    Kind::Other
}

/// What a path's extension makes of the file, whatever case it is written in.
pub open spec fn kind_of_path(path: Seq<char>) -> Kind {
    match path::extension(path) {
        Some(ext) => kind_of_extension(text::lowered(text::lowered_ascii(ext))),
        None => Kind::Other,
    }
}

/// What a file is, going by its extension alone. Its ASCII letters are put in
/// lower case first, and then the rest of it.
pub fn classify(path: &str) -> (kind: Kind)
    ensures
        kind == kind_of_path(path@),
{
    match path::extension_of(path) {
        Some(ext) => kind_of(
            text::to_lowercase(text::to_lower_ascii(ext.as_str()).as_str()).as_str(),
        ),
        None => Kind::Other,
    }
}

/// Whether two paths end in the same extension up to the case of its ASCII
/// letters, or in none.
pub open spec fn same_extension(p: Seq<char>, q: Seq<char>) -> bool {
    match (path::extension(p), path::extension(q)) {
        (Some(a), Some(b)) => text::lowered_ascii(a) == text::lowered_ascii(b),
        (None, None) => true,
        _ => false,
    }
}

/// A file goes by its extension alone: neither the directory it is in nor the
/// rest of its name plays a part, nor does the case of ASCII letters.
pub proof fn a_file_goes_by_its_extension(p: Seq<char>, q: Seq<char>)
    requires
        same_extension(p, q),
    ensures
        kind_of_path(p) == kind_of_path(q),
{
}

/// A name with no dot past its first character has no extension, and the file is
/// nothing in particular: a dotfile such as `.png` is no picture.
pub proof fn a_dotfile_has_no_extension(path: Seq<char>, name: Seq<char>)
    requires
        path::final_name(path) == Some(name),
        forall|i: int| 0 < i < name.len() ==> name[i] != '.',
    ensures
        path::extension(path) is None,
        kind_of_path(path) == Kind::Other,
{
    path::lemma_last_position(
        name,
        '.',
        if name.len() > 0 && name[0] == '.' {
            0
        } else {
            -1
        },
    );
}

/// What to call a kind of file.
pub open spec fn label_of(kind: Kind) -> Seq<char> {
    match kind {
        Kind::Image => "image"@,
        Kind::Video => "video"@,
        Kind::Pdf => "pdf"@,
        Kind::Audio => "audio"@,
        Kind::Other => "file"@,
    }
}

pub fn kind_label(kind: Kind) -> (label: &'static str)
    ensures
        label@ == label_of(kind),
{
    match kind {
        Kind::Image => "image",
        Kind::Video => "video",
        Kind::Pdf => "pdf",
        Kind::Audio => "audio",
        Kind::Other => "file",
    }
}

// ---------------------------------------------------------------------------
// Fitting a picture to the preview
// ---------------------------------------------------------------------------

/// How far to scale `source` so that it fits inside `bounds`, never up: the
/// smallest of the ratio on each axis and one.
pub open spec fn fit_ratio(source: (nat, nat), bounds: (nat, nat)) -> (nat, nat) {
    picture::lesser(picture::lesser((bounds.0, source.0), (bounds.1, source.1)), (1, 1))
}

/// The pixels that `source` takes up once it is scaled to fit inside `bounds`.
pub open spec fn target(source: (nat, nat), bounds: (nat, nat)) -> (nat, nat) {
    let ratio = fit_ratio(source, bounds);
    (picture::scaled_side(source.0, ratio), picture::scaled_side(source.1, ratio))
}

/// How many whole cells of `cell` pixels it takes to cover `n` pixels.
pub open spec fn cells_over(n: nat, cell: nat) -> nat {
    ((n + cell - 1) / (cell as int)) as nat
}

/// Whether there is no picture, or nowhere to put one.
pub open spec fn is_degenerate(source: (u32, u32), max_cells: (u16, u16)) -> bool {
    source.0 == 0 || source.1 == 0 || max_cells.0 == 0 || max_cells.1 == 0
}

pub open spec fn pixels(size: (u32, u32)) -> (nat, nat) {
    (size.0 as nat, size.1 as nat)
}

/// The pixels that a rectangle of cells covers.
pub open spec fn cell_pixels(cells: (u16, u16), cell: (u32, u32)) -> (nat, nat) {
    (cells.0 as nat * cell.0 as nat, cells.1 as nat * cell.1 as nat)
}

/// The cell rectangle that best matches a picture's shape: what the scaled
/// picture needs, in whole cells.
pub open spec fn fitted(source: (u32, u32), max_cells: (u16, u16), cell: (u32, u32)) -> (nat, nat) {
    if is_degenerate(source, max_cells) {
        (1, 1)
    } else {
        let (w, h) = target(pixels(source), cell_pixels(max_cells, cell));
        (cells_over(w, cell.0 as nat), cells_over(h, cell.1 as nat))
    }
}

/// Whether a cell has a size, and the whole preview one that can be counted.
pub open spec fn cells_count(max_cells: (u16, u16), cell: (u32, u32)) -> bool {
    &&& cell.0 > 0
    &&& cell.1 > 0
    &&& cell_pixels(max_cells, cell).0 <= u32::MAX
    &&& cell_pixels(max_cells, cell).1 <= u32::MAX
}

pub(crate) proof fn lemma_product_positive(a: nat, b: nat)
    requires
        a > 0,
        b > 0,
    ensures
        a * b > 0,
{
    assert(a * b > 0) by (nonlinear_arith)
        requires
            a > 0,
            b > 0,
    ;
}

proof fn lemma_product_of_u32(a: u32, b: u32)
    ensures
        0 <= a * b <= u64::MAX,
{
    assert(0 <= a * b <= 0xffff_ffff * 0xffff_ffff) by (nonlinear_arith)
        requires
            0 <= a <= 0xffff_ffff,
            0 <= b <= 0xffff_ffff,
    ;
}

/// The ratio chosen is none of them but the smallest.
pub(crate) proof fn lemma_fit_ratio(source: (nat, nat), bounds: (nat, nat))
    requires
        source.0 > 0,
        source.1 > 0,
        bounds.0 > 0,
        bounds.1 > 0,
    ensures
        ({
            let r = fit_ratio(source, bounds);
            &&& r.0 > 0
            &&& r.1 > 0
            &&& source.0 * r.0 <= bounds.0 * r.1
            &&& source.1 * r.0 <= bounds.1 * r.1
            &&& r.0 <= r.1
            &&& r == (1nat, 1nat) || r == (bounds.0, source.0) || r == (bounds.1, source.1)
        }),
{
    let a = (bounds.0, source.0);
    let b = (bounds.1, source.1);
    let m = picture::lesser(a, b);
    let r = fit_ratio(source, bounds);
    assert(m.0 * 1 <= 1 * m.1 <==> m.0 <= m.1);
    assert(source.0 * m.0 <= bounds.0 * m.1 && source.1 * m.0 <= bounds.1 * m.1) by {
        assert(source.0 * bounds.0 == bounds.0 * source.0) by (nonlinear_arith);
        assert(source.1 * bounds.1 == bounds.1 * source.1) by (nonlinear_arith);
        assert(source.0 * bounds.1 == bounds.1 * source.0) by (nonlinear_arith);
        assert(source.1 * bounds.0 == bounds.0 * source.1) by (nonlinear_arith);
    }
    if r == (1nat, 1nat) && m != (1nat, 1nat) {
        assert(m.1 <= m.0);
        assert(source.0 <= bounds.0) by (nonlinear_arith)
            requires
                source.0 * m.0 <= bounds.0 * m.1,
                m.1 <= m.0,
                m.0 > 0,
        ;
        assert(source.1 <= bounds.1) by (nonlinear_arith)
            requires
                source.1 * m.0 <= bounds.1 * m.1,
                m.1 <= m.0,
                m.0 > 0,
        ;
    }
}

/// One scaled side is at least one pixel and no more than it may be.
pub(crate) proof fn lemma_scaled_side(n: nat, ratio: (nat, nat), bound: nat)
    requires
        ratio.0 > 0,
        ratio.1 > 0,
        n * ratio.0 <= bound * ratio.1,
        1 <= bound <= u32::MAX,
    ensures
        1 <= picture::scaled_side(n, ratio) <= bound,
{
    rounding::lemma_scaled_at_most(n, ratio.0, ratio.1, bound);
}

/// Pixels that fit on a row of cells need no more cells than the row has.
proof fn lemma_cells_over(n: nat, cells: nat, cell: nat)
    requires
        1 <= n <= cells * cell,
        cell > 0,
    ensures
        1 <= cells_over(n, cell) <= cells,
        n <= cells_over(n, cell) * cell < n + cell,
        n == cells * cell ==> cells_over(n, cell) == cells,
{
    let q = cells_over(n, cell);
    let m = (n + cell - 1) as int;
    assert(q * cell <= m && m < q * cell + cell && q >= 1 && q <= cells) by (nonlinear_arith)
        requires
            q == m / (cell as int),
            m == n + cell - 1,
            1 <= n <= cells * cell,
            cell > 0,
    ;
    if n == cells * cell {
        assert(q == cells) by (nonlinear_arith)
            requires
                cells * cell <= q * cell,
                q <= cells,
                cell > 0,
        ;
    }
}

/// The rectangle is never empty and never overflows the preview.
pub proof fn a_fitted_picture_stays_inside_the_preview(
    source: (u32, u32),
    max_cells: (u16, u16),
    cell: (u32, u32),
)
    requires
        is_degenerate(source, max_cells) || cells_count(max_cells, cell),
    ensures
        fitted(source, max_cells, cell).0 >= 1,
        fitted(source, max_cells, cell).1 >= 1,
        !is_degenerate(source, max_cells) ==> fitted(source, max_cells, cell).0 <= max_cells.0
            && fitted(source, max_cells, cell).1 <= max_cells.1,
{
    if !is_degenerate(source, max_cells) {
        lemma_fitted(source, max_cells, cell);
    }
}

pub(crate) proof fn lemma_fitted(source: (u32, u32), max_cells: (u16, u16), cell: (u32, u32))
    requires
        !is_degenerate(source, max_cells),
        cells_count(max_cells, cell),
    ensures
        ({
            let bounds = cell_pixels(max_cells, cell);
            let t = target(pixels(source), bounds);
            let f = fitted(source, max_cells, cell);
            &&& 1 <= t.0 <= bounds.0
            &&& 1 <= t.1 <= bounds.1
            &&& 1 <= f.0 <= max_cells.0
            &&& 1 <= f.1 <= max_cells.1
            &&& t.0 <= f.0 * cell.0 < t.0 + cell.0
            &&& t.1 <= f.1 * cell.1 < t.1 + cell.1
            &&& t.0 == bounds.0 ==> f.0 == max_cells.0
            &&& t.1 == bounds.1 ==> f.1 == max_cells.1
        }),
{
    let bounds = cell_pixels(max_cells, cell);
    let from = pixels(source);
    lemma_product_positive(max_cells.0 as nat, cell.0 as nat);
    lemma_product_positive(max_cells.1 as nat, cell.1 as nat);
    lemma_fit_ratio(from, bounds);
    let r = fit_ratio(from, bounds);
    let t = target(from, bounds);
    lemma_scaled_side(from.0, r, bounds.0);
    lemma_scaled_side(from.1, r, bounds.1);
    lemma_cells_over(t.0, max_cells.0 as nat, cell.0 as nat);
    lemma_cells_over(t.1, max_cells.1 as nat, cell.1 as nat);
}

/// A picture is never scaled up: it takes no more pixels than it has, and one
/// that fits as it is keeps its own size.
pub proof fn a_picture_is_never_scaled_up(
    source: (u32, u32),
    max_cells: (u16, u16),
    cell: (u32, u32),
)
    requires
        !is_degenerate(source, max_cells),
        cells_count(max_cells, cell),
    ensures
        ({
            let bounds = cell_pixels(max_cells, cell);
            let t = target(pixels(source), bounds);
            &&& t.0 <= source.0
            &&& t.1 <= source.1
            &&& source.0 <= bounds.0 && source.1 <= bounds.1 ==> t == pixels(source)
        }),
{
    let bounds = cell_pixels(max_cells, cell);
    let from = pixels(source);
    lemma_product_positive(max_cells.0 as nat, cell.0 as nat);
    lemma_product_positive(max_cells.1 as nat, cell.1 as nat);
    lemma_fit_ratio(from, bounds);
    let r = fit_ratio(from, bounds);
    assert(from.0 * r.0 <= from.0 * r.1) by (nonlinear_arith)
        requires
            r.0 <= r.1,
    ;
    assert(from.1 * r.0 <= from.1 * r.1) by (nonlinear_arith)
        requires
            r.0 <= r.1,
    ;
    lemma_scaled_side(from.0, r, from.0);
    lemma_scaled_side(from.1, r, from.1);
    if from.0 <= bounds.0 && from.1 <= bounds.1 {
        assert(r.0 == r.1);
        rounding::lemma_scaled_exact(from.0, r.0, r.1, from.0);
        rounding::lemma_scaled_exact(from.1, r.0, r.1, from.1);
    }
}

/// A picture keeps its shape: both of its sides are scaled by the same ratio, to
/// within a pixel.
pub proof fn a_picture_keeps_its_shape(
    source: (u32, u32),
    max_cells: (u16, u16),
    cell: (u32, u32),
)
    requires
        !is_degenerate(source, max_cells),
        cells_count(max_cells, cell),
    ensures
        ({
            let bounds = cell_pixels(max_cells, cell);
            let t = target(pixels(source), bounds);
            let r = fit_ratio(pixels(source), bounds);
            &&& (t.0 - 1) * r.1 < source.0 * r.0 < (t.0 + 1) * r.1
            &&& (t.1 - 1) * r.1 < source.1 * r.0 < (t.1 + 1) * r.1
        }),
{
    let bounds = cell_pixels(max_cells, cell);
    let from = pixels(source);
    lemma_product_positive(max_cells.0 as nat, cell.0 as nat);
    lemma_product_positive(max_cells.1 as nat, cell.1 as nat);
    lemma_fit_ratio(from, bounds);
    let r = fit_ratio(from, bounds);
    lemma_scaled_side_is_close(from.0, r, bounds.0);
    lemma_scaled_side_is_close(from.1, r, bounds.1);
}

pub(crate) proof fn lemma_scaled_side_is_close(n: nat, ratio: (nat, nat), bound: nat)
    requires
        n > 0,
        ratio.0 > 0,
        ratio.1 > 0,
        n * ratio.0 <= bound * ratio.1,
        1 <= bound <= u32::MAX,
    ensures
        (picture::scaled_side(n, ratio) - 1) * ratio.1 < n * ratio.0 < (picture::scaled_side(
            n,
            ratio,
        ) + 1) * ratio.1,
{
    let (a, b) = ratio;
    let x = n * a;
    let q = x / b;
    lemma_product_positive(n, a);
    vstd::arithmetic::div_mod::lemma_fundamental_div_mod(x as int, b as int);
    assert(q * b <= x < (q + 1) * b && q <= bound) by (nonlinear_arith)
        requires
            x == b * q + x % b,
            0 <= x % b < b,
            x <= bound * b,
            b > 0,
    ;
    rounding::lemma_scaled_at_least(n, a, b, q);
    if x == q * b {
        rounding::lemma_scaled_at_most(n, a, b, q);
    } else {
        assert(q + 1 <= bound) by (nonlinear_arith)
            requires
                q * b < x,
                x <= bound * b,
                b > 0,
        ;
        rounding::lemma_scaled_at_most(n, a, b, q + 1);
    }
    let s = picture::scaled_side(n, ratio);
    assert((s - 1) * b < x < (s + 1) * b) by (nonlinear_arith)
        requires
            q * b <= x < (q + 1) * b,
            x > 0,
            b > 0,
            s == q && s >= 1 || s == q + 1 && x > q * b || s == 1 && q == 0,
    ;
}

/// A picture too large for the preview fills it along one axis.
pub proof fn a_shrunk_picture_fills_one_axis(
    source: (u32, u32),
    max_cells: (u16, u16),
    cell: (u32, u32),
)
    requires
        !is_degenerate(source, max_cells),
        cells_count(max_cells, cell),
        source.0 > cell_pixels(max_cells, cell).0 || source.1 > cell_pixels(max_cells, cell).1,
    ensures
        fitted(source, max_cells, cell).0 == max_cells.0 || fitted(source, max_cells, cell).1
            == max_cells.1,
{
    let bounds = cell_pixels(max_cells, cell);
    let from = pixels(source);
    lemma_product_positive(max_cells.0 as nat, cell.0 as nat);
    lemma_product_positive(max_cells.1 as nat, cell.1 as nat);
    lemma_fit_ratio(from, bounds);
    lemma_fitted(source, max_cells, cell);
    let r = fit_ratio(from, bounds);
    if r == (bounds.0, from.0) {
        assert(from.0 * r.0 == bounds.0 * r.1) by (nonlinear_arith)
            requires
                r == (bounds.0, from.0),
        ;
        rounding::lemma_scaled_exact(from.0, r.0, r.1, bounds.0);
    } else if r == (bounds.1, from.1) {
        assert(from.1 * r.0 == bounds.1 * r.1) by (nonlinear_arith)
            requires
                r == (bounds.1, from.1),
        ;
        rounding::lemma_scaled_exact(from.1, r.0, r.1, bounds.1);
    } else {
        assert(r == (1nat, 1nat));
        assert(from.0 * 1 <= bounds.0 * 1 && from.1 * 1 <= bounds.1 * 1);
    }
}

/// The cell rectangle that best matches `source`'s shape, never upscaling.
///
/// Rounding up to whole cells is what makes the aspect ratio survive: the canvas
/// is then padded to that exact rectangle, so canvas pixels map to pane pixels
/// one to one instead of being stretched to fill the pane.
pub fn fit(source: (u32, u32), max_cells: (u16, u16), cell: (u32, u32)) -> (cells: (u16, u16))
    requires
        is_degenerate(source, max_cells) || cells_count(max_cells, cell),
    ensures
        (cells.0 as nat, cells.1 as nat) == fitted(source, max_cells, cell),
{
    if source.0 == 0 || source.1 == 0 || max_cells.0 == 0 || max_cells.1 == 0 {
        return (1, 1);
    }
    proof {
        lemma_fitted(source, max_cells, cell);
        lemma_product_positive(max_cells.0 as nat, cell.0 as nat);
        lemma_product_positive(max_cells.1 as nat, cell.1 as nat);
        lemma_fit_ratio(pixels(source), cell_pixels(max_cells, cell));
    }
    let bounds = (max_cells.0 as u32 * cell.0, max_cells.1 as u32 * cell.1);
    proof {
        lemma_product_of_u32(bounds.0, source.1);
        lemma_product_of_u32(bounds.1, source.0);
    }
    let (n, d) = if (bounds.0 as u64) * (source.1 as u64) <= (bounds.1 as u64) * (source.0 as u64) {
        (bounds.0, source.0)
    } else {
        (bounds.1, source.1)
    };
    let (n, d): (u32, u32) = if n <= d {
        (n, d)
    } else {
        (1, 1)
    };
    assert((n as nat, d as nat) == fit_ratio(pixels(source), cell_pixels(max_cells, cell)));
    let ratio = rounding::divide(n, d);
    let w = rounding::scale(source.0, ratio);
    let h = rounding::scale(source.1, ratio);
    let w: u64 = if w < 1 {
        1
    } else {
        w as u64
    };
    let h: u64 = if h < 1 {
        1
    } else {
        h as u64
    };
    assert((w as nat, h as nat) == target(pixels(source), cell_pixels(max_cells, cell)));
    let across = (w + cell.0 as u64 - 1) / (cell.0 as u64);
    let down = (h + cell.1 as u64 - 1) / (cell.1 as u64);
    (across as u16, down as u16)
}

// ---------------------------------------------------------------------------
// Thumbnails
// ---------------------------------------------------------------------------

/// A picture ready for the graphics layer: a canvas whose pixel size is an exact
/// multiple of the cell size, so the placement rectangle it is given has exactly
/// the canvas's own shape and nothing gets stretched.
pub struct Thumb {
    pub png: Vec<u8>,
    /// Canvas pixels: `cells` multiplied by the cell size.
    pub size: (u32, u32),
    /// How many terminal cells the canvas covers.
    pub cells: (u16, u16),
    /// Dimensions of the original, for the info line.
    pub source: (u32, u32),
}

/// What a thumbnail is.
pub struct ThumbView {
    pub png: Seq<u8>,
    pub size: (nat, nat),
    pub cells: (nat, nat),
    pub source: (nat, nat),
}

impl View for Thumb {
    type V = ThumbView;

    open spec fn view(&self) -> ThumbView {
        ThumbView {
            png: self.png@,
            size: pixels(self.size),
            cells: (self.cells.0 as nat, self.cells.1 as nat),
            source: pixels(self.source),
        }
    }
}

/// Whether a canvas as large as the preview, or a single cell at the least, can
/// be held: its sides counted in 32 bits, and its samples in memory.
pub open spec fn canvas_counts(max_cells: (u16, u16), cell: (u32, u32)) -> bool {
    let w = (if max_cells.0 == 0 { 1 } else { max_cells.0 as int }) * cell.0;
    let h = (if max_cells.1 == 0 { 1 } else { max_cells.1 as int }) * cell.1;
    &&& cell.0 > 0
    &&& cell.1 > 0
    &&& w <= u32::MAX
    &&& h <= u32::MAX
    &&& 16 * w * h <= isize::MAX
}

/// Half of what is left of one length beside another.
pub open spec fn margin(whole: nat, part: nat) -> nat {
    if part < whole {
        ((whole - part) / 2) as nat
    } else {
        0
    }
}

/// What lies on either side of a picture is the same, give or take a pixel, and
/// the picture stays on the canvas.
pub proof fn the_margins_match(whole: nat, part: nat)
    requires
        part <= whole,
    ensures
        margin(whole, part) + part <= whole,
        margin(whole, part) <= whole - part - margin(whole, part) <= margin(whole, part) + 1,
{
}

/// A picture as it goes on a canvas of `size` pixels: scaled down if it is
/// larger, and at its own size if it is not.
pub open spec fn sized(p: PictureView, size: (nat, nat)) -> PictureView {
    picture::recoloured(
        if p.width > size.0 || p.height > size.1 {
            picture::shrunk(p, size.0 as u32, size.1 as u32)
        } else {
            p
        },
    )
}

/// Whether one picture is no larger than another, and fits on a canvas of `size`
/// pixels.
pub open spec fn is_no_larger(a: PictureView, b: PictureView, size: (nat, nat)) -> bool {
    a.width <= b.width && a.height <= b.height && a.width <= size.0 && a.height <= size.1
}

/// A transparent canvas of `size` pixels with a picture in the middle of it.
pub open spec fn canvas_of(p: PictureView, size: (nat, nat)) -> PictureView {
    let inner = sized(p, size);
    picture::overlaid(
        picture::transparent(size.0 as u32, size.1 as u32),
        inner,
        margin(size.0, inner.width as nat) as i64,
        margin(size.1, inner.height as nat) as i64,
    )
}

/// How many pixels the canvas of a picture has.
pub open spec fn canvas_size(p: PictureView, max_cells: (u16, u16), cell: (u32, u32)) -> (
    nat,
    nat,
) {
    let cells = fitted((p.width, p.height), max_cells, cell);
    (cells.0 * cell.0 as nat, cells.1 * cell.1 as nat)
}

/// Whether a picture can be brought to the size of a canvas: one that is larger
/// has to be averaged, and the averages have to add up.
pub open spec fn can_size(p: PictureView, size: (nat, nat)) -> bool {
    p.width > size.0 || p.height > size.1 ==> picture::averages_fit(
        p,
        picture::scaled_size((p.width as nat, p.height as nat), size),
    )
}

/// The thumbnail of a picture: the canvas that fits it, as a PNG.
pub open spec fn thumb_of(p: PictureView, max_cells: (u16, u16), cell: (u32, u32)) -> Result<
    ThumbView,
    Seq<char>,
> {
    let cells = fitted((p.width, p.height), max_cells, cell);
    let size = canvas_size(p, max_cells, cell);
    match picture::encoded(canvas_of(p, size)) {
        Ok(png) => Ok(
            ThumbView { png, size, cells, source: pixels((p.width, p.height)) },
        ),
        Err(why) => Err("encode failed: "@ + why),
    }
}

/// What comes of making a thumbnail of any picture: one too large to be brought
/// to the size of its canvas without an average overflowing gets none.
pub open spec fn preview_of(p: PictureView, max_cells: (u16, u16), cell: (u32, u32)) -> Result<
    ThumbView,
    Seq<char>,
> {
    if can_size(p, canvas_size(p, max_cells, cell)) {
        thumb_of(p, max_cells, cell)
    } else {
        Err("too large to shrink"@)
    }
}

/// What a result says, thumbnail or reason.
pub open spec fn outcome_view(out: Result<Thumb, String>) -> Result<ThumbView, Seq<char>> {
    match out {
        Ok(thumb) => Ok(thumb@),
        Err(why) => Err(why@),
    }
}

/// The canvas of a thumbnail covers whole cells, no more of them than there are
/// and never none; and it is large enough for the picture at the size it is
/// shown at.
pub proof fn a_thumbnail_covers_whole_cells(
    p: PictureView,
    max_cells: (u16, u16),
    cell: (u32, u32),
)
    requires
        canvas_counts(max_cells, cell),
    ensures
        thumb_of(p, max_cells, cell) matches Ok(thumb) ==> {
            &&& thumb.size == (thumb.cells.0 * cell.0 as nat, thumb.cells.1 * cell.1 as nat)
            &&& thumb.source == (p.width as nat, p.height as nat)
            &&& thumb.cells.0 >= 1
            &&& thumb.cells.1 >= 1
            &&& !is_degenerate((p.width, p.height), max_cells) ==> {
                let shown = target(thumb.source, cell_pixels(max_cells, cell));
                &&& thumb.cells.0 <= max_cells.0
                &&& thumb.cells.1 <= max_cells.1
                &&& shown.0 <= thumb.size.0 < shown.0 + cell.0
                &&& shown.1 <= thumb.size.1 < shown.1 + cell.1
            }
        },
{
    lemma_canvas((p.width, p.height), max_cells, cell);
    a_fitted_picture_stays_inside_the_preview((p.width, p.height), max_cells, cell);
    if !is_degenerate((p.width, p.height), max_cells) {
        lemma_fitted((p.width, p.height), max_cells, cell);
    }
}

/// Where the bytes of a picture come from.
#[derive(Clone, Copy, PartialEq, Eq, Structural, Debug)]
pub enum Input {
    /// The file itself.
    File,
    /// One frame of a video.
    Frame,
    /// The first page of a document.
    Page,
}

/// What to read to make a picture of a file of some kind, or `None` when there
/// is no picture to be made.
pub fn input_of(kind: Kind) -> (input: Option<Input>)
    ensures
        input == (match kind {
            Kind::Image => Some(Input::File),
            Kind::Video => Some(Input::Frame),
            Kind::Pdf => Some(Input::Page),
            _ => None::<Input>,
        }),
{
    match kind {
        Kind::Image => Some(Input::File),
        Kind::Video => Some(Input::Frame),
        Kind::Pdf => Some(Input::Page),
        _ => None,
    }
}

/// What a renderer printed: its bytes, or why there are none.
pub open spec fn rendering(
    output: Option<Seq<u8>>,
    missing: Seq<char>,
    nothing: Seq<char>,
) -> Result<Seq<u8>, Seq<char>> {
    match output {
        Some(bytes) => if bytes.len() == 0 {
            Err(nothing)
        } else {
            Ok(bytes)
        },
        None => Err(missing),
    }
}

/// What a renderer printed, where it could be run at all.
pub open spec fn output_view(output: Option<Vec<u8>>) -> Option<Seq<u8>> {
    match output {
        Some(bytes) => Some(bytes@),
        None => None,
    }
}

/// The frame that `ffmpeg` printed; `output` is `None` when it could not be run.
pub fn video_frame(output: Option<Vec<u8>>) -> (frame: Result<Vec<u8>, String>)
    ensures
        bytes_view(frame) == rendering(
            output_view(output),
            "ffmpeg not installed"@,
            "no frame decoded"@,
        ),
{
    match output {
        Some(bytes) => if bytes.len() == 0 {
            Err("no frame decoded".to_owned())
        } else {
            Ok(bytes)
        },
        None => Err("ffmpeg not installed".to_owned()),
    }
}

/// The page that `pdftoppm` printed; `output` is `None` when it could not be run.
pub fn pdf_page(output: Option<Vec<u8>>) -> (page: Result<Vec<u8>, String>)
    ensures
        bytes_view(page) == rendering(
            output_view(output),
            "pdftoppm not installed (poppler-utils)"@,
            "no page rendered"@,
        ),
{
    match output {
        Some(bytes) => if bytes.len() == 0 {
            Err("no page rendered".to_owned())
        } else {
            Ok(bytes)
        },
        None => Err("pdftoppm not installed (poppler-utils)".to_owned()),
    }
}

/// What comes of a first attempt at a thumbnail.
pub enum Attempt {
    Done(Result<Thumb, String>),
    /// The file could not be decoded as it is, for this reason. A frame of it
    /// may still do: that is how formats without a decoder of their own get a
    /// picture.
    TryFrame(String),
}

/// What an attempt came to.
pub enum AttemptView {
    Done(Result<ThumbView, Seq<char>>),
    TryFrame(Seq<char>),
}

impl View for Attempt {
    type V = AttemptView;

    open spec fn view(&self) -> AttemptView {
        match *self {
            Attempt::Done(out) => AttemptView::Done(outcome_view(out)),
            Attempt::TryFrame(why) => AttemptView::TryFrame(why@),
        }
    }
}

/// Why a TIFF is not decoded whose samples stand in planes of their own.
pub open spec fn apart() -> Seq<char> {
    "samples in separate planes"@
}

/// What comes of decoding a rendered frame or page and making a thumbnail of it.
pub open spec fn thumb_of_bytes(bytes: Seq<u8>, max_cells: (u16, u16), cell: (u32, u32)) -> Result<
    ThumbView,
    Seq<char>,
> {
    if planes::planes_apart(bytes) {
        Err("decode failed: "@ + apart())
    } else {
        match picture::decoded(bytes) {
            Ok(p) => preview_of(p, max_cells, cell),
            Err(why) => Err("decode failed: "@ + why),
        }
    }
}

/// What comes of a first attempt, from what reading its input gave.
pub open spec fn attempted(
    path: Seq<char>,
    kind: Kind,
    input: Result<Seq<u8>, Seq<char>>,
    max_cells: (u16, u16),
    cell: (u32, u32),
) -> AttemptView {
    match kind {
        Kind::Image => match input {
            Ok(bytes) => if planes::planes_apart(bytes) {
                AttemptView::TryFrame(apart())
            } else {
                match picture::decoded_file(path, bytes) {
                    Ok(p) => AttemptView::Done(preview_of(p, max_cells, cell)),
                    Err(why) => AttemptView::TryFrame(why),
                }
            },
            Err(why) => AttemptView::TryFrame(why),
        },
        Kind::Video | Kind::Pdf => AttemptView::Done(
            match input {
                Ok(bytes) => thumb_of_bytes(bytes, max_cells, cell),
                Err(why) => Err(why),
            },
        ),
        _ => AttemptView::Done(Err("not previewable"@)),
    }
}

/// What reading an input gave.
pub open spec fn bytes_view(input: Result<Vec<u8>, String>) -> Result<Seq<u8>, Seq<char>> {
    match input {
        Ok(bytes) => Ok(bytes@),
        Err(why) => Err(why@),
    }
}

/// Scale a picture to fit inside `max_cells` and centre it on a cell-aligned
/// canvas.
pub fn compose(picture: image::DynamicImage, max_cells: (u16, u16), cell: (u32, u32)) -> (out:
    Result<Thumb, String>)
    requires
        canvas_counts(max_cells, cell),
        can_size(
            picture::picture_of(picture),
            canvas_size(picture::picture_of(picture), max_cells, cell),
        ),
    ensures
        outcome_view(out) == thumb_of(picture::picture_of(picture), max_cells, cell),
        ({
            let p = picture::picture_of(picture);
            let size = canvas_size(p, max_cells, cell);
            p.width > 0 && p.height > 0 ==> is_no_larger(sized(p, size), p, size)
        }),
{
    let source = (picture::width_of(&picture), picture::height_of(&picture));
    proof {
        lemma_canvas(source, max_cells, cell);
    }
    let cells = fit(source, max_cells, cell);
    let size = (cells.0 as u32 * cell.0, cells.1 as u32 * cell.1);
    let ghost p = picture::picture_of(picture);
    let inner = if source.0 > size.0 || source.1 > size.1 {
        let smaller = picture::shrink(&picture, size.0, size.1);
        proof {
            let q = picture::picture_of(smaller);
            lemma_area(q.width, q.height, size);
            if source.0 > 0 && source.1 > 0 {
                lemma_scaled_down(pixels(source), pixels(size));
            }
        }
        picture::to_rgba(&smaller)
    } else {
        proof {
            lemma_area(source.0, source.1, size);
        }
        picture::to_rgba(&picture)
    };
    let mut canvas = picture::blank(size.0, size.1);
    let x = size.0.saturating_sub(picture::width_of(&inner)) / 2;
    let y = size.1.saturating_sub(picture::height_of(&inner)) / 2;
    picture::overlay(&mut canvas, &inner, x as i64, y as i64);
    assert(picture::picture_of(canvas) == canvas_of(p, pixels(size)));
    match picture::to_png(&canvas) {
        Ok(png) => Ok(Thumb { png, size, cells, source }),
        Err(why) => Err("encode failed: ".to_owned().concat(why.as_str())),
    }
}

/// What is larger than its bounds is scaled down to fit them, never up.
proof fn lemma_scaled_down(source: (nat, nat), bounds: (nat, nat))
    requires
        0 < source.0 <= u32::MAX,
        0 < source.1 <= u32::MAX,
        0 < bounds.0,
        0 < bounds.1,
        source.0 > bounds.0 || source.1 > bounds.1,
    ensures
        picture::scaled_size(source, bounds).0 <= source.0,
        picture::scaled_size(source, bounds).1 <= source.1,
{
    let r = picture::lesser((bounds.0, source.0), (bounds.1, source.1));
    assert(r.0 <= r.1) by (nonlinear_arith)
        requires
            r == (bounds.0, source.0) && bounds.0 * source.1 <= bounds.1 * source.0 || r == (
                bounds.1,
                source.1,
            ) && bounds.0 * source.1 > bounds.1 * source.0,
            source.0 > bounds.0 || source.1 > bounds.1,
            source.0 > 0,
            source.1 > 0,
    {
        if r == (bounds.0, source.0) && bounds.0 > source.0 {
            assert(bounds.0 * source.1 > source.0 * source.1);
            assert(bounds.1 * source.0 < source.1 * source.0);
        }
        if r == (bounds.1, source.1) && bounds.1 > source.1 {
            assert(bounds.1 * source.0 > source.1 * source.0);
            assert(bounds.0 * source.1 < source.0 * source.1);
        }
    }
    assert(source.0 * r.0 <= source.0 * r.1 && source.1 * r.0 <= source.1 * r.1)
        by (nonlinear_arith)
        requires
            r.0 <= r.1,
    ;
    rounding::lemma_scaled_at_most(source.0, r.0, r.1, source.0);
    rounding::lemma_scaled_at_most(source.1, r.0, r.1, source.1);
}

/// A picture no larger than a canvas takes no more room than it.
proof fn lemma_area(width: u32, height: u32, size: (u32, u32))
    requires
        width <= size.0,
        height <= size.1,
    ensures
        4 * width * height <= 4 * size.0 * size.1,
        0 <= 4 * size.0 * size.1,
        4 * size.0 * size.1 <= 16 * size.0 * size.1,
{
    assert(4 * width * height <= 4 * size.0 * size.1) by (nonlinear_arith)
        requires
            0 <= width <= size.0,
            0 <= height <= size.1,
    ;
    assert(0 <= 4 * size.0 * size.1 <= 16 * size.0 * size.1) by (nonlinear_arith)
        requires
            0 <= size.0,
            0 <= size.1,
    ;
}

/// How many samples can be added up.
fn sample_limit(picture: &image::DynamicImage) -> (limit: u128)
    ensures
        limit == picture::most_samples(picture::picture_of(*picture).layout),
{
    match picture::layout_of(picture) {
        Layout::Luma8 | Layout::LumaAlpha8 | Layout::Rgb8 | Layout::Rgba8 => 16810048,
        Layout::Rgb32F | Layout::Rgba32F => 4294967295,
        _ => 65536,
    }
}

/// Whether a picture can be brought to the size of a canvas.
fn fits_or_shrinks(picture: &image::DynamicImage, size: (u32, u32)) -> (yes: bool)
    requires
        size.0 > 0,
        size.1 > 0,
    ensures
        yes == can_size(picture::picture_of(*picture), pixels(size)),
{
    let w = picture::width_of(picture);
    let h = picture::height_of(picture);
    if w <= size.0 && h <= size.1 {
        return true;
    }
    if w == 0 || h == 0 {
        return true;
    }
    proof {
        lemma_product_of_u32(size.0, h);
        lemma_product_of_u32(size.1, w);
    }
    let (n, d) = if (size.0 as u64) * (h as u64) <= (size.1 as u64) * (w as u64) {
        (size.0, w)
    } else {
        (size.1, h)
    };
    let ratio = rounding::divide(n, d);
    let across = rounding::scale(w, ratio);
    let down = rounding::scale(h, ratio);
    let across: u128 = if across < 1 {
        1
    } else {
        across
    };
    let down: u128 = if down < 1 {
        1
    } else {
        down
    };
    let a = spread_of(w, across);
    let b = spread_of(h, down);
    proof {
        assert(a * b <= 0x1_ffff_ffff * 0x1_ffff_ffff) by (nonlinear_arith)
            requires
                0 <= a <= 0x1_ffff_ffff,
                0 <= b <= 0x1_ffff_ffff,
        ;
    }
    a * b <= sample_limit(picture)
}

/// How many pixels a single one stands for, at the most.
fn spread_of(n: u32, m: u128) -> (out: u128)
    requires
        m >= 1,
    ensures
        out == picture::spread(n as nat, m as nat),
        out <= 0x1_ffff_ffff,
{
    assert(n as nat / m as nat <= n) by (nonlinear_arith)
        requires
            m >= 1,
            n >= 0,
    ;
    if n < 16777216 && n as u128 % m == 0 {
        n as u128 / m
    } else {
        n as u128 / m + n as u128 / 4194304 + 2
    }
}

/// Make a thumbnail of a picture, if it can be brought to the size of its canvas.
pub fn preview(picture: image::DynamicImage, max_cells: (u16, u16), cell: (u32, u32)) -> (out:
    Result<Thumb, String>)
    requires
        canvas_counts(max_cells, cell),
    ensures
        outcome_view(out) == preview_of(picture::picture_of(picture), max_cells, cell),
        ({
            let p = picture::picture_of(picture);
            let size = canvas_size(p, max_cells, cell);
            p.width > 0 && p.height > 0 && can_size(p, size) ==> is_no_larger(
                sized(p, size),
                p,
                size,
            )
        }),
{
    let source = (picture::width_of(&picture), picture::height_of(&picture));
    proof {
        lemma_canvas(source, max_cells, cell);
    }
    let cells = fit(source, max_cells, cell);
    let size = (cells.0 as u32 * cell.0, cells.1 as u32 * cell.1);
    assert(pixels(size) == canvas_size(picture::picture_of(picture), max_cells, cell));
    if fits_or_shrinks(&picture, size) {
        compose(picture, max_cells, cell)
    } else {
        Err("too large to shrink".to_owned())
    }
}

/// The canvas of any picture is one that can be held.
proof fn lemma_canvas(source: (u32, u32), max_cells: (u16, u16), cell: (u32, u32))
    requires
        canvas_counts(max_cells, cell),
    ensures
        is_degenerate(source, max_cells) || cells_count(max_cells, cell),
        ({
            let cells = fitted(source, max_cells, cell);
            let w = cells.0 * cell.0;
            let h = cells.1 * cell.1;
            &&& 0 < w <= u32::MAX
            &&& 0 < h <= u32::MAX
            &&& 16 * w * h <= isize::MAX
        }),
{
    let m0 = if max_cells.0 == 0 {
        1
    } else {
        max_cells.0 as int
    };
    let m1 = if max_cells.1 == 0 {
        1
    } else {
        max_cells.1 as int
    };
    a_fitted_picture_stays_inside_the_preview(source, max_cells, cell);
    let cells = fitted(source, max_cells, cell);
    let w = cells.0 * cell.0;
    let h = cells.1 * cell.1;
    lemma_product_positive(cells.0, cell.0 as nat);
    lemma_product_positive(cells.1, cell.1 as nat);
    assert(w <= m0 * cell.0) by (nonlinear_arith)
        requires
            w == cells.0 * cell.0,
            cells.0 <= m0,
    ;
    assert(h <= m1 * cell.1) by (nonlinear_arith)
        requires
            h == cells.1 * cell.1,
            cells.1 <= m1,
    ;
    assert(16 * w * h <= 16 * (m0 * cell.0) * (m1 * cell.1)) by (nonlinear_arith)
        requires
            0 < w <= m0 * cell.0,
            0 < h <= m1 * cell.1,
    ;
}

/// Make a thumbnail of the file at `path`, from what reading its input gave.
pub fn thumbnail(
    path: &str,
    kind: Kind,
    input: Result<Vec<u8>, String>,
    max_cells: (u16, u16),
    cell: (u32, u32),
) -> (out: Attempt)
    requires
        canvas_counts(max_cells, cell),
    ensures
        out@ == attempted(path@, kind, bytes_view(input), max_cells, cell),
{
    match kind {
        Kind::Image => match input {
            Ok(bytes) => if planes::has_planes_apart(&bytes) {
                Attempt::TryFrame("samples in separate planes".to_owned())
            } else {
                match picture::decode_file(path, &bytes) {
                    Ok(picture) => Attempt::Done(preview(picture, max_cells, cell)),
                    Err(why) => Attempt::TryFrame(why),
                }
            },
            Err(why) => Attempt::TryFrame(why),
        },
        Kind::Video | Kind::Pdf => match input {
            Ok(bytes) => Attempt::Done(decode_bytes(&bytes, max_cells, cell)),
            Err(why) => Attempt::Done(Err(why)),
        },
        _ => Attempt::Done(Err("not previewable".to_owned())),
    }
}

/// Make a thumbnail of a rendered frame or page.
pub fn decode_bytes(bytes: &Vec<u8>, max_cells: (u16, u16), cell: (u32, u32)) -> (out: Result<
    Thumb,
    String,
>)
    requires
        canvas_counts(max_cells, cell),
    ensures
        outcome_view(out) == thumb_of_bytes(bytes@, max_cells, cell),
{
    if planes::has_planes_apart(bytes) {
        return Err("decode failed: ".to_owned().concat("samples in separate planes"));
    }
    match picture::decode(bytes) {
        Ok(picture) => preview(picture, max_cells, cell),
        Err(why) => Err("decode failed: ".to_owned().concat(why.as_str())),
    }
}

/// Make a thumbnail of a frame of a picture that could not be decoded as it is.
/// Without a frame, what stands is why the file itself would not do.
pub fn thumbnail_from_frame(
    direct: String,
    frame: Result<Vec<u8>, String>,
    max_cells: (u16, u16),
    cell: (u32, u32),
) -> (out: Result<Thumb, String>)
    requires
        canvas_counts(max_cells, cell),
    ensures
        outcome_view(out) == (match bytes_view(frame) {
            Ok(bytes) => thumb_of_bytes(bytes, max_cells, cell),
            Err(_) => Err(direct@),
        }),
{
    match frame {
        Ok(bytes) => decode_bytes(&bytes, max_cells, cell),
        Err(_) => Err(direct),
    }
}

// ---------------------------------------------------------------------------
// Captions
// ---------------------------------------------------------------------------

/// How many times a size is divided by 1024 before it is shown: as often as it
/// stays at least 1, and four times at most.
pub open spec fn size_unit(size: nat) -> nat {
    if size < 1024 {
        0
    } else if size < 1024 * 1024 {
        1
    } else if size < 1024 * 1024 * 1024 {
        2
    } else if size < 1024 * 1024 * 1024 * 1024 {
        3
    } else {
        4
    }
}

/// What 1024 to a power comes to, for the powers that sizes are shown in.
pub open spec fn unit_bytes(unit: nat) -> nat {
    if unit == 0 {
        1
    } else if unit == 1 {
        1024
    } else if unit == 2 {
        1024 * 1024
    } else if unit == 3 {
        1024 * 1024 * 1024
    } else {
        1024 * 1024 * 1024 * 1024
    }
}

pub open spec fn unit_name(unit: nat) -> Seq<char> {
    if unit == 0 {
        "B"@
    } else if unit == 1 {
        "KB"@
    } else if unit == 2 {
        "MB"@
    } else if unit == 3 {
        "GB"@
    } else {
        "TB"@
    }
}

/// A file's size as a file manager writes it: whole bytes below 1024, otherwise
/// the double nearest to the size in the largest unit that it fills, to one
/// decimal.
pub open spec fn size_text(bytes: nat) -> Seq<char> {
    let size = rounding::nearest(bytes);
    let unit = size_unit(size);
    if unit == 0 {
        text::decimal(bytes) + " "@ + "B"@
    } else {
        let tenths = rounding::half_even(10 * size, unit_bytes(unit));
        text::decimal(tenths / 10) + "."@ + text::decimal(tenths % 10) + " "@ + unit_name(unit)
    }
}

pub fn human_size(bytes: u64) -> (out: String)
    ensures
        out@ == size_text(bytes as nat),
{
    let size = rounding::nearest_double(bytes as u128);
    if size < 1024 {
        return text::decimal_text(bytes).concat(" ").concat("B");
    }
    let (unit, name): (u128, &str) = if size < 1024 * 1024 {
        (1024, "KB")
    } else if size < 1024 * 1024 * 1024 {
        (1024 * 1024, "MB")
    } else if size < 1024 * 1024 * 1024 * 1024 {
        (1024 * 1024 * 1024, "GB")
    } else {
        (1024 * 1024 * 1024 * 1024, "TB")
    };
    let tenths = rounding::div_half_even(10 * size, unit);
    proof {
        assert(10 * size <= unit * u64::MAX) by (nonlinear_arith)
            requires
                size <= 2 * u64::MAX,
                unit >= 1024,
        ;
        rounding::lemma_half_even_at_most((10 * size) as nat, unit as nat, u64::MAX as nat);
    }
    text::decimal_text((tenths / 10) as u64).concat(".").concat(
        text::decimal_text((tenths % 10) as u64).as_str(),
    ).concat(" ").concat(name)
}

/// Two digits, the first of them a zero if need be.
pub open spec fn two_digits(n: nat) -> Seq<char> {
    if n < 10 {
        "0"@ + text::decimal(n)
    } else {
        text::decimal(n)
    }
}

/// A running time as a clock shows it: minutes and seconds, and hours once
/// there are any.
pub open spec fn clock_text(total: nat) -> Seq<char> {
    let h = total / 3600;
    let m = (total % 3600) / 60;
    let s = total % 60;
    if h > 0 {
        text::decimal(h) + ":"@ + two_digits(m) + ":"@ + two_digits(s)
    } else {
        text::decimal(m) + ":"@ + two_digits(s)
    }
}

fn two_digit_text(n: u64) -> (out: String)
    ensures
        out@ == two_digits(n as nat),
{
    if n < 10 {
        let mut out = "0".to_owned();
        out.append(text::decimal_text(n).as_str());
        out
    } else {
        text::decimal_text(n)
    }
}

/// A running time of `total` whole seconds.
pub fn clock(total: u64) -> (out: String)
    ensures
        out@ == clock_text(total as nat),
{
    let h = total / 3600;
    let m = (total % 3600) / 60;
    let s = total % 60;
    if h > 0 {
        text::decimal_text(h).concat(":").concat(two_digit_text(m).as_str()).concat(":").concat(
            two_digit_text(s).as_str(),
        )
    } else {
        text::decimal_text(m).concat(":").concat(two_digit_text(s).as_str())
    }
}

/// What a probe's output says: all of it but the space around it, if that
/// leaves anything.
pub open spec fn answer(output: Seq<char>) -> Option<Seq<char>> {
    if text::trimmed(output).len() > 0 {
        Some(text::trimmed(output))
    } else {
        None
    }
}

/// What a probe answered, or `None` when it printed nothing but space.
pub fn probe_answer(output: &str) -> (said: Option<String>)
    ensures
        text::option_view(said) == answer(output@),
{
    let trimmed = text::trim(output);
    if trimmed.as_str().is_empty() {
        None
    } else {
        Some(trimmed)
    }
}

/// The first line of an answer.
pub open spec fn first_line(output: Seq<char>) -> Option<Seq<char>> {
    if text::line_list(output).len() > 0 {
        Some(text::line_list(output).first())
    } else {
        None
    }
}

pub fn first_line_of(output: &str) -> (line: Option<String>)
    ensures
        text::option_view(line) == first_line(output@),
{
    let lines = text::lines_of(output);
    if lines.len() == 0 {
        None
    } else {
        assert(text::texts(lines@)[0] == lines@[0]@);
        Some(lines[0].clone())
    }
}

/// The value of the first of these lines that begins with a given key.
pub open spec fn value_in(lines: Seq<Seq<char>>, key: Seq<char>) -> Option<Seq<char>>
    decreases lines.len(),
{
    if lines.len() == 0 {
        None
    } else if text::begins(lines.first(), key) {
        Some(text::trimmed(lines.first().skip(key.len() as int)))
    } else {
        value_in(lines.drop_first(), key)
    }
}

/// The page count that `pdfinfo` printed.
pub fn pdf_pages(output: &str) -> (pages: Option<String>)
    ensures
        text::option_view(pages) == value_in(text::line_list(output@), "Pages:"@),
{
    let lines = text::lines_of(output);
    let ghost all = text::texts(lines@);
    let ghost key = "Pages:"@;
    assert(all.skip(0) =~= all);
    let mut i: usize = 0;
    while i < lines.len()
        invariant
            i <= lines@.len(),
            all == text::texts(lines@),
            all == text::line_list(output@),
            key == "Pages:"@,
            value_in(all, key) == value_in(all.skip(i as int), key),
        decreases lines@.len() - i,
    {
        proof {
            assert(all.skip(i as int).first() == lines@[i as int]@);
            assert(all.skip(i as int).drop_first() =~= all.skip(i + 1));
        }
        if text::starts_with(lines[i].as_str(), "Pages:") {
            let chars = text::chars_of(lines[i].as_str());
            let prefix = text::chars_of("Pages:");
            let value = text::slice_text(&chars, prefix.len(), chars.len());
            assert(value@ =~= lines@[i as int]@.skip(key.len() as int));
            return Some(text::trim(value.as_str()));
        }
        i += 1;
    }
    assert(all.skip(i as int) =~= Seq::<Seq<char>>::empty());
    None
}

/// At most the first two of a list.
pub open spec fn first_two(list: Seq<Seq<char>>) -> Seq<Seq<char>> {
    if list.len() > 2 {
        list.take(2)
    } else {
        list
    }
}

/// The caption's size line, where the size is known.
pub open spec fn size_line(kind: Kind, size: Option<u64>) -> Seq<Seq<char>> {
    match size {
        Some(bytes) => seq![label_of(kind) + "  ·  "@ + size_text(bytes as nat)],
        None => Seq::empty(),
    }
}

pub open spec fn duration_line(secs: Option<u64>) -> Seq<Seq<char>> {
    match secs {
        Some(total) => seq!["duration  "@ + clock_text(total as nat)],
        None => Seq::empty(),
    }
}

pub open spec fn codec_line(codec: Option<Seq<char>>) -> Seq<Seq<char>> {
    match codec {
        Some(names) => seq![
            "codec  "@ + text::joined(first_two(text::line_list(names)), ", "@),
        ],
        None => Seq::empty(),
    }
}

pub open spec fn pages_line(pages: Option<Seq<char>>) -> Seq<Seq<char>> {
    match pages {
        Some(count) => seq!["pages  "@ + count],
        None => Seq::empty(),
    }
}

/// The lines under a picture: what it is and how big, then how long for what
/// plays and how many pages for a document, each where it is known.
pub open spec fn detail_lines(
    kind: Kind,
    size: Option<u64>,
    secs: Option<u64>,
    codec: Option<Seq<char>>,
    pages: Option<Seq<char>>,
) -> Seq<Seq<char>> {
    size_line(kind, size) + match kind {
        Kind::Video | Kind::Audio => duration_line(secs) + codec_line(codec),
        Kind::Pdf => pages_line(pages),
        _ => Seq::empty(),
    }
}

/// The lines under the picture: what it is, how big, how long. `size` is the
/// file's, and `secs`, `codec` and `pages` are what the probes answered.
pub fn details(
    kind: Kind,
    size: Option<u64>,
    secs: Option<u64>,
    codec: &Option<String>,
    pages: &Option<String>,
) -> (out: Vec<String>)
    ensures
        text::texts(out@) == detail_lines(
            kind,
            size,
            secs,
            text::option_view(*codec),
            text::option_view(*pages),
        ),
{
    let mut out: Vec<String> = Vec::new();
    if let Some(bytes) = size {
        out.push(
            kind_label(kind).to_owned().concat("  ·  ").concat(human_size(bytes).as_str()),
        );
    }
    assert(text::texts(out@) =~= size_line(kind, size));
    match kind {
        Kind::Video | Kind::Audio => {
            if let Some(total) = secs {
                out.push("duration  ".to_owned().concat(clock(total).as_str()));
            }
            assert(text::texts(out@) =~= size_line(kind, size) + duration_line(secs));
            if let Some(names) = codec {
                let mut lines = text::lines_of(names.as_str());
                let ghost all = text::texts(lines@);
                if lines.len() > 2 {
                    lines.truncate(2);
                }
                assert(text::texts(lines@) =~= first_two(all));
                out.push("codec  ".to_owned().concat(text::join(&lines, ", ").as_str()));
            }
            assert(text::texts(out@) =~= size_line(kind, size) + (duration_line(secs)
                + codec_line(text::option_view(*codec))));
        },
        Kind::Pdf => {
            if let Some(count) = pages {
                out.push("pages  ".to_owned().concat(count.as_str()));
            }
            assert(text::texts(out@) =~= size_line(kind, size) + pages_line(
                text::option_view(*pages),
            ));
        },
        _ => {
            assert(text::texts(out@) =~= size_line(kind, size) + Seq::<Seq<char>>::empty());
        },
    }
    out
}

} // verus!
