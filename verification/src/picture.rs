//! Pictures, as the `image` crate holds them. Every call into that crate goes
//! through this file; what a picture holds is modelled by `PictureView`.
use crate::planes;
use crate::rounding;
use vstd::prelude::*;

verus! {

/// How a picture's samples are laid out.
pub enum Layout {
    Luma8,
    LumaAlpha8,
    Rgb8,
    Rgba8,
    Luma16,
    LumaAlpha16,
    Rgb16,
    Rgba16,
    Rgb32F,
    Rgba32F,
    Other,
}

/// What a picture is: its size in pixels, and its samples row by row.
pub struct PictureView {
    pub width: u32,
    pub height: u32,
    pub layout: Layout,
    pub samples: Seq<u8>,
}

/// A decoded picture, in whichever layout the file had.
#[verifier::external_type_specification]
#[verifier::external_body]
pub struct ExDynamicImage(image::DynamicImage);

/// What a picture of the `image` crate holds: its pixels, and how they are
/// arranged.
pub uninterp spec fn picture_of(picture: image::DynamicImage) -> PictureView;

/// What comes of decoding some bytes: a picture, or why there is none.
pub uninterp spec fn decoded(bytes: Seq<u8>) -> Result<PictureView, Seq<char>>;

/// What comes of decoding the bytes of the file at some path.
pub uninterp spec fn decoded_file(path: Seq<char>, bytes: Seq<u8>) -> Result<
    PictureView,
    Seq<char>,
>;

/// A picture scaled down to fit inside so many pixels by so many.
pub uninterp spec fn shrunk(picture: PictureView, width: u32, height: u32) -> PictureView;

/// A picture with its samples converted to eight-bit RGBA.
pub uninterp spec fn recoloured(picture: PictureView) -> PictureView;

/// A picture with another one painted over it, its top left corner at (x, y).
pub uninterp spec fn overlaid(bottom: PictureView, top: PictureView, x: i64, y: i64) -> PictureView;

/// A picture as the bytes of a PNG file, or why it cannot be one.
pub uninterp spec fn encoded(picture: PictureView) -> Result<Seq<u8>, Seq<char>>;

/// A wholly transparent picture.
pub open spec fn transparent(width: u32, height: u32) -> PictureView {
    PictureView {
        width,
        height,
        layout: Layout::Rgba8,
        samples: Seq::new((4 * width * height) as nat, |i: int| 0u8),
    }
}

/// The smaller of two ratios of whole numbers.
pub open spec fn lesser(a: (nat, nat), b: (nat, nat)) -> (nat, nat) {
    if a.0 * b.1 <= b.0 * a.1 {
        a
    } else {
        b
    }
}

/// One side of a picture scaled by a ratio, in double precision: a whole number
/// of pixels, and at least one.
pub open spec fn scaled_side(n: nat, ratio: (nat, nat)) -> nat {
    let side = rounding::scaled(n, rounding::quotient(ratio.0, ratio.1));
    if side < 1 {
        1
    } else {
        side
    }
}

/// A picture's size once it is scaled to fit inside `bounds`: both sides by the
/// ratio of the axis that binds.
pub open spec fn scaled_size(size: (nat, nat), bounds: (nat, nat)) -> (nat, nat) {
    let ratio = lesser((bounds.0, size.0), (bounds.1, size.1));
    (scaled_side(size.0, ratio), scaled_side(size.1, ratio))
}

/// No fewer pixels of a side of `n` than a single pixel stands for once the side
/// is scaled down to `m`: the ratio of the two, and what rounding can add to it.
/// Single precision adds nothing to a whole ratio of sides that it can count.
pub open spec fn spread(n: nat, m: nat) -> nat {
    if n < 16777216 && n % m == 0 {
        n / m
    } else {
        n / m + n / 4194304 + 2
    }
}

/// How many samples can be added up in 32 bits, with half as many again for
/// rounding, whatever they hold. Dark pictures get no further: four channels are
/// added up of every picture, and those that it lacks count as full.
pub open spec fn most_samples(layout: Layout) -> nat {
    match layout {
        Layout::Luma8 | Layout::LumaAlpha8 | Layout::Rgb8 | Layout::Rgba8 => 16810048,
        Layout::Rgb32F | Layout::Rgba32F => 4294967295,
        _ => 65536,
    }
}

/// Whether the averages of a picture scaled down to `to` can be added up.
pub open spec fn averages_fit(picture: PictureView, to: (nat, nat)) -> bool {
    picture.width == 0 || picture.height == 0 || spread(picture.width as nat, to.0) * spread(
        picture.height as nat,
        to.1,
    ) <= most_samples(picture.layout)
}

/// Decode a picture, going by what the bytes themselves look like.
///
/// `image::load_from_memory` guesses the format from the leading bytes, decodes
/// with the crate's default limits and reports failure as an error, whose text
/// is handed on. The result is a function of the bytes; which one is left to
/// the name `decoded`.
///
/// This speaks of builds without overflow checks, which is how a release is
/// built. With them on, a file made for the purpose can overflow the 32-bit
/// arithmetic of a decoder (that of JPEG multiplies sums of coefficients by what
/// the file says), and the call panics rather than return. In any build it
/// panics on a TIFF whose samples stand in planes of their own: it makes room for
/// all of them, and reads one.
#[verifier::external_body]
pub(crate) fn decode(bytes: &Vec<u8>) -> (out: Result<image::DynamicImage, String>)
    requires
        !planes::planes_apart(bytes@),
    ensures
        match out {
            Ok(picture) => decoded(bytes@) == Ok::<PictureView, Seq<char>>(picture_of(picture)),
            Err(why) => decoded(bytes@) == Err::<PictureView, Seq<char>>(why@),
        },
{
    image::load_from_memory(bytes).map_err(|e| e.to_string())
}

/// Decode the picture in a file, going by what its bytes look like, and by the
/// file's extension where they look like nothing known.
///
/// `image::ImageReader` over the bytes in memory, with the format that
/// `ImageFormat::from_path` makes of the path, if any, replaced by the one that
/// `with_guessed_format` finds, if any; then `decode`, with the crate's default
/// limits. Failure is reported as an error, whose text is handed on. The result
/// is a function of the path and the bytes; which one is left to the name
/// `decoded_file`.
///
/// Like `decode`, this speaks of builds without overflow checks, and panics in
/// any build on such a TIFF.
#[verifier::external_body]
pub(crate) fn decode_file(path: &str, bytes: &Vec<u8>) -> (out: Result<
    image::DynamicImage,
    String,
>)
    requires
        !planes::planes_apart(bytes@),
    ensures
        match out {
            Ok(picture) => decoded_file(path@, bytes@) == Ok::<PictureView, Seq<char>>(
                picture_of(picture),
            ),
            Err(why) => decoded_file(path@, bytes@) == Err::<PictureView, Seq<char>>(why@),
        },
{
    let cursor = std::io::Cursor::new(bytes);
    let reader = match image::ImageFormat::from_path(path) {
        Ok(format) => image::ImageReader::with_format(cursor, format),
        Err(_) => image::ImageReader::new(cursor),
    };
    let reader = reader.with_guessed_format().map_err(|e| e.to_string())?;
    reader.decode().map_err(|e| e.to_string())
}

/// `DynamicImage::width`: "Returns the width of the underlying image".
#[verifier::external_body]
pub(crate) fn width_of(picture: &image::DynamicImage) -> (width: u32)
    ensures
        width == picture_of(*picture).width,
{
    picture.width()
}

/// `DynamicImage::height`: "Returns the height of the underlying image".
#[verifier::external_body]
pub(crate) fn height_of(picture: &image::DynamicImage) -> (height: u32)
    ensures
        height == picture_of(*picture).height,
{
    picture.height()
}

/// How a picture's samples are laid out.
///
/// The variant of `DynamicImage` that the picture is.
#[verifier::external_body]
pub(crate) fn layout_of(picture: &image::DynamicImage) -> (layout: Layout)
    ensures
        layout == picture_of(*picture).layout,
{
    match picture {
        image::DynamicImage::ImageLuma8(_) => Layout::Luma8,
        image::DynamicImage::ImageLumaA8(_) => Layout::LumaAlpha8,
        image::DynamicImage::ImageRgb8(_) => Layout::Rgb8,
        image::DynamicImage::ImageRgba8(_) => Layout::Rgba8,
        image::DynamicImage::ImageLuma16(_) => Layout::Luma16,
        image::DynamicImage::ImageLumaA16(_) => Layout::LumaAlpha16,
        image::DynamicImage::ImageRgb16(_) => Layout::Rgb16,
        image::DynamicImage::ImageRgba16(_) => Layout::Rgba16,
        image::DynamicImage::ImageRgb32F(_) => Layout::Rgb32F,
        image::DynamicImage::ImageRgba32F(_) => Layout::Rgba32F,
        _ => Layout::Other,
    }
}

/// Scale a picture down to fit inside so many pixels by so many.
///
/// `DynamicImage::thumbnail` keeps the aspect ratio and the layout. Both sides
/// are scaled by the smaller of the two ratios, in double precision, to the
/// nearest whole number and to one at the least, which never takes them past the
/// bounds. What becomes of each pixel is left to the name `shrunk`. Each is an
/// average that is added up in 32 bits for samples of 8 and 16 bits, and the sum
/// must not overflow, since with overflow checks on that is a panic; and the
/// result must fit in a vector.
#[verifier::external_body]
pub(crate) fn shrink(picture: &image::DynamicImage, width: u32, height: u32) -> (out:
    image::DynamicImage)
    requires
        width > 0,
        height > 0,
        16 * width * height <= isize::MAX,
        averages_fit(
            picture_of(*picture),
            scaled_size(
                (picture_of(*picture).width as nat, picture_of(*picture).height as nat),
                (width as nat, height as nat),
            ),
        ),
    ensures
        picture_of(out) == shrunk(picture_of(*picture), width, height),
        1 <= picture_of(out).width <= width,
        1 <= picture_of(out).height <= height,
        picture_of(*picture).width > 0 && picture_of(*picture).height > 0 ==> (
            picture_of(out).width as nat,
            picture_of(out).height as nat,
        ) == scaled_size(
            (picture_of(*picture).width as nat, picture_of(*picture).height as nat),
            (width as nat, height as nat),
        ),
        picture_of(out).layout == picture_of(*picture).layout,
{
    picture.thumbnail(width, height)
}

/// Convert a picture's samples to eight-bit RGBA.
///
/// `DynamicImage::to_rgba8`: "Returns a copy of this image as an RGBA image",
/// pixel by pixel. What becomes of each pixel is left to the name `recoloured`.
/// It panics where the samples would not fit in a vector.
#[verifier::external_body]
pub(crate) fn to_rgba(picture: &image::DynamicImage) -> (out: image::DynamicImage)
    requires
        4 * picture_of(*picture).width * picture_of(*picture).height <= isize::MAX,
    ensures
        picture_of(out) == recoloured(picture_of(*picture)),
        picture_of(out).width == picture_of(*picture).width,
        picture_of(out).height == picture_of(*picture).height,
        picture_of(out).layout == Layout::Rgba8,
{
    image::DynamicImage::ImageRgba8(picture.to_rgba8())
}

/// A wholly transparent picture.
///
/// `RgbaImage::from_pixel` fills a picture with copies of one pixel, here
/// transparent black. It panics where the samples would not fit in a vector.
#[verifier::external_body]
pub(crate) fn blank(width: u32, height: u32) -> (out: image::DynamicImage)
    requires
        4 * width * height <= isize::MAX,
    ensures
        picture_of(out) == transparent(width, height),
{
    image::DynamicImage::ImageRgba8(
        image::RgbaImage::from_pixel(width, height, image::Rgba([0, 0, 0, 0])),
    )
}

/// Paint one picture over another, its top left corner at (x, y).
///
/// `imageops::overlay` blends the upper picture onto the lower one, leaving out
/// what lies beyond its edges; the lower one keeps its size and its layout. What
/// the blend makes of each pixel is left to the name `overlaid`.
#[verifier::external_body]
pub(crate) fn overlay(bottom: &mut image::DynamicImage, top: &image::DynamicImage, x: i64, y: i64)
    ensures
        picture_of(*final(bottom)) == overlaid(picture_of(*old(bottom)), picture_of(*top), x, y),
        picture_of(*final(bottom)).width == picture_of(*old(bottom)).width,
        picture_of(*final(bottom)).height == picture_of(*old(bottom)).height,
        picture_of(*final(bottom)).layout == picture_of(*old(bottom)).layout,
{
    image::imageops::overlay(bottom, top, x, y);
}

/// Encode a picture as a PNG file.
///
/// `DynamicImage::write_to` with `ImageFormat::Png`, into memory. Failure is
/// reported as an error, whose text is handed on. The bytes are a function of
/// the picture; which one is left to the name `encoded`.
#[verifier::external_body]
pub(crate) fn to_png(picture: &image::DynamicImage) -> (out: Result<Vec<u8>, String>)
    ensures
        match out {
            Ok(bytes) => encoded(picture_of(*picture)) == Ok::<Seq<u8>, Seq<char>>(bytes@),
            Err(why) => encoded(picture_of(*picture)) == Err::<Seq<u8>, Seq<char>>(why@),
        },
{
    let mut out = std::io::Cursor::new(Vec::new());
    match picture.write_to(&mut out, image::ImageFormat::Png) {
        Ok(()) => Ok(out.into_inner()),
        Err(e) => Err(e.to_string()),
    }
}

} // verus!
