//! Fitting a frame into the square input of the model.

use vstd::prelude::*;

use crate::types::Frame;

verus! {

/// The side of the model's square input, in pixels.
pub const INPUT_SIZE: usize = 640;

/// The value of every channel outside the picture.
pub const PAD_VALUE: u8 = 114;

/// The model's input: a scaled picture in the middle of a padded square.
pub struct Letterbox {
    /// One plane for each channel, each row by row.
    pub pixels: Vec<u8>,
    /// How many columns of padding stand left of the picture.
    pub pad_x: u32,
    /// How many rows of padding stand above the picture.
    pub pad_y: u32,
}

/// Why a frame could not be fitted.
#[derive(Clone, Copy, Debug, PartialEq, Eq, Structural)]
pub enum LetterboxError {
    /// The frame holds fewer bytes than its width and height call for, or its width calls
    /// for more bytes in a row than the machine can count.
    ShortFrame,
}

impl LetterboxError {
    /// The error in words.
    pub fn message(&self) -> (text: &'static str)
        ensures
            text@ == "frame data did not match width*height*3"@,
    {
        "frame data did not match width*height*3"
    }
}

/// The bytes of an RGB picture of `width` by `height` pixels, resampled to `new_width` by
/// `new_height` with a triangle filter by the `image` crate.
pub uninterp spec fn resized(
    data: Seq<u8>,
    width: u32,
    height: u32,
    new_width: u32,
    new_height: u32,
) -> Seq<u8>;

/// Calls `image::imageops::resize` with the filter `Triangle` on the picture that
/// `image::RgbImage::from_raw` makes of the bytes. There is such a picture if and only if
/// the bytes are at least three for each pixel, and the machine can count the bytes of a
/// row, even where there are no rows; bytes beyond the pixels are not looked at. The result
/// is a function of the arguments, holds three bytes for each pixel, and is a copy
/// where the size does not change. The intermediate picture, sixteen bytes for each pixel
/// of the old width and the new height, has to fit into memory that a vector can address.
#[verifier::external_body]
fn resize_rgb(data: Vec<u8>, width: u32, height: u32, new_width: u32, new_height: u32) -> (pixels:
    Option<Vec<u8>>)
    requires
        new_width <= INPUT_SIZE,
        new_height <= INPUT_SIZE,
        16 * (width * new_height) <= isize::MAX,
    ensures
        pixels is Some == (3 * width <= usize::MAX && 3 * (width * height) <= data@.len()),
        pixels matches Some(p) ==> p@ == resized(data@, width, height, new_width, new_height),
        pixels matches Some(p) ==> p@.len() == 3 * (new_width * new_height),
        pixels matches Some(p) ==> new_width == width && new_height == height ==> p@ == data@.take(
            3 * (width * height),
        ),
{
    let source = image::RgbImage::from_raw(width, height, data)?;
    let filter = image::imageops::FilterType::Triangle;
    Some(image::imageops::resize(&source, new_width, new_height, filter).into_raw())
}

/// The place of channel `c` of the pixel in row `y` and column `x`.
pub open spec fn place(c: int, y: int, x: int) -> int {
    (c * INPUT_SIZE + y) * INPUT_SIZE + x
}

/// Half of what is left of a side, rounded down.
pub open spec fn padding(side: u32) -> int {
    (INPUT_SIZE - side) / 2
}

/// Channel `c` of the pixel in row `y` and column `x` of the padded square: that of the
/// picture where the picture lies, and the padding elsewhere.
pub open spec fn shade(picture: Seq<u8>, width: u32, height: u32, c: int, y: int, x: int) -> u8 {
    let row = y - padding(height);
    let column = x - padding(width);
    if 0 <= row < height && 0 <= column < width {
        picture[(row * width + column) * 3 + c]
    } else {
        PAD_VALUE
    }
}

impl Letterbox {
    /// Whether this is the padded square around a picture.
    pub open spec fn holds(self, picture: Seq<u8>, width: u32, height: u32) -> bool {
        &&& self.pad_x == padding(width)
        &&& self.pad_y == padding(height)
        &&& self.pixels@.len() == 3 * INPUT_SIZE * INPUT_SIZE
        &&& forall|c: int, y: int, x: int|
            0 <= c < 3 && 0 <= y < INPUT_SIZE && 0 <= x < INPUT_SIZE
                ==> self.pixels@[#[trigger] place(c, y, x)] == shade(
                picture,
                width,
                height,
                c,
                y,
                x,
            )
    }
}

/// Puts a picture, row by row with three bytes for each pixel, into the middle of the
/// padded square, one plane for each channel.
pub fn compose(picture: &Vec<u8>, width: u32, height: u32) -> (letterbox: Letterbox)
    requires
        width <= INPUT_SIZE,
        height <= INPUT_SIZE,
        picture@.len() == 3 * (width * height),
    ensures
        letterbox.holds(picture@, width, height),
{
    let pad_x: usize = (INPUT_SIZE - width as usize) / 2;
    let pad_y: usize = (INPUT_SIZE - height as usize) / 2;
    let mut pixels: Vec<u8> = Vec::with_capacity(3 * INPUT_SIZE * INPUT_SIZE);
    let mut c: usize = 0;
    while c < 3
        invariant
            c <= 3,
            width <= INPUT_SIZE,
            height <= INPUT_SIZE,
            picture@.len() == 3 * (width * height),
            pad_x == padding(width),
            pad_y == padding(height),
            filled(pixels@, picture@, width, height, place(c as int, 0, 0)),
        decreases 3 - c,
    {
        let mut y: usize = 0;
        while y < INPUT_SIZE
            invariant
                c < 3,
                y <= INPUT_SIZE,
                width <= INPUT_SIZE,
                height <= INPUT_SIZE,
                picture@.len() == 3 * (width * height),
                pad_x == padding(width),
                pad_y == padding(height),
                filled(pixels@, picture@, width, height, place(c as int, y as int, 0)),
            decreases INPUT_SIZE - y,
        {
            let mut x: usize = 0;
            while x < INPUT_SIZE
                invariant
                    c < 3,
                    y < INPUT_SIZE,
                    x <= INPUT_SIZE,
                    width <= INPUT_SIZE,
                    height <= INPUT_SIZE,
                    picture@.len() == 3 * (width * height),
                    pad_x == padding(width),
                    pad_y == padding(height),
                    filled(
                        pixels@,
                        picture@,
                        width,
                        height,
                        place(c as int, y as int, x as int),
                    ),
                decreases INPUT_SIZE - x,
            {
                let inside = pad_y <= y && y - pad_y < height as usize && pad_x <= x && x - pad_x
                    < width as usize;
                let value: u8 = if inside {
                    let row: usize = y - pad_y;
                    let column: usize = x - pad_x;
                    assert(row * width + column < width * height && 0 <= row * width
                        <= 640 * 640) by (nonlinear_arith)
                        requires
                            0 <= row < height,
                            0 <= column < width,
                            width <= 640,
                            height <= 640,
                    ;
                    picture[(row * width as usize + column) * 3 + c]
                } else {
                    PAD_VALUE
                };
                pixels.push(value);
                x = x + 1;
            }
            y = y + 1;
        }
        c = c + 1;
    }
    Letterbox { pixels, pad_x: pad_x as u32, pad_y: pad_y as u32 }
}

/// Whether the first `n` places are filled.
spec fn filled(pixels: Seq<u8>, picture: Seq<u8>, width: u32, height: u32, n: int) -> bool {
    &&& pixels.len() == n
    &&& forall|c: int, y: int, x: int|
        0 <= c < 3 && 0 <= y < INPUT_SIZE && 0 <= x < INPUT_SIZE && place(c, y, x) < n
            ==> pixels[#[trigger] place(c, y, x)] == shade(picture, width, height, c, y, x)
}

/// Scales a frame to `new_width` by `new_height` pixels and puts it into the middle of the
/// padded square. Of the frame's width and height, 32 bits count.
pub fn letterbox(frame: &Frame, new_width: u32, new_height: u32) -> (result: Result<
    Letterbox,
    LetterboxError,
>)
    requires
        new_width <= INPUT_SIZE,
        new_height <= INPUT_SIZE,
        16 * ((frame.width as u32) * new_height) <= isize::MAX,
    ensures
        result is Err <==> frame.data@.len() < 3 * ((frame.width as u32) * (frame.height as u32))
            || 3 * (frame.width as u32) > usize::MAX,
        result matches Err(e) ==> e == LetterboxError::ShortFrame,
        result matches Ok(l) ==> l.holds(
            resized(
                frame.data@,
                frame.width as u32,
                frame.height as u32,
                new_width,
                new_height,
            ),
            new_width,
            new_height,
        ),
        result matches Ok(l) ==> new_width == frame.width && new_height == frame.height
            ==> l.holds(
            frame.data@.take(3 * (frame.width * frame.height)),
            new_width,
            new_height,
        ),
{
    let data = frame.data.clone();
    assert(data@ =~= frame.data@);
    let width = frame.width as u32;
    let height = frame.height as u32;
    match resize_rgb(data, width, height, new_width, new_height) {
        Some(picture) => Ok(compose(&picture, new_width, new_height)),
        None => Err(LetterboxError::ShortFrame),
    }
}

/// The size to which a capture of `width` by `height` pixels is scaled so that its longer
/// side is that of the model's input, rounded to whole pixels.
pub open spec fn fitted(width: u32, height: u32) -> (int, int) {
    if width >= height {
        (INPUT_SIZE as int, (2 * height * INPUT_SIZE + width) / (2 * width))
    } else {
        ((2 * width * INPUT_SIZE + height) / (2 * height), INPUT_SIZE as int)
    }
}

/// The size to which a capture is scaled by the hardware before it reaches the model, so
/// that it needs no scaling there.
pub fn capture_target(width: u32, height: u32) -> (target: (u32, u32))
    requires
        0 < width,
        0 < height,
    ensures
        target.0 == fitted(width, height).0,
        target.1 == fitted(width, height).1,
{
    let w = width as u64;
    let h = height as u64;
    let side = INPUT_SIZE as u64;
    if width >= height {
        proof {
            lemma_fits(width as int, height as int);
        }
        (INPUT_SIZE as u32, ((2 * h * side + w) / (2 * w)) as u32)
    } else {
        proof {
            lemma_fits(height as int, width as int);
        }
        (((2 * w * side + h) / (2 * h)) as u32, INPUT_SIZE as u32)
    }
}

/// The shorter side, scaled, is no longer than the model's input.
proof fn lemma_fits(long: int, short: int)
    requires
        0 < short <= long,
    ensures
        0 <= (2 * short * INPUT_SIZE + long) / (2 * long) <= INPUT_SIZE,
{
    assert((2 * short * 640 + long) / (2 * long) <= 640) by (nonlinear_arith)
        requires
            0 < short <= long,
    ;
    assert(0 <= (2 * short * 640 + long) / (2 * long)) by (nonlinear_arith)
        requires
            0 < short <= long,
    ;
}

/// A capture that was scaled to its target fits the model's input as it is: the longer
/// side fills it, and the shorter is not longer.
pub proof fn law_capture_target_fits(width: u32, height: u32)
    requires
        0 < width,
        0 < height,
    ensures
        0 <= fitted(width, height).0 <= INPUT_SIZE,
        0 <= fitted(width, height).1 <= INPUT_SIZE,
        fitted(width, height).0 == INPUT_SIZE || fitted(width, height).1 == INPUT_SIZE,
{
    if width >= height {
        lemma_fits(width as int, height as int);
    } else {
        lemma_fits(height as int, width as int);
    }
}

/// The picture lies in the middle: the padding before it and after it differ by at most
/// one, and together they fill the side.
pub proof fn law_picture_is_centered(side: u32)
    requires
        side <= INPUT_SIZE,
    ensures
        0 <= padding(side),
        padding(side) + side <= INPUT_SIZE,
        0 <= INPUT_SIZE - side - 2 * padding(side) <= 1,
{
}

/// The picture shows in the middle, pixel for pixel and channel for channel, and all around
/// it there is padding.
pub proof fn law_picture_shows_pixel_for_pixel(
    l: Letterbox,
    picture: Seq<u8>,
    width: u32,
    height: u32,
    c: int,
    y: int,
    x: int,
)
    requires
        l.holds(picture, width, height),
        width <= 640,
        height <= 640,
        0 <= c < 3,
        0 <= y < 640,
        0 <= x < 640,
    ensures
        l.pixels@.len() == 1228800,
        l.pad_x == (640 - width) / 2,
        l.pad_y == (640 - height) / 2,
        0 <= y - l.pad_y < height && 0 <= x - l.pad_x < width ==> l.pixels@[409600 * c + 640 * y + x]
            == picture[((y - l.pad_y) * width + (x - l.pad_x)) * 3 + c],
        !(0 <= y - l.pad_y < height && 0 <= x - l.pad_x < width) ==> l.pixels@[409600 * c + 640 * y
            + x] == 114,
{
    assert(place(c, y, x) == 409600 * c + 640 * y + x);
}

/// The target of a capture keeps its shape: the longer side becomes that of the model's
/// input, and the shorter side is scaled by the same factor, to the nearest whole number of
/// pixels.
pub proof fn law_capture_target_keeps_the_shape(width: u32, height: u32)
    requires
        0 < width,
        0 < height,
    ensures
        ({
            let (w, h) = fitted(width, height);
            &&& width >= height ==> w == 640 && 2 * width * h <= 1280 * height + width < 2 * width
                * (h + 1)
            &&& width < height ==> h == 640 && 2 * height * w <= 1280 * width + height < 2 * height
                * (w + 1)
        }),
{
    if width >= height {
        lemma_nearest(1280 * height + width, 2 * width);
    } else {
        lemma_nearest(1280 * width + height, 2 * height);
    }
}

proof fn lemma_nearest(n: int, d: int)
    requires
        0 < d,
        0 <= n,
    ensures
        d * (n / d) <= n < d * (n / d + 1),
{
    assert(d * (n / d) <= n < d * (n / d + 1)) by (nonlinear_arith)
        requires
            0 < d,
            0 <= n,
    ;
}

} // verus!
