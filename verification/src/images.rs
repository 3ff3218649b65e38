//! Camera images: raw and JPEG samples, and how sharp a part of an image is.

use crate::jpeg::{is_steady, steady};
use crate::text::{ascii_lowercase, decimal, decimal_text, debug_text, lowered, quoted, same};
use vstd::prelude::*;
use vstd::string::StringExecFns;
use zune_jpeg::zune_core::bytestream::ZCursor;
use zune_jpeg::JpegDecoder;

verus! {

/// A recorded camera image: compressed bytes, or rows of samples that start `step` bytes apart.
pub struct CameraImage {
    pub encoding: String,
    pub width: usize,
    pub height: usize,
    pub step: usize,
    pub data: Vec<u8>,
}

// ---- JPEG ----

/// What the headers of a JPEG say: width, height and samples per decoded pixel, or the text of
/// the decoder's error.
pub uninterp spec fn jpeg_header_of(bytes: Seq<u8>) -> Result<(nat, nat, nat), Seq<char>>;

/// The decoded samples of a JPEG, row by row, or the text of the decoder's error.
pub uninterp spec fn jpeg_pixels_of(bytes: Seq<u8>) -> Result<Seq<u8>, Seq<char>>;

/// Width, height and samples per pixel of a JPEG.
#[derive(Clone, Copy)]
pub struct JpegHeader {
    pub width: usize,
    pub height: usize,
    pub components: usize,
}

/// A header's numbers.
pub open spec fn header_numbers(header: JpegHeader) -> (nat, nat, nat) {
    (header.width as nat, header.height as nat, header.components as nat)
}

/// What became of reading the headers.
pub open spec fn header_outcome(r: Result<JpegHeader, String>) -> Result<
    (nat, nat, nat),
    Seq<char>,
> {
    match r {
        Ok(header) => Ok(header_numbers(header)),
        Err(text) => Err(text@),
    }
}

/// What became of decoding the samples.
pub open spec fn pixels_outcome(r: Result<Vec<u8>, String>) -> Result<Seq<u8>, Seq<char>> {
    match r {
        Ok(pixels) => Ok(pixels@),
        Err(text) => Err(text@),
    }
}

/// How many samples an image of this size has.
pub open spec fn pixel_bytes(header: (nat, nat, nat)) -> nat {
    header.0 * header.1 * header.2
}

/// `zune_jpeg::JpegDecoder::decode_headers`, with `info` and `output_colorspace` for what it
/// found: the size of the image and how many samples a decoded pixel has, or the error's text.
/// Both are functions of the bytes, which it counts in 32 bits. Which bytes are a JPEG is left to
/// `jpeg_header_of`.
#[verifier::external_body]
fn jpeg_header(data: &[u8]) -> (r: Result<JpegHeader, String>)
    requires
        data@.len() <= 0x7fff_ffff,
    ensures
        header_outcome(r) == jpeg_header_of(data@),
{
    let mut decoder = JpegDecoder::new(ZCursor::new(data));
    decoder.decode_headers().map_err(|e| e.to_string())?;
    let info = decoder.info().ok_or("jpeg missing header info")?;
    let colors = decoder.output_colorspace().ok_or("jpeg missing colorspace")?;
    let components = colors.num_components();
    Ok(JpegHeader { width: info.width as usize, height: info.height as usize, components })
}

/// Whether the decoder can be handed these bytes: it can count them, and it refuses their headers
/// or they are laid out steadily.
pub open spec fn is_jpeg_readable(bytes: Seq<u8>) -> bool {
    bytes.len() <= 0x7fff_ffff && (jpeg_header_of(bytes) is Err || is_steady(bytes))
}

/// Whether the decoder can be handed these bytes.
fn jpeg_readable(data: &[u8]) -> (r: bool)
    ensures
        r == is_jpeg_readable(data@),
{
    data.len() <= 0x7fff_ffff && (steady(data) || jpeg_header(data).is_err())
}

/// `zune_jpeg::JpegDecoder::decode`: the samples of all pixels, or the error's text. It reads the
/// headers first, so that it fails as `decode_headers` does, and hands back a buffer of the size
/// that the headers give. What the samples are is left to `jpeg_pixels_of`.
///
/// On files of other layouts than the steady ones it may panic: where a later component is sampled
/// more often than the first, where an image in several passes has two or four components, or where
/// the means of the blocks that are coded in a single pass, which it sums up and multiplies in 32
/// bits, can overflow. On the steady ones its portable and its vector code compute the same
/// integers, so that the samples are a function of the bytes.
#[verifier::external_body]
fn jpeg_pixels(data: &[u8]) -> (r: Result<Vec<u8>, String>)
    requires
        is_jpeg_readable(data@),
    ensures
        pixels_outcome(r) == jpeg_pixels_of(data@),
        r is Ok ==> jpeg_header_of(data@) is Ok && r->Ok_0@.len() == pixel_bytes(
            jpeg_header_of(data@)->Ok_0,
        ),
        jpeg_header_of(data@) is Err ==> r is Err && r->Err_0@ == jpeg_header_of(data@)->Err_0,
{
    let mut decoder = JpegDecoder::new(ZCursor::new(data));
    decoder.decode().map_err(|e| e.to_string())
}

// ---- gray ----

/// Samples in rows without gaps. With one channel they are gray values; with more, the first
/// three of a pixel are red, green and blue, or blue, green and red.
pub struct Samples {
    pub data: Vec<u8>,
    pub width: usize,
    pub height: usize,
    pub channels: usize,
    pub bgr: bool,
}

/// Samples per pixel of a raw encoding that can be turned into gray values.
pub open spec fn gray_channels(encoding: Seq<char>) -> Option<nat> {
    if encoding == "mono8"@ || encoding == "8UC1"@ {
        Some(1)
    } else if encoding == "rgb8"@ || encoding == "bgr8"@ {
        Some(3)
    } else if encoding == "rgba8"@ || encoding == "bgra8"@ {
        Some(4)
    } else {
        None
    }
}

/// Whether an encoding stores blue before red.
pub open spec fn is_bgr(encoding: Seq<char>) -> bool {
    encoding == "bgr8"@ || encoding == "bgra8"@
}

/// Rows of `row` bytes out of rows that start `step` bytes apart.
pub open spec fn packed_rows(data: Seq<u8>, row: nat, height: nat, step: nat) -> Seq<u8> {
    Seq::new(row * height, |i: int| data[i / row as int * step + i % row as int])
}

/// The text for an encoding that is not known.
pub open spec fn unsupported_text(encoding: Seq<char>) -> Seq<char> {
    "unsupported image encoding "@ + debug_text(encoding)
}

/// The text for an image with too few bytes.
pub open spec fn too_small_text(image: CameraImage) -> Seq<char> {
    "image buffer too small: "@ + decimal_text(image.data@.len()) + " bytes for "@ + decimal_text(
        image.width as nat,
    ) + "x"@ + decimal_text(image.height as nat) + " "@ + image.encoding@
}

/// The outcome of reading an image for its gray values: width, height, channels, whether blue
/// comes first, and the samples.
pub open spec fn gray_outcome(image: CameraImage) -> Result<
    (nat, nat, nat, bool, Seq<u8>),
    Seq<char>,
> {
    if image.encoding@ == "jpeg"@ {
        match jpeg_pixels_of(image.data@) {
            Ok(pixels) => {
                let header = jpeg_header_of(image.data@)->Ok_0;
                Ok((header.0, header.1, header.2, false, pixels))
            },
            Err(text) => Err(text),
        }
    } else {
        match gray_channels(image.encoding@) {
            None => Err(unsupported_text(image.encoding@)),
            Some(channels) => if image.data@.len() < image.step * image.height || image.step
                < image.width * channels {
                Err(too_small_text(image))
            } else {
                Ok(
                    (
                        image.width as nat,
                        image.height as nat,
                        channels,
                        is_bgr(image.encoding@),
                        packed_rows(
                            image.data@,
                            (image.width * channels) as nat,
                            image.height as nat,
                            image.step as nat,
                        ),
                    ),
                )
            },
        }
    }
}

/// What became of reading an image for its gray values.
pub open spec fn gray_result(r: Result<Samples, String>) -> Result<
    (nat, nat, nat, bool, Seq<u8>),
    Seq<char>,
> {
    match r {
        Ok(samples) => Ok(samples_view(samples)),
        Err(text) => Err(text@),
    }
}

/// What samples hold.
pub open spec fn samples_view(s: Samples) -> (nat, nat, nat, bool, Seq<u8>) {
    (s.width as nat, s.height as nat, s.channels as nat, s.bgr, s.data@)
}

/// The samples of a decoded JPEG.
pub fn jpeg_samples(pixels: Vec<u8>, header: JpegHeader) -> (s: Samples)
    ensures
        samples_view(s) == (
            header.width as nat,
            header.height as nat,
            header.components as nat,
            false,
            pixels@,
        ),
{
    Samples {
        data: pixels,
        width: header.width,
        height: header.height,
        channels: header.components,
        bgr: false,
    }
}

fn pack_rows(data: &[u8], row: usize, height: usize, step: usize) -> (out: Vec<u8>)
    requires
        row <= step,
        step * height <= data@.len(),
    ensures
        out@ == packed_rows(data@, row as nat, height as nat, step as nat),
{
    let mut out: Vec<u8> = Vec::new();
    if row == 0 {
        assert(row * height == 0) by (nonlinear_arith)
            requires
                row == 0,
        ;
        assert(out@ =~= packed_rows(data@, row as nat, height as nat, step as nat));
        return out;
    }
    let ghost all = packed_rows(data@, row as nat, height as nat, step as nat);
    let size: usize = data.len();
    let mut y: usize = 0;
    assert(row * 0 == 0);
    while y < height
        invariant
            0 < row <= step,
            step * height <= size == data@.len(),
            y <= height,
            all == packed_rows(data@, row as nat, height as nat, step as nat),
            out@.len() == row * y,
            out@.len() <= all.len(),
            forall|i: int| 0 <= i < out@.len() ==> (#[trigger] out@[i]) == all[i],
        decreases height - y,
    {
        let ghost done = out@.len();
        proof {
            assert(step * y + step <= step * height) by (nonlinear_arith)
                requires
                    y + 1 <= height,
            ;
            assert(row * y + row <= row * height) by (nonlinear_arith)
                requires
                    y + 1 <= height,
            ;
            assert(y * step == step * y) by (nonlinear_arith);
            assert(0 <= step * y) by (nonlinear_arith)
                requires
                    0 <= y,
                    0 <= step,
            ;
        }
        let start: usize = y * step;
        let mut x: usize = 0;
        while x < row
            invariant
                0 < row <= step,
                y < height,
                start == y * step,
                start + step <= size == data@.len(),
                x <= row,
                done == row * y,
                row * y + row <= all.len(),
                all == packed_rows(data@, row as nat, height as nat, step as nat),
                out@.len() == done + x,
                forall|i: int| 0 <= i < out@.len() ==> (#[trigger] out@[i]) == all[i],
            decreases row - x,
        {
            proof {
                let i = done + x;
                assert(i / row as int == y && i % row as int == x) by (nonlinear_arith)
                    requires
                        i == row * y + x,
                        0 <= x < row,
                        0 <= y,
                ;
                assert(all[i] == data@[y * step + x]);
            }
            out.push(data[start + x]);
            x = x + 1;
        }
        proof {
            assert(row * (y + 1) == row * y + row) by (nonlinear_arith);
        }
        y = y + 1;
    }
    assert(out@ =~= all);
    out
}

fn too_small(image: &CameraImage) -> (out: String)
    ensures
        out@ == too_small_text(*image),
{
    let mut out = "image buffer too small: ".to_owned();
    out.append(decimal(image.data.len() as u64).as_str());
    out.append(" bytes for ");
    out.append(decimal(image.width as u64).as_str());
    out.append("x");
    out.append(decimal(image.height as u64).as_str());
    out.append(" ");
    out.append(image.encoding.as_str());
    out
}

fn unsupported(encoding: &str) -> (out: String)
    ensures
        out@ == unsupported_text(encoding@),
{
    let mut out = "unsupported image encoding ".to_owned();
    out.append(quoted(encoding).as_str());
    out
}

/// Whether `decode_gray` can take an image: the decoder can be handed its bytes, or the sizes of
/// its rows can be counted.
pub open spec fn is_gray_readable(image: CameraImage) -> bool {
    &&& image.encoding@ == "jpeg"@ ==> is_jpeg_readable(image.data@)
    &&& gray_channels(image.encoding@) matches Some(channels) ==> image.step * image.height
        <= usize::MAX && image.width * channels <= usize::MAX
}

/// How many samples a pixel of a raw encoding has that can be turned into gray values.
fn gray_channel_count(encoding: &str) -> (r: Option<usize>)
    ensures
        match r {
            Some(channels) => gray_channels(encoding@) == Some(channels as nat),
            None => gray_channels(encoding@) is None,
        },
        r matches Some(channels) ==> 1 <= channels <= 4,
{
    proof {
        reveal_strlit("mono8");
        reveal_strlit("8UC1");
        reveal_strlit("rgb8");
        reveal_strlit("bgr8");
        reveal_strlit("rgba8");
        reveal_strlit("bgra8");
    }
    if same(encoding, "mono8") || same(encoding, "8UC1") {
        Some(1)
    } else if same(encoding, "rgb8") || same(encoding, "bgr8") {
        Some(3)
    } else if same(encoding, "rgba8") || same(encoding, "bgra8") {
        Some(4)
    } else {
        None
    }
}

proof fn lemma_product_fits(a: int, b: int)
    requires
        0 <= a <= 0xffff_ffff_ffff_ffff,
        0 <= b <= 0xffff_ffff_ffff_ffff,
    ensures
        0 <= a * b <= 0xffff_ffff_ffff_fffe_0000_0000_0000_0001,
{
    assert(0 <= a * b <= 0xffff_ffff_ffff_ffff * 0xffff_ffff_ffff_ffff) by (nonlinear_arith)
        requires
            0 <= a <= 0xffff_ffff_ffff_ffff,
            0 <= b <= 0xffff_ffff_ffff_ffff,
    ;
}

/// Whether `decode_gray` can take the image.
pub fn gray_readable(image: &CameraImage) -> (r: bool)
    ensures
        r == is_gray_readable(*image),
{
    if same(image.encoding.as_str(), "jpeg") && !jpeg_readable(&image.data) {
        return false;
    }
    match gray_channel_count(image.encoding.as_str()) {
        None => true,
        Some(channels) => {
            proof {
                lemma_product_fits(image.step as int, image.height as int);
                lemma_product_fits(image.width as int, channels as int);
            }
            let whole: u128 = image.step as u128 * image.height as u128;
            let row: u128 = image.width as u128 * channels as u128;
            whole <= usize::MAX as u128 && row <= usize::MAX as u128
        },
    }
}

/// The samples from which an image's gray values are computed.
pub fn decode_gray(image: &CameraImage) -> (r: Result<Samples, String>)
    requires
        is_gray_readable(*image),
    ensures
        gray_result(r) == gray_outcome(*image),
{
    let encoding = image.encoding.as_str();
    if same(encoding, "jpeg") {
        return match jpeg_pixels(&image.data) {
            Err(text) => Err(text),
            Ok(pixels) => match jpeg_header(&image.data) {
                Err(text) => Err(text),
                Ok(header) => Ok(jpeg_samples(pixels, header)),
            },
        };
    }
    let channels: usize = match gray_channel_count(encoding) {
        Some(channels) => channels,
        None => {
            return Err(unsupported(encoding));
        },
    };
    if image.data.len() < image.step * image.height || image.step < image.width * channels {
        return Err(too_small(image));
    }
    let data = pack_rows(&image.data, image.width * channels, image.height, image.step);
    Ok(
        Samples {
            data,
            width: image.width,
            height: image.height,
            channels,
            bgr: same(encoding, "bgr8") || same(encoding, "bgra8"),
        },
    )
}

/// The samples from which an image's gray values are computed, where `decode_gray` can take it.
pub fn read_gray(image: &CameraImage) -> (r: Option<Result<Samples, String>>)
    ensures
        r is Some <==> is_gray_readable(*image),
        r matches Some(read) ==> gray_result(read) == gray_outcome(*image),
{
    if gray_readable(image) {
        Some(decode_gray(image))
    } else {
        None
    }
}

// ---- color ----

/// Samples per pixel of a raw encoding, in lower case, that can be turned into colors.
pub open spec fn rgb_channels(encoding: Seq<char>) -> Option<nat> {
    if encoding == "rgb8"@ || encoding == "bgr8"@ {
        Some(3)
    } else if encoding == "rgba8"@ || encoding == "bgra8"@ {
        Some(4)
    } else if encoding == "mono8"@ || encoding == "8uc1"@ {
        Some(1)
    } else {
        None
    }
}

/// How far apart the rows start: the image's step, or the length of a row where it has none.
pub open spec fn row_bytes(image: CameraImage, channels: nat) -> nat {
    if image.step > 0 {
        image.step as nat
    } else {
        image.width as nat * channels
    }
}

/// The last sample of a pixel that is read.
pub open spec fn last_read(channels: nat) -> nat {
    if channels == 1 {
        0
    } else {
        2
    }
}

/// Whether every pixel's samples are there and the colors can be counted.
pub open spec fn colors_fit(image: CameraImage, channels: nat) -> bool {
    let rows = row_bytes(image, channels);
    &&& rows <= usize::MAX
    &&& image.width * image.height * 3 <= usize::MAX
    &&& image.width > 0 && image.height > 0 ==> (image.height - 1) * rows + (image.width - 1)
        * channels + last_read(channels) < image.data@.len()
}

/// The sample that becomes color `i` of the image: red, green and blue of one pixel after the
/// other, row by row.
pub open spec fn rgb_at(image: CameraImage, channels: nat, bgr: bool, i: int) -> u8 {
    let pixel = i / 3;
    let base = pixel / image.width as int * row_bytes(image, channels) + pixel % image.width as int
        * channels;
    if channels == 1 {
        image.data@[base]
    } else if bgr {
        image.data@[base + 2 - i % 3]
    } else {
        image.data@[base + i % 3]
    }
}

/// Each value three times.
pub open spec fn tripled(values: Seq<u8>) -> Seq<u8> {
    Seq::new(values.len() * 3, |i: int| values[i / 3])
}

/// The colors of a decoded JPEG with this many samples per pixel.
pub open spec fn jpeg_colors(components: nat, pixels: Seq<u8>) -> Result<Seq<u8>, Seq<char>> {
    if components == 3 {
        Ok(pixels)
    } else if components == 1 {
        Ok(tripled(pixels))
    } else {
        Err("jpeg with "@ + decimal_text(components) + " components unsupported"@)
    }
}

/// The outcome of reading an image for its colors: width, height, and red, green and blue of
/// each pixel.
pub open spec fn rgb_outcome(image: CameraImage) -> Result<(nat, nat, Seq<u8>), Seq<char>> {
    let encoding = lowered(image.encoding@);
    if is_jpeg_name(encoding) {
        match jpeg_header_of(image.data@) {
            Err(text) => Err("jpeg header decode failed: "@ + text),
            Ok(header) => match jpeg_pixels_of(image.data@) {
                Err(text) => Err("jpeg decode failed: "@ + text),
                Ok(pixels) => match jpeg_colors(header.2, pixels) {
                    Err(text) => Err(text),
                    Ok(colors) => Ok((header.0, header.1, colors)),
                },
            },
        }
    } else {
        match rgb_channels(encoding) {
            None => Err(unsupported_text(encoding)),
            Some(channels) => Ok(
                (
                    image.width as nat,
                    image.height as nat,
                    Seq::new(
                        (image.width * image.height * 3) as nat,
                        |i: int| rgb_at(image, channels, is_bgr(encoding), i),
                    ),
                ),
            ),
        }
    }
}

/// Red, green and blue of each pixel, row by row.
pub struct Colors {
    pub rgb: Vec<u8>,
    pub width: usize,
    pub height: usize,
}

/// What became of reading an image for its colors.
pub open spec fn rgb_result(r: Result<Colors, String>) -> Result<(nat, nat, Seq<u8>), Seq<char>> {
    match r {
        Ok(colors) => Ok((colors.width as nat, colors.height as nat, colors.rgb@)),
        Err(text) => Err(text@),
    }
}

/// What became of coloring decoded samples.
pub open spec fn colored(r: Result<Vec<u8>, String>) -> Result<Seq<u8>, Seq<char>> {
    match r {
        Ok(rgb) => Ok(rgb@),
        Err(text) => Err(text@),
    }
}

/// The colors of a decoded JPEG with this many samples per pixel.
pub fn rgb_from_jpeg(components: usize, pixels: Vec<u8>) -> (r: Result<Vec<u8>, String>)
    ensures
        colored(r) == jpeg_colors(components as nat, pixels@),
{
    if components == 3 {
        return Ok(pixels);
    }
    if components == 1 {
        let mut rgb: Vec<u8> = Vec::new();
        let mut i: usize = 0;
        while i < pixels.len()
            invariant
                i <= pixels.len(),
                rgb@.len() == i * 3,
                forall|k: int| 0 <= k < rgb@.len() ==> (#[trigger] rgb@[k]) == pixels@[k / 3],
            decreases pixels.len() - i,
        {
            rgb.push(pixels[i]);
            rgb.push(pixels[i]);
            rgb.push(pixels[i]);
            i = i + 1;
        }
        assert(rgb@ =~= tripled(pixels@));
        return Ok(rgb);
    }
    let mut text = "jpeg with ".to_owned();
    text.append(decimal(components as u64).as_str());
    text.append(" components unsupported");
    Err(text)
}

proof fn lemma_pixel_read(image: CameraImage, channels: nat, y: int, x: int)
    requires
        colors_fit(image, channels),
        channels == 1 || channels == 3 || channels == 4,
        0 <= y < image.height,
        0 <= x < image.width,
    ensures
        0 <= y * row_bytes(image, channels),
        0 <= x * channels,
        y * row_bytes(image, channels) + x * channels + last_read(channels) < image.data@.len(),
{
    let rows = row_bytes(image, channels) as int;
    let bottom = image.height - 1;
    let right = image.width - 1;
    assert(y * rows <= bottom * rows && 0 <= y * rows) by (nonlinear_arith)
        requires
            0 <= y <= bottom,
            0 <= rows,
    ;
    assert(x * channels <= right * channels && 0 <= x * channels) by (nonlinear_arith)
        requires
            0 <= x <= right,
            0 <= channels,
    ;
}

fn raw_colors(image: &CameraImage, channels: usize, bgr: bool) -> (rgb: Vec<u8>)
    requires
        channels == 1 || channels == 3 || channels == 4,
        colors_fit(*image, channels as nat),
    ensures
        rgb@ == Seq::new(
            (image.width * image.height * 3) as nat,
            |i: int| rgb_at(*image, channels as nat, bgr, i),
        ),
{
    let ghost all = Seq::new(
        (image.width * image.height * 3) as nat,
        |i: int| rgb_at(*image, channels as nat, bgr, i),
    );
    let mut rgb: Vec<u8> = Vec::new();
    let width: usize = image.width;
    let height: usize = image.height;
    if width == 0 || height == 0 {
        assert(width * height == 0) by (nonlinear_arith)
            requires
                width == 0 || height == 0,
        ;
        assert(rgb@ =~= all);
        return rgb;
    }
    let rows: usize = if image.step > 0 {
        image.step
    } else {
        assert(image.width * channels == image.width as nat * channels as nat);
        width * channels
    };
    let size: usize = image.data.len();
    let mut y: usize = 0;
    assert(width * 0 == 0);
    while y < height
        invariant
            channels == 1 || channels == 3 || channels == 4,
            colors_fit(*image, channels as nat),
            width == image.width,
            height == image.height,
            rows == row_bytes(*image, channels as nat),
            size == image.data@.len(),
            y <= height,
            all == Seq::new(
                (image.width * image.height * 3) as nat,
                |i: int| rgb_at(*image, channels as nat, bgr, i),
            ),
            rgb@.len() == width * y * 3,
            rgb@.len() <= all.len(),
            forall|i: int| 0 <= i < rgb@.len() ==> (#[trigger] rgb@[i]) == all[i],
        decreases height - y,
    {
        let ghost done = width * y;
        proof {
            assert(done + width <= width * height) by (nonlinear_arith)
                requires
                    y + 1 <= height,
                    done == width * y,
            ;
            if width > 0 {
                lemma_pixel_read(*image, channels as nat, y as int, 0);
            }
        }
        let mut x: usize = 0;
        while x < width
            invariant
                channels == 1 || channels == 3 || channels == 4,
                colors_fit(*image, channels as nat),
                width == image.width,
                height == image.height,
                y < height,
                rows == row_bytes(*image, channels as nat),
                size == image.data@.len(),
                x <= width,
                done == width * y,
                done + width <= width * height,
                all == Seq::new(
                    (image.width * image.height * 3) as nat,
                    |i: int| rgb_at(*image, channels as nat, bgr, i),
                ),
                rgb@.len() == (done + x) * 3,
                forall|i: int| 0 <= i < rgb@.len() ==> (#[trigger] rgb@[i]) == all[i],
            decreases width - x,
        {
            let ghost pixel = done + x;
            proof {
                lemma_pixel_read(*image, channels as nat, y as int, x as int);
                assert(pixel / width as int == y && pixel % width as int == x) by (nonlinear_arith)
                    requires
                        pixel == width * y + x,
                        0 <= x < width,
                        0 <= y,
                ;
                assert(all[pixel * 3] == rgb_at(*image, channels as nat, bgr, pixel * 3));
                assert(all[pixel * 3 + 1] == rgb_at(*image, channels as nat, bgr, pixel * 3 + 1));
                assert(all[pixel * 3 + 2] == rgb_at(*image, channels as nat, bgr, pixel * 3 + 2));
            }
            let base: usize = y * rows + x * channels;
            if channels == 1 {
                let v: u8 = image.data[base];
                rgb.push(v);
                rgb.push(v);
                rgb.push(v);
            } else if bgr {
                rgb.push(image.data[base + 2]);
                rgb.push(image.data[base + 1]);
                rgb.push(image.data[base]);
            } else {
                rgb.push(image.data[base]);
                rgb.push(image.data[base + 1]);
                rgb.push(image.data[base + 2]);
            }
            x = x + 1;
        }
        proof {
            assert(width * (y + 1) == width * y + width) by (nonlinear_arith);
        }
        y = y + 1;
    }
    assert(rgb@ =~= all);
    rgb
}

/// A name, in lower case, for compressed images.
pub open spec fn is_jpeg_name(encoding: Seq<char>) -> bool {
    encoding == "jpeg"@ || encoding == "jpg"@
}

/// Whether `decode_rgb` can read the image: the decoder can be handed its bytes, or every sample
/// that is needed is there.
pub open spec fn is_rgb_readable(image: CameraImage) -> bool {
    &&& is_jpeg_name(lowered(image.encoding@)) ==> is_jpeg_readable(image.data@)
    &&& rgb_channels(lowered(image.encoding@)) matches Some(channels) ==> colors_fit(
        image,
        channels,
    )
}

/// How many samples a pixel of a raw encoding, in lower case, has.
fn rgb_channel_count(encoding: &str) -> (r: Option<usize>)
    ensures
        match r {
            Some(channels) => rgb_channels(encoding@) == Some(channels as nat),
            None => rgb_channels(encoding@) is None,
        },
        r matches Some(channels) ==> channels == 1 || channels == 3 || channels == 4,
{
    proof {
        reveal_strlit("mono8");
        reveal_strlit("8uc1");
        reveal_strlit("rgb8");
        reveal_strlit("bgr8");
        reveal_strlit("rgba8");
        reveal_strlit("bgra8");
    }
    if same(encoding, "rgb8") || same(encoding, "bgr8") {
        Some(3)
    } else if same(encoding, "rgba8") || same(encoding, "bgra8") {
        Some(4)
    } else if same(encoding, "mono8") || same(encoding, "8uc1") {
        Some(1)
    } else {
        None
    }
}

/// Whether `decode_rgb` can read the image.
pub fn rgb_readable(image: &CameraImage) -> (r: bool)
    ensures
        r == is_rgb_readable(*image),
{
    let lower = ascii_lowercase(image.encoding.as_str());
    let compressed: bool = same(lower.as_str(), "jpeg") || same(lower.as_str(), "jpg");
    if compressed && !jpeg_readable(&image.data) {
        return false;
    }
    let channels: usize = match rgb_channel_count(lower.as_str()) {
        Some(channels) => channels,
        None => {
            return true;
        },
    };
    let width: u128 = image.width as u128;
    let height: u128 = image.height as u128;
    proof {
        lemma_product_fits(image.width as int, channels as int);
        lemma_product_fits(image.width as int, image.height as int);
    }
    let rows: u128 = if image.step > 0 {
        image.step as u128
    } else {
        width * channels as u128
    };
    if rows > usize::MAX as u128 || width * height > usize::MAX as u128 / 3 {
        return false;
    }
    if image.width == 0 || image.height == 0 {
        return true;
    }
    proof {
        lemma_product_fits(image.height - 1, rows as int);
        lemma_product_fits(image.width - 1, channels as int);
    }
    let last_row: u128 = (height - 1) * rows;
    if last_row >= image.data.len() as u128 {
        return false;
    }
    let beyond: u128 = if channels == 1 {
        0
    } else {
        2
    };
    assert((image.width - 1) * channels <= 0xffff_ffff_ffff_ffff * 4) by (nonlinear_arith)
        requires
            0 < image.width <= 0xffff_ffff_ffff_ffff,
            channels <= 4,
    ;
    last_row + (width - 1) * channels as u128 + beyond < image.data.len() as u128
}

/// The colors of an image.
pub fn decode_rgb(image: &CameraImage) -> (r: Result<Colors, String>)
    requires
        is_rgb_readable(*image),
    ensures
        rgb_result(r) == rgb_outcome(*image),
{
    let lower = ascii_lowercase(image.encoding.as_str());
    let encoding = lower.as_str();
    if same(encoding, "jpeg") || same(encoding, "jpg") {
        let header = match jpeg_header(&image.data) {
            Err(text) => {
                let mut out = "jpeg header decode failed: ".to_owned();
                out.append(text.as_str());
                return Err(out);
            },
            Ok(header) => header,
        };
        let pixels = match jpeg_pixels(&image.data) {
            Err(text) => {
                let mut out = "jpeg decode failed: ".to_owned();
                out.append(text.as_str());
                return Err(out);
            },
            Ok(pixels) => pixels,
        };
        return match rgb_from_jpeg(header.components, pixels) {
            Err(text) => Err(text),
            Ok(rgb) => Ok(Colors { rgb, width: header.width, height: header.height }),
        };
    }
    let channels: usize = match rgb_channel_count(encoding) {
        Some(channels) => channels,
        None => {
            return Err(unsupported(encoding));
        },
    };
    let rgb = raw_colors(image, channels, same(encoding, "bgr8") || same(encoding, "bgra8"));
    Ok(Colors { rgb, width: image.width, height: image.height })
}

/// The colors of an image, where `decode_rgb` can take it.
pub fn read_rgb(image: &CameraImage) -> (r: Option<Result<Colors, String>>)
    ensures
        r is Some <==> is_rgb_readable(*image),
        r matches Some(read) ==> rgb_result(read) == rgb_outcome(*image),
{
    if rgb_readable(image) {
        Some(decode_rgb(image))
    } else {
        None
    }
}

// ---- sharpness ----

/// A part of an image: `width` by `height` pixels from column `left` and row `top` on.
#[derive(Clone, Copy)]
pub struct Region {
    pub left: usize,
    pub top: usize,
    pub width: usize,
    pub height: usize,
}

/// A coordinate cut off at 0 and at `limit`.
pub open spec fn clamped(v: int, limit: int) -> int {
    if v < 0 {
        0
    } else if v > limit {
        limit
    } else {
        v
    }
}

/// From `low`, or 0 where that is negative, up to `high` cut off at the image's edge.
pub open spec fn extent(low: int, high: int, limit: int) -> int {
    clamped(high, limit) - (if low < 0 {
        0
    } else {
        low
    })
}

fn start_of(low: i64) -> (r: u64)
    ensures
        r == (if low < 0 {
            0
        } else {
            low as int
        }),
{
    if low < 0 {
        0
    } else {
        low as u64
    }
}

fn end_of(high: i64, limit: usize) -> (r: usize)
    ensures
        r == clamped(high as int, limit as int),
{
    if high < 0 {
        0
    } else if high as u64 > limit as u64 {
        limit
    } else {
        high as usize
    }
}

/// The part of an image within bounds given in whole pixels, where it is at least two pixels
/// wide and high.
pub fn tag_region(width: usize, height: usize, low: (i64, i64), high: (i64, i64)) -> (r: Option<
    Region,
>)
    ensures
        r is Some <==> extent(low.0 as int, high.0 as int, width as int) >= 2 && extent(
            low.1 as int,
            high.1 as int,
            height as int,
        ) >= 2,
        r matches Some(region) ==> {
            &&& region.left == (if low.0 < 0 {
                0
            } else {
                low.0 as int
            })
            &&& region.top == (if low.1 < 0 {
                0
            } else {
                low.1 as int
            })
            &&& region.width == extent(low.0 as int, high.0 as int, width as int)
            &&& region.height == extent(low.1 as int, high.1 as int, height as int)
            &&& region.left + region.width <= width
            &&& region.top + region.height <= height
        },
{
    let left: u64 = start_of(low.0);
    let top: u64 = start_of(low.1);
    let right: usize = end_of(high.0, width);
    let bottom: usize = end_of(high.1, height);
    if left >= right as u64 || top >= bottom as u64 {
        return None;
    }
    let wide: usize = right - left as usize;
    let high: usize = bottom - top as usize;
    if wide < 2 || high < 2 {
        return None;
    }
    Some(Region { left: left as usize, top: top as usize, width: wide, height: high })
}

/// A coordinate mirrored at the first and the last of `n` pixels, which are not repeated.
pub open spec fn mirrored(v: int, n: int) -> int {
    if v < 0 {
        -v
    } else if v >= n {
        2 * n - 2 - v
    } else {
        v
    }
}

/// The gray value at a place of a region.
pub open spec fn gray_at(gray: Seq<u8>, width: int, region: Region, x: int, y: int) -> int {
    gray[(region.top + mirrored(y, region.height as int)) * width + region.left + mirrored(
        x,
        region.width as int,
    )] as int
}

/// The four neighbours of a pixel less four times the pixel.
pub open spec fn laplacian(gray: Seq<u8>, width: int, region: Region, x: int, y: int) -> int {
    gray_at(gray, width, region, x - 1, y) + gray_at(gray, width, region, x + 1, y) + gray_at(
        gray,
        width,
        region,
        x,
        y - 1,
    ) + gray_at(gray, width, region, x, y + 1) - 4 * gray_at(gray, width, region, x, y)
}

/// Sum and sum of squares of the Laplacian over the first `n` pixels of a row.
pub open spec fn row_moments(gray: Seq<u8>, width: int, region: Region, y: int, n: nat) -> (int, int)
    decreases n,
{
    if n == 0 {
        (0, 0)
    } else {
        let before = row_moments(gray, width, region, y, (n - 1) as nat);
        let v = laplacian(gray, width, region, n - 1, y);
        (before.0 + v, before.1 + v * v)
    }
}

/// Sum and sum of squares of the Laplacian over the first `n` rows.
pub open spec fn moments(gray: Seq<u8>, width: int, region: Region, n: nat) -> (int, int)
    decreases n,
{
    if n == 0 {
        (0, 0)
    } else {
        let before = moments(gray, width, region, (n - 1) as nat);
        let row = row_moments(gray, width, region, n - 1, region.width as nat);
        (before.0 + row.0, before.1 + row.1)
    }
}

/// Whether a region lies within an image.
pub open spec fn lies_within(region: Region, width: int, height: int) -> bool {
    &&& 2 <= region.width && region.left + region.width <= width
    &&& 2 <= region.height && region.top + region.height <= height
}

proof fn lemma_pixel_within(region: Region, width: int, height: int, x: int, y: int)
    requires
        lies_within(region, width, height),
        -1 <= x <= region.width,
        -1 <= y <= region.height,
    ensures
        0 <= mirrored(x, region.width as int) < region.width,
        0 <= mirrored(y, region.height as int) < region.height,
        0 <= (region.top + mirrored(y, region.height as int)) * width,
        0 <= (region.top + mirrored(y, region.height as int)) * width + region.left + mirrored(
            x,
            region.width as int,
        ) < width * height,
{
    let row = region.top + mirrored(y, region.height as int);
    let column = region.left + mirrored(x, region.width as int);
    assert(0 <= row * width && row * width + column < width * height) by (nonlinear_arith)
        requires
            0 <= row < height,
            0 <= column < width,
    ;
}

fn mirror(v: i128, n: usize) -> (r: usize)
    requires
        2 <= n,
        -1 <= v <= n,
    ensures
        r == mirrored(v as int, n as int),
{
    if v < 0 {
        1
    } else if v as u128 >= n as u128 {
        n - 2
    } else {
        v as usize
    }
}

fn gray_value(gray: &[u8], width: usize, height: usize, region: &Region, x: i128, y: i128) -> (r:
    i64)
    requires
        lies_within(*region, width as int, height as int),
        gray@.len() == width * height,
        -1 <= x <= region.width,
        -1 <= y <= region.height,
    ensures
        r == gray_at(gray@, width as int, *region, x as int, y as int),
        0 <= r <= 255,
{
    proof {
        lemma_pixel_within(*region, width as int, height as int, x as int, y as int);
        assert(gray.len() <= usize::MAX);
    }
    let column: usize = region.left + mirror(x, region.width);
    let row: usize = region.top + mirror(y, region.height);
    gray[row * width + column] as i64
}

fn laplacian_value(
    gray: &[u8],
    width: usize,
    height: usize,
    region: &Region,
    x: usize,
    y: usize,
) -> (r: i64)
    requires
        lies_within(*region, width as int, height as int),
        gray@.len() == width * height,
        x < region.width,
        y < region.height,
    ensures
        r == laplacian(gray@, width as int, *region, x as int, y as int),
        -1020 <= r <= 1020,
{
    let x: i128 = x as i128;
    let y: i128 = y as i128;
    let west: i64 = gray_value(gray, width, height, region, x - 1, y);
    let east: i64 = gray_value(gray, width, height, region, x + 1, y);
    let north: i64 = gray_value(gray, width, height, region, x, y - 1);
    let south: i64 = gray_value(gray, width, height, region, x, y + 1);
    let here: i64 = gray_value(gray, width, height, region, x, y);
    west + east + north + south - 4 * here
}

proof fn lemma_row_bounded(gray: Seq<u8>, width: int, height: int, region: Region, y: int, n: nat)
    requires
        lies_within(region, width, height),
        gray.len() == width * height,
        0 <= y < region.height,
        n <= region.width,
    ensures
        -1020 * n <= row_moments(gray, width, region, y, n).0 <= 1020 * n,
        0 <= row_moments(gray, width, region, y, n).1 <= 1040400 * n,
    decreases n,
{
    if n > 0 {
        lemma_row_bounded(gray, width, height, region, y, (n - 1) as nat);
        let x = n - 1;
        lemma_pixel_within(region, width, height, x - 1, y);
        lemma_pixel_within(region, width, height, x + 1, y);
        lemma_pixel_within(region, width, height, x, y - 1);
        lemma_pixel_within(region, width, height, x, y + 1);
        lemma_pixel_within(region, width, height, x, y);
        let v = laplacian(gray, width, region, x, y);
        assert(-1020 <= v <= 1020);
        assert(0 <= v * v <= 1040400) by (nonlinear_arith)
            requires
                -1020 <= v <= 1020,
        ;
    }
}

proof fn lemma_moments_bounded(gray: Seq<u8>, width: int, height: int, region: Region, n: nat)
    requires
        lies_within(region, width, height),
        gray.len() == width * height,
        n <= region.height,
    ensures
        -1020 * (n * region.width) <= moments(gray, width, region, n).0 <= 1020 * (n
            * region.width),
        0 <= moments(gray, width, region, n).1 <= 1040400 * (n * region.width),
    decreases n,
{
    if n > 0 {
        lemma_moments_bounded(gray, width, height, region, (n - 1) as nat);
        lemma_row_bounded(gray, width, height, region, n - 1, region.width as nat);
        assert(n * region.width == (n - 1) * region.width + region.width) by (nonlinear_arith);
    } else {
        assert(n * region.width == 0) by (nonlinear_arith)
            requires
                n == 0,
        ;
    }
}

proof fn lemma_totals_fit(
    gray: Seq<u8>,
    width: int,
    height: int,
    region: Region,
    x: nat,
    y: nat,
)
    requires
        lies_within(region, width, height),
        gray.len() == width * height,
        gray.len() <= usize::MAX,
        y < region.height,
        x < region.width,
    ensures
        ({
            let before = moments(gray, width, region, y);
            let row = row_moments(gray, width, region, y as int, x);
            &&& -0x1000_0000_0000_0000_0000_0000 <= before.0 + row.0 <= 0x1000_0000_0000_0000_0000_0000
            &&& 0 <= before.1 + row.1 <= 0x1000_0000_0000_0000_0000_0000
        }),
{
    lemma_moments_bounded(gray, width, height, region, y);
    lemma_row_bounded(gray, width, height, region, y as int, x);
    let w = region.width as int;
    let h = region.height as int;
    assert(y * w + x <= width * height) by (nonlinear_arith)
        requires
            0 <= y < h <= height,
            0 <= x < w <= width,
    ;
}

/// Sum and sum of squares of the Laplacian over a part of an image, mirrored at its edges. Their
/// variance tells how sharp that part is.
pub fn tag_sharpness(gray: &[u8], width: usize, height: usize, region: &Region) -> (r: (i128, i128))
    requires
        lies_within(*region, width as int, height as int),
        gray@.len() == width * height,
    ensures
        (r.0 as int, r.1 as int) == moments(gray@, width as int, *region, region.height as nat),
{
    let mut sum: i128 = 0;
    let mut squares: i128 = 0;
    let mut y: usize = 0;
    while y < region.height
        invariant
            lies_within(*region, width as int, height as int),
            gray@.len() == width * height,
            y <= region.height,
            (sum as int, squares as int) == moments(gray@, width as int, *region, y as nat),
        decreases region.height - y,
    {
        let ghost before = (sum as int, squares as int);
        let mut x: usize = 0;
        while x < region.width
            invariant
                lies_within(*region, width as int, height as int),
                gray@.len() == width * height,
                y < region.height,
                x <= region.width,
                sum == before.0 + row_moments(gray@, width as int, *region, y as int, x as nat).0,
                squares == before.1 + row_moments(
                    gray@,
                    width as int,
                    *region,
                    y as int,
                    x as nat,
                ).1,
                before == moments(gray@, width as int, *region, y as nat),
            decreases region.width - x,
        {
            let v: i64 = laplacian_value(gray, width, height, region, x, y);
            proof {
                assert(gray.len() <= usize::MAX);
                lemma_totals_fit(gray@, width as int, height as int, *region, x as nat, y as nat);
                assert(0 <= v * v <= 1040400) by (nonlinear_arith)
                    requires
                        -1020 <= v <= 1020,
                ;
            }
            sum = sum + v as i128;
            squares = squares + (v * v) as i128;
            x = x + 1;
        }
        y = y + 1;
    }
    (sum, squares)
}

// ---- what the results are, over all inputs ----

/// Packed, the rows stand one behind the other, without what was between them.
pub proof fn lemma_rows_are_packed(data: Seq<u8>, row: nat, height: nat, step: nat, y: int, x: int)
    requires
        0 <= y < height,
        0 <= x < row,
    ensures
        packed_rows(data, row, height, step).len() == height * row,
        packed_rows(data, row, height, step)[y * row + x] == data[y * step + x],
{
    let i = y * row + x;
    vstd::arithmetic::div_mod::lemma_fundamental_div_mod_converse(i, row as int, y, x);
    assert(0 <= i < row * height) by (nonlinear_arith)
        requires
            0 <= y < height,
            0 <= x < row,
            i == y * row + x,
    ;
    assert(row * height == height * row) by (nonlinear_arith);
}

/// A gray image is one of one, three or four samples a pixel, by its encoding, blue first in the two
/// encodings that say so; it is as large as noted, and its samples are those of the rows.
pub proof fn lemma_encodings_tell_the_samples(image: CameraImage)
    requires
        image.encoding@ != "jpeg"@,
    ensures
        ({
            let name = image.encoding@;
            let one = name == "mono8"@ || name == "8UC1"@;
            let three = name == "rgb8"@ || name == "bgr8"@;
            let four = name == "rgba8"@ || name == "bgra8"@;
            let channels = if one {
                1int
            } else if three {
                3
            } else {
                4
            };
            let whole = image.step * image.height <= image.data@.len() && image.width * channels
                <= image.step;
            let r = gray_outcome(image);
            &&& r is Ok <==> (one || three || four) && whole
            &&& r matches Ok(out) ==> out.0 == image.width && out.1 == image.height && out.2
                == channels && out.3 == (name == "bgr8"@ || name == "bgra8"@) && out.4
                == packed_rows(
                image.data@,
                (image.width * channels) as nat,
                image.height as nat,
                image.step as nat,
            )
            &&& !one && !three && !four ==> r == Err::<
                (nat, nat, nat, bool, Seq<u8>),
                Seq<char>,
            >("unsupported image encoding "@ + debug_text(name))
        }),
{
    reveal_strlit("mono8");
    reveal_strlit("8UC1");
    reveal_strlit("rgb8");
    reveal_strlit("bgr8");
    reveal_strlit("rgba8");
    reveal_strlit("bgra8");
    assert("rgb8"@.len() == 4 && "bgr8"@.len() == 4 && "8UC1"@.len() == 4 && "mono8"@.len() == 5
        && "rgba8"@.len() == 5 && "bgra8"@.len() == 5);
    assert("rgb8"@[0] == 'r' && "bgr8"@[0] == 'b' && "8UC1"@[0] == '8' && "mono8"@[0] == 'm'
        && "rgba8"@[0] == 'r' && "bgra8"@[0] == 'b');
}

/// The three numbers of a pixel are its red, green and blue: the samples of the pixel in this order,
/// the other way round where blue comes first, and the one sample three times where there is one.
pub proof fn lemma_pixel_has_its_colors(
    image: CameraImage,
    channels: nat,
    bgr: bool,
    x: int,
    y: int,
)
    requires
        0 <= x < image.width,
        0 <= y < image.height,
    ensures
        ({
            let at = (y * image.width + x) * 3;
            let rows = if image.step > 0 {
                image.step as int
            } else {
                image.width * channels
            };
            let base = y * rows + x * channels;
            let first = image.data@[base];
            let rgb = (
                rgb_at(image, channels, bgr, at),
                rgb_at(image, channels, bgr, at + 1),
                rgb_at(image, channels, bgr, at + 2),
            );
            &&& channels == 1 ==> rgb == (first, first, first)
            &&& channels > 1 && !bgr ==> rgb == (first, image.data@[base + 1], image.data@[base + 2])
            &&& channels > 1 && bgr ==> rgb == (image.data@[base + 2], image.data@[base + 1], first)
        }),
{
    let pixel = y * image.width + x;
    let at = pixel * 3;
    vstd::arithmetic::div_mod::lemma_fundamental_div_mod_converse(
        pixel,
        image.width as int,
        y,
        x,
    );
    assert(at / 3 == pixel && (at + 1) / 3 == pixel && (at + 2) / 3 == pixel);
    assert(at % 3 == 0 && (at + 1) % 3 == 1 && (at + 2) % 3 == 2);
}

/// A color image of raw samples is read in one, three or four samples a pixel by its encoding, in
/// small letters or capitals; it is as large as noted, with three numbers a pixel.
pub proof fn lemma_color_encodings_tell_the_samples(image: CameraImage, i: int)
    requires
        !is_jpeg_name(lowered(image.encoding@)),
    ensures
        ({
            let name = lowered(image.encoding@);
            let one = name == "mono8"@ || name == "8uc1"@;
            let three = name == "rgb8"@ || name == "bgr8"@;
            let four = name == "rgba8"@ || name == "bgra8"@;
            let channels = if one {
                1nat
            } else if three {
                3
            } else {
                4
            };
            let r = rgb_outcome(image);
            &&& r is Ok <==> one || three || four
            &&& r matches Ok(out) ==> out.0 == image.width && out.1 == image.height && out.2.len()
                == image.width * image.height * 3 && (0 <= i < out.2.len() ==> out.2[i] == rgb_at(
                image,
                channels,
                name == "bgr8"@ || name == "bgra8"@,
                i,
            ))
        }),
{
    reveal_strlit("mono8");
    reveal_strlit("8uc1");
    reveal_strlit("rgb8");
    reveal_strlit("bgr8");
    reveal_strlit("rgba8");
    reveal_strlit("bgra8");
    assert("rgb8"@.len() == 4 && "bgr8"@.len() == 4 && "8uc1"@.len() == 4 && "mono8"@.len() == 5
        && "rgba8"@.len() == 5 && "bgra8"@.len() == 5);
    assert("rgb8"@[0] == 'r' && "bgr8"@[0] == 'b' && "8uc1"@[0] == '8' && "mono8"@[0] == 'm'
        && "rgba8"@[0] == 'r' && "bgra8"@[0] == 'b');
    if rgb_outcome(image) is Ok {
        assert(0 <= image.width * image.height * 3) by (nonlinear_arith);
    }
}

/// The pixels of a JPEG with three components are its colors, those with one are gray, and others
/// are not read.
pub proof fn lemma_gray_pixels_are_tripled(components: nat, pixels: Seq<u8>, i: int)
    ensures
        jpeg_colors(components, pixels) is Ok <==> components == 1 || components == 3,
        components == 3 ==> jpeg_colors(components, pixels) == Ok::<Seq<u8>, Seq<char>>(pixels),
        components == 1 && 0 <= i < pixels.len() ==> {
            let colors = jpeg_colors(components, pixels)->Ok_0;
            &&& colors.len() == 3 * pixels.len()
            &&& colors[3 * i] == pixels[i]
            &&& colors[3 * i + 1] == pixels[i]
            &&& colors[3 * i + 2] == pixels[i]
        },
{
}

/// A region is what of its bounds lies in the image: a place is in it exactly where it is neither left
/// of the low bound, nor at or behind the high one, nor outside.
pub proof fn lemma_region_is_what_is_inside(low: int, high: int, limit: int, x: int)
    requires
        0 <= limit,
        extent(low, high, limit) >= 2,
    ensures
        ({
            let left = if low < 0 {
                0
            } else {
                low
            };
            left <= x < left + extent(low, high, limit) <==> low <= x < high && 0 <= x < limit
        }),
{
}

/// Beyond an edge a row goes on as in a mirror that stands on its last pixel.
pub proof fn lemma_edges_mirror(n: int, k: int)
    requires
        2 <= n,
        0 <= k < n,
    ensures
        mirrored(k, n) == k,
        mirrored(-k, n) == k,
        mirrored(n - 1 + k, n) == n - 1 - k,
{
}

/// Inside a region the contrast of a pixel is what its four neighbours have more than it.
pub proof fn lemma_contrast_is_of_four_neighbours(
    gray: Seq<u8>,
    width: int,
    region: Region,
    x: int,
    y: int,
)
    requires
        0 < x < region.width - 1,
        0 < y < region.height - 1,
    ensures
        ({
            let at = (region.top + y) * width + region.left + x;
            laplacian(gray, width, region, x, y) == (gray[at - 1] - gray[at]) + (gray[at + 1]
                - gray[at]) + (gray[at - width] - gray[at]) + (gray[at + width] - gray[at])
        }),
{
    let at = (region.top + y) * width + region.left + x;
    assert((region.top + y - 1) * width == (region.top + y) * width - width) by (nonlinear_arith);
    assert((region.top + y + 1) * width == (region.top + y) * width + width) by (nonlinear_arith);
    assert(region.top + (y - 1) == region.top + y - 1);
    assert(region.top + (y + 1) == region.top + y + 1);
}

/// At the corner of a region the neighbours that are missing are the mirrored ones.
pub proof fn lemma_contrast_at_the_corner(gray: Seq<u8>, width: int, region: Region)
    requires
        2 <= region.width,
        2 <= region.height,
    ensures
        ({
            let at = region.top * width + region.left;
            laplacian(gray, width, region, 0, 0) == 2 * (gray[at + 1] - gray[at]) + 2 * (gray[at
                + width] - gray[at])
        }),
{
    assert((region.top + 1) * width == region.top * width + width) by (nonlinear_arith);
    assert(mirrored(-1, region.width as int) == 1);
    assert(mirrored(-1, region.height as int) == 1);
    assert((region.top + 0) * width == region.top * width);
}

/// The two moments of a region are the sums of the contrasts of its pixels and of their squares.
pub proof fn lemma_moments_are_sums(gray: Seq<u8>, width: int, region: Region)
    requires
        0 < region.width,
    ensures
        ({
            let contrasts = Seq::new(
                (region.height * region.width) as nat,
                |i: int|
                    laplacian(
                        gray,
                        width,
                        region,
                        i % (region.width as int),
                        i / (region.width as int),
                    ),
            );
            moments(gray, width, region, region.height as nat) == (
                contrasts.fold_left(0, |sum: int, v: int| sum + v),
                contrasts.fold_left(0, |sum: int, v: int| sum + v * v),
            )
        }),
{
    let columns = region.width as int;
    let contrast = |i: int| laplacian(gray, width, region, i % columns, i / columns);
    assert(0 <= region.height * columns) by (nonlinear_arith)
        requires
            0 <= region.height,
            0 < columns,
    ;
    lemma_first_moments(gray, width, region, region.height as nat, 0);
    let contrasts = Seq::new((region.height * region.width) as nat, contrast);
    assert(contrasts =~= Seq::new(
        (region.height * columns + 0) as nat,
        |i: int| laplacian(gray, width, region, i % columns, i / columns),
    ));
}

proof fn lemma_first_moments(gray: Seq<u8>, width: int, region: Region, y: nat, n: nat)
    requires
        0 < region.width,
        n <= region.width,
    ensures
        ({
            let columns = region.width as int;
            let before = moments(gray, width, region, y);
            let row = row_moments(gray, width, region, y as int, n);
            let contrasts = Seq::new(
                (y * columns + n) as nat,
                |i: int| laplacian(gray, width, region, i % columns, i / columns),
            );
            &&& before.0 + row.0 == contrasts.fold_left(0, |sum: int, v: int| sum + v)
            &&& before.1 + row.1 == contrasts.fold_left(0, |sum: int, v: int| sum + v * v)
        }),
    decreases y, n,
{
    let columns = region.width as int;
    let contrast = |i: int| laplacian(gray, width, region, i % columns, i / columns);
    let add_up = |sum: int, v: int| sum + v;
    let add_squares = |sum: int, v: int| sum + v * v;
    let contrasts = Seq::new((y * columns + n) as nat, contrast);
    assert(0 <= y * columns) by (nonlinear_arith)
        requires
            0 <= y,
            0 < columns,
    ;
    if n > 0 {
        lemma_first_moments(gray, width, region, y, (n - 1) as nat);
        let front = Seq::new((y * columns + (n - 1)) as nat, contrast);
        assert(contrasts.drop_last() =~= front);
        vstd::arithmetic::div_mod::lemma_fundamental_div_mod_converse(
            y * columns + (n - 1),
            columns,
            y as int,
            n - 1,
        );
        assert(contrasts.last() == laplacian(gray, width, region, n - 1, y as int));
    } else if y > 0 {
        lemma_first_moments(gray, width, region, (y - 1) as nat, region.width as nat);
        assert((y - 1) * columns + columns == y * columns) by (nonlinear_arith);
        let other = Seq::new(((y - 1) * columns + region.width) as nat, contrast);
        assert(contrasts =~= other);
    } else {
        assert(y * columns == 0) by (nonlinear_arith)
            requires
                y == 0,
        ;
        assert(contrasts =~= Seq::empty());
    }
}

/// The colors of an image fit where the last sample that is read of each pixel is in the data.
pub proof fn lemma_colors_fit_where_every_pixel_does(image: CameraImage, channels: nat, x: int, y: int)
    requires
        channels == 1 || channels == 3 || channels == 4,
        0 <= x < image.width,
        0 <= y < image.height,
    ensures
        ({
            let rows = if image.step > 0 {
                image.step as int
            } else {
                image.width * channels
            };
            let last = if channels == 1 {
                0int
            } else {
                2
            };
            &&& colors_fit(image, channels) ==> y * rows + x * channels + last < image.data@.len()
            &&& rows <= usize::MAX && image.width * image.height * 3 <= usize::MAX && (image.height
                - 1) * rows + (image.width - 1) * channels + last < image.data@.len() ==> colors_fit(
                image,
                channels,
            )
        }),
{
    let rows = row_bytes(image, channels) as int;
    let c = channels as int;
    let w = image.width as int;
    let h = image.height as int;
    assert(0 <= w * c) by (nonlinear_arith)
        requires
            0 <= w,
            1 <= c,
    ;
    assert(y * rows <= (h - 1) * rows) by (nonlinear_arith)
        requires
            y <= h - 1,
            0 <= rows,
    ;
    assert(x * c <= (w - 1) * c) by (nonlinear_arith)
        requires
            x <= w - 1,
            0 <= c,
    ;
}

/// A JPEG is as large as its headers say and has their components; as colors it is read under either
/// of its two names.
pub proof fn lemma_jpeg_is_as_its_headers_say(
    image: CameraImage,
    width: nat,
    height: nat,
    components: nat,
    pixels: Seq<u8>,
)
    requires
        jpeg_header_of(image.data@) == Ok::<(nat, nat, nat), Seq<char>>((width, height, components)),
        jpeg_pixels_of(image.data@) == Ok::<Seq<u8>, Seq<char>>(pixels),
    ensures
        image.encoding@ == "jpeg"@ ==> gray_outcome(image) == Ok::<
            (nat, nat, nat, bool, Seq<u8>),
            Seq<char>,
        >((width, height, components, false, pixels)),
        (lowered(image.encoding@) == "jpeg"@ || lowered(image.encoding@) == "jpg"@) && components
            == 3 ==> rgb_outcome(image) == Ok::<(nat, nat, Seq<u8>), Seq<char>>(
            (width, height, pixels),
        ),
        (lowered(image.encoding@) == "jpeg"@ || lowered(image.encoding@) == "jpg"@) && components
            == 1 ==> (rgb_outcome(image) matches Ok(out) && out.0 == width && out.1 == height
            && out.2.len() == 3 * pixels.len()),
        pixel_bytes((width, height, components)) == width * height * components,
{
}

/// What is wrong with a JPEG is said of its headers first, and of its pixels else.
pub proof fn lemma_broken_jpeg_is_named(image: CameraImage, text: Seq<char>)
    requires
        lowered(image.encoding@) == "jpeg"@ || lowered(image.encoding@) == "jpg"@,
    ensures
        jpeg_header_of(image.data@) == Err::<(nat, nat, nat), Seq<char>>(text) ==> rgb_outcome(image)
            == Err::<(nat, nat, Seq<u8>), Seq<char>>("jpeg header decode failed: "@ + text),
        jpeg_header_of(image.data@) is Ok && jpeg_pixels_of(image.data@) == Err::<
            Seq<u8>,
            Seq<char>,
        >(text) ==> rgb_outcome(image) == Err::<(nat, nat, Seq<u8>), Seq<char>>(
            "jpeg decode failed: "@ + text,
        ),
{
}

} // verus!
