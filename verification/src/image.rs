//! decoded raster images: loaded once, immutable forever after. the
//! immutability is the design -- a frame paints exactly the pixels that
//! existed when its draw command was recorded.

use vstd::prelude::*;

use crate::renderer::Color;
use crate::rencache::{Fnv, HASH_INITIAL, fnv_spec, le_bytes_i32};

verus! {

/// what an image is: its size, its pixels row-major, and the fnv-1a hash
/// of its dimensions and bytes fixed at construction
pub struct ImageView {
    pub width: int,
    pub height: int,
    pub pixels: Seq<Color>,
    pub content_hash: u32,
}

pub struct Image {
    width: i32,
    height: i32,
    pixels: Vec<Color>,
    content_hash: u32,
}

impl View for Image {
    type V = ImageView;

    closed spec fn view(&self) -> ImageView {
        ImageView {
            width: self.width as int,
            height: self.height as int,
            pixels: self.pixels@,
            content_hash: self.content_hash,
        }
    }
}

/// the colors of straight-alpha rgba bytes, four bytes per pixel
pub open spec fn colors_of(data: Seq<u8>) -> Seq<Color> {
    Seq::new(
        data.len() / 4,
        |i: int| Color { r: data[4 * i], g: data[4 * i + 1], b: data[4 * i + 2], a: data[4 * i + 3] },
    )
}

/// the content hash: fnv-1a over the width, the height and the pixel
/// bytes, so two shapes with the same bytes differ
pub open spec fn image_hash(width: u32, height: u32, data: Seq<u8>) -> u32 {
    fnv_spec(HASH_INITIAL, le_bytes_i32(width as i32) + le_bytes_i32(height as i32) + data)
}

/// what building an image from raw rgba bytes gives: the image, or the
/// message of the first check it fails
pub open spec fn from_rgba_outcome(width: u32, height: u32, data: Seq<u8>) -> Result<ImageView, Seq<char>> {
    if width > i32::MAX || height > i32::MAX {
        Err("image is too large"@)
    } else if width == 0 || height == 0 {
        Err("image is empty"@)
    } else if data.len() != width * height * 4 {
        Err("pixel data does not match the image size"@)
    } else {
        Ok(ImageView {
            width: width as int,
            height: height as int,
            pixels: colors_of(data),
            content_hash: image_hash(width, height, data),
        })
    }
}

/// The rgba bytes that the `image` crate decodes from an encoded file whose
/// format it recognizes by the built-in signatures at the start of the
/// bytes, with the width and height, or the text of the error (an
/// unrecognized format, or a decoding failure).
pub uninterp spec fn decoded_rgba(bytes: Seq<u8>) -> Result<(u32, u32, Seq<u8>), Seq<char>>;

/// Calls `image::guess_format`, which matches the bytes against the
/// crate's built-in format signatures only, then
/// `image::load_from_memory_with_format` with that built-in format (with a
/// built-in format no registered decoding hook is consulted), and converts
/// the picture to 8-bit rgba. The contract claims only that the outcome is
/// a function of the bytes, named `decoded_rgba`: the decoders themselves
/// are not described.
#[verifier::external_body]
fn decode_rgba(bytes: &[u8]) -> (res: Result<(u32, u32, Vec<u8>), String>)
    ensures
        match res {
            Ok((w, h, data)) => decoded_rgba(bytes@) == Ok::<(u32, u32, Seq<u8>), Seq<char>>((w, h, data@)),
            Err(e) => decoded_rgba(bytes@) == Err::<(u32, u32, Seq<u8>), Seq<char>>(e@),
        },
{
    let format = image::guess_format(bytes).map_err(|err| err.to_string())?;
    match image::load_from_memory_with_format(bytes, format) {
        Ok(decoded) => {
            let rgba = decoded.into_rgba8();
            let (w, h) = rgba.dimensions();
            Ok((w, h, rgba.into_raw()))
        },
        Err(err) => Err(err.to_string()),
    }
}

/// what loading an encoded image gives
pub open spec fn load_outcome(bytes: Seq<u8>) -> Result<ImageView, Seq<char>> {
    match decoded_rgba(bytes) {
        Ok((w, h, data)) => from_rgba_outcome(w, h, data),
        Err(e) => Err(e),
    }
}

impl Image {
    #[verifier::type_invariant]
    closed spec fn inv(self) -> bool {
        &&& self.width >= 1
        &&& self.height >= 1
        &&& self.pixels@.len() == self.width * self.height
    }

    /// decodes an encoded image file's bytes, trusting the bytes rather
    /// than any file name
    pub fn load(bytes: &[u8]) -> (res: Result<Image, String>)
        ensures
            match res {
                Ok(img) => load_outcome(bytes@) == Ok::<ImageView, Seq<char>>(img@),
                Err(e) => load_outcome(bytes@) == Err::<ImageView, Seq<char>>(e@),
            },
    {
        match decode_rgba(bytes) {
            Ok((w, h, data)) => Image::from_rgba(w, h, data.as_slice()),
            Err(e) => Err(e),
        }
    }

    /// builds an image from straight-alpha rgba bytes, row-major
    pub fn from_rgba(width: u32, height: u32, data: &[u8]) -> (res: Result<Image, String>)
        ensures
            match res {
                Ok(img) => from_rgba_outcome(width, height, data@) == Ok::<ImageView, Seq<char>>(img@),
                Err(e) => from_rgba_outcome(width, height, data@) == Err::<ImageView, Seq<char>>(e@),
            },
    {
        if width > i32::MAX as u32 || height > i32::MAX as u32 {
            return Err("image is too large".to_owned());
        }
        if width == 0 || height == 0 {
            return Err("image is empty".to_owned());
        }
        assert(width * height * 4 <= u64::MAX) by (nonlinear_arith)
            requires width <= i32::MAX, height <= i32::MAX;
        let expected: u64 = width as u64 * height as u64 * 4;
        if data.len() as u64 != expected {
            return Err("pixel data does not match the image size".to_owned());
        }
        let w = width as i32;
        let h = height as i32;
        let mut f = Fnv::new();
        f.write_i32(w);
        f.write_i32(h);
        f.write(data);
        proof {
            lemma_fnv_three(HASH_INITIAL, le_bytes_i32(w), le_bytes_i32(h), data@);
        }
        let len = data.len();
        let n = len / 4;
        let mut pixels: Vec<Color> = Vec::new();
        let mut i: usize = 0;
        while i < n
            invariant
                len == data@.len(),
                n == len / 4,
                data@.len() == width * height * 4,
                0 <= i <= n,
                pixels@ =~= colors_of(data@).subrange(0, i as int),
            decreases n - i,
        {
            let c = Color { r: data[4 * i], g: data[4 * i + 1], b: data[4 * i + 2], a: data[4 * i + 3] };
            pixels.push(c);
            i = i + 1;
        }
        assert(pixels@ =~= colors_of(data@));
        assert(n == width * height) by (nonlinear_arith)
            requires n == data@.len() / 4, data@.len() == width * height * 4;
        let img = Image { width: w, height: h, pixels, content_hash: f.0 };
        Ok(img)
    }

    pub fn width(&self) -> (w: i32)
        ensures
            w == self@.width,
            w >= 1,
    {
        proof {
            use_type_invariant(self);
        }
        self.width
    }

    pub fn height(&self) -> (h: i32)
        ensures
            h == self@.height,
            h >= 1,
    {
        proof {
            use_type_invariant(self);
        }
        self.height
    }

    pub fn content_hash(&self) -> (h: u32)
        ensures
            h == self@.content_hash,
    {
        self.content_hash
    }

    /// the pixel at column x, row y; both must lie inside the image
    pub fn pixel(&self, x: i32, y: i32) -> (c: Color)
        requires
            0 <= x < self@.width,
            0 <= y < self@.height,
        ensures
            c == self@.pixels[y * self@.width + x],
    {
        proof {
            use_type_invariant(self);
            assert(0 <= y * self.width + x < self.width * self.height) by (nonlinear_arith)
                requires 0 <= x < self.width, 0 <= y < self.height;
            assert(0 <= y * self.width) by (nonlinear_arith)
                requires 0 <= y, 1 <= self.width;
        }
        let _n = self.pixels.len();
        self.pixels[y as usize * self.width as usize + x as usize]
    }
}

proof fn lemma_fnv_three(h: u32, a: Seq<u8>, b: Seq<u8>, c: Seq<u8>)
    ensures
        fnv_spec(fnv_spec(fnv_spec(h, a), b), c) == fnv_spec(h, a + b + c),
{
    crate::rencache::lemma_fnv_append(h, a, b);
    crate::rencache::lemma_fnv_append(h, a + b, c);
}

} // verus!
