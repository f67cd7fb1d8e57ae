//! Alpha compositing: replaces a translucent image by an opaque one,
//! blending every pixel over an opaque white background.

use vstd::prelude::*;

verus! {

/// A decoded raster image as plain values: row-major channel bytes,
/// four per pixel (red, green, blue, alpha) when `has_alpha` holds,
/// three per pixel (red, green, blue) otherwise.
#[derive(Debug)]
pub struct RawImage {
    pub width: u32,
    pub height: u32,
    pub has_alpha: bool,
    pub pixels: Vec<u8>,
}

impl Clone for RawImage {
    /// The copy is the same image: it has the same model.
    fn clone(&self) -> (r: Self)
        ensures
            r@ == self@,
    {
        let r = RawImage {
            width: self.width,
            height: self.height,
            has_alpha: self.has_alpha,
            pixels: self.pixels.clone(),
        };
        proof {
            assert(r.pixels@ =~= self.pixels@);
            assert(r@ =~= self@);
        }
        r
    }
}

/// The mathematical model of a raster image.
#[verifier::ext_equal]
pub struct ImageModel {
    pub width: nat,
    pub height: nat,
    pub has_alpha: bool,
    pub pixels: Seq<u8>,
}

impl View for RawImage {
    type V = ImageModel;

    open spec fn view(&self) -> ImageModel {
        ImageModel {
            width: self.width as nat,
            height: self.height as nat,
            has_alpha: self.has_alpha,
            pixels: self.pixels@,
        }
    }
}

/// An image is well formed when it holds exactly one byte per channel
/// for every pixel.
pub open spec fn img_wf(v: ImageModel) -> bool {
    v.pixels.len() == v.width * v.height * (if v.has_alpha { 4nat } else { 3nat })
}

/// One channel composited over an opaque white background:
/// `round((1 - a) * 255 + a * c)` with `a = alpha / 255`, which over the
/// integers is `255 - alpha + round(alpha * c / 255)`.
pub open spec fn blend_channel(c: int, alpha: int) -> int {
    255 - alpha + (alpha * c + 127) / 255
}

/// What compositing does to a whole image: an image without an alpha
/// channel passes through unchanged; otherwise every pixel's color
/// channels are blended with its alpha value and the alpha channel
/// is dropped.
pub open spec fn strip_alpha(v: ImageModel) -> ImageModel {
    if !v.has_alpha {
        v
    } else {
        ImageModel {
            width: v.width,
            height: v.height,
            has_alpha: false,
            pixels: Seq::new(
                v.width * v.height * 3,
                |i: int|
                    blend_channel(
                        v.pixels[4 * (i / 3) + i % 3] as int,
                        v.pixels[4 * (i / 3) + 3] as int,
                    ) as u8,
            ),
        }
    }
}

pub proof fn lemma_blend_channel_bounds(c: int, alpha: int)
    requires
        0 <= c <= 255,
        0 <= alpha <= 255,
    ensures
        0 <= blend_channel(c, alpha) <= 255,
{
    assert(0 <= (alpha * c + 127) / 255 <= alpha) by (nonlinear_arith)
        requires 0 <= c <= 255, 0 <= alpha <= 255;
}

/// Composites one pixel channel over white.
pub fn blend(c: u8, alpha: u8) -> (r: u8)
    ensures
        r == blend_channel(c as int, alpha as int),
{
    proof {
        lemma_blend_channel_bounds(c as int, alpha as int);
    }
    let a: u32 = alpha as u32;
    let cc: u32 = c as u32;
    (255 - a + (a * cc + 127) / 255) as u8
}

/// Composites one red-green-blue-alpha pixel over an opaque white
/// background, yielding its opaque red-green-blue value.
pub fn rgba_to_rgb(rgba: &[u8]) -> (rgb: [u8; 3])
    requires
        rgba@.len() == 4,
    ensures
        rgb@.len() == 3,
        forall|ch: int|
            0 <= ch < 3 ==> rgb@[ch] == blend_channel(
                rgba@[ch] as int,
                rgba@[3] as int,
            ) as u8,
{
    let alpha = rgba[3];
    let rgb = [blend(rgba[0], alpha), blend(rgba[1], alpha), blend(rgba[2], alpha)];
    rgb
}

/// Replaces a translucent image by an equivalent fully opaque one;
/// an image that has no alpha channel passes through unchanged.
pub fn remove_alpha_channel(image: RawImage) -> (r: RawImage)
    requires
        img_wf(image@),
    ensures
        r@ == strip_alpha(image@),
        img_wf(r@),
        !r@.has_alpha,
{
    if !image.has_alpha {
        return image;
    }
    let n_px = image.pixels.len() / 4;
    proof {
        assert(n_px == image@.width * image@.height) by (nonlinear_arith)
            requires
                image@.pixels.len() == image@.width * image@.height * 4,
                n_px == image@.pixels.len() as int / 4;
    }
    let mut out: Vec<u8> = Vec::new();
    let mut p: usize = 0;
    while p < n_px
        invariant
            n_px == image@.width * image@.height,
            image@.pixels.len() == n_px * 4,
            image@.pixels.len() <= usize::MAX,
            image@.has_alpha,
            0 <= p <= n_px,
            out@.len() == 3 * p,
            forall|i: int|
                0 <= i < 3 * p ==> out@[i] == blend_channel(
                    image@.pixels[4 * (i / 3) + i % 3] as int,
                    image@.pixels[4 * (i / 3) + 3] as int,
                ) as u8,
        decreases n_px - p,
    {
        proof {
            assert(4 * p + 3 < image@.pixels.len());
        }
        let alpha = image.pixels[4 * p + 3];
        out.push(blend(image.pixels[4 * p], alpha));
        out.push(blend(image.pixels[4 * p + 1], alpha));
        out.push(blend(image.pixels[4 * p + 2], alpha));
        proof {
            assert forall|i: int| 0 <= i < 3 * (p + 1) implies out@[i] == blend_channel(
                image@.pixels[4 * (i / 3) + i % 3] as int,
                image@.pixels[4 * (i / 3) + 3] as int,
            ) as u8 by {
                if i >= 3 * p {
                    assert(i / 3 == p && (i == 3 * p + i % 3)) by (nonlinear_arith)
                        requires 3 * p <= i < 3 * (p + 1);
                }
            }
        }
        p = p + 1;
    }
    let r = RawImage { width: image.width, height: image.height, has_alpha: false, pixels: out };
    proof {
        assert(r@ =~= strip_alpha(image@)) by {
            assert(r@.pixels =~= strip_alpha(image@).pixels);
        }
        assert(img_wf(r@)) by (nonlinear_arith)
            requires
                r@.pixels.len() == 3 * (r@.width * r@.height),
                !r@.has_alpha;
    }
    r
}

/// The compositor always yields an image without an alpha channel, passes an
/// image that already has none through unchanged, and is idempotent: running
/// it twice gives the same image as running it once.
pub proof fn lemma_strip_alpha_idempotent(v: ImageModel)
    ensures
        !strip_alpha(v).has_alpha,
        !v.has_alpha ==> strip_alpha(v) == v,
        strip_alpha(strip_alpha(v)) == strip_alpha(v),
{
}

} // verus!
