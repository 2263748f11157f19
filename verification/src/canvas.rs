//! A pixel canvas: a row-major grid of colors with bounds-checked pixel
//! access, and an exact serializer to the plain-text pixel-image format
//! (header `P3`, the dimensions, the channel maximum 255, then one
//! space-separated `r g b` triplet per pixel).
//!
//! Each channel byte is `round(255 * c)` with the component clamped to
//! `[0, 1]` first, so out-of-gamut colors saturate instead of wrapping.

use crate::rational::Rat;
use crate::scalar::Scalar;
use crate::tuple::{RatTuple, Tuple};
use vstd::arithmetic::div_mod::{lemma_div_pos_is_pos, lemma_fundamental_div_mod};
use vstd::prelude::*;

verus! {

/// The decimal digits of `n`, most significant first, as bytes.
pub open spec fn dec_rep(n: nat) -> Seq<u8>
    decreases n,
{
    if n < 10 {
        seq![(48 + n) as u8]
    } else {
        dec_rep(n / 10).push((48 + n % 10) as u8)
    }
}

/// The 8-bit level of one color channel: `round(255 * c)` after clamping
/// `c` to `[0, 1]`.
pub open spec fn channel_level(c: Rat) -> nat {
    if c.num < 0 {
        0
    } else if c.num > c.den {
        255
    } else {
        ((510 * c.num + c.den) / (2 * c.den)) as nat
    }
}

/// The serialized form of one pixel: three decimal channel levels, each
/// followed by a space.
pub open spec fn pixel_bytes(p: RatTuple) -> Seq<u8> {
    dec_rep(channel_level(p.x)) + seq![32u8] + dec_rep(channel_level(p.y)) + seq![32u8] + dec_rep(
        channel_level(p.z),
    ) + seq![32u8]
}

/// The serialized pixels, in order.
pub open spec fn pixels_bytes(ps: Seq<RatTuple>) -> Seq<u8>
    decreases ps.len(),
{
    if ps.len() == 0 {
        Seq::empty()
    } else {
        pixels_bytes(ps.drop_last()) + pixel_bytes(ps.last())
    }
}

/// The image header: `P3`, the dimensions, and the channel maximum 255,
/// each on its own line.
pub open spec fn ppm_header(w: nat, h: nat) -> Seq<u8> {
    seq![80u8, 51u8, 10u8] + dec_rep(w) + seq![32u8] + dec_rep(h) + seq![10u8] + seq![
        50u8,
        53u8,
        53u8,
        10u8,
    ]
}

/// The whole serialized image: header, pixels, and a final newline.
pub open spec fn spec_ppm(w: nat, h: nat, ps: Seq<RatTuple>) -> Seq<u8> {
    ppm_header(w, h) + pixels_bytes(ps) + seq![10u8]
}

/// Appends the decimal digits of `n`.
fn push_decimal(out: &mut Vec<u8>, n: usize)
    ensures
        final(out)@ == old(out)@ + dec_rep(n as nat),
    decreases n,
{
    if n < 10 {
        out.push(48 + n as u8);
        proof {
            assert(out@ =~= old(out)@ + dec_rep(n as nat));
        }
    } else {
        push_decimal(out, n / 10);
        out.push(48 + (n % 10) as u8);
        proof {
            assert((n as nat) / 10 == (n / 10) as nat);
            assert(out@ =~= old(out)@ + dec_rep(n as nat));
        }
    }
}

/// The 8-bit level of one channel of a color.
fn channel_byte(c: &Scalar) -> (r: u8)
    requires
        c.wf(),
    ensures
        r as nat == channel_level(c@),
{
    let num = c.numer();
    let den = c.denom();
    if num < 0 {
        0
    } else if num > den {
        255
    } else {
        let q: u128 = ((510 * num + den) as u128) / ((2 * den) as u128);
        proof {
            let hi = 510 * c@.num + c@.den;
            let dd = 2 * c@.den;
            lemma_fundamental_div_mod(hi, dd);
            assert(hi / dd <= 255) by (nonlinear_arith)
                requires
                    hi == dd * (hi / dd) + hi % dd,
                    hi % dd >= 0,
                    hi <= 511 * c@.den,
                    dd == 2 * c@.den,
                    c@.den > 0,
            ;
            lemma_div_pos_is_pos(hi, dd);
        }
        q as u8
    }
}

/// The model of the black pixel: all components zero fractions.
pub open spec fn black_pixel() -> RatTuple {
    RatTuple {
        x: crate::rational::rat_zero(),
        y: crate::rational::rat_zero(),
        z: crate::rational::rat_zero(),
        w: crate::rational::rat_zero(),
    }
}

/// A 2-dimensional grid of colors, row major.
#[derive(Clone, Debug)]
pub struct Canvas {
    pub width: usize,
    pub height: usize,
    pub pixels: Vec<Tuple>,
}

impl View for Canvas {
    type V = Seq<RatTuple>;

    open spec fn view(&self) -> Seq<RatTuple> {
        Seq::new(self.pixels@.len(), |k: int| self.pixels@[k]@)
    }
}

impl Canvas {
    /// The representation invariant: exactly `width * height` well-formed
    /// pixels.
    pub open spec fn wf(&self) -> bool {
        &&& self.pixels@.len() == (self.width as int) * (self.height as int)
        &&& forall|k: int| 0 <= k < self.pixels@.len() ==> (#[trigger] self.pixels@[k]).wf()
    }

    /// A canvas of the given size, all pixels black.
    pub fn new(width: usize, height: usize) -> (r: Canvas)
        requires
            (width as int) * (height as int) <= usize::MAX,
        ensures
            r.wf(),
            r.width == width,
            r.height == height,
            forall|k: int|
                0 <= k < r@.len() ==> #[trigger] r@[k] == black_pixel(),
    {
        let total = width * height;
        let black = Tuple {
            x: Scalar::zero(),
            y: Scalar::zero(),
            z: Scalar::zero(),
            w: Scalar::zero(),
        };
        let mut pixels: Vec<Tuple> = Vec::new();
        let mut k: usize = 0;
        while k < total
            invariant
                k <= total,
                pixels@.len() == k,
                forall|t: int| 0 <= t < k ==> #[trigger] pixels@[t] == black,
                black.wf(),
                black@ == black_pixel(),
            decreases total - k,
        {
            pixels.push(black);
            k = k + 1;
        }
        Canvas { width, height, pixels }
    }

    /// Writes the pixel at column `x`, row `y`.
    pub fn set_pixel(&mut self, x: usize, y: usize, color: &Tuple)
        requires
            old(self).wf(),
            x < old(self).width,
            y < old(self).height,
            color.wf(),
        ensures
            final(self).wf(),
            final(self).width == old(self).width,
            final(self).height == old(self).height,
            final(self).pixels@ == old(self).pixels@.update(
                (old(self).width as int) * (y as int) + x as int,
                *color,
            ),
    {
        proof {
            crate::matrix::lemma_index_bound(
                self.width as int,
                self.height as int,
                y as int,
                x as int,
            );
            vstd::arithmetic::mul::lemma_mul_is_commutative(self.width as int, y as int);
        }
        // reading the length tells the verifier the flat index fits a usize
        let len = self.pixels.len();
        let idx = self.width * y + x;
        self.pixels[idx] = *color;
    }

    /// Reads the pixel at column `x`, row `y`.
    pub fn get_pixel(&self, x: usize, y: usize) -> (r: Tuple)
        requires
            self.wf(),
            x < self.width,
            y < self.height,
        ensures
            r.wf(),
            r == self.pixels@[(self.width as int) * (y as int) + x as int],
    {
        proof {
            crate::matrix::lemma_index_bound(
                self.width as int,
                self.height as int,
                y as int,
                x as int,
            );
            vstd::arithmetic::mul::lemma_mul_is_commutative(self.width as int, y as int);
        }
        // reading the length tells the verifier the flat index fits a usize
        let len = self.pixels.len();
        self.pixels[self.width * y + x]
    }

    /// The canvas serialized in the plain-text pixel-image format.
    pub fn ppm_bytes(&self) -> (r: Vec<u8>)
        requires
            self.wf(),
        ensures
            r@ == spec_ppm(self.width as nat, self.height as nat, self@),
    {
        let mut out: Vec<u8> = Vec::new();
        out.push(80);
        out.push(51);
        out.push(10);
        push_decimal(&mut out, self.width);
        out.push(32);
        push_decimal(&mut out, self.height);
        out.push(10);
        out.push(50);
        out.push(53);
        out.push(53);
        out.push(10);
        proof {
            assert(out@ =~= ppm_header(self.width as nat, self.height as nat));
        }
        let len = self.pixels.len();
        let mut k: usize = 0;
        while k < len
            invariant
                k <= len,
                len == self.pixels@.len(),
                self.wf(),
                out@ == ppm_header(self.width as nat, self.height as nat) + pixels_bytes(
                    self@.take(k as int),
                ),
            decreases len - k,
        {
            let p = self.pixels[k];
            let ghost before = out@;
            let cx = channel_byte(&p.x);
            push_decimal(&mut out, cx as usize);
            out.push(32);
            let cy = channel_byte(&p.y);
            push_decimal(&mut out, cy as usize);
            out.push(32);
            let cz = channel_byte(&p.z);
            push_decimal(&mut out, cz as usize);
            out.push(32);
            proof {
                assert(out@ =~= before + pixel_bytes(p@));
                let pv = self@;
                assert(pv.take(k as int + 1).drop_last() =~= pv.take(k as int));
                assert(pv.take(k as int + 1).last() == p@);
                assert(pixels_bytes(pv.take(k as int + 1)) == pixels_bytes(pv.take(k as int))
                    + pixel_bytes(p@));
                assert(out@ =~= ppm_header(self.width as nat, self.height as nat) + pixels_bytes(
                    pv.take(k as int + 1),
                ));
            }
            k = k + 1;
        }
        out.push(10);
        proof {
            assert(self@.take(len as int) =~= self@);
            assert(out@ =~= spec_ppm(self.width as nat, self.height as nat, self@));
        }
        out
    }
}

} // verus!
