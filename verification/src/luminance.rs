//! Scaling the brightness of every pixel of a buffer by a common factor.

use vstd::prelude::*;
use crate::buffer::{BufferError, whole_pixels, pixel_count, colour_at, alpha_at};
use crate::hsv::{rgb_to_hsv, hsv_to_rgb, rgb2hsv, hsv2rgb};
use crate::rounding::{half_down, saturate, round_product};
use crate::rounding::lemma_half_down_of_nonpositive;

verus! {

/// A change of brightness as an exact fraction `num / den` of the present
/// brightness: `1 / 5` brightens by a fifth, `-1 / 5` darkens by a fifth.
#[derive(Clone, Copy, Debug)]
pub struct Scale {
    num: i64,
    den: u32,
}

impl Scale {
    #[verifier::type_invariant]
    spec fn positive_denominator(self) -> bool {
        self.den > 0
    }

    /// The numerator of the fraction.
    pub closed spec fn numerator(self) -> int {
        self.num as int
    }

    /// The denominator of the fraction, which is positive.
    pub closed spec fn denominator(self) -> int {
        self.den as int
    }

    /// The fraction `num / den`; there is none with denominator zero.
    pub fn new(num: i64, den: u32) -> (scale: Option<Scale>)
        ensures
            den == 0 <==> scale.is_none(),
            den != 0 ==> scale.unwrap().numerator() == num && scale.unwrap().denominator()
                == den,
    {
        if den == 0 {
            None
        } else {
            Some(Scale { num, den })
        }
    }

    /// The numerator, as a machine integer.
    pub fn num(&self) -> (num: i64)
        ensures
            num == self.numerator(),
    {
        self.num
    }

    /// The denominator, as a machine integer.
    pub fn den(&self) -> (den: u32)
        ensures
            den == self.denominator(),
            den > 0,
    {
        proof {
            use_type_invariant(self);
        }
        self.den
    }

    /// The scale that changes nothing.
    pub fn unchanged() -> (scale: Scale)
        ensures
            scale.numerator() == 0,
            scale.denominator() == 1,
    {
        Scale { num: 0, den: 1 }
    }
}

/// The value `v * (1 + num / den)`, rounded and stored.
pub open spec fn scaled_value(v: int, num: int, den: int) -> int {
    saturate(half_down(v * (den + num), den))
}

/// A colour with its value scaled: converted to HSV, the value replaced,
/// and converted back.
pub open spec fn relit(rgb: (int, int, int), num: int, den: int) -> (int, int, int) {
    let hsv = rgb_to_hsv(rgb.0, rgb.1, rgb.2);
    hsv_to_rgb(hsv.0, hsv.1, scaled_value(hsv.2, num, den))
}

/// `out` is `data` with the brightness of every pixel scaled by
/// `1 + num / den`: of equal length, every colour relit, every alpha kept.
pub open spec fn scaled_image(data: Seq<usize>, out: Seq<usize>, num: int, den: int) -> bool {
    &&& out.len() == data.len()
    &&& forall|i: int|
        0 <= i < pixel_count(data) ==> #[trigger] colour_at(out, i) == relit(
            colour_at(data, i),
            num,
            den,
        )
    &&& forall|i: int|
        0 <= i < pixel_count(data) ==> #[trigger] alpha_at(out, i) == alpha_at(data, i)
}

/// The value `v` scaled by `scale`.
fn scale_value(v: usize, scale: Scale) -> (scaled: usize)
    ensures
        scaled == scaled_value(v as int, scale.numerator(), scale.denominator()),
{
    proof {
        use_type_invariant(scale);
    }
    let factor: i128 = scale.den as i128 + scale.num as i128;
    if factor <= 0 {
        proof {
            assert(v * factor <= 0) by (nonlinear_arith)
                requires
                    v >= 0,
                    factor <= 0,
            ;
            lemma_half_down_of_nonpositive(v * factor, scale.den as int);
        }
        0
    } else {
        round_product(v as u128, factor as u128, scale.den as u128)
    }
}

/// Scales the brightness of every pixel: each colour is converted to HSV,
/// its value is multiplied by `1 + scale` and rounded, and the result is
/// converted back. Alpha is kept. The buffer must hold whole pixels.
pub fn change_image_luminance(data: Vec<usize>, scale: Scale) -> (result: Result<
    Vec<usize>,
    BufferError,
>)
    ensures
        whole_pixels(data@) <==> result.is_ok(),
        result.is_err() ==> result == Err::<Vec<usize>, BufferError>(
            BufferError::InvalidBufferLength,
        ),
        result.is_ok() ==> scaled_image(
            data@,
            result.unwrap()@,
            scale.numerator(),
            scale.denominator(),
        ),
        result.is_ok() ==> whole_pixels(result.unwrap()@),
        scale.denominator() > 0,
{
    proof {
        use_type_invariant(scale);
    }
    let len: usize = data.len();
    if len % 4 != 0 {
        return Err(BufferError::InvalidBufferLength);
    }
    let mut out: Vec<usize> = Vec::new();
    let mut i: usize = 0;
    while i < len
        invariant
            len == data@.len(),
            len % 4 == 0,
            i % 4 == 0,
            i <= len,
            out@.len() == i,
            forall|k: int|
                0 <= k < i as int / 4 ==> #[trigger] colour_at(out@, k) == relit(
                    colour_at(data@, k),
                    scale.numerator(),
                    scale.denominator(),
                ),
            forall|k: int|
                0 <= k < i as int / 4 ==> #[trigger] alpha_at(out@, k) == alpha_at(data@, k),
        decreases len - i,
    {
        let hsv: [usize; 3] = rgb2hsv(&[data[i], data[i + 1], data[i + 2]]);
        let value: usize = scale_value(hsv[2], scale);
        let rgb: [usize; 3] = hsv2rgb(&[hsv[0], hsv[1], value]);
        let ghost before = out@;
        out.push(rgb[0]);
        out.push(rgb[1]);
        out.push(rgb[2]);
        out.push(data[i + 3]);
        proof {
            let done: int = i as int / 4;
            assert(4 * done == i);
            assert forall|k: int| 0 <= k < done + 1 implies #[trigger] colour_at(out@, k)
                == relit(colour_at(data@, k), scale.numerator(), scale.denominator()) by {
                if k < done {
                    assert(colour_at(out@, k) == colour_at(before, k));
                }
            }
            assert forall|k: int| 0 <= k < done + 1 implies #[trigger] alpha_at(out@, k)
                == alpha_at(data@, k) by {
                if k < done {
                    assert(alpha_at(out@, k) == alpha_at(before, k));
                }
            }
        }
        i += 4;
    }
    Ok(out)
}

} // verus!
