//! Balancing the lighting of an image: pixels brighter than a target that
//! depends on the average brightness are dimmed to that target.

use vstd::prelude::*;
use crate::buffer::{BufferError, whole_pixels, pixel_count, colour_at, alpha_at};
use crate::hsv::{rgb_to_hsv, hsv_to_rgb, rgb2hsv, hsv2rgb, lemma_hsv_ranges};
use crate::rounding::{half_down, round_ratio};
use crate::rounding::{lemma_half_down_at_most, lemma_half_down_of_nonnegative};

verus! {

/// The brightness that an image is drawn towards, in percent.
pub const BRIGHTNESS_BIAS: usize = 81;

/// The brightness of pixel `i`: the value of its colour, in percent.
pub open spec fn brightness_at(data: Seq<usize>, i: int) -> int {
    rgb_to_hsv(colour_at(data, i).0, colour_at(data, i).1, colour_at(data, i).2).2
}

/// The brightness of the first `count` pixels, added up.
pub open spec fn brightness_sum(data: Seq<usize>, count: int) -> int
    decreases count,
{
    if count <= 0 {
        0
    } else {
        brightness_sum(data, count - 1) + brightness_at(data, count - 1)
    }
}

/// The target of a buffer that holds at least one pixel: the mean of the
/// average brightness of its pixels, taken exactly, and the bias, rounded.
pub open spec fn balance_target(data: Seq<usize>) -> int {
    let n = pixel_count(data);
    half_down(brightness_sum(data, n) + BRIGHTNESS_BIAS * n, 2 * n)
}

/// A colour after balancing: one brighter than the target keeps hue and
/// saturation and takes the target as its value; any other stays as it is.
pub open spec fn balanced(rgb: (int, int, int), target: int) -> (int, int, int) {
    let hsv = rgb_to_hsv(rgb.0, rgb.1, rgb.2);
    if hsv.2 > target {
        hsv_to_rgb(hsv.0, hsv.1, target)
    } else {
        rgb
    }
}

/// `out` is `data` balanced: of equal length, every colour balanced against
/// the target of `data`, every pixel opaque.
pub open spec fn balanced_image(data: Seq<usize>, out: Seq<usize>) -> bool {
    &&& out.len() == data.len()
    &&& forall|i: int|
        0 <= i < pixel_count(data) ==> #[trigger] colour_at(out, i) == balanced(
            colour_at(data, i),
            balance_target(data),
        )
    &&& forall|i: int| 0 <= i < pixel_count(data) ==> #[trigger] alpha_at(out, i) == 255
}

/// The brightness of `count` pixels is at most `count` times the largest
/// channel value, and not negative.
pub proof fn lemma_brightness_sum_bound(data: Seq<usize>, count: int)
    requires
        0 <= count <= pixel_count(data),
    ensures
        0 <= brightness_sum(data, count) <= count * usize::MAX,
    decreases count,
{
    if count > 0 {
        lemma_brightness_sum_bound(data, count - 1);
        let c = colour_at(data, count - 1);
        lemma_hsv_ranges(c.0, c.1, c.2);
        assert((count - 1) * usize::MAX + usize::MAX == count * usize::MAX)
            by (nonlinear_arith);
    } else {
        assert(0 * usize::MAX == 0);
    }
}

/// The target of a buffer fits in a channel.
pub proof fn lemma_target_fits(data: Seq<usize>)
    requires
        whole_pixels(data),
        pixel_count(data) > 0,
    ensures
        0 <= balance_target(data) <= usize::MAX,
{
    let n = pixel_count(data);
    let sum = brightness_sum(data, n);
    lemma_brightness_sum_bound(data, n);
    lemma_half_down_of_nonnegative(sum + BRIGHTNESS_BIAS * n, 2 * n);
    let cap: int = (usize::MAX + 81) / 2;
    assert(sum + 81 * n <= cap * (2 * n)) by (nonlinear_arith)
        requires
            n > 0,
            sum <= n * usize::MAX,
            2 * cap >= usize::MAX + 80,
    ;
    lemma_half_down_at_most(sum + BRIGHTNESS_BIAS * n, 2 * n, cap);
}

/// Dims every pixel that is brighter than the target of the buffer to that
/// target, keeps the colour of every other pixel, and makes every pixel
/// opaque. An empty buffer comes back as it is. The buffer must hold whole
/// pixels.
pub fn balance_lighting(data: Vec<usize>) -> (result: Result<Vec<usize>, BufferError>)
    ensures
        whole_pixels(data@) <==> result.is_ok(),
        result.is_err() ==> result == Err::<Vec<usize>, BufferError>(
            BufferError::InvalidBufferLength,
        ),
        result.is_ok() ==> balanced_image(data@, result.unwrap()@),
        result.is_ok() ==> whole_pixels(result.unwrap()@),
        data@.len() == 0 ==> result == Ok::<Vec<usize>, BufferError>(data),
{
    let len: usize = data.len();
    if len % 4 != 0 {
        return Err(BufferError::InvalidBufferLength);
    }
    if len == 0 {
        return Ok(data);
    }
    let count: usize = len / 4;
    let mut hsv_data: Vec<[usize; 3]> = Vec::new();
    let mut total: u128 = 0;
    let mut seen: usize = 0;
    while seen < count
        invariant
            len == data@.len(),
            len % 4 == 0,
            count == len / 4,
            seen <= count,
            hsv_data@.len() == seen,
            total == brightness_sum(data@, seen as int),
            total <= seen * usize::MAX,
            forall|k: int|
                0 <= k < seen ==> (
                #[trigger] hsv_data@[k][0] as int,
                hsv_data@[k][1] as int,
                hsv_data@[k][2] as int,
            ) == rgb_to_hsv(
                    colour_at(data@, k).0,
                    colour_at(data@, k).1,
                    colour_at(data@, k).2,
                ),
        decreases count - seen,
    {
        let at: usize = 4 * seen;
        let hsv: [usize; 3] = rgb2hsv(&[data[at], data[at + 1], data[at + 2]]);
        proof {
            lemma_brightness_sum_bound(data@, seen as int + 1);
            assert(seen * usize::MAX <= count * usize::MAX) by (nonlinear_arith)
                requires
                    seen <= count,
            ;
            assert(count * usize::MAX <= usize::MAX * usize::MAX) by (nonlinear_arith)
                requires
                    count <= usize::MAX,
            ;
        }
        total = total + hsv[2] as u128;
        hsv_data.push(hsv);
        seen += 1;
    }
    proof {
        lemma_target_fits(data@);
        assert(count * usize::MAX <= usize::MAX * usize::MAX) by (nonlinear_arith)
            requires
                count <= usize::MAX,
        ;
    }
    let target: usize = round_ratio(
        total + (BRIGHTNESS_BIAS as u128) * (count as u128),
        2 * (count as u128),
    ) as usize;
    let mut out: Vec<usize> = Vec::new();
    let mut idx: usize = 0;
    while idx < count
        invariant
            len == data@.len(),
            len % 4 == 0,
            count == len / 4,
            idx <= count,
            hsv_data@.len() == count,
            out@.len() == 4 * idx,
            target == balance_target(data@),
            forall|k: int|
                0 <= k < count ==> (
                #[trigger] hsv_data@[k][0] as int,
                hsv_data@[k][1] as int,
                hsv_data@[k][2] as int,
            ) == rgb_to_hsv(
                    colour_at(data@, k).0,
                    colour_at(data@, k).1,
                    colour_at(data@, k).2,
                ),
            forall|k: int|
                0 <= k < idx ==> #[trigger] colour_at(out@, k) == balanced(
                    colour_at(data@, k),
                    target as int,
                ),
            forall|k: int| 0 <= k < idx ==> #[trigger] alpha_at(out@, k) == 255,
        decreases count - idx,
    {
        let hsv: [usize; 3] = hsv_data[idx];
        let ghost before = out@;
        if hsv[2] > target {
            let rgb: [usize; 3] = hsv2rgb(&[hsv[0], hsv[1], target]);
            out.push(rgb[0]);
            out.push(rgb[1]);
            out.push(rgb[2]);
        } else {
            out.push(data[idx * 4]);
            out.push(data[idx * 4 + 1]);
            out.push(data[idx * 4 + 2]);
        }
        out.push(255);
        proof {
            assert forall|k: int| 0 <= k < idx + 1 implies #[trigger] colour_at(out@, k)
                == balanced(colour_at(data@, k), target as int) by {
                if k < idx {
                    assert(colour_at(out@, k) == colour_at(before, k));
                }
            }
            assert forall|k: int| 0 <= k < idx + 1 implies #[trigger] alpha_at(out@, k)
                == 255 by {
                if k < idx {
                    assert(alpha_at(out@, k) == alpha_at(before, k));
                }
            }
        }
        idx += 1;
    }
    Ok(out)
}

} // verus!
