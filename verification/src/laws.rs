//! What holds of the conversions and of the two image operations taken
//! together.

use vstd::prelude::*;
use crate::balance::{balance_target, balanced, balanced_image, brightness_at, brightness_sum};
use crate::balance::{lemma_target_fits, BRIGHTNESS_BIAS};
use crate::buffer::{alpha_at, colour_at, pixel_count, whole_pixels};
use crate::hsv::{channel, hsv_to_rgb, lemma_hsv_ranges, rgb_to_hsv, value_percent};
use crate::hsv::{max3, sector, sector_offset, weight};
use crate::luminance::{relit, scaled_image, scaled_value};
use crate::rounding::{half_down, saturate};
use crate::rounding::{lemma_half_down_at_most, lemma_half_down_is_nearest};
use crate::rounding::lemma_half_down_is_monotonic;
use crate::rounding::{lemma_half_down_is_unique, lemma_half_down_of_equal_fractions};
use crate::rounding::{lemma_half_down_of_nonnegative, lemma_half_down_of_whole};

verus! {

/// A colour taken to HSV and back.
pub open spec fn round_trip(rgb: (int, int, int)) -> (int, int, int) {
    let hsv = rgb_to_hsv(rgb.0, rgb.1, rgb.2);
    hsv_to_rgb(hsv.0, hsv.1, hsv.2)
}

/// A colour is gray where its three channels are equal.
pub open spec fn is_gray(rgb: (int, int, int)) -> bool {
    rgb.0 == rgb.1 && rgb.1 == rgb.2
}

/// A channel value that a buffer can hold.
pub open spec fn is_channel(x: int) -> bool {
    0 <= x <= usize::MAX
}

/// The gray of a value in percent: `255 * v / 100`, rounded and stored.
pub open spec fn gray_level(v: int) -> int {
    saturate(half_down(255 * v, 100))
}

/// The value leads in the sector of a hue: none of the channels that the
/// sector deals out has a factor above one. Beside `V` and `a`, an even
/// sector deals out `c`, whose factor `1 - S * (1 - f)` stays at or below
/// one where the hue lies no more than sixty degrees above the start of
/// the sector; an odd sector deals out `b`, whose factor `1 - S * f` stays
/// at or below one where the hue lies at or above that start. A colour
/// without saturation is gray, whatever its hue.
pub open spec fn value_leads(h: int, s: int) -> bool {
    ||| s == 0
    ||| (sector(h) % 2 == 0 && sector_offset(h) <= 60)
    ||| (sector(h) % 2 == 1 && sector_offset(h) >= 0)
}

/// A gray taken to HSV and back is a gray again, and differs from the first
/// by at most one.
pub proof fn lemma_gray_round_trip(x: int)
    requires
        is_channel(x),
    ensures
        is_gray(round_trip((x, x, x))),
        x - 1 <= round_trip((x, x, x)).0 <= x + 1,
{
    let v: int = value_percent(x, x, x);
    let y: int = half_down(255 * v, 100);
    lemma_half_down_is_nearest(100 * x, 255);
    lemma_half_down_is_nearest(255 * v, 100);
}

/// The gray of a value in percent has that value again, as long as the
/// gray fits in a channel.
pub proof fn lemma_value_of_gray_level(v: int)
    requires
        0 <= v,
        half_down(255 * v, 100) <= usize::MAX,
    ensures
        value_percent(gray_level(v), gray_level(v), gray_level(v)) == v,
{
    let y: int = half_down(255 * v, 100);
    lemma_half_down_is_nearest(255 * v, 100);
    lemma_half_down_of_nonnegative(255 * v, 100);
    lemma_half_down_is_unique(100 * y, 255, v);
}

/// A channel whose weight is at most the whole, of a value of at most 100
/// percent, is at most 255.
pub proof fn lemma_channel_in_range(v: int, w: int)
    requires
        0 <= v <= 100,
        w <= 6000,
    ensures
        0 <= channel(v, w) <= 255,
{
    assert(255 * v * w <= 255 * 600000) by (nonlinear_arith)
        requires
            0 <= v <= 100,
            w <= 6000,
    ;
    lemma_half_down_at_most(255 * v * w, 600000, 255);
}

/// A colour of a value of at most 100 percent, in whose sector the value
/// leads, has no channel above 255.
pub proof fn lemma_hsv_to_rgb_in_range(h: int, s: int, v: int)
    requires
        0 <= s,
        0 <= v <= 100,
        value_leads(h, s),
    ensures
        0 <= hsv_to_rgb(h, s, v).0 <= 255,
        0 <= hsv_to_rgb(h, s, v).1 <= 255,
        0 <= hsv_to_rgb(h, s, v).2 <= 255,
{
    if s == 0 {
        lemma_half_down_at_most(255 * v, 100, 255);
    } else {
        let t: int = sector_offset(h);
        let p: int = sector(h);
        assert(0 <= p < 6);
        lemma_channel_in_range(v, 6000);
        lemma_channel_in_range(v, weight(s, 60));
        if p % 2 == 0 {
            assert(0 <= s * (60 - t)) by (nonlinear_arith)
                requires
                    0 <= s,
                    t <= 60,
            ;
            lemma_channel_in_range(v, weight(s, 60 - t));
        } else {
            assert(0 <= s * t) by (nonlinear_arith)
                requires
                    0 <= s,
                    0 <= t,
            ;
            lemma_channel_in_range(v, weight(s, t));
        }
    }
}

/// A channel with the smaller weight is the smaller channel, or the same.
pub proof fn lemma_channel_is_monotonic(v: int, low: int, high: int)
    requires
        v >= 0,
        low <= high,
    ensures
        channel(v, low) <= channel(v, high),
{
    assert(255 * v * low <= 255 * v * high) by (nonlinear_arith)
        requires
            v >= 0,
            low <= high,
    ;
    lemma_half_down_is_monotonic(255 * v * low, 255 * v * high, 600000);
}

/// A colour of the value `v`, in whose sector the value leads, has the gray
/// of `v` as its largest channel.
pub proof fn lemma_largest_channel_of_hsv_to_rgb(h: int, s: int, v: int)
    requires
        0 <= s,
        0 <= v,
        value_leads(h, s),
    ensures
        max3(hsv_to_rgb(h, s, v).0, hsv_to_rgb(h, s, v).1, hsv_to_rgb(h, s, v).2)
            == gray_level(v),
{
    if s != 0 {
        let t: int = sector_offset(h);
        let p: int = sector(h);
        assert(0 <= p < 6);
        assert(255 * v * 6000 == 6000 * (255 * v)) by (nonlinear_arith);
        lemma_half_down_of_equal_fractions(255 * v, 100, 6000);
        assert(channel(v, 6000) == gray_level(v));
        lemma_channel_is_monotonic(v, weight(s, 60), 6000);
        if p % 2 == 0 {
            assert(0 <= s * (60 - t)) by (nonlinear_arith)
                requires
                    0 <= s,
                    t <= 60,
            ;
            lemma_channel_is_monotonic(v, weight(s, 60 - t), 6000);
        } else {
            assert(0 <= s * t) by (nonlinear_arith)
                requires
                    0 <= s,
                    0 <= t,
            ;
            lemma_channel_is_monotonic(v, weight(s, t), 6000);
        }
    }
}

/// Such a colour has the value `v` again, as long as the gray of `v` fits
/// in a channel.
pub proof fn lemma_value_of_hsv_to_rgb(h: int, s: int, v: int)
    requires
        0 <= s,
        0 <= v,
        value_leads(h, s),
        half_down(255 * v, 100) <= usize::MAX,
    ensures
        value_percent(hsv_to_rgb(h, s, v).0, hsv_to_rgb(h, s, v).1, hsv_to_rgb(h, s, v).2)
            == v,
{
    lemma_largest_channel_of_hsv_to_rgb(h, s, v);
    lemma_value_of_gray_level(v);
}

/// A colour in whose sector the value leads keeps its largest channel on
/// the way to HSV and back, but for a difference of at most one.
pub proof fn lemma_round_trip_keeps_largest_channel(rgb: (int, int, int))
    requires
        is_channel(rgb.0),
        is_channel(rgb.1),
        is_channel(rgb.2),
        value_leads(rgb_to_hsv(rgb.0, rgb.1, rgb.2).0, rgb_to_hsv(rgb.0, rgb.1, rgb.2).1),
    ensures
        max3(rgb.0, rgb.1, rgb.2) - 1 <= max3(
            round_trip(rgb).0,
            round_trip(rgb).1,
            round_trip(rgb).2,
        ) <= max3(rgb.0, rgb.1, rgb.2) + 1,
{
    let hsv = rgb_to_hsv(rgb.0, rgb.1, rgb.2);
    let top: int = max3(rgb.0, rgb.1, rgb.2);
    lemma_hsv_ranges(rgb.0, rgb.1, rgb.2);
    lemma_largest_channel_of_hsv_to_rgb(hsv.0, hsv.1, hsv.2);
    lemma_gray_round_trip(top);
}

/// Scaling by nothing leaves a value as it is.
pub proof fn lemma_scaled_by_zero(v: int, den: int)
    requires
        is_channel(v),
        den > 0,
    ensures
        scaled_value(v, 0, den) == v,
{
    lemma_half_down_of_whole(v, den);
}

/// A colour relit with a scale of nothing is the colour taken to HSV and
/// back.
pub proof fn lemma_relit_by_zero(rgb: (int, int, int), den: int)
    requires
        is_channel(rgb.0),
        is_channel(rgb.1),
        is_channel(rgb.2),
        den > 0,
    ensures
        relit(rgb, 0, den) == round_trip(rgb),
{
    lemma_hsv_ranges(rgb.0, rgb.1, rgb.2);
    lemma_scaled_by_zero(rgb_to_hsv(rgb.0, rgb.1, rgb.2).2, den);
}

/// An image scaled by nothing holds, pixel by pixel, the colour of the
/// first image taken to HSV and back, and its alpha.
pub proof fn lemma_zero_scale_is_round_trip(data: Seq<usize>, out: Seq<usize>, den: int)
    requires
        den > 0,
        whole_pixels(data),
        scaled_image(data, out, 0, den),
    ensures
        out.len() == data.len(),
        forall|i: int|
            0 <= i < pixel_count(data) ==> #[trigger] colour_at(out, i) == round_trip(
                colour_at(data, i),
            ),
        forall|i: int|
            0 <= i < pixel_count(data) ==> #[trigger] alpha_at(out, i) == alpha_at(data, i),
{
    assert forall|i: int| 0 <= i < pixel_count(data) implies #[trigger] colour_at(out, i)
        == round_trip(colour_at(data, i)) by {
        lemma_relit_by_zero(colour_at(data, i), den);
    }
}

/// Balancing keeps the colour of every pixel of an image in which no pixel
/// is brighter than the target, and makes every pixel opaque.
pub proof fn lemma_dark_image_keeps_colours(data: Seq<usize>, out: Seq<usize>)
    requires
        whole_pixels(data),
        balanced_image(data, out),
        forall|i: int|
            0 <= i < pixel_count(data) ==> #[trigger] brightness_at(data, i) <= balance_target(
                data,
            ),
    ensures
        forall|i: int|
            0 <= i < pixel_count(data) ==> #[trigger] colour_at(out, i) == colour_at(data, i),
        forall|i: int| 0 <= i < pixel_count(data) ==> #[trigger] alpha_at(out, i) == 255,
{
    assert forall|i: int| 0 <= i < pixel_count(data) implies #[trigger] colour_at(out, i)
        == colour_at(data, i) by {
        assert(brightness_at(data, i) <= balance_target(data));
    }
}

/// The brightness of `count` pixels that all have the brightness `v` is
/// `count * v`.
pub proof fn lemma_uniform_brightness_sum(data: Seq<usize>, count: int, v: int)
    requires
        0 <= count,
        forall|i: int| 0 <= i < count ==> #[trigger] brightness_at(data, i) == v,
    ensures
        brightness_sum(data, count) == count * v,
    decreases count,
{
    if count > 0 {
        lemma_uniform_brightness_sum(data, count - 1, v);
        assert(brightness_at(data, count - 1) == v);
        assert((count - 1) * v + v == count * v) by (nonlinear_arith);
    } else {
        assert(0 * v == 0);
    }
}

/// Where all pixels of an image have the brightness `v`, the target is the
/// mean of `v` and the bias, rounded: no pixel is brighter than the target
/// exactly where `v` is at most the bias.
pub proof fn lemma_uniform_brightness_target(data: Seq<usize>, v: int)
    requires
        whole_pixels(data),
        pixel_count(data) > 0,
        forall|i: int| 0 <= i < pixel_count(data) ==> #[trigger] brightness_at(data, i) == v,
    ensures
        balance_target(data) == half_down(v + BRIGHTNESS_BIAS, 2),
        v <= balance_target(data) <==> v <= BRIGHTNESS_BIAS,
{
    let n: int = pixel_count(data);
    lemma_uniform_brightness_sum(data, n, v);
    assert(n * v + BRIGHTNESS_BIAS * n == n * (v + BRIGHTNESS_BIAS)) by (nonlinear_arith);
    assert(2 * n == n * 2);
    lemma_half_down_of_equal_fractions(v + BRIGHTNESS_BIAS, 2, n);
    lemma_half_down_is_nearest(v + BRIGHTNESS_BIAS, 2);
}

/// Balancing keeps the colours of an image whose pixels all have the same
/// brightness, where that brightness is at most the bias.
pub proof fn lemma_uniformly_dark_image_keeps_colours(
    data: Seq<usize>,
    out: Seq<usize>,
    v: int,
)
    requires
        whole_pixels(data),
        balanced_image(data, out),
        v <= BRIGHTNESS_BIAS,
        forall|i: int| 0 <= i < pixel_count(data) ==> #[trigger] brightness_at(data, i) == v,
    ensures
        forall|i: int|
            0 <= i < pixel_count(data) ==> #[trigger] colour_at(out, i) == colour_at(data, i),
        forall|i: int| 0 <= i < pixel_count(data) ==> #[trigger] alpha_at(out, i) == 255,
{
    if pixel_count(data) > 0 {
        lemma_uniform_brightness_target(data, v);
        lemma_dark_image_keeps_colours(data, out);
    }
}

/// A gray that is brighter than a target is balanced to the gray of that
/// target, whose brightness is the target itself.
pub proof fn lemma_gray_dimmed_to_target(x: int, target: int)
    requires
        is_channel(x),
        0 <= target < value_percent(x, x, x),
    ensures
        balanced((x, x, x), target) == (gray_level(target), gray_level(target), gray_level(target)),
        gray_level(target) <= x,
        value_percent(gray_level(target), gray_level(target), gray_level(target)) == target,
{
    lemma_half_down_is_nearest(100 * x, 255);
    lemma_half_down_at_most(255 * target, 100, x);
    lemma_value_of_gray_level(target);
}

/// A colour that is brighter than a target, and in whose sector the value
/// leads, is balanced to a colour whose brightness is the target itself.
pub proof fn lemma_dimmed_to_target(rgb: (int, int, int), target: int)
    requires
        is_channel(rgb.0),
        is_channel(rgb.1),
        is_channel(rgb.2),
        0 <= target < rgb_to_hsv(rgb.0, rgb.1, rgb.2).2,
        value_leads(rgb_to_hsv(rgb.0, rgb.1, rgb.2).0, rgb_to_hsv(rgb.0, rgb.1, rgb.2).1),
    ensures
        value_percent(
            balanced(rgb, target).0,
            balanced(rgb, target).1,
            balanced(rgb, target).2,
        ) == target,
{
    let hsv = rgb_to_hsv(rgb.0, rgb.1, rgb.2);
    let top: int = max3(rgb.0, rgb.1, rgb.2);
    lemma_hsv_ranges(rgb.0, rgb.1, rgb.2);
    lemma_half_down_is_nearest(100 * top, 255);
    lemma_half_down_at_most(255 * target, 100, top);
    lemma_value_of_hsv_to_rgb(hsv.0, hsv.1, target);
}

/// After balancing, no pixel in whose sector the value leads is brighter
/// than the target, nor brighter than it was.
pub proof fn lemma_pixel_within_target(data: Seq<usize>, out: Seq<usize>, i: int)
    requires
        whole_pixels(data),
        balanced_image(data, out),
        0 <= i < pixel_count(data),
        value_leads(
            rgb_to_hsv(colour_at(data, i).0, colour_at(data, i).1, colour_at(data, i).2).0,
            rgb_to_hsv(colour_at(data, i).0, colour_at(data, i).1, colour_at(data, i).2).1,
        ),
    ensures
        brightness_at(out, i) <= balance_target(data),
        brightness_at(out, i) <= brightness_at(data, i),
{
    lemma_target_fits(data);
    let c = colour_at(data, i);
    let target: int = balance_target(data);
    assert(colour_at(out, i) == balanced(c, target));
    if brightness_at(data, i) > target {
        lemma_dimmed_to_target(c, target);
    }
}

/// After balancing, no gray pixel of the image is brighter than the target.
pub proof fn lemma_gray_pixel_within_target(data: Seq<usize>, out: Seq<usize>, i: int)
    requires
        whole_pixels(data),
        balanced_image(data, out),
        0 <= i < pixel_count(data),
        is_gray(colour_at(data, i)),
    ensures
        brightness_at(out, i) <= balance_target(data),
        brightness_at(out, i) <= brightness_at(data, i),
{
    lemma_target_fits(data);
    let c = colour_at(data, i);
    let target: int = balance_target(data);
    assert(colour_at(out, i) == balanced(c, target));
    if brightness_at(data, i) > target {
        lemma_gray_dimmed_to_target(c.0, target);
    }
}

} // verus!
