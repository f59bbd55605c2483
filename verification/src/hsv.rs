//! Conversion between RGB triples and HSV triples. Hue is kept in whole
//! degrees, saturation and value in whole percent; every intermediate
//! quantity is an exact fraction, rounded once at the end.

use vstd::prelude::*;
use crate::rounding::{half_down, saturate, round_ratio, round_product};
use crate::rounding::lemma_half_down_of_nonpositive;
use crate::rounding::{lemma_half_down_at_most, lemma_half_down_of_nonnegative};

verus! {

/// The largest of three channel values.
pub open spec fn max3(a: int, b: int, c: int) -> int {
    if a >= b && a >= c {
        a
    } else if b >= c {
        b
    } else {
        c
    }
}

/// The smallest of three channel values.
pub open spec fn min3(a: int, b: int, c: int) -> int {
    if a <= b && a <= c {
        a
    } else if b <= c {
        b
    } else {
        c
    }
}

/// The spread of a colour: its largest channel less its smallest.
pub open spec fn spread(r: int, g: int, b: int) -> int {
    max3(r, g, b) - min3(r, g, b)
}

/// How far channel `c` lies below the largest channel `top`, as the
/// fraction `(top - c) / (6 * diff) + 1/2`, given in units of
/// `1 / (6 * diff)`.
pub open spec fn channel_distance(top: int, c: int, diff: int) -> int {
    (top - c) + 3 * diff
}

/// The hue of a colour before it is brought into one turn, in units of
/// `1 / (6 * spread)` of a turn. The first channel that equals the largest,
/// in the order red, green, blue, decides the formula.
pub open spec fn raw_hue(r: int, g: int, b: int) -> int {
    let top = max3(r, g, b);
    let diff = spread(r, g, b);
    let dr = channel_distance(top, r, diff);
    let dg = channel_distance(top, g, diff);
    let db = channel_distance(top, b, diff);
    if r == top {
        db - dg
    } else if g == top {
        2 * diff + dr - db
    } else {
        4 * diff + dg - dr
    }
}

/// One correction that brings `n` into a turn of `whole` units: a negative
/// `n` gains a turn, one above a turn loses a turn.
pub open spec fn wrap_turn(n: int, whole: int) -> int {
    if n < 0 {
        n + whole
    } else if n > whole {
        n - whole
    } else {
        n
    }
}

/// Hue in whole degrees of a colour that is not gray.
pub open spec fn hue_degrees(r: int, g: int, b: int) -> int {
    let whole = 6 * spread(r, g, b);
    half_down(360 * wrap_turn(raw_hue(r, g, b), whole), whole)
}

/// Saturation in whole percent of a colour that is not gray: the spread
/// relative to the largest channel.
pub open spec fn saturation_percent(r: int, g: int, b: int) -> int {
    half_down(100 * spread(r, g, b), max3(r, g, b))
}

/// Value in whole percent: the largest channel relative to 255.
pub open spec fn value_percent(r: int, g: int, b: int) -> int {
    half_down(100 * max3(r, g, b), 255)
}

/// The HSV triple of an RGB triple. A gray colour, whose channels are all
/// equal, has hue and saturation zero.
pub open spec fn rgb_to_hsv(r: int, g: int, b: int) -> (int, int, int) {
    if spread(r, g, b) == 0 {
        (0, 0, value_percent(r, g, b))
    } else {
        (hue_degrees(r, g, b), saturation_percent(r, g, b), value_percent(r, g, b))
    }
}

/// Hue, saturation and value of a colour stay within their ranges: at most
/// 360 degrees, at most 100 percent, and a value no larger than the
/// largest channel, nor larger than 100 percent where no channel exceeds
/// 255.
pub proof fn lemma_hsv_ranges(r: int, g: int, b: int)
    requires
        r >= 0,
        g >= 0,
        b >= 0,
    ensures
        0 <= rgb_to_hsv(r, g, b).0 <= 360,
        0 <= rgb_to_hsv(r, g, b).1 <= 100,
        0 <= rgb_to_hsv(r, g, b).2 <= max3(r, g, b),
        max3(r, g, b) <= 255 ==> rgb_to_hsv(r, g, b).2 <= 100,
{
    let top = max3(r, g, b);
    let diff = spread(r, g, b);
    lemma_half_down_at_most(100 * top, 255, top);
    if top <= 255 {
        lemma_half_down_at_most(100 * top, 255, 100);
    }
    lemma_half_down_of_nonnegative(100 * top, 255);
    if diff != 0 {
        let whole = 6 * diff;
        let turned = wrap_turn(raw_hue(r, g, b), whole);
        lemma_half_down_at_most(100 * diff, top, 100);
        lemma_half_down_of_nonnegative(100 * diff, top);
        lemma_half_down_at_most(360 * turned, whole, 360);
        lemma_half_down_of_nonnegative(360 * turned, whole);
    }
}

/// The hue of a colour in units of `1 / (6 * spread)` of a turn, brought
/// into one turn.
fn turned_hue(r: u128, g: u128, b: u128, top: u128, diff: u128) -> (turned: u128)
    requires
        r <= usize::MAX,
        g <= usize::MAX,
        b <= usize::MAX,
        top == max3(r as int, g as int, b as int),
        diff == spread(r as int, g as int, b as int),
    ensures
        turned == wrap_turn(raw_hue(r as int, g as int, b as int), 6 * diff),
        turned <= 6 * diff,
{
    if r == top {
        if g >= b {
            g - b
        } else {
            6 * diff - (b - g)
        }
    } else if g == top {
        2 * diff + b - r
    } else {
        4 * diff + r - g
    }
}

/// Converts an RGB triple to hue in degrees, saturation in percent and
/// value in percent. Channels above 255 are taken as they are: the value
/// then exceeds 100.
pub fn rgb2hsv(arr: &[usize; 3]) -> (out: [usize; 3])
    ensures
        (out[0] as int, out[1] as int, out[2] as int) == rgb_to_hsv(
            arr[0] as int,
            arr[1] as int,
            arr[2] as int,
        ),
        out[0] <= 360,
        out[1] <= 100,
        out[2] <= max3(arr[0] as int, arr[1] as int, arr[2] as int),
        max3(arr[0] as int, arr[1] as int, arr[2] as int) <= 255 ==> out[2] <= 100,
{
    let r: u128 = arr[0] as u128;
    let g: u128 = arr[1] as u128;
    let b: u128 = arr[2] as u128;
    let top: u128 = if r >= g && r >= b {
        r
    } else if g >= b {
        g
    } else {
        b
    };
    let low: u128 = if r <= g && r <= b {
        r
    } else if g <= b {
        g
    } else {
        b
    };
    let diff: u128 = top - low;
    proof {
        lemma_hsv_ranges(r as int, g as int, b as int);
    }
    let value: u128 = round_ratio(100 * top, 255);
    if diff == 0 {
        return [0, 0, value as usize];
    }
    let sat: u128 = round_ratio(100 * diff, top);
    let turned: u128 = turned_hue(r, g, b, top, diff);
    let hue: u128 = round_ratio(360 * turned, 6 * diff);
    [hue as usize, sat as usize, value as usize]
}

/// The sector of the colour wheel that a hue falls in: the hue in units of
/// 60 degrees, rounded, and counted modulo six.
pub open spec fn sector(h: int) -> int {
    half_down(h, 60) % 6
}

/// How far a hue lies from the start of its sector, in degrees. The sector
/// comes from the rounded hue and the offset from the hue itself. Up to 330
/// degrees the offset runs from -29 to 30: it is negative for a hue in the
/// upper half of a sector of sixty degrees. From 331 degrees on the
/// rounded hue has passed the sixth sector and is counted from the first
/// again, so the offset exceeds sixty: it is 331 at 331 degrees.
pub open spec fn sector_offset(h: int) -> int {
    h - 60 * sector(h)
}

/// The factor `1 - (s / 100) * (k / 60)` in units of `1 / 6000`.
pub open spec fn weight(s: int, k: int) -> int {
    6000 - s * k
}

/// The channel `255 * (v / 100) * (w / 6000)`, rounded and stored.
pub open spec fn channel(v: int, w: int) -> int {
    saturate(half_down(255 * v * w, 600000))
}

/// The RGB triple of an HSV triple. With saturation zero the colour is the
/// gray of that value, whatever the hue. Otherwise four channels are made
/// of the value `V`, the saturation `S` and the offset `f` of the hue in its
/// sector, each as a fraction of one: `V` itself, `a = V * (1 - S)`,
/// `b = V * (1 - S * f)` and `c = V * (1 - S * (1 - f))`. The sector deals
/// three of them out to red, green and blue; a sector other than the six
/// would give black.
pub open spec fn hsv_to_rgb(h: int, s: int, v: int) -> (int, int, int) {
    if s == 0 {
        let gray = saturate(half_down(255 * v, 100));
        (gray, gray, gray)
    } else {
        let p = sector(h);
        let t = sector_offset(h);
        let top = channel(v, 6000);
        let a = channel(v, weight(s, 60));
        let b = channel(v, weight(s, t));
        let c = channel(v, weight(s, 60 - t));
        if p == 0 {
            (top, c, a)
        } else if p == 1 {
            (b, top, a)
        } else if p == 2 {
            (a, top, c)
        } else if p == 3 {
            (a, b, top)
        } else if p == 4 {
            (c, a, top)
        } else if p == 5 {
            (top, a, b)
        } else {
            (0, 0, 0)
        }
    }
}

/// A whole number given by its sign and its size.
pub open spec fn signed(negative: bool, size: int) -> int {
    if negative {
        -size
    } else {
        size
    }
}

/// A whole number where it is positive, zero otherwise.
pub open spec fn positive_part(x: int) -> int {
    if x > 0 {
        x
    } else {
        0
    }
}

/// A weight of zero or less gives the channel zero, as a weight of zero
/// does.
pub proof fn lemma_channel_of_positive_part(v: int, w: int)
    requires
        v >= 0,
    ensures
        channel(v, w) == channel(v, positive_part(w)),
{
    if w <= 0 {
        assert(255 * v * w <= 0) by (nonlinear_arith)
            requires
                v >= 0,
                w <= 0,
        ;
        assert(255 * v * 0 == 0) by (nonlinear_arith);
        lemma_half_down_of_nonpositive(255 * v * w, 600000);
        lemma_half_down_of_nonpositive(255 * v * 0, 600000);
    }
}

/// The sector of a hue, as a machine integer.
fn sector_of(h: usize) -> (p: usize)
    ensures
        p == sector(h as int),
        p < 6,
{
    let q: u128 = round_ratio(h as u128, 60);
    (q % 6) as usize
}

/// The positive part of the weight of saturation `s` with the offset `k`,
/// which is given by its sign and its size.
fn positive_weight(s: usize, k_negative: bool, k_size: usize) -> (w: u128)
    ensures
        w == positive_part(weight(s as int, signed(k_negative, k_size as int))),
{
    assert(s * k_size <= u64::MAX * u64::MAX) by (nonlinear_arith)
        requires
            s <= u64::MAX,
            k_size <= u64::MAX,
    ;
    let product: u128 = (s as u128) * (k_size as u128);
    if k_negative {
        assert(s * (-(k_size as int)) == -(s * k_size)) by (nonlinear_arith);
        6000 + product
    } else if product >= 6000 {
        0
    } else {
        6000 - product
    }
}

/// The channel of value `v` with a weight that is zero or positive.
fn channel_of(v: usize, w: u128) -> (c: usize)
    ensures
        c == channel(v as int, w as int),
{
    round_product(255 * (v as u128), w, 600000)
}

/// Converts hue in degrees, saturation in percent and value in percent to
/// an RGB triple. Nothing is clamped on the way: a value above 100, or a
/// hue in the upper half of a sector, may give channels above 255. A
/// channel that would be negative is zero.
pub fn hsv2rgb(hsv: &[usize; 3]) -> (out: [usize; 3])
    ensures
        (out[0] as int, out[1] as int, out[2] as int) == hsv_to_rgb(
            hsv[0] as int,
            hsv[1] as int,
            hsv[2] as int,
        ),
{
    let h: usize = hsv[0];
    let s: usize = hsv[1];
    let v: usize = hsv[2];
    if s == 0 {
        let gray: usize = round_product(255, v as u128, 100);
        return [gray, gray, gray];
    }
    let p: usize = sector_of(h);
    let start: usize = 60 * p;
    let t_negative: bool = h < start;
    let t_size: usize = if t_negative {
        start - h
    } else {
        h - start
    };
    let u_negative: bool = !t_negative && t_size > 60;
    let u_size: usize = if t_negative {
        60 + t_size
    } else if t_size > 60 {
        t_size - 60
    } else {
        60 - t_size
    };
    let top: usize = channel_of(v, 6000);
    let a: usize = channel_of(v, positive_weight(s, false, 60));
    let b: usize = channel_of(v, positive_weight(s, t_negative, t_size));
    let c: usize = channel_of(v, positive_weight(s, u_negative, u_size));
    proof {
        let t: int = sector_offset(h as int);
        assert(t == signed(t_negative, t_size as int));
        assert(60 - t == signed(u_negative, u_size as int));
        lemma_channel_of_positive_part(v as int, weight(s as int, 60));
        lemma_channel_of_positive_part(v as int, weight(s as int, t));
        lemma_channel_of_positive_part(v as int, weight(s as int, 60 - t));
    }
    if p == 0 {
        [top, c, a]
    } else if p == 1 {
        [b, top, a]
    } else if p == 2 {
        [a, top, c]
    } else if p == 3 {
        [a, b, top]
    } else if p == 4 {
        [c, a, top]
    } else if p == 5 {
        [top, a, b]
    } else {
        [0, 0, 0]
    }
}

} // verus!
