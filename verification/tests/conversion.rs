use pixel_lighting::{hsv2rgb, rgb2hsv};

#[test]
fn test_rgb2hsv() {
    assert_eq!(rgb2hsv(&[160, 72, 220]), [276, 67, 86]);
}

#[test]
fn test_hsv2rgb() {
    assert_eq!(hsv2rgb(&[276, 67, 86]), [219, 72, 278]);
}

#[test]
fn rgb2hsv_of_gray_has_no_hue_and_no_saturation() {
    assert_eq!(rgb2hsv(&[0, 0, 0]), [0, 0, 0]);
    assert_eq!(rgb2hsv(&[128, 128, 128]), [0, 0, 50]);
    assert_eq!(rgb2hsv(&[255, 255, 255]), [0, 0, 100]);
}

#[test]
fn rgb2hsv_of_primary_and_secondary_colours() {
    assert_eq!(rgb2hsv(&[255, 0, 0]), [0, 100, 100]);
    assert_eq!(rgb2hsv(&[255, 255, 0]), [60, 100, 100]);
    assert_eq!(rgb2hsv(&[0, 255, 0]), [120, 100, 100]);
    assert_eq!(rgb2hsv(&[0, 255, 255]), [180, 100, 100]);
    assert_eq!(rgb2hsv(&[0, 0, 255]), [240, 100, 100]);
}

#[test]
fn rgb2hsv_wraps_a_negative_hue_by_one_turn() {
    assert_eq!(rgb2hsv(&[255, 0, 1]), [360, 100, 100]);
    assert_eq!(rgb2hsv(&[200, 1, 0]), [0, 100, 78]);
}

#[test]
fn rgb2hsv_rounds_each_component_once() {
    assert_eq!(rgb2hsv(&[1, 2, 3]), [210, 67, 1]);
    assert_eq!(rgb2hsv(&[10, 20, 30]), [210, 67, 12]);
    assert_eq!(rgb2hsv(&[51, 102, 153]), [210, 67, 60]);
    assert_eq!(rgb2hsv(&[200, 199, 199]), [0, 0, 78]);
}

#[test]
fn rgb2hsv_takes_channels_above_255_as_they_are() {
    assert_eq!(rgb2hsv(&[300, 0, 0]), [0, 100, 118]);
}

#[test]
fn rgb2hsv_of_the_largest_channel_values() {
    if usize::BITS == 64 {
        let top: usize = usize::MAX;
        assert_eq!(rgb2hsv(&[top, 0, 0]), [0, 100, 7234017283807667300]);
        assert_eq!(rgb2hsv(&[top, top, top - 1]), [60, 0, 7234017283807667300]);
    }
}

#[test]
fn rgb2hsv_stays_in_range_for_eight_bit_channels() {
    let mut r: usize = 0;
    while r < 256 {
        let mut g: usize = 0;
        while g < 256 {
            let mut b: usize = 0;
            while b < 256 {
                let hsv: [usize; 3] = rgb2hsv(&[r, g, b]);
                assert!(hsv[0] <= 360);
                assert!(hsv[1] <= 100);
                assert!(hsv[2] <= 100);
                b += 5;
            }
            g += 5;
        }
        r += 5;
    }
}

#[test]
fn hsv2rgb_with_no_saturation_is_gray_whatever_the_hue() {
    assert_eq!(hsv2rgb(&[0, 0, 100]), [255, 255, 255]);
    assert_eq!(hsv2rgb(&[123, 0, 1]), [3, 3, 3]);
    assert_eq!(hsv2rgb(&[0, 0, 0]), [0, 0, 0]);
}

#[test]
fn hsv2rgb_sends_a_tie_to_the_lower_gray() {
    assert_eq!(hsv2rgb(&[0, 0, 50]), [127, 127, 127]);
}

#[test]
fn hsv2rgb_in_each_sector() {
    assert_eq!(hsv2rgb(&[20, 50, 80]), [204, 136, 102]);
    assert_eq!(hsv2rgb(&[80, 50, 80]), [170, 204, 102]);
    assert_eq!(hsv2rgb(&[140, 50, 80]), [102, 204, 136]);
    assert_eq!(hsv2rgb(&[200, 50, 80]), [102, 170, 204]);
    assert_eq!(hsv2rgb(&[260, 50, 80]), [136, 102, 204]);
    assert_eq!(hsv2rgb(&[320, 50, 80]), [204, 102, 170]);
}

#[test]
fn hsv2rgb_at_the_sector_starts() {
    assert_eq!(hsv2rgb(&[0, 100, 100]), [255, 0, 0]);
    assert_eq!(hsv2rgb(&[60, 100, 100]), [255, 255, 0]);
    assert_eq!(hsv2rgb(&[120, 100, 100]), [0, 255, 0]);
    assert_eq!(hsv2rgb(&[180, 100, 100]), [0, 255, 255]);
    assert_eq!(hsv2rgb(&[240, 100, 100]), [0, 0, 255]);
    assert_eq!(hsv2rgb(&[300, 100, 100]), [255, 0, 255]);
}

#[test]
fn hsv2rgb_takes_the_sector_from_the_rounded_hue() {
    assert_eq!(hsv2rgb(&[270, 67, 86]), [146, 72, 219]);
    assert_eq!(hsv2rgb(&[271, 67, 86]), [219, 72, 290]);
    assert_eq!(hsv2rgb(&[30, 100, 100]), [255, 127, 0]);
    assert_eq!(hsv2rgb(&[31, 100, 100]), [378, 255, 0]);
    assert_eq!(hsv2rgb(&[210, 40, 12]), [18, 24, 31]);
}

#[test]
fn hsv2rgb_counts_sectors_modulo_six() {
    assert_eq!(hsv2rgb(&[330, 50, 80]), [204, 102, 153]);
    assert_eq!(hsv2rgb(&[331, 50, 80]), [204, 665, 102]);
    assert_eq!(hsv2rgb(&[360, 100, 100]), [255, 1530, 0]);
    assert_eq!(hsv2rgb(&[400, 10, 10]), [11, 25, 23]);
}

#[test]
fn hsv2rgb_does_not_clamp_a_value_above_100() {
    assert_eq!(hsv2rgb(&[0, 0, 200]), [510, 510, 510]);
}

#[test]
fn hsv2rgb_stores_a_negative_channel_as_zero() {
    assert_eq!(hsv2rgb(&[0, 150, 100]), [255, 0, 0]);
}

#[test]
fn hsv2rgb_stores_a_channel_too_large_as_the_largest() {
    if usize::BITS == 64 {
        let top: usize = usize::MAX;
        assert_eq!(hsv2rgb(&[0, 50, top]), [top, top, top]);
        assert_eq!(hsv2rgb(&[45, top, top]), [top, top, 0]);
        assert_eq!(hsv2rgb(&[top, top, top]), [top, top, 0]);
        assert_eq!(hsv2rgb(&[top, 1, 1]), [3, 7839866231326562, 3]);
    }
}

#[test]
fn gray_survives_the_round_trip_within_one() {
    let mut x: usize = 0;
    while x < 256 {
        let back: [usize; 3] = hsv2rgb(&rgb2hsv(&[x, x, x]));
        assert_eq!(back[0], back[1]);
        assert_eq!(back[1], back[2]);
        assert!(back[0] + 1 >= x && back[0] <= x + 1);
        x += 1;
    }
}

#[test]
fn round_trip_of_colours_in_the_lower_half_of_a_sector() {
    assert_eq!(hsv2rgb(&rgb2hsv(&[10, 20, 30])), [10, 20, 31]);
    assert_eq!(hsv2rgb(&rgb2hsv(&[255, 0, 0])), [255, 0, 0]);
    assert_eq!(hsv2rgb(&rgb2hsv(&[0, 0, 255])), [0, 0, 255]);
}

#[test]
fn round_trip_of_a_colour_in_the_upper_half_of_a_sector() {
    assert_eq!(hsv2rgb(&rgb2hsv(&[160, 72, 220])), [219, 72, 278]);
}

#[test]
fn round_trip_keeps_the_largest_channel_where_the_value_leads() {
    let mut seen: usize = 0;
    let mut in_upper_half: usize = 0;
    let mut r: usize = 0;
    while r < 256 {
        let mut g: usize = 0;
        while g < 256 {
            let mut b: usize = 0;
            while b < 256 {
                let hsv: [usize; 3] = rgb2hsv(&[r, g, b]);
                let sector: usize = ((2 * hsv[0] + 59) / 120) % 6;
                let start: usize = 60 * sector;
                let leads: bool = if hsv[1] == 0 {
                    true
                } else if sector % 2 == 0 {
                    hsv[0] <= start + 60
                } else {
                    hsv[0] >= start
                };
                if leads {
                    let back: [usize; 3] = hsv2rgb(&hsv);
                    let top: usize = r.max(g).max(b);
                    let top_back: usize = back[0].max(back[1]).max(back[2]);
                    assert!(top_back + 1 >= top && top_back <= top + 1);
                    assert!(top_back <= 255);
                    seen += 1;
                    if hsv[1] != 0 && hsv[0] < start {
                        in_upper_half += 1;
                    }
                }
                b += 3;
            }
            g += 3;
        }
        r += 3;
    }
    assert!(seen > 1000);
    assert!(in_upper_half > 1000);
}

#[test]
fn the_value_leads_in_the_upper_half_of_an_even_sector() {
    assert_eq!(rgb2hsv(&[128, 255, 85]), [105, 67, 100]);
    assert_eq!(hsv2rgb(&[105, 67, 100]), [84, 255, 41]);
    assert_eq!(hsv2rgb(&[105, 67, 90]), [76, 229, 37]);
}
