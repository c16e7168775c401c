use ray_tracer::canvas::{Canvas, Pixel, Rgb};
use ray_tracer::ppm::{ColorValue, LINE_WIDTH, PPM};

/// A colour from channel intensities between 0 and 1: each channel is
/// counted in 255ths, rounded up.
fn color(red: f64, green: f64, blue: f64) -> Rgb {
    Rgb {
        red: (red * 255.0).ceil() as i64,
        green: (green * 255.0).ceil() as i64,
        blue: (blue * 255.0).ceil() as i64,
    }
}

fn pixels_of<P: Copy>(c: &Canvas<P>) -> Vec<Pixel<P>> {
    let mut out = Vec::new();
    let mut it = c.iter();
    while let Some(pixel) = it.next() {
        out.push(pixel);
    }
    out
}

#[test]
fn creating_a_canvas() {
    let c = Canvas::new(10, 20);
    assert_eq!(c.width(), 10);
    assert_eq!(c.length(), 20);
    // all the pixels are black
    let pixels = pixels_of(&c);
    assert_eq!(pixels.len(), 200);
    for pixel in pixels {
        assert_eq!(pixel.color, color(0.0, 0.0, 0.0));
    }
}

#[test]
fn writing_pixels_to_a_canvas() {
    let mut c = Canvas::new(10, 20);
    let red = color(1.0, 0.0, 0.0);
    c.write_pixel(2, 3, red);
    assert_eq!(c.pixel_at(2, 3), red);
}

#[test]
fn constructing_the_ppm_header() {
    let c = Canvas::new(5, 3);
    let ppm = c.to_ppm();
    let lines: Vec<&str> = ppm.split("\n").collect();
    assert_eq!(lines[0], "P3");
    assert_eq!(lines[1], "5 3");
    assert_eq!(lines[2], "255");
}

#[test]
fn constructing_the_ppm_pixel_data() {
    let mut c = Canvas::new(5, 3);
    let c1 = color(1.5, 0.0, 0.0);
    let c2 = color(0.0, 0.5, 0.0);
    let c3 = color(-0.5, 0.0, 1.0);
    c.write_pixel(0, 0, c1);
    c.write_pixel(2, 1, c2);
    c.write_pixel(4, 2, c3);
    let ppm = c.to_ppm();
    let lines: Vec<&str> = ppm.split("\n").collect();
    assert_eq!(lines[3], "255 0 0 0 0 0 0 0 0 0 0 0 0 0 0");
    assert_eq!(lines[4], "0 0 0 0 0 0 0 128 0 0 0 0 0 0 0");
    assert_eq!(lines[5], "0 0 0 0 0 0 0 0 0 0 0 0 0 0 255");
}

#[test]
fn splitting_long_lines_in_ppm_files() {
    let mut c = Canvas::new(10, 2);
    let c1 = color(1.0, 0.8, 0.6);
    c.fill_with(c1);
    let ppm = c.to_ppm();
    let lines: Vec<&str> = ppm.split("\n").collect();

    assert_eq!(lines[3], "255 204 153 255 204 153 255 204 153 255 204 153 255 204 153 255 204");
    assert_eq!(lines[4], "153 255 204 153 255 204 153 255 204 153 255 204 153");
    assert_eq!(lines[5], "255 204 153 255 204 153 255 204 153 255 204 153 255 204 153 255 204");
    assert_eq!(lines[6], "153 255 204 153 255 204 153 255 204 153 255 204 153");
}

#[test]
fn ppm_files_are_terminated_by_a_newline_character() {
    let c = Canvas::new(5, 3);
    let ppm = c.to_ppm();
    assert_eq!(&ppm[ppm.len() - 1..ppm.len()], "\n");
}

#[test]
fn a_filled_canvas_serializes_to_exactly_its_text() {
    let mut c = Canvas::new(5, 3);
    c.fill_with(color(1.0, 0.5, 0.0));
    let row = "255 128 0 255 128 0 255 128 0 255 128 0 255 128 0\n";
    let expected = format!("P3\n5 3\n255\n{}{}{}", row, row, row);
    assert_eq!(c.to_ppm(), expected);
}

#[test]
fn parse_and_to_ppm_give_the_same_text() {
    let mut c = Canvas::new(3, 2);
    c.write_pixel(1, 1, color(0.2, 0.4, 0.6));
    assert_eq!(PPM::parse(&c).lines, c.to_ppm());
    assert_eq!(c.to_ppm(), "P3\n3 2\n255\n0 0 0 0 0 0 0 0 0\n0 0 0 51 102 153 0 0 0\n");
}

#[test]
fn a_canvas_without_pixels_is_only_a_header() {
    let none = Canvas::new(0, 0);
    assert_eq!(none.to_ppm(), "P3\n0 0\n255\n");
    let no_columns = Canvas::new(0, 4);
    assert_eq!(no_columns.to_ppm(), "P3\n0 4\n255\n");
    assert_eq!(pixels_of(&no_columns).len(), 0);
    let no_rows = Canvas::new(7, 0);
    assert_eq!(no_rows.to_ppm(), "P3\n7 0\n255\n");
    assert_eq!(pixels_of(&no_rows).len(), 0);
}

#[test]
fn a_single_pixel_ends_its_row() {
    let c = Canvas::filled(1, 1, color(1.0, 1.0, 1.0));
    assert_eq!(c.to_ppm(), "P3\n1 1\n255\n255 255 255\n");
}

#[test]
fn no_line_reaches_the_line_width() {
    let mut c = Canvas::filled(40, 3, color(1.0, 1.0, 1.0));
    c.write_pixel(7, 1, color(0.0, 0.01, 0.5));
    let ppm = c.to_ppm();
    assert!(ppm.ends_with('\n'));
    let mut longest = 0;
    for line in ppm.split('\n') {
        assert!(line.len() < LINE_WIDTH);
        if line.len() > longest {
            longest = line.len();
        }
    }
    // seventeen values of three digits, sixteen spaces between them
    assert_eq!(longest, 67);
}

#[test]
fn short_values_fill_a_line_up_to_the_limit() {
    // 33 values of "0 " take the line to 66 columns: the 34th still gets a space,
    // the 35th would pass the limit
    let c = Canvas::new(20, 1);
    let ppm = c.to_ppm();
    let lines: Vec<&str> = ppm.split("\n").collect();
    assert_eq!(lines[3].len(), 67);
    assert_eq!(lines[3], "0 ".repeat(33) + "0");
    assert_eq!(lines[4], "0 ".repeat(25) + "0");
    assert_eq!(lines[5], "");
    assert_eq!(lines.len(), 6);
}

#[test]
fn the_walk_goes_row_by_row() {
    let mut c = Canvas::filled(3, 2, 0u8);
    c.write_pixel(0, 0, 1);
    c.write_pixel(1, 0, 2);
    c.write_pixel(2, 0, 3);
    c.write_pixel(0, 1, 4);
    c.write_pixel(1, 1, 5);
    c.write_pixel(2, 1, 6);
    let seen: Vec<(usize, usize, u8)> =
        pixels_of(&c).iter().map(|p| (p.x, p.y, p.color)).collect();
    assert_eq!(seen, vec![(0, 0, 1), (1, 0, 2), (2, 0, 3), (0, 1, 4), (1, 1, 5), (2, 1, 6)]);
    let mut it = c.iter();
    for _ in 0..6 {
        assert!(it.next().is_some());
    }
    assert!(it.next().is_none());
    assert!(it.next().is_none());
}

#[test]
fn writing_a_pixel_leaves_the_others_alone() {
    let mut c = Canvas::filled(4, 3, 0i32);
    c.write_pixel(3, 2, 9);
    for y in 0..3 {
        for x in 0..4 {
            let expected = if (x, y) == (3, 2) { 9 } else { 0 };
            assert_eq!(c.pixel_at(x, y), expected);
        }
    }
    assert_eq!(c.width(), 4);
    assert_eq!(c.length(), 3);
}

#[test]
fn fill_with_sets_every_pixel() {
    let mut c = Canvas::filled(4, 3, 'a');
    c.write_pixel(1, 1, 'b');
    c.fill_with('z');
    for y in 0..3 {
        for x in 0..4 {
            assert_eq!(c.pixel_at(x, y), 'z');
        }
    }
}

#[test]
fn constrain_keeps_a_level_between_0_and_255() {
    assert_eq!(ColorValue::constrain(-1), 0);
    assert_eq!(ColorValue::constrain(0), 0);
    assert_eq!(ColorValue::constrain(128), 128);
    assert_eq!(ColorValue::constrain(255), 255);
    assert_eq!(ColorValue::constrain(256), 255);
    assert_eq!(ColorValue::constrain(i64::MIN), 0);
    assert_eq!(ColorValue::constrain(i64::MAX), 255);
}

#[test]
fn a_color_value_counts_its_digits_and_a_separator() {
    let zero = ColorValue::new(0);
    assert_eq!((zero.val.as_str(), zero.len), ("0", 2));
    let nine = ColorValue::new(9);
    assert_eq!((nine.val.as_str(), nine.len), ("9", 2));
    let ten = ColorValue::new(10);
    assert_eq!((ten.val.as_str(), ten.len), ("10", 3));
    let ninety_nine = ColorValue::new(99);
    assert_eq!((ninety_nine.val.as_str(), ninety_nine.len), ("99", 3));
    let hundred = ColorValue::new(100);
    assert_eq!((hundred.val.as_str(), hundred.len), ("100", 4));
    let over = ColorValue::new(383);
    assert_eq!((over.val.as_str(), over.len), ("255", 4));
    let under = ColorValue::new(-127);
    assert_eq!((under.val.as_str(), under.len), ("0", 2));
}

#[test]
fn the_header_holds_large_sizes_in_full() {
    let c = Canvas::new(1234567, 0);
    assert_eq!(c.to_ppm(), "P3\n1234567 0\n255\n");
}
