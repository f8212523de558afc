use palette::color_difference::Ciede2000;
use palette::convert::IntoColorUnclamped;
use palette::{Lab, LinSrgb, Srgb};
use staff::color::palette::{Closest, Exact, Metric};
use staff::color::{collect, repaint, Color, Error, RepaintMode};
use staff::color::tools::{collect_from, repaint_image};
use staff::im::{decode_png, encode_png, Format, Image};

/// The measure of the command line tool: the CIEDE2000 difference in Lab.
struct Lateral;

impl Metric for Lateral {
    fn nearest(&self, palette: &[Color], target: Color) -> Color {
        let lab = |&Color([r, g, b]): &Color| -> Lab { Srgb::new(r, g, b).into_linear().into_color_unclamped() };
        let colors: Vec<Lab> = palette.iter().map(lab).collect();
        let target = lab(&target);
        let mut min = (0, f32::INFINITY);
        for (idx, col) in colors.iter().enumerate() {
            let diff = col.difference(target);
            if diff < min.1 {
                min = (idx, diff);
            }
        }
        let lin: LinSrgb = colors[min.0].into_color_unclamped();
        Color(Srgb::from_linear(lin).into())
    }
}

fn picture() -> Image {
    let data = vec![
        255, 0, 0, /**/ 0, 255, 0, /**/ 255, 0, 0, //
        0, 0, 255, /**/ 0, 0, 255, /**/ 0, 255, 0,
    ];
    Image::from_raw((3, 2), Format::Rgb, data).unwrap()
}

const RED: Color = Color([255, 0, 0]);
const GREEN: Color = Color([0, 255, 0]);
const BLUE: Color = Color([0, 0, 255]);
const BLACK: Color = Color([0, 0, 0]);
const WHITE: Color = Color([255, 255, 255]);

#[test]
fn collect_keeps_the_order_of_first_occurrence() {
    assert_eq!(collect_from(&picture(), false), vec![RED, GREEN, BLUE]);
}

#[test]
fn collect_sorts_on_demand() {
    assert_eq!(collect_from(&picture(), true), vec![BLUE, GREEN, RED]);
    let png = encode_png(&picture()).ok().unwrap();
    assert_eq!(collect(&png, true).ok().unwrap(), vec![BLUE, GREEN, RED]);
    assert_eq!(collect(&png, false).ok().unwrap(), vec![RED, GREEN, BLUE]);
}

#[test]
fn collect_reads_grey_as_colour() {
    let gray = Image::from_raw((2, 2), Format::Gray, vec![9, 200, 9, 0]).unwrap();
    assert_eq!(
        collect_from(&gray, false),
        vec![Color([9, 9, 9]), Color([200, 200, 200]), Color([0, 0, 0])]
    );
    let alpha = Image::from_raw((1, 2), Format::Rgba, vec![1, 2, 3, 0, 1, 2, 3, 255]).unwrap();
    assert_eq!(collect_from(&alpha, true), vec![Color([1, 2, 3])]);
}

#[test]
fn collect_refuses_what_is_no_png() {
    assert!(matches!(collect(b"no image", false), Err(Error::Image(_))));
}

#[test]
fn exact_palette_replaces_what_it_knows() {
    let mut exact = Exact::new(&[RED, GREEN, RED], &[BLACK, WHITE, BLUE, GREEN]);
    assert_eq!(exact.transfer(GREEN), Some(WHITE));
    // of two pairs for one colour the later one counts
    assert_eq!(exact.transfer(RED), Some(BLUE));
    assert_eq!(exact.transfer(BLUE), None);
    assert_eq!(exact.transfer(BLACK), None);
}

#[test]
fn closest_palette_finds_the_nearest_colour() {
    let colors = [BLACK, WHITE, RED];
    let mut closest = Closest::new(&colors, &Lateral);
    assert_eq!(closest.transfer(Color([250, 10, 10])), RED);
    assert_eq!(closest.transfer(Color([20, 20, 20])), BLACK);
    assert_eq!(closest.transfer(Color([220, 230, 240])), WHITE);
    // asked again, it answers the same
    assert_eq!(closest.transfer(Color([250, 10, 10])), RED);
}

#[test]
fn repaint_with_an_exact_palette() {
    let mode = RepaintMode::Exact {
        from: &[RED, GREEN, BLUE],
        to: &[BLACK, WHITE, RED],
    };
    let out = repaint_image(&picture(), mode, &Lateral).ok().unwrap();
    assert_eq!(out.format(), Format::Rgb);
    assert_eq!(out.dimensions(), (3, 2));
    assert_eq!(collect_from(&out, false), vec![BLACK, WHITE, RED]);
    assert_eq!(out.rgb_at(3), [255, 0, 0]);

    let png = encode_png(&picture()).ok().unwrap();
    let repainted = repaint(&png, mode, &Lateral).ok().unwrap();
    let back = decode_png(&repainted).ok().unwrap();
    assert_eq!(back.as_bytes(), out.as_bytes());
}

#[test]
fn repaint_fails_on_an_unknown_colour() {
    let mode = RepaintMode::Exact {
        from: &[RED, BLUE],
        to: &[BLACK, WHITE],
    };
    let r = repaint_image(&picture(), mode, &Lateral);
    assert!(matches!(r, Err(Error::TranferFailed(GREEN))));
}

#[test]
fn repaint_with_the_closest_colours() {
    let mode = RepaintMode::Closest {
        colors: &[BLACK, WHITE],
    };
    let gray = Image::from_raw((2, 1), Format::Gray, vec![10, 240]).unwrap();
    let out = repaint_image(&gray, mode, &Lateral).ok().unwrap();
    assert_eq!(out.as_bytes(), &[0, 0, 0, 255, 255, 255]);
}

#[test]
fn repaint_refuses_an_empty_palette() {
    let png = encode_png(&picture()).ok().unwrap();
    let none: [Color; 0] = [];
    let closest = RepaintMode::Closest { colors: &none };
    assert!(matches!(repaint(&png, closest, &Lateral), Err(Error::EmptyPalette)));
    let no_source = RepaintMode::Exact { from: &none, to: &[RED] };
    assert!(matches!(repaint(&png, no_source, &Lateral), Err(Error::EmptyPalette)));
    let no_target = RepaintMode::Exact { from: &[RED], to: &none };
    assert!(matches!(repaint(b"no image", no_target, &Lateral), Err(Error::EmptyPalette)));
    let fine = RepaintMode::Closest { colors: &[RED] };
    assert!(matches!(repaint(b"no image", fine, &Lateral), Err(Error::Image(_))));
}
