use image::{DynamicImage, GrayImage, ImageBuffer, Rgb, RgbImage, Rgba, RgbaImage};
use staff::im::{decode_png, encode_png, Error, Format, Image};

fn checkers(width: u32, height: u32, format: Format) -> Image {
    let c = format.channels();
    let data: Vec<u8> = (0..width as usize * height as usize * c)
        .map(|i| (i * 37 % 251) as u8)
        .collect();
    Image::from_raw((width, height), format, data).unwrap()
}

#[test]
fn empty_image_is_all_zero() {
    let im = Image::empty((3, 2), Format::Rgba);
    assert_eq!(im.format(), Format::Rgba);
    assert_eq!(im.dimensions(), (3, 2));
    assert_eq!(im.as_bytes(), &[0u8; 24][..]);
    assert_eq!(im.pixels(), 6);
    let none = Image::empty((0, 5), Format::Gray);
    assert!(none.as_bytes().is_empty());
}

#[test]
fn from_raw_asks_for_the_right_length() {
    assert!(Image::from_raw((2, 2), Format::Rgb, vec![0; 12]).is_some());
    assert!(Image::from_raw((2, 2), Format::Rgb, vec![0; 11]).is_none());
    assert!(Image::from_raw((2, 2), Format::Rgb, vec![0; 13]).is_none());
    assert_eq!(Image::size_of(2, 3, Format::Rgba), Some(24));
    assert_eq!(Image::size_of(0, 3, Format::Gray), Some(0));
    assert_eq!(Format::Gray.channels(), 1);
    assert_eq!(Format::Rgb.channels(), 3);
    assert_eq!(Format::Rgba.channels(), 4);
    assert!(Format::Gray < Format::Rgb && Format::Rgb < Format::Rgba);
}

#[test]
fn copy_from_paints_a_window() {
    let mut canvas = Image::empty((4, 3), Format::Rgb);
    let stamp = checkers(2, 2, Format::Rgb);
    canvas.copy_from(&stamp, (1, 1));
    let mut want = RgbImage::new(4, 3);
    let other: RgbImage = ImageBuffer::from_raw(2, 2, stamp.as_bytes().to_vec()).unwrap();
    image::GenericImage::copy_from(&mut want, &other, 1, 1).unwrap();
    assert_eq!(canvas.as_bytes(), want.as_raw().as_slice());
    assert_eq!(canvas.dimensions(), (4, 3));
    // the corner pixel stays as it was
    assert_eq!(&canvas.as_bytes()[..3], &[0, 0, 0]);
    assert_eq!(canvas.rgb_at(5), [stamp.as_bytes()[0], stamp.as_bytes()[1], stamp.as_bytes()[2]]);
}

#[test]
fn copy_from_fills_the_whole_image() {
    let mut canvas = Image::empty((3, 2), Format::Gray);
    let stamp = checkers(3, 2, Format::Gray);
    canvas.copy_from(&stamp, (0, 0));
    assert_eq!(canvas.as_bytes(), stamp.as_bytes());
}

#[test]
fn conversions_agree_with_the_image_crate() {
    let gray = checkers(3, 2, Format::Gray);
    let rgb = checkers(3, 2, Format::Rgb);
    let rgba = checkers(3, 2, Format::Rgba);
    let g: GrayImage = ImageBuffer::from_raw(3, 2, gray.as_bytes().to_vec()).unwrap();
    let c: RgbImage = ImageBuffer::from_raw(3, 2, rgb.as_bytes().to_vec()).unwrap();
    let a: RgbaImage = ImageBuffer::from_raw(3, 2, rgba.as_bytes().to_vec()).unwrap();
    let (g, c, a) = (DynamicImage::from(g), DynamicImage::from(c), DynamicImage::from(a));

    assert_eq!(gray.to_format(Format::Rgb).as_bytes(), g.to_rgb8().as_raw().as_slice());
    assert_eq!(gray.to_format(Format::Rgba).as_bytes(), g.to_rgba8().as_raw().as_slice());
    assert_eq!(rgb.to_format(Format::Gray).as_bytes(), c.to_luma8().as_raw().as_slice());
    assert_eq!(rgb.to_format(Format::Rgba).as_bytes(), c.to_rgba8().as_raw().as_slice());
    assert_eq!(rgba.to_format(Format::Gray).as_bytes(), a.to_luma8().as_raw().as_slice());
    assert_eq!(rgba.to_format(Format::Rgb).as_bytes(), a.to_rgb8().as_raw().as_slice());

    assert_eq!(checkers(3, 2, Format::Rgb).into_gray().format(), Format::Gray);
    assert_eq!(checkers(3, 2, Format::Gray).into_rgb().as_bytes(), g.to_rgb8().as_raw().as_slice());
    assert_eq!(checkers(3, 2, Format::Rgb).into_rgba().as_bytes(), c.to_rgba8().as_raw().as_slice());
}

#[test]
fn luminance_of_white_and_of_a_colour() {
    let white = Image::from_raw((1, 1), Format::Rgb, vec![255, 255, 255]).unwrap();
    assert_eq!(white.into_gray().as_bytes(), &[255]);
    let colour = Image::from_raw((1, 1), Format::Rgba, vec![200, 100, 50, 7]).unwrap();
    // (2126 * 200 + 7152 * 100 + 722 * 50) / 10000
    assert_eq!(colour.into_gray().as_bytes(), &[117]);
}

#[test]
fn into_format_keeps_an_image_of_that_format() {
    let rgb = checkers(2, 2, Format::Rgb);
    let bytes = rgb.as_bytes().to_vec();
    let same = rgb.into_format(Format::Rgb);
    assert_eq!(same.as_bytes(), bytes.as_slice());
    let wide = same.into_format(Format::Rgba);
    assert_eq!(wide.format(), Format::Rgba);
    assert_eq!(wide.as_bytes()[3], 255);
    assert_eq!(wide.into_raw().len(), 16);
}

#[test]
fn png_round_trip() {
    for format in [Format::Gray, Format::Rgb, Format::Rgba] {
        let im = checkers(5, 4, format);
        let png = encode_png(&im).ok().unwrap();
        assert_eq!(&png[..8], b"\x89PNG\r\n\x1a\n");
        let back = decode_png(&png).ok().unwrap();
        assert_eq!(back.format(), format);
        assert_eq!(back.dimensions(), (5, 4));
        assert_eq!(back.as_bytes(), im.as_bytes());
    }
}

#[test]
fn png_is_what_the_image_crate_reads() {
    let im = checkers(3, 3, Format::Rgb);
    let png = encode_png(&im).ok().unwrap();
    let read = image::load_from_memory(&png).unwrap();
    assert_eq!(read.to_rgb8().get_pixel(1, 2), &Rgb([im.rgb_at(7)[0], im.rgb_at(7)[1], im.rgb_at(7)[2]]));
}

#[test]
fn decode_refuses_what_is_no_png() {
    assert!(matches!(decode_png(b"not a png"), Err(Error::Image(_))));
    assert!(matches!(decode_png(&[]), Err(Error::Image(_))));
}

#[test]
fn decode_refuses_other_sample_formats() {
    let deep: ImageBuffer<Rgba<u16>, Vec<u16>> = ImageBuffer::new(2, 2);
    let mut png = Vec::new();
    DynamicImage::from(deep)
        .write_to(&mut std::io::Cursor::new(&mut png), image::ImageOutputFormat::Png)
        .unwrap();
    assert!(matches!(decode_png(&png), Err(Error::UnsupportedFormat)));
}
