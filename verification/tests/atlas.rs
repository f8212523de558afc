use staff::atlas::pack::{initial_side, pack, try_pack, Rect, Root, MAX_SIDE, MIN_INITIAL_SIDE};
use staff::atlas::sprites::{insert_sorted, rename, Sprite};
use staff::atlas::{make, Atlas, Error, ImageData, Indent, Parameters, TooLarge};
use staff::im::{decode_png, encode_png, Format, Image};

/// The root as the command line tool takes it.
struct Float;

impl Root for Float {
    fn ceil_sqrt(&self, area: u32) -> u32 {
        (area as f32).sqrt().ceil() as u32
    }
}

fn indent(h: u32, v: u32) -> Indent {
    Indent::new(h, v).ok().unwrap()
}

fn points(rects: &[Rect]) -> Vec<(u32, u32)> {
    rects.iter().map(|r| r.point()).collect()
}

fn plain(width: u32, height: u32, format: Format, value: u8) -> Image {
    let len = width as usize * height as usize * format.channels();
    Image::from_raw((width, height), format, vec![value; len]).unwrap()
}

fn file(name: &str, image: &Image) -> ImageData {
    ImageData {
        name: name.to_owned(),
        data: encode_png(image).ok().unwrap(),
    }
}

#[test]
fn indent_has_a_limit() {
    let fine = indent(4, 0);
    assert_eq!((fine.horizontal(), fine.vertical()), (4, 0));
    assert!(matches!(Indent::new(5, 9), Err(TooLarge::Horizontal(5))));
    assert!(matches!(Indent::new(4, 5), Err(TooLarge::Vertical(5))));
    assert!(Indent::new(0, 0).is_ok());
}

#[test]
fn sprites_fill_a_row_and_then_the_next() {
    let entries = [(30, 10), (30, 20), (30, 5), (10, 10)];
    let rects = try_pack(&entries, 64, indent(0, 0), indent(0, 0)).unwrap();
    assert_eq!(points(&rects), [(0, 0), (30, 0), (0, 20), (30, 20)]);
    assert_eq!(rects[1].size, (30, 20));
    assert_eq!(rects[2].to_array(), [0, 20, 30, 5]);
}

#[test]
fn sprites_keep_their_distance() {
    let entries = [(20, 10), (20, 10), (20, 10)];
    let rects = try_pack(&entries, 64, indent(1, 2), indent(3, 4)).unwrap();
    // offsets: 4 across and 6 down; margin: 3 across and 4 down
    assert_eq!(points(&rects), [(4, 6), (27, 6), (4, 20)]);
}

#[test]
fn sprites_that_do_not_fit_are_refused() {
    assert!(try_pack(&[(65, 1)], 64, indent(0, 0), indent(0, 0)).is_none());
    assert!(try_pack(&[(64, 1)], 64, indent(1, 0), indent(0, 0)).is_none());
    assert!(try_pack(&[(64, 64)], 64, indent(0, 0), indent(0, 0)).is_some());
    assert!(try_pack(&[(64, 64), (1, 1)], 64, indent(0, 0), indent(0, 0)).is_none());
    assert!(try_pack(&[(u32::MAX, u32::MAX)], u32::MAX, indent(4, 4), indent(4, 4)).is_none());
    assert_eq!(try_pack(&[], 0, indent(4, 4), indent(4, 4)).unwrap().len(), 0);
}

#[test]
fn packing_starts_at_a_power_of_two() {
    assert_eq!(initial_side(&[], &Float), Some(MIN_INITIAL_SIDE));
    assert_eq!(initial_side(&[(10, 10)], &Float), Some(64));
    assert_eq!(initial_side(&[(65, 1)], &Float), Some(128));
    assert_eq!(initial_side(&[(64, 64), (64, 64)], &Float), Some(128));
    assert_eq!(initial_side(&[(MAX_SIDE, 1)], &Float), Some(MAX_SIDE));
    assert_eq!(initial_side(&[(MAX_SIDE + 1, 1)], &Float), None);
}

#[test]
fn packing_doubles_the_side_until_the_sprites_fit() {
    let entries = [(40, 40), (40, 40), (40, 40)];
    let found = pack(&entries, indent(0, 0), indent(0, 0), &Float).unwrap();
    assert_eq!(found.side, 128);
    assert_eq!(points(&found.rects), [(0, 0), (40, 0), (80, 0)]);
    let tight = pack(&[(64, 64)], indent(1, 1), indent(0, 0), &Float).unwrap();
    assert_eq!(tight.side, 128);
    assert_eq!(points(&tight.rects), [(1, 1)]);
    assert!(pack(&[(MAX_SIDE, MAX_SIDE)], indent(1, 1), indent(0, 0), &Float).is_none());
}

#[test]
fn sprites_are_kept_in_the_order_of_their_names() {
    let mut sprites: Vec<Sprite> = Vec::new();
    for name in ["pear", "apple", "fig", "Zebra", "apple", "apples", ""] {
        let image = plain(1, 1, Format::Gray, name.len() as u8);
        insert_sorted(&mut sprites, Sprite { image, name: name.to_owned() });
    }
    let names: Vec<&str> = sprites.iter().map(|s| s.name.as_str()).collect();
    assert_eq!(names, ["", "Zebra", "apple", "apple", "apples", "fig", "pear"]);
}

#[test]
fn sprites_get_their_new_names() {
    let names = vec![
        ("a".to_owned(), "first".to_owned()),
        ("b".to_owned(), "second".to_owned()),
        ("a".to_owned(), "third".to_owned()),
    ];
    assert_eq!(rename(&names, "a"), "third");
    assert_eq!(rename(&names, "b"), "second");
    assert_eq!(rename(&names, "c"), "c");
}

#[test]
fn atlas_holds_every_sprite_at_its_place() {
    let red = plain(20, 10, Format::Rgb, 200);
    let grey = plain(30, 30, Format::Gray, 90);
    let params = Parameters {
        names: vec![("b".to_owned(), "grey".to_owned())],
        padding: indent(0, 0),
        margin: indent(2, 2),
    };
    let data = vec![file("b", &grey), file("red", &red)];
    let Atlas { png, map } = make(data, &params, &Float).ok().unwrap();
    let names: Vec<&str> = map.0.iter().map(|(name, _)| name.as_str()).collect();
    assert_eq!(names, ["grey", "red"]);
    assert_eq!(map.0[0].1.to_array(), [2, 2, 30, 30]);
    assert_eq!(map.0[1].1.to_array(), [34, 2, 20, 10]);
    let atlas = decode_png(&png).ok().unwrap();
    assert_eq!(atlas.format(), Format::Rgb);
    assert_eq!(atlas.dimensions(), (64, 64));
    assert_eq!(atlas.rgb_at(0), [0, 0, 0]);
    assert_eq!(atlas.rgb_at(2 * 64 + 2), [90, 90, 90]);
    assert_eq!(atlas.rgb_at(31 * 64 + 31), [90, 90, 90]);
    assert_eq!(atlas.rgb_at(2 * 64 + 34), [200, 200, 200]);
    assert_eq!(atlas.rgb_at(12 * 64 + 34), [0, 0, 0]);
}

#[test]
fn atlas_of_nothing_is_an_empty_square() {
    let params = Parameters {
        names: vec![],
        padding: indent(0, 0),
        margin: indent(0, 0),
    };
    let Atlas { png, map } = make(vec![], &params, &Float).ok().unwrap();
    assert!(map.0.is_empty());
    let atlas = decode_png(&png).ok().unwrap();
    assert_eq!(atlas.format(), Format::Gray);
    assert_eq!(atlas.dimensions(), (64, 64));
}

#[test]
fn atlas_names_the_sprite_that_fails() {
    let params = Parameters {
        names: vec![("bad".to_owned(), "renamed".to_owned())],
        padding: indent(0, 0),
        margin: indent(0, 0),
    };
    let data = vec![
        file("good", &plain(2, 2, Format::Gray, 1)),
        ImageData {
            name: "bad".to_owned(),
            data: vec![1, 2, 3],
        },
    ];
    let Err(Error::Image { name, .. }) = make(data, &params, &Float) else {
        panic!("no failure");
    };
    assert_eq!(name, "bad");
}

#[test]
fn atlas_keeps_the_last_of_two_sprites_of_one_name() {
    let params = Parameters {
        names: vec![],
        padding: indent(0, 0),
        margin: indent(0, 0),
    };
    let data = vec![
        file("a", &plain(4, 4, Format::Gray, 1)),
        file("a", &plain(8, 8, Format::Gray, 2)),
    ];
    let Atlas { map, .. } = make(data, &params, &Float).ok().unwrap();
    assert_eq!(map.0.len(), 1);
    assert_eq!(map.0[0].1.to_array(), [4, 0, 8, 8]);
}

#[test]
fn atlas_that_would_be_too_large_is_refused() {
    let wide = Image::from_raw((MAX_SIDE + 1, 0), Format::Gray, vec![]).unwrap();
    let sprites = vec![Sprite {
        image: wide,
        name: "wide".to_owned(),
    }];
    let r = Atlas::pack(&sprites, indent(0, 0), indent(0, 0), &Float);
    assert!(matches!(r, Err(Error::TooLarge)));
}
