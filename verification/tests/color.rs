use staff::color::{Color, ParseError};

#[test]
fn from_str() {
    let str = "FF0023";
    let col = Color::try_from(str).expect("parse color");
    assert_eq!(col, Color([0xFF, 0x00, 0x23]));
}

#[test]
fn to_str() {
    let col = Color([0xFF, 0x00, 0x23]);
    let str = String::from(col);
    assert_eq!(str, "FF0023");
}

#[test]
fn color_reads_lower_case_digits() {
    let col = Color::try_from("ff0a9c").expect("parse color");
    assert_eq!(col, Color([0xFF, 0x0A, 0x9C]));
}

#[test]
fn color_refuses_wrong_length() {
    assert!(matches!(Color::try_from("FF002"), Err(ParseError("FF002"))));
    assert!(matches!(Color::try_from("FF00233"), Err(ParseError("FF00233"))));
    assert!(Color::try_from("").is_err());
}

#[test]
fn color_refuses_other_characters() {
    assert!(Color::try_from("GG0000").is_err());
    assert!(Color::try_from("00 000").is_err());
    assert!(Color::try_from("ä000").is_err());
}

#[test]
fn color_name_round_trip() {
    for packed in [0u32, 1, 0x00FF00, 0x123456, 0xABCDEF, 0xFFFFFF] {
        let col = Color::unpack(packed);
        assert_eq!(col.pack(), packed);
        assert_eq!(Color::try_from(col.to_hex().as_str()).unwrap(), col);
    }
}

#[test]
fn color_name_is_upper_case() {
    assert_eq!(Color([0xAB, 0xCD, 0xEF]).to_hex(), "ABCDEF");
    assert_eq!(Color([0x00, 0x09, 0x0A]).to_hex(), "00090A");
}
