use staff::convert::format::lines::line_number;

fn by_lengths(src: &str, pos: usize) -> usize {
    let mut pos = pos;
    let mut line = 1;
    for line_len in src.lines().map(str::len) {
        match pos.checked_sub(line_len) {
            Some(p) => pos = p,
            None => break,
        }
        line += 1;
    }
    line
}

#[test]
fn line_of_an_offset() {
    let src = "ab\ncde\n\nf";
    assert_eq!(line_number(src.as_bytes(), 0), 1);
    assert_eq!(line_number(src.as_bytes(), 1), 1);
    assert_eq!(line_number(src.as_bytes(), 2), 2);
    assert_eq!(line_number(src.as_bytes(), 4), 2);
    assert_eq!(line_number(src.as_bytes(), 5), 4);
    assert_eq!(line_number(src.as_bytes(), 6), 5);
    assert_eq!(line_number(src.as_bytes(), 600), 5);
    assert_eq!(line_number(b"", 0), 1);
    assert_eq!(line_number(b"", 9), 1);
    assert_eq!(line_number(b"\n", 0), 2);
}

#[test]
fn line_numbers_go_by_the_lengths_of_the_lines() {
    let texts = [
        "",
        "one line",
        "one line\n",
        "a\r\nbc\r\n\r\nd",
        "a\rb\n\rc\r",
        "\n\n\n",
        "last\r",
        "ünï\ncödé\n",
    ];
    for src in texts {
        for pos in 0..src.len() + 3 {
            assert_eq!(line_number(src.as_bytes(), pos), by_lengths(src, pos), "{src:?} at {pos}");
        }
    }
}
