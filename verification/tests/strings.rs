use staff::convert::strings::{ends_with, parse_u32, parse_usize, rsplit_once, same};

const TOKENS: [&str; 30] = [
    "", "0", "7", "+7", "-7", "+", "-", "++1", "+-1", "007", "42", "4294967295", "4294967296",
    "04294967295", "99999999999", "18446744073709551615", "18446744073709551616",
    "+18446744073709551615", "340282366920938463463374607431768211456", "1.5", "1e3", " 1", "1 ",
    "1_000", "0x10", "١٢", "1\u{0}", "９", "a", "12a",
];

#[test]
fn indices_are_read_as_the_standard_library_reads_them() {
    for token in TOKENS {
        assert_eq!(parse_u32(token), token.parse::<u32>().ok(), "{token:?}");
    }
    assert_eq!(parse_u32("4294967295"), Some(u32::MAX));
    assert_eq!(parse_u32("4294967296"), None);
    assert_eq!(parse_u32("+012"), Some(12));
}

#[test]
fn counts_are_read_as_the_standard_library_reads_them() {
    for token in TOKENS {
        assert_eq!(parse_usize(token), token.parse::<usize>().ok(), "{token:?}");
    }
    assert_eq!(parse_usize("0"), Some(0));
    assert_eq!(parse_usize(&usize::MAX.to_string()), Some(usize::MAX));
}

const TEXTS: [&str; 14] = [
    "", "_", "__", "___", "____", "a___b", "a____b", "a___b___c", "___a", "a___", "größe___ü",
    "Cube-mesh-positions", "Cube-mesh-map-0", "日本___語___",
];

#[test]
fn texts_are_split_at_the_last_separator() {
    for text in TEXTS {
        for sep in ["___", "_", "-", "ü", "語___", ""] {
            let want = text.rsplit_once(sep).map(|(a, b)| (a.to_owned(), b.to_owned()));
            assert_eq!(rsplit_once(text, sep), want, "{text:?} at {sep:?}");
        }
    }
    assert_eq!(rsplit_once("a____b", "___"), Some(("a_".to_owned(), "b".to_owned())));
    assert_eq!(rsplit_once("no separator", "___"), None);
}

#[test]
fn texts_end_with_their_suffixes() {
    for text in TEXTS {
        for suffix in ["", "_", "___", "-positions", "-map-0", "ü", "b", "語___", "Cube-mesh-map-0"] {
            assert_eq!(ends_with(text, suffix), text.ends_with(suffix), "{text:?} / {suffix:?}");
        }
    }
    assert!(ends_with("Cube-mesh-positions", "-positions"));
    assert!(!ends_with("positions", "-positions"));
}

#[test]
fn texts_are_the_same_when_their_characters_are() {
    for a in TEXTS {
        for b in TEXTS {
            assert_eq!(same(a, b), a == b);
        }
    }
}

#[test]
fn an_empty_separator_stands_at_the_end() {
    assert_eq!(rsplit_once("abc", ""), Some(("abc".to_owned(), String::new())));
    assert_eq!(rsplit_once("", ""), Some((String::new(), String::new())));
}
