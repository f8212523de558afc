//! RGB colours and their six-digit hexadecimal names.

use vstd::prelude::*;
use vstd::string::{StringExecFns, StringSliceAdditionalSpecFns};

verus! {

/// An RGB colour.
#[derive(Clone, Copy, Debug, Hash, PartialEq, Eq, PartialOrd, Ord)]
pub struct Color(pub [u8; 3]);

/// A text that names no colour.
#[derive(Clone, Copy, Debug)]
pub struct ParseError<'a>(pub &'a str);

/// The value of a hexadecimal digit, of either case.
pub open spec fn digit_value(byte: u8) -> Option<u8> {
    if 0x30 <= byte <= 0x39 {
        Some((byte - 0x30) as u8)
    } else if 0x61 <= byte <= 0x66 {
        Some((byte - 0x61 + 10) as u8)
    } else if 0x41 <= byte <= 0x46 {
        Some((byte - 0x41 + 10) as u8)
    } else {
        None
    }
}

/// The byte that two hexadecimal digits spell.
pub open spec fn pair_value(high: u8, low: u8) -> Option<u8> {
    match (digit_value(high), digit_value(low)) {
        (Some(h), Some(l)) => Some((h * 16 + l) as u8),
        _ => None,
    }
}

/// The colour that six hexadecimal digits spell.
pub open spec fn color_named(bytes: Seq<u8>) -> Option<Color> {
    if bytes.len() != 6 {
        None
    } else {
        match (
            pair_value(bytes[0], bytes[1]),
            pair_value(bytes[2], bytes[3]),
            pair_value(bytes[4], bytes[5]),
        ) {
            (Some(r), Some(g), Some(b)) => Some(Color([r, g, b])),
            _ => None,
        }
    }
}

/// The upper-case hexadecimal digit of a value below sixteen.
pub open spec fn digit_char(value: u8) -> char {
    if value < 10 {
        (0x30 + value) as char
    } else {
        (0x41 + value - 10) as char
    }
}

/// The six digits that name a colour.
pub open spec fn name_of(color: Color) -> Seq<char> {
    seq![
        digit_char(color.0[0] / 16),
        digit_char(color.0[0] % 16),
        digit_char(color.0[1] / 16),
        digit_char(color.0[1] % 16),
        digit_char(color.0[2] / 16),
        digit_char(color.0[2] % 16),
    ]
}

/// Reads a hexadecimal digit.
fn from_hex(byte: u8) -> (r: Option<u8>)
    ensures
        r == digit_value(byte),
        match r {
            Some(v) => v < 16,
            None => true,
        },
{
    if 0x30 <= byte && byte <= 0x39 {
        Some(byte - 0x30)
    } else if 0x61 <= byte && byte <= 0x66 {
        Some(byte - 0x61 + 10)
    } else if 0x41 <= byte && byte <= 0x46 {
        Some(byte - 0x41 + 10)
    } else {
        None
    }
}

/// Reads two hexadecimal digits.
fn from_pair(high: u8, low: u8) -> (r: Option<u8>)
    ensures
        r == pair_value(high, low),
{
    match (from_hex(high), from_hex(low)) {
        (Some(h), Some(l)) => Some(h * 16 + l),
        _ => None,
    }
}

/// Writes a hexadecimal digit.
fn to_hex(value: u8) -> (r: &'static str)
    requires
        value < 16,
    ensures
        r@ == seq![digit_char(value)],
{
    proof {
        reveal_strlit("0");
        reveal_strlit("1");
        reveal_strlit("2");
        reveal_strlit("3");
        reveal_strlit("4");
        reveal_strlit("5");
        reveal_strlit("6");
        reveal_strlit("7");
        reveal_strlit("8");
        reveal_strlit("9");
        reveal_strlit("A");
        reveal_strlit("B");
        reveal_strlit("C");
        reveal_strlit("D");
        reveal_strlit("E");
        reveal_strlit("F");
    }
    let r = match value {
        0 => "0",
        1 => "1",
        2 => "2",
        3 => "3",
        4 => "4",
        5 => "5",
        6 => "6",
        7 => "7",
        8 => "8",
        9 => "9",
        10 => "A",
        11 => "B",
        12 => "C",
        13 => "D",
        14 => "E",
        _ => "F",
    };
    proof {
        assert(r@ =~= seq![digit_char(value)]);
    }
    r
}

impl Color {
    /// Reads a colour from its name: six hexadecimal digits, two each for
    /// red, green and blue. Any other text is handed back as the error.
    pub fn try_from<'a>(s: &'a str) -> (r: Result<Color, ParseError<'a>>)
        ensures
            match r {
                Ok(color) => color_named(s.spec_bytes()) == Some(color),
                Err(e) => color_named(s.spec_bytes()).is_none() && e.0 == s,
            },
    {
        let bytes = s.as_bytes();
        if bytes.len() != 6 {
            return Err(ParseError(s));
        }
        match (
            from_pair(bytes[0], bytes[1]),
            from_pair(bytes[2], bytes[3]),
            from_pair(bytes[4], bytes[5]),
        ) {
            (Some(r), Some(g), Some(b)) => Ok(Color([r, g, b])),
            _ => Err(ParseError(s)),
        }
    }

    /// The name of the colour: six upper-case hexadecimal digits.
    pub fn to_hex(&self) -> (r: String)
        ensures
            r@ == name_of(*self),
    {
        let mut out = String::new();
        let c = self.0;
        out.append(to_hex(c[0] / 16));
        out.append(to_hex(c[0] % 16));
        out.append(to_hex(c[1] / 16));
        out.append(to_hex(c[1] % 16));
        out.append(to_hex(c[2] / 16));
        out.append(to_hex(c[2] % 16));
        proof {
            assert(out@ =~= name_of(*self));
        }
        out
    }

    /// The colour as one number: red above green above blue.
    pub open spec fn packed(self) -> u32 {
        (self.0[0] * 65536 + self.0[1] * 256 + self.0[2]) as u32
    }

    /// Computes `packed`.
    pub fn pack(&self) -> (r: u32)
        ensures
            r == self.packed(),
            r < 0x100_0000,
    {
        let c = self.0;
        (c[0] as u32) * 65536 + (c[1] as u32) * 256 + (c[2] as u32)
    }

    /// The colour of a packed number.
    pub fn unpack(packed: u32) -> (r: Color)
        requires
            packed < 0x100_0000,
        ensures
            r.packed() == packed,
    {
        Color([(packed / 65536) as u8, ((packed / 256) % 256) as u8, (packed % 256) as u8])
    }
}

impl From<Color> for String {
    /// The name of the colour, as `Color::to_hex` gives it.
    fn from(col: Color) -> (r: String) {
        col.to_hex()
    }
}

/// Nothing is claimed of the conversion through `From`; what it returns is
/// stated where it is computed, at `Color::to_hex`.
impl vstd::std_specs::convert::FromSpecImpl<Color> for String {
    open spec fn obeys_from_spec() -> bool {
        false
    }

    open spec fn from_spec(col: Color) -> String {
        arbitrary()
    }
}

/// Two colours with one packed number are one colour.
pub proof fn lemma_packed_injective(a: Color, b: Color)
    requires
        a.packed() == b.packed(),
    ensures
        a.0@ == b.0@,
{
    assert(a.0[0] == b.0[0] && a.0[1] == b.0[1] && a.0[2] == b.0[2]);
    assert(a.0@ =~= b.0@);
}

} // verus!
