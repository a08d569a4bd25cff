use vstd::prelude::*;
use vstd::string::StringSliceAdditionalSpecFns;

verus! {

/// An opaque RGB colour.
#[derive(Clone, Copy, Debug, PartialEq, Eq, Structural, Hash)]
pub struct Color {
    pub r: u8,
    pub g: u8,
    pub b: u8,
}

/// The colour whose channels are the three low bytes of `value`, most
/// significant first; the high byte (alpha in ARGB notation) is ignored.
pub open spec fn color_from_u32_spec(value: u32) -> Color {
    Color {
        r: ((value / 0x10000) % 0x100) as u8,
        g: ((value / 0x100) % 0x100) as u8,
        b: (value % 0x100) as u8,
    }
}

/// The colour as a number `0xRRGGBB`.
pub open spec fn rgb_value(c: Color) -> int {
    c.r * 0x10000 + c.g * 0x100 + c.b
}

/// Squared euclidean distance between two colours seen as points of the RGB cube.
pub open spec fn distance_squared_spec(a: Color, b: Color) -> int {
    (a.r - b.r) * (a.r - b.r) + (a.g - b.g) * (a.g - b.g) + (a.b - b.b) * (a.b - b.b)
}

/// Squared distances are never negative, and zero from a colour to itself.
pub proof fn lemma_distance_squared_nonneg(a: Color, b: Color)
    ensures
        distance_squared_spec(a, b) >= 0,
        distance_squared_spec(a, a) == 0,
        distance_squared_spec(a, b) == distance_squared_spec(b, a),
{
    let (x, y, z) = (a.r - b.r, a.g - b.g, a.b - b.b);
    assert(x * x >= 0 && y * y >= 0 && z * z >= 0) by (nonlinear_arith);
    assert((b.r - a.r) * (b.r - a.r) == x * x) by (nonlinear_arith)
        requires
            x == a.r - b.r,
    ;
    assert((b.g - a.g) * (b.g - a.g) == y * y) by (nonlinear_arith)
        requires
            y == a.g - b.g,
    ;
    assert((b.b - a.b) * (b.b - a.b) == z * z) by (nonlinear_arith)
        requires
            z == a.b - b.b,
    ;
}

/// Two colours are at distance zero exactly when they are the same colour,
/// and each channel difference alone bounds the distance from below.
pub proof fn lemma_distance_zero_iff_equal(a: Color, b: Color)
    ensures
        distance_squared_spec(a, b) == 0 <==> a == b,
        distance_squared_spec(a, b) >= (a.r - b.r) * (a.r - b.r),
        distance_squared_spec(a, b) >= (a.g - b.g) * (a.g - b.g),
        distance_squared_spec(a, b) >= (a.b - b.b) * (a.b - b.b),
{
    let (x, y, z) = (a.r - b.r, a.g - b.g, a.b - b.b);
    assert(x * x >= 0 && y * y >= 0 && z * z >= 0) by (nonlinear_arith);
    lemma_distance_squared_nonneg(a, a);
    if distance_squared_spec(a, b) == 0 {
        assert(x == 0 && y == 0 && z == 0) by (nonlinear_arith)
            requires
                x * x + y * y + z * z == 0,
                x * x >= 0,
                y * y >= 0,
                z * z >= 0,
        ;
    }
}

impl Color {
    /// Builds a colour from `0xAARRGGBB` (or `0xRRGGBB`) notation.
    pub fn from_u32(value: u32) -> (c: Color)
        ensures
            c == color_from_u32_spec(value),
    {
        let r = ((value >> 16u32) & 0xffu32) as u8;
        let g = ((value >> 8u32) & 0xffu32) as u8;
        let b = (value & 0xffu32) as u8;
        assert(r == ((value / 0x10000) % 0x100) as u8) by (bit_vector)
            requires
                r == ((value >> 16u32) & 0xffu32) as u8,
        ;
        assert(g == ((value / 0x100) % 0x100) as u8) by (bit_vector)
            requires
                g == ((value >> 8u32) & 0xffu32) as u8,
        ;
        assert(b == (value % 0x100) as u8) by (bit_vector)
            requires
                b == (value & 0xffu32) as u8,
        ;
        Color { r, g, b }
    }

    /// The colour as `0xRRGGBB`, as it is written by the `#rrggbb` notation.
    pub fn to_u32(&self) -> (v: u32)
        ensures
            v == rgb_value(*self),
    {
        let r = self.r as u32;
        let g = self.g as u32;
        let b = self.b as u32;
        let v = (r << 16u32) | (g << 8u32) | b;
        assert(v == r * 0x10000 + g * 0x100 + b) by (bit_vector)
            requires
                v == (r << 16u32) | (g << 8u32) | b,
                r < 256,
                g < 256,
                b < 256,
        ;
        v
    }

    /// Squared euclidean distance to `other`.
    ///
    /// Every channel difference is an integer below 256, so the result is exact.
    pub fn distance_squared(&self, other: &Color) -> (d: u32)
        ensures
            d == distance_squared_spec(*self, *other),
    {
        let dr: i32 = self.r as i32 - other.r as i32;
        let dg: i32 = self.g as i32 - other.g as i32;
        let db: i32 = self.b as i32 - other.b as i32;
        assert(0 <= dr * dr <= 65025) by (nonlinear_arith)
            requires
                -255 <= dr <= 255,
        ;
        assert(0 <= dg * dg <= 65025) by (nonlinear_arith)
            requires
                -255 <= dg <= 255,
        ;
        assert(0 <= db * db <= 65025) by (nonlinear_arith)
            requires
                -255 <= db <= 255,
        ;
        (dr * dr + dg * dg + db * db) as u32
    }
}


impl From<u32> for Color {
    fn from(value: u32) -> (c: Color) {
        Color::from_u32(value)
    }
}

impl vstd::std_specs::convert::FromSpecImpl<u32> for Color {
    open spec fn obeys_from_spec() -> bool {
        true
    }

    open spec fn from_spec(v: u32) -> Color {
        color_from_u32_spec(v)
    }
}

impl From<[u8; 3]> for Color {
    fn from(value: [u8; 3]) -> (c: Color) {
        Color { r: value[0], g: value[1], b: value[2] }
    }
}

impl vstd::std_specs::convert::FromSpecImpl<[u8; 3]> for Color {
    open spec fn obeys_from_spec() -> bool {
        true
    }

    open spec fn from_spec(v: [u8; 3]) -> Color {
        Color { r: v[0], g: v[1], b: v[2] }
    }
}



/// Writing a colour as `0xRRGGBB` and reading it back gives the same colour;
/// reading drops the alpha byte and nothing else.
pub proof fn lemma_u32_round_trip(c: Color, v: u32)
    ensures
        color_from_u32_spec(rgb_value(c) as u32) == c,
        rgb_value(color_from_u32_spec(v)) == v % 0x1000000,
        0 <= rgb_value(c) < 0x1000000,
{
    let (r, g, b) = (c.r as u32, c.g as u32, c.b as u32);
    let x: u32 = (r * 0x10000 + g * 0x100 + b) as u32;
    assert(0 <= rgb_value(c) < 0x1000000);
    assert(x == rgb_value(c));
    assert((x / 0x10000) % 0x100 == r && (x / 0x100) % 0x100 == g && x % 0x100 == b) by (bit_vector)
        requires
            x == r * 0x10000 + g * 0x100 + b,
            r < 256,
            g < 256,
            b < 256,
    ;
    let (vr, vg, vb) = ((v / 0x10000) % 0x100, (v / 0x100) % 0x100, v % 0x100);
    assert(vr * 0x10000 + vg * 0x100 + vb == v % 0x1000000) by (bit_vector)
        requires
            vr == (v / 0x10000) % 0x100,
            vg == (v / 0x100) % 0x100,
            vb == v % 0x100,
    ;
}

/// Why a colour could not be read from hexadecimal notation; the kinds that
/// `u32::from_str_radix` reports.
#[derive(Clone, Copy, Debug, PartialEq, Eq, Structural)]
pub enum ColorParseError {
    /// The text is empty.
    Empty,
    /// The text holds something other than a hexadecimal digit (after an optional `+`).
    InvalidDigit,
    /// The number does not fit in 32 bits.
    PosOverflow,
}

/// The value of a hexadecimal digit byte, or -1 for any other byte.
pub open spec fn hex_digit(b: u8) -> int {
    if 48 <= b <= 57 {
        b - 48
    } else if 97 <= b <= 102 {
        b - 87
    } else if 65 <= b <= 70 {
        b - 55
    } else {
        -1
    }
}

/// Reads hexadecimal digits left to right; the first byte that is not a digit,
/// or the first digit that takes the value past `u32::MAX`, decides the error.
pub open spec fn parse_hex_digits(s: Seq<u8>) -> Result<int, ColorParseError>
    decreases s.len(),
{
    if s.len() == 0 {
        Ok(0)
    } else {
        match parse_hex_digits(s.drop_last()) {
            Err(e) => Err(e),
            Ok(v) => {
                let d = hex_digit(s.last());
                if d < 0 {
                    Err(ColorParseError::InvalidDigit)
                } else if v * 16 + d > u32::MAX {
                    Err(ColorParseError::PosOverflow)
                } else {
                    Ok(v * 16 + d)
                }
            },
        }
    }
}

/// What `u32::from_str_radix(_, 16)` gives for these bytes: an optional
/// leading `+`, then at least one hexadecimal digit.
pub open spec fn parse_hex_u32(b: Seq<u8>) -> Result<int, ColorParseError> {
    if b.len() == 0 {
        Err(ColorParseError::Empty)
    } else if b.len() == 1 && (b[0] == 43 || b[0] == 45) {
        Err(ColorParseError::InvalidDigit)
    } else if b[0] == 43 {
        parse_hex_digits(b.drop_first())
    } else {
        parse_hex_digits(b)
    }
}

proof fn lemma_parse_hex_digits_bounded(s: Seq<u8>)
    ensures
        parse_hex_digits(s) matches Ok(v) ==> 0 <= v <= u32::MAX,
    decreases s.len(),
{
    if s.len() > 0 {
        lemma_parse_hex_digits_bounded(s.drop_last());
    }
}

proof fn lemma_parse_error_propagates(s: Seq<u8>, j: int)
    requires
        0 <= j <= s.len(),
        parse_hex_digits(s.take(j)) is Err,
    ensures
        parse_hex_digits(s) == parse_hex_digits(s.take(j)),
    decreases s.len() - j,
{
    if j < s.len() {
        assert(s.take(j + 1).drop_last() =~= s.take(j));
        lemma_parse_error_propagates(s, j + 1);
    } else {
        assert(s.take(j) =~= s);
    }
}

/// Value of a hexadecimal digit byte, if it is one.
fn hex_digit_exec(b: u8) -> (d: Option<u32>)
    ensures
        match d {
            Some(v) => v == hex_digit(b) && hex_digit(b) >= 0,
            None => hex_digit(b) < 0,
        },
{
    if 48 <= b && b <= 57 {
        Some((b - 48) as u32)
    } else if 97 <= b && b <= 102 {
        Some((b - 87) as u32)
    } else if 65 <= b && b <= 70 {
        Some((b - 55) as u32)
    } else {
        None
    }
}

/// Reads `bytes` from position `off` on, as `parse_hex` reads a text.
fn parse_hex_skip(bytes: &[u8], off: usize) -> (r: Result<Color, ColorParseError>)
    requires
        off <= bytes@.len(),
    ensures
        match parse_hex_u32(bytes@.skip(off as int)) {
            Ok(v) => r == Ok::<Color, ColorParseError>(color_from_u32_spec(v as u32)),
            Err(e) => r == Err::<Color, ColorParseError>(e),
        },
{
    let ghost b = bytes@.skip(off as int);
    let n = bytes.len();
    if n == off {
        return Err(ColorParseError::Empty);
    }
    assert(b[0] == bytes@[off as int]);
    if n == off + 1 && (bytes[off] == 43 || bytes[off] == 45) {
        return Err(ColorParseError::InvalidDigit);
    }
    let start: usize = if bytes[off] == 43 { off + 1 } else { off };
    let ghost digits = bytes@.subrange(start as int, n as int);
    assert(start == off + 1 ==> digits =~= b.drop_first());
    assert(start == off ==> digits =~= b);
    assert(parse_hex_u32(b) == parse_hex_digits(digits));
    assert(digits.take(0) =~= Seq::<u8>::empty());
    let mut acc: u64 = 0;
    let mut i: usize = start;
    while i < n
        invariant
            b == bytes@.skip(off as int),
            parse_hex_u32(b) == parse_hex_digits(digits),
            n == bytes@.len(),
            start <= i <= n,
            digits == bytes@.subrange(start as int, n as int),
            parse_hex_digits(digits.take(i - start)) == Ok::<int, ColorParseError>(acc as int),
            acc <= u32::MAX,
        decreases n - i,
    {
        let ghost pre = digits.take(i - start);
        let ghost next = digits.take(i - start + 1);
        assert(next.drop_last() =~= pre);
        assert(next.last() == bytes@[i as int]);
        let d = match hex_digit_exec(bytes[i]) {
            Some(d) => d,
            None => {
                proof {
                    lemma_parse_error_propagates(digits, i - start + 1);
                }
                return Err(ColorParseError::InvalidDigit);
            },
        };
        let v = acc * 16 + d as u64;
        if v > 0xffff_ffffu64 {
            proof {
                lemma_parse_error_propagates(digits, i - start + 1);
            }
            return Err(ColorParseError::PosOverflow);
        }
        acc = v;
        i = i + 1;
    }
    assert(digits.take(n - start) =~= digits);
    Ok(Color::from_u32(acc as u32))
}

/// The bytes of a colour field of the web form: one leading `#` is dropped.
pub open spec fn strip_hash(b: Seq<u8>) -> Seq<u8> {
    if b.len() > 0 && b[0] == 35 {
        b.drop_first()
    } else {
        b
    }
}

impl Color {
    /// Reads a colour given in RGB (`rrggbb`) or ARGB (`aarrggbb`) hexadecimal
    /// notation, as `u32::from_str_radix(value, 16)` reads it; the alpha byte is ignored.
    pub fn parse_hex(value: &str) -> (r: Result<Color, ColorParseError>)
        ensures
            match parse_hex_u32(value.spec_bytes()) {
                Ok(v) => r == Ok::<Color, ColorParseError>(color_from_u32_spec(v as u32)),
                Err(e) => r == Err::<Color, ColorParseError>(e),
            },
    {
        let bytes = value.as_bytes();
        assert(bytes@.skip(0) =~= bytes@);
        parse_hex_skip(bytes, 0)
    }

    /// Reads a colour written as `#rrggbb` (the `#` may be left out), as the
    /// colour field of the web form is read: one leading `#` is dropped, the
    /// rest is read as `parse_hex` reads it.
    pub fn parse_hex_notation(value: &str) -> (r: Result<Color, ColorParseError>)
        ensures
            match parse_hex_u32(strip_hash(value.spec_bytes())) {
                Ok(v) => r == Ok::<Color, ColorParseError>(color_from_u32_spec(v as u32)),
                Err(e) => r == Err::<Color, ColorParseError>(e),
            },
    {
        let bytes = value.as_bytes();
        if bytes.len() > 0 && bytes[0] == 35 {
            assert(bytes@.skip(1) =~= bytes@.drop_first());
            parse_hex_skip(bytes, 1)
        } else {
            assert(bytes@.skip(0) =~= bytes@);
            parse_hex_skip(bytes, 0)
        }
    }
}

/// The sixteen dye colours and their names, in `0xAARRGGBB` notation.
pub open spec fn basic_color_values() -> Seq<u32> {
    seq![
        0xFF1D1D21,
        0xFFB02E26,
        0xFF5E7C16,
        0xFF835432,
        0xFF3C44AA,
        0xFF8932B8,
        0xFF169C9C,
        0xFF9D9D97,
        0xFF474F52,
        0xFFF38BAA,
        0xFF80C71F,
        0xFFFED83D,
        0xFF3AB3DA,
        0xFFC74EBD,
        0xFFF9801D,
        0xFFF9FFFE,
    ]
}

impl Color {
    /// The sixteen dye colours that every recipe starts from, with their names.
    pub fn basic_colors() -> (r: [(Color, &'static str); 16])
        ensures
            forall|i: int| 0 <= i < 16 ==> #[trigger] r[i].0 == color_from_u32_spec(basic_color_values()[i]),
            r[0].0 == color_from_u32_spec(0xFF1D1D21),
            r[0].1@ == "Black"@,
            r[1].0 == color_from_u32_spec(0xFFB02E26),
            r[1].1@ == "Red"@,
            r[2].0 == color_from_u32_spec(0xFF5E7C16),
            r[2].1@ == "Green"@,
            r[3].0 == color_from_u32_spec(0xFF835432),
            r[3].1@ == "Brown"@,
            r[4].0 == color_from_u32_spec(0xFF3C44AA),
            r[4].1@ == "Blue"@,
            r[5].0 == color_from_u32_spec(0xFF8932B8),
            r[5].1@ == "Purple"@,
            r[6].0 == color_from_u32_spec(0xFF169C9C),
            r[6].1@ == "Aqua"@,
            r[7].0 == color_from_u32_spec(0xFF9D9D97),
            r[7].1@ == "Grey"@,
            r[8].0 == color_from_u32_spec(0xFF474F52),
            r[8].1@ == "Dark Grey"@,
            r[9].0 == color_from_u32_spec(0xFFF38BAA),
            r[9].1@ == "Pink"@,
            r[10].0 == color_from_u32_spec(0xFF80C71F),
            r[10].1@ == "Lime"@,
            r[11].0 == color_from_u32_spec(0xFFFED83D),
            r[11].1@ == "Yellow"@,
            r[12].0 == color_from_u32_spec(0xFF3AB3DA),
            r[12].1@ == "Light Blue"@,
            r[13].0 == color_from_u32_spec(0xFFC74EBD),
            r[13].1@ == "Magenta"@,
            r[14].0 == color_from_u32_spec(0xFFF9801D),
            r[14].1@ == "Orange"@,
            r[15].0 == color_from_u32_spec(0xFFF9FFFE),
            r[15].1@ == "White"@,
    {
        [
            (Color::from_u32(0xFF1D1D21), "Black"),
            (Color::from_u32(0xFFB02E26), "Red"),
            (Color::from_u32(0xFF5E7C16), "Green"),
            (Color::from_u32(0xFF835432), "Brown"),
            (Color::from_u32(0xFF3C44AA), "Blue"),
            (Color::from_u32(0xFF8932B8), "Purple"),
            (Color::from_u32(0xFF169C9C), "Aqua"),
            (Color::from_u32(0xFF9D9D97), "Grey"),
            (Color::from_u32(0xFF474F52), "Dark Grey"),
            (Color::from_u32(0xFFF38BAA), "Pink"),
            (Color::from_u32(0xFF80C71F), "Lime"),
            (Color::from_u32(0xFFFED83D), "Yellow"),
            (Color::from_u32(0xFF3AB3DA), "Light Blue"),
            (Color::from_u32(0xFFC74EBD), "Magenta"),
            (Color::from_u32(0xFFF9801D), "Orange"),
            (Color::from_u32(0xFFF9FFFE), "White"),
        ]
    }
}


/// The character of a hexadecimal digit, lower case.
pub open spec fn hex_char(d: int) -> char {
    if d < 10 {
        (48 + d) as char
    } else {
        (87 + d) as char
    }
}

/// The last `n` hexadecimal digits of `v`, most significant first.
pub open spec fn hex_text(v: int, n: nat) -> Seq<char>
    decreases n,
{
    if n == 0 {
        Seq::empty()
    } else {
        hex_text(v / 16, (n - 1) as nat).push(hex_char(v % 16))
    }
}

/// The text of one hexadecimal digit.
fn hex_digit_text(d: u32) -> (s: &'static str)
    requires
        d < 16,
    ensures
        s@ == seq![hex_char(d as int)],
{
    if d == 0 {
        proof {
            reveal_strlit("0");
        }
        "0"
    } else if d == 1 {
        proof {
            reveal_strlit("1");
        }
        "1"
    } else if d == 2 {
        proof {
            reveal_strlit("2");
        }
        "2"
    } else if d == 3 {
        proof {
            reveal_strlit("3");
        }
        "3"
    } else if d == 4 {
        proof {
            reveal_strlit("4");
        }
        "4"
    } else if d == 5 {
        proof {
            reveal_strlit("5");
        }
        "5"
    } else if d == 6 {
        proof {
            reveal_strlit("6");
        }
        "6"
    } else if d == 7 {
        proof {
            reveal_strlit("7");
        }
        "7"
    } else if d == 8 {
        proof {
            reveal_strlit("8");
        }
        "8"
    } else if d == 9 {
        proof {
            reveal_strlit("9");
        }
        "9"
    } else if d == 10 {
        proof {
            reveal_strlit("a");
        }
        "a"
    } else if d == 11 {
        proof {
            reveal_strlit("b");
        }
        "b"
    } else if d == 12 {
        proof {
            reveal_strlit("c");
        }
        "c"
    } else if d == 13 {
        proof {
            reveal_strlit("d");
        }
        "d"
    } else if d == 14 {
        proof {
            reveal_strlit("e");
        }
        "e"
    } else {
        proof {
            reveal_strlit("f");
        }
        "f"
    }
}

/// Appends the last `n` hexadecimal digits of `v` to `s`.
fn append_hex(s: &mut String, v: u32, n: u32)
    ensures
        final(s)@ == old(s)@ + hex_text(v as int, n as nat),
    decreases n,
{
    if n > 0 {
        append_hex(s, v / 16, n - 1);
        s.append(hex_digit_text(v % 16));
    } else {
        assert(old(s)@ + hex_text(v as int, 0) =~= old(s)@);
    }
}

impl Color {
    /// The colour in `#rrggbb` notation, lower case.
    pub fn hex_string(&self) -> (s: String)
        ensures
            s@ == seq!['#'] + hex_text(rgb_value(*self), 6),
    {
        let mut s = String::from_str("#");
        proof {
            reveal_strlit("#");
        }
        append_hex(&mut s, self.to_u32(), 6);
        s
    }

    /// The colour as `Color(0xrrggbb)`, lower case, as it is shown for debugging.
    pub fn debug_string(&self) -> (s: String)
        ensures
            s@ == seq!['C', 'o', 'l', 'o', 'r', '(', '0', 'x'] + hex_text(rgb_value(*self), 6) + seq![')'],
    {
        let mut s = String::from_str("Color(0x");
        proof {
            reveal_strlit("Color(0x");
        }
        append_hex(&mut s, self.to_u32(), 6);
        s.append(")");
        proof {
            reveal_strlit(")");
        }
        s
    }
}


/// The byte of a hexadecimal digit, lower case.
pub open spec fn hex_byte(d: int) -> u8 {
    if d < 10 {
        (48 + d) as u8
    } else {
        (87 + d) as u8
    }
}

/// The last `n` hexadecimal digits of `v` as bytes, most significant first.
pub open spec fn hex_bytes(v: int, n: nat) -> Seq<u8>
    decreases n,
{
    if n == 0 {
        Seq::empty()
    } else {
        hex_bytes(v / 16, (n - 1) as nat).push(hex_byte(v % 16))
    }
}

/// `16` to the power `n`.
pub open spec fn pow16(n: nat) -> int
    decreases n,
{
    if n == 0 {
        1
    } else {
        16 * pow16((n - 1) as nat)
    }
}

/// A lower-case hexadecimal digit character.
pub open spec fn is_lower_hex_char(ch: char) -> bool {
    ('0' <= ch && ch <= '9') || ('a' <= ch && ch <= 'f')
}

proof fn lemma_pow16_positive(n: nat)
    ensures
        pow16(n) >= 1,
    decreases n,
{
    if n > 0 {
        lemma_pow16_positive((n - 1) as nat);
    }
}

proof fn lemma_hex_digits_read_back(v: int, n: nat)
    requires
        v >= 0,
        n <= 8,
    ensures
        hex_text(v, n) == hex_bytes(v, n).map_values(|b: u8| b as char),
        hex_text(v, n).len() == n,
        forall|i: int| 0 <= i < n ==> is_lower_hex_char(#[trigger] hex_text(v, n)[i]),
        parse_hex_digits(hex_bytes(v, n)) == Ok::<int, ColorParseError>(v % pow16(n)),
        forall|i: int| 0 <= i < n ==> 48 <= #[trigger] hex_bytes(v, n)[i] <= 102,
    decreases n,
{
    if n > 0 {
        let m = (n - 1) as nat;
        lemma_hex_digits_read_back(v / 16, m);
        lemma_pow16_positive(m);
        let d = v % 16;
        let prev = hex_bytes(v / 16, m);
        assert(hex_bytes(v, n).drop_last() =~= prev);
        assert(hex_byte(d) as char == hex_char(d));
        assert(hex_text(v, n) =~= hex_bytes(v, n).map_values(|b: u8| b as char));
        assert(hex_digit(hex_byte(d)) == d);
        vstd::arithmetic::div_mod::lemma_mod_breakdown(v, 16, pow16(m));
        vstd::arithmetic::div_mod::lemma_mod_bound(v / 16, pow16(m));
        assert(pow16(m) <= pow16(7)) by {
            reveal_with_fuel(pow16, 9);
        }
        assert(pow16(7) == 0x10000000) by {
            reveal_with_fuel(pow16, 9);
        }
        assert(((v / 16) % pow16(m)) * 16 + d <= u32::MAX) by (nonlinear_arith)
            requires
                0 <= (v / 16) % pow16(m) < pow16(m),
                pow16(m) <= 0x10000000,
                0 <= d < 16,
        ;
        assert(16 * ((v / 16) % pow16(m)) + d == ((v / 16) % pow16(m)) * 16 + d);
        assert forall|i: int| 0 <= i < n implies is_lower_hex_char(#[trigger] hex_text(v, n)[i]) by {
            if i < m {
                assert(hex_text(v, n)[i] == hex_text(v / 16, m)[i]);
            }
        }
        assert forall|i: int| 0 <= i < n implies 48 <= #[trigger] hex_bytes(v, n)[i] <= 102 by {
            if i < m {
                assert(hex_bytes(v, n)[i] == prev[i]);
            }
        }
    }
}

/// The `#rrggbb` form read back: its six digits are the ASCII bytes
/// `hex_bytes`, and `parse_hex` reads those bytes as the colour's `0xRRGGBB`
/// value, which is the colour again.
pub proof fn lemma_hex_round_trip(c: Color)
    ensures
        hex_text(rgb_value(c), 6) == hex_bytes(rgb_value(c), 6).map_values(|b: u8| b as char),
        parse_hex_u32(hex_bytes(rgb_value(c), 6)) == Ok::<int, ColorParseError>(rgb_value(c)),
        color_from_u32_spec(rgb_value(c) as u32) == c,
{
    let v = rgb_value(c);
    lemma_u32_round_trip(c, 0);
    lemma_hex_digits_read_back(v, 6);
    assert(pow16(6) == 0x1000000) by {
        reveal_with_fuel(pow16, 7);
    }
    let b = hex_bytes(v, 6);
    assert(48 <= b[0] <= 102);
}

proof fn lemma_hex_text_injective(v: int, w: int, n: nat)
    requires
        v >= 0,
        w >= 0,
        n <= 8,
        hex_text(v, n) == hex_text(w, n),
    ensures
        v % pow16(n) == w % pow16(n),
    decreases n,
{
    if n > 0 {
        let m = (n - 1) as nat;
        assert(hex_text(v, n).drop_last() =~= hex_text(v / 16, m));
        assert(hex_text(w, n).drop_last() =~= hex_text(w / 16, m));
        lemma_hex_text_injective(v / 16, w / 16, m);
        lemma_pow16_positive(m);
        assert(hex_char(v % 16) == hex_text(v, n).last());
        assert(hex_char(v % 16) as int == if v % 16 < 10 { 48 + v % 16 } else { 87 + v % 16 });
        assert(hex_char(w % 16) as int == if w % 16 < 10 { 48 + w % 16 } else { 87 + w % 16 });
        assert(v % 16 == w % 16);
        vstd::arithmetic::div_mod::lemma_mod_breakdown(v, 16, pow16(m));
        vstd::arithmetic::div_mod::lemma_mod_breakdown(w, 16, pow16(m));
    }
}

/// The `#rrggbb` form is `#` followed by six lower-case hexadecimal digits,
/// and two colours have the same form only when they are the same colour.
pub proof fn lemma_hex_form(a: Color, b: Color)
    ensures
        (seq!['#'] + hex_text(rgb_value(a), 6)).len() == 7,
        (seq!['#'] + hex_text(rgb_value(a), 6))[0] == '#',
        forall|i: int| 1 <= i < 7 ==> is_lower_hex_char(#[trigger] (seq!['#'] + hex_text(rgb_value(a), 6))[i]),
        (seq!['#'] + hex_text(rgb_value(a), 6) == seq!['#'] + hex_text(rgb_value(b), 6)) <==> a == b,
{
    let ta = hex_text(rgb_value(a), 6);
    lemma_hex_digits_read_back(rgb_value(a), 6);
    lemma_hex_digits_read_back(rgb_value(b), 6);
    assert forall|i: int| 1 <= i < 7 implies is_lower_hex_char(#[trigger] (seq!['#'] + ta)[i]) by {
        assert((seq!['#'] + ta)[i] == ta[i - 1]);
    }
    if seq!['#'] + ta == seq!['#'] + hex_text(rgb_value(b), 6) {
        assert(ta =~= (seq!['#'] + ta).drop_first());
        assert(hex_text(rgb_value(b), 6) =~= (seq!['#'] + hex_text(rgb_value(b), 6)).drop_first());
        lemma_hex_text_injective(rgb_value(a), rgb_value(b), 6);
        assert(pow16(6) == 0x1000000) by {
            reveal_with_fuel(pow16, 7);
        }
        lemma_u32_round_trip(a, 0);
        lemma_u32_round_trip(b, 0);
        let (va, vb) = (rgb_value(a), rgb_value(b));
        vstd::arithmetic::div_mod::lemma_small_mod(va as nat, 0x1000000);
        vstd::arithmetic::div_mod::lemma_small_mod(vb as nat, 0x1000000);
        assert(va == vb);
        assert(color_from_u32_spec(va as u32) == a);
        assert(color_from_u32_spec(vb as u32) == b);
    }
}

/// The values of the hexadecimal digits: `0`-`9` are 0 to 9, and `a`-`f` and
/// `A`-`F` are both 10 to 15; every other byte is no digit.
pub proof fn lemma_hex_digit_values()
    ensures
        forall|d: int| 0 <= d < 10 ==> #[trigger] hex_digit((48 + d) as u8) == d,
        forall|d: int| 0 <= d < 6 ==> #[trigger] hex_digit((97 + d) as u8) == 10 + d,
        forall|d: int| 0 <= d < 6 ==> #[trigger] hex_digit((65 + d) as u8) == 10 + d,
        forall|b: u8|
            !(48 <= b <= 57 || 97 <= b <= 102 || 65 <= b <= 70) ==> #[trigger] hex_digit(b) == -1,
{
}

/// A byte in lower case: `A`-`Z` become `a`-`z`, other bytes stay.
pub open spec fn lower_byte(b: u8) -> u8 {
    if 65 <= b <= 90 {
        (b + 32) as u8
    } else {
        b
    }
}

/// A text in lower case.
pub open spec fn lower_bytes(s: Seq<u8>) -> Seq<u8> {
    s.map_values(|b: u8| lower_byte(b))
}

proof fn lemma_parse_hex_digits_ignores_case(s: Seq<u8>)
    ensures
        parse_hex_digits(s) == parse_hex_digits(lower_bytes(s)),
    decreases s.len(),
{
    if s.len() > 0 {
        assert(lower_bytes(s).drop_last() =~= lower_bytes(s.drop_last()));
        lemma_parse_hex_digits_ignores_case(s.drop_last());
        let b = s.last();
        assert(lower_bytes(s).last() == lower_byte(b));
        assert(hex_digit(lower_byte(b)) == hex_digit(b));
    }
}

/// Hexadecimal notation is read in either case: a text reads as its lower-case form.
pub proof fn lemma_parse_hex_ignores_case(s: Seq<u8>)
    ensures
        parse_hex_u32(s) == parse_hex_u32(lower_bytes(s)),
{
    let l = lower_bytes(s);
    if s.len() > 0 {
        assert(l[0] == lower_byte(s[0]));
        assert(l.drop_first() =~= lower_bytes(s.drop_first()));
        lemma_parse_hex_digits_ignores_case(s.drop_first());
    }
    lemma_parse_hex_digits_ignores_case(s);
}

/// Every byte is a hexadecimal digit.
pub open spec fn all_hex_digits(s: Seq<u8>) -> bool {
    forall|i: int| 0 <= i < s.len() ==> hex_digit(#[trigger] s[i]) >= 0
}

/// The number that hexadecimal digits stand for: the first digit counts
/// `16^(n-1)` times, the next `16^(n-2)` times, and so on.
pub open spec fn digits_value(s: Seq<u8>) -> int
    decreases s.len(),
{
    if s.len() == 0 {
        0
    } else {
        hex_digit(s[0]) * pow16((s.len() - 1) as nat) + digits_value(s.drop_first())
    }
}

proof fn lemma_digits_value_push(s: Seq<u8>, d: u8)
    requires
        all_hex_digits(s),
    ensures
        digits_value(s.push(d)) == 16 * digits_value(s) + hex_digit(d),
        digits_value(s) >= 0,
    decreases s.len(),
{
    if s.len() > 0 {
        let t = s.drop_first();
        assert(s.push(d).drop_first() =~= t.push(d));
        assert(s.push(d)[0] == s[0]);
        assert(all_hex_digits(t)) by {
            assert forall|i: int| 0 <= i < t.len() implies hex_digit(#[trigger] t[i]) >= 0 by {
                assert(t[i] == s[i + 1]);
            }
        }
        lemma_digits_value_push(t, d);
        let h = hex_digit(s[0]);
        let p = pow16((s.len() - 1) as nat);
        assert(h >= 0);
        lemma_pow16_positive((s.len() - 1) as nat);
        assert(pow16(s.len() as nat) == 16 * p);
        assert(h * (16 * p) == 16 * (h * p)) by (nonlinear_arith);
        assert(h * p >= 0) by (nonlinear_arith)
            requires
                h >= 0,
                p >= 1,
        ;
    } else {
        assert(s.push(d).drop_first() =~= Seq::<u8>::empty());
        assert(s.push(d)[0] == d);
        assert(pow16(0) == 1);
        assert(digits_value(s.push(d)) == hex_digit(d) * 1 + digits_value(Seq::<u8>::empty()));
    }
}

/// Reading hexadecimal digits gives the number they stand for, or
/// `PosOverflow` when that number does not fit in 32 bits.
pub proof fn lemma_parse_hex_digits_value(s: Seq<u8>)
    requires
        all_hex_digits(s),
    ensures
        parse_hex_digits(s) == (if digits_value(s) <= u32::MAX {
            Ok::<int, ColorParseError>(digits_value(s))
        } else {
            Err::<int, ColorParseError>(ColorParseError::PosOverflow)
        }),
    decreases s.len(),
{
    if s.len() > 0 {
        let p = s.drop_last();
        assert(p.push(s.last()) =~= s);
        assert(all_hex_digits(p)) by {
            assert forall|i: int| 0 <= i < p.len() implies hex_digit(#[trigger] p[i]) >= 0 by {
                assert(p[i] == s[i]);
            }
        }
        lemma_parse_hex_digits_value(p);
        lemma_digits_value_push(p, s.last());
        assert(hex_digit(s[s.len() - 1]) >= 0);
    }
}

/// A text that starts with a byte that is no digit (after the sign handling)
/// is refused as `InvalidDigit`; in particular `-` never starts a number.
proof fn lemma_parse_first_not_digit(s: Seq<u8>)
    requires
        s.len() > 0,
        hex_digit(s[0]) < 0,
    ensures
        parse_hex_digits(s) == Err::<int, ColorParseError>(ColorParseError::InvalidDigit),
    decreases s.len(),
{
    if s.len() > 1 {
        assert(s.drop_last()[0] == s[0]);
        lemma_parse_first_not_digit(s.drop_last());
    } else {
        assert(s.drop_last() =~= Seq::<u8>::empty());
        assert(parse_hex_digits(s.drop_last()) == Ok::<int, ColorParseError>(0));
        assert(s.last() == s[0]);
    }
}

/// What `u32::from_str_radix(_, 16)` gives on a text of digits, with or
/// without a leading `+`: the value of the digits when it fits in 32 bits,
/// `PosOverflow` otherwise; an empty text is `Empty`, and a text starting
/// with `-` is `InvalidDigit`.
pub proof fn lemma_parse_hex_u32_cases(s: Seq<u8>)
    ensures
        s.len() == 0 ==> parse_hex_u32(s) == Err::<int, ColorParseError>(ColorParseError::Empty),
        s.len() > 0 && all_hex_digits(s) ==> parse_hex_u32(s) == parse_hex_digits(s)
            && parse_hex_digits(s) == (if digits_value(s) <= u32::MAX {
            Ok::<int, ColorParseError>(digits_value(s))
        } else {
            Err::<int, ColorParseError>(ColorParseError::PosOverflow)
        }),
        s.len() > 0 && all_hex_digits(s) ==> parse_hex_u32(seq![43u8] + s) == parse_hex_u32(s),
        parse_hex_u32(seq![45u8] + s) == Err::<int, ColorParseError>(ColorParseError::InvalidDigit),
{
    if s.len() > 0 && all_hex_digits(s) {
        lemma_parse_hex_digits_value(s);
        assert(hex_digit(s[0]) >= 0);
        assert((seq![43u8] + s).drop_first() =~= s);
        assert((seq![43u8] + s)[0] == 43);
    }
    let t = seq![45u8] + s;
    assert(t[0] == 45);
    if t.len() > 1 {
        lemma_parse_first_not_digit(t);
    }
}
} // verus!
