use joy_of_mixing::{Color, ColorBounds, ColorParseError, MixedColor};

fn rgb(v: u32) -> Color {
    Color::from(v)
}

#[test]
fn from_u32_ignores_alpha() {
    let c = Color::from(0xFF9b1c2du32);
    assert_eq!((c.r, c.g, c.b), (0x9b, 0x1c, 0x2d));
    assert_eq!(c.to_u32(), 0x9b1c2d);
}

#[test]
fn from_array_keeps_channels() {
    let c = Color::from([1u8, 2, 3]);
    assert_eq!((c.r, c.g, c.b), (1, 2, 3));
}

#[test]
fn distance_squared_is_exact() {
    let a = rgb(0x000000);
    let b = rgb(0xffffff);
    assert_eq!(a.distance_squared(&b), 3 * 255 * 255);
    assert_eq!(rgb(0x102030).distance_squared(&rgb(0x132a2b)), 9 + 100 + 25);
    assert_eq!(b.distance_squared(&b), 0);
}

#[test]
fn parse_hex_reads_rgb_and_argb() {
    assert_eq!(Color::parse_hex("9b9b9b"), Ok(rgb(0x9b9b9b)));
    assert_eq!(Color::parse_hex("FF1D1D21"), Ok(rgb(0x1d1d21)));
    assert_eq!(Color::parse_hex("+0aBcDe"), Ok(rgb(0x0abcde)));
}

#[test]
fn parse_hex_errors() {
    assert_eq!(Color::parse_hex(""), Err(ColorParseError::Empty));
    assert_eq!(Color::parse_hex("+"), Err(ColorParseError::InvalidDigit));
    assert_eq!(Color::parse_hex("-1"), Err(ColorParseError::InvalidDigit));
    assert_eq!(Color::parse_hex("#9b9b9b"), Err(ColorParseError::InvalidDigit));
    assert_eq!(Color::parse_hex("12g4"), Err(ColorParseError::InvalidDigit));
    assert_eq!(Color::parse_hex("100000000"), Err(ColorParseError::PosOverflow));
    // the overflow is met before the bad digit
    assert_eq!(Color::parse_hex("1000000000z"), Err(ColorParseError::PosOverflow));
    assert_eq!(Color::parse_hex("000000000ffffffff"), Ok(rgb(0xffffff)));
}

#[test]
fn parse_hex_agrees_with_from_str_radix() {
    let inputs = ["", "+", "-", "0", "ff", "FFFFFFFF", "1FFFFFFFF", "x1", "1x", "+-1", "++1", "é1", "00ffeedd"];
    for s in inputs {
        let expected = u32::from_str_radix(s, 16).map(Color::from);
        let got = Color::parse_hex(s);
        match (expected, got) {
            (Ok(a), Ok(b)) => assert_eq!(a, b, "{s}"),
            (Err(e), Err(k)) => {
                let kind = match e.kind() {
                    std::num::IntErrorKind::Empty => ColorParseError::Empty,
                    std::num::IntErrorKind::InvalidDigit => ColorParseError::InvalidDigit,
                    std::num::IntErrorKind::PosOverflow => ColorParseError::PosOverflow,
                    _ => panic!("unexpected kind"),
                };
                assert_eq!(kind, k, "{s}");
            }
            (a, b) => panic!("mismatch on {s}: {a:?} {b:?}"),
        }
    }
}

#[test]
fn basic_colors_table() {
    let colors = Color::basic_colors();
    assert_eq!(colors.len(), 16);
    assert_eq!(colors[0], (rgb(0x1D1D21), "Black"));
    assert_eq!(colors[8], (rgb(0x474F52), "Dark Grey"));
    assert_eq!(colors[15], (rgb(0xF9FFFE), "White"));
}

#[test]
fn mixing_one_color_gives_it_back() {
    for (c, _) in Color::basic_colors() {
        let mut m = MixedColor::default();
        m.mix(&c);
        assert_eq!(m.result(), c);
        m.mix(&c).mix(&c);
        assert_eq!(m.result(), c);
    }
    let mut black = MixedColor::default();
    black.mix(&rgb(0));
    assert_eq!(black.result(), rgb(0));
}

#[test]
fn mixing_averages_and_applies_gain() {
    // red + blue: average (127, 0, 127), brightest-channel average 255,
    // gain 255 / 127 = 2
    let mut m = MixedColor::default();
    m.mix(&rgb(0xff0000)).mix(&rgb(0x0000ff));
    assert_eq!(m.result(), rgb(0xfe00fe));
    // red + green + blue: average (85, 85, 85), gain 255 / 85 = 3
    let mut m = MixedColor::default();
    m.mix(&rgb(0xff0000)).mix(&rgb(0x00ff00)).mix(&rgb(0x0000ff));
    assert_eq!(m.result(), rgb(0xffffff));
    // white + black: average (127,127,127), brightest average 127, gain 1
    let mut m = MixedColor::default();
    m.mix(&rgb(0xffffff)).mix(&rgb(0x000000));
    assert_eq!(m.result(), rgb(0x7f7f7f));
}

#[test]
fn mixing_order_does_not_matter() {
    let a = rgb(0xB02E26);
    let b = rgb(0x3C44AA);
    let c = rgb(0xFED83D);
    let mut m1 = MixedColor::default();
    m1.mix(&a).mix(&b).mix(&c).mix(&a);
    let mut m2 = MixedColor::default();
    m2.mix(&c).mix(&a).mix(&a).mix(&b);
    assert_eq!(m1.result(), m2.result());
}

#[test]
fn volume_of_corner_tetrahedron() {
    let b = ColorBounds([rgb(0x000000), rgb(0xff0000), rgb(0x00ff00), rgb(0x0000ff)]);
    assert_eq!(b.volume_6(), 255 * 255 * 255);
    let flat = ColorBounds([rgb(0x000000), rgb(0xff0000), rgb(0x00ff00), rgb(0xffff00)]);
    assert_eq!(flat.volume_6(), 0);
}

#[test]
fn contains_inside_and_outside() {
    let b = ColorBounds([rgb(0x000000), rgb(0xff0000), rgb(0x00ff00), rgb(0x0000ff)]);
    assert!(b.contains(&rgb(0x101010)));
    assert!(b.contains(&rgb(0x404040)));
    assert!(!b.contains(&rgb(0x808080)));
    assert!(!b.contains(&rgb(0xffffff)));
    // the order of the vertices does not matter for an inner point
    let b2 = ColorBounds([rgb(0xff0000), rgb(0x000000), rgb(0x0000ff), rgb(0x00ff00)]);
    assert!(b2.contains(&rgb(0x101010)));
    assert!(!b2.contains(&rgb(0x808080)));
}

#[test]
fn u32_round_trip() {
    for (c, _) in Color::basic_colors() {
        assert_eq!(Color::from(c.to_u32()), c);
    }
    assert_eq!(Color::from(0x12345678u32).to_u32(), 0x345678);
}

#[test]
fn distance_is_symmetric() {
    let a = rgb(0x123456);
    let b = rgb(0xfedcba);
    assert_eq!(a.distance_squared(&b), b.distance_squared(&a));
    assert_eq!(a.distance_squared(&a), 0);
}

#[test]
fn colour_text_forms() {
    let c = rgb(0x0a9b1c);
    assert_eq!(c.hex_string(), "#0a9b1c");
    assert_eq!(c.debug_string(), "Color(0x0a9b1c)");
    assert_eq!(rgb(0).hex_string(), format!("#{:06x}", 0));
    for (c, _) in Color::basic_colors() {
        assert_eq!(c.hex_string(), format!("#{:06x}", c.to_u32()));
        assert_eq!(c.debug_string(), format!("Color(0x{:06x})", c.to_u32()));
    }
}

#[test]
fn parse_hex_notation_drops_one_hash() {
    assert_eq!(Color::parse_hex_notation("#9b9b9b"), Ok(rgb(0x9b9b9b)));
    assert_eq!(Color::parse_hex_notation("9b9b9b"), Ok(rgb(0x9b9b9b)));
    assert_eq!(Color::parse_hex_notation("#"), Err(ColorParseError::Empty));
    assert_eq!(Color::parse_hex_notation("##1"), Err(ColorParseError::InvalidDigit));
    assert_eq!(Color::parse_hex_notation(""), Err(ColorParseError::Empty));
}

#[test]
fn volume_ignores_vertex_order() {
    let v = [rgb(0x1D1D21), rgb(0xB02E26), rgb(0x5E7C16), rgb(0x3C44AA)];
    let vol = ColorBounds(v).volume_6();
    assert!(vol > 0);
    let orders = [[1, 0, 2, 3], [3, 2, 1, 0], [2, 3, 0, 1], [0, 3, 1, 2]];
    for p in orders {
        let w = ColorBounds([v[p[0]], v[p[1]], v[p[2]], v[p[3]]]);
        assert_eq!(w.volume_6(), vol);
        for probe in [0x505050u32, 0x6a4c60, 0x101010, 0xffffff] {
            assert_eq!(w.contains(&rgb(probe)), ColorBounds(v).contains(&rgb(probe)));
        }
    }
    // two equal vertices make the tetrahedron flat
    assert_eq!(ColorBounds([v[0], v[0], v[1], v[2]]).volume_6(), 0);
}

#[test]
fn hex_form_reads_back() {
    for v in [0u32, 0x000001, 0x0a0b0c, 0x9b9b9b, 0xabcdef, 0xffffff] {
        let c = rgb(v);
        let s = c.hex_string();
        assert_eq!(s.len(), 7);
        assert!(s.starts_with('#'));
        assert!(s[1..].bytes().all(|b| b.is_ascii_digit() || (b'a'..=b'f').contains(&b)));
        assert_eq!(Color::parse_hex(&s[1..]), Ok(c));
        assert_eq!(Color::parse_hex_notation(&s), Ok(c));
    }
}

#[test]
fn hex_form_tells_colours_apart() {
    let colours: Vec<Color> = [0x000000u32, 0x000010, 0x001000, 0x100000, 0x0f0f0f, 0xf0f0f0]
        .iter()
        .map(|v| rgb(*v))
        .collect();
    for a in &colours {
        for b in &colours {
            assert_eq!(a.hex_string() == b.hex_string(), a == b);
        }
    }
}
