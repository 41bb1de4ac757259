use recolor::color::Color;

#[test]
fn test_invert() {
    let mut color: Color = Color::new(50, 100, 150, 200);
    color.invert();

    assert_eq!(205, color.r);
    assert_eq!(155, color.g);
    assert_eq!(105, color.b);
    assert_eq!(200, color.a);
}

#[test]
fn test_calculate_brightness() {
    let color: Color = Color::new(50, 100, 150, 200);
    assert_eq!(95, color.calculate_brightness());
}

#[test]
fn test_new() {
    let color: Color = Color::new(50, 100, 150, 200);

    assert_eq!(50, color.r);
    assert_eq!(100, color.g);
    assert_eq!(150, color.b);
    assert_eq!(200, color.a);
}

#[test]
fn test_find_most_similar() {
    let palette: Vec<Color> = vec![Color::new(50, 100, 150, 200), Color::new(55, 105, 155, 205)];

    // Should pick the same color
    let test_color_1: Color = Color::new(50, 100, 150, 200);
    let test_result_1: Option<&Color> = Color::find_most_similar(&test_color_1, &palette);
    assert!(test_result_1.is_some());
    assert_eq!(&test_color_1, test_result_1.unwrap());
}

#[test]
fn invert_twice_restores_channels() {
    let mut color: Color = Color::new(0, 17, 255, 42);
    color.invert();
    assert_eq!((255, 238, 0, 42), (color.r, color.g, color.b, color.a));
    color.invert();
    assert_eq!((0, 17, 255, 42), (color.r, color.g, color.b, color.a));
}

#[test]
fn brightness_of_extremes_and_grays() {
    assert_eq!(0, Color::new(0, 0, 0, 0).calculate_brightness());
    assert_eq!(255, Color::new(255, 255, 255, 255).calculate_brightness());
    assert_eq!(128, Color::new(128, 128, 128, 7).calculate_brightness());
    // sqrt(0.241 * 255^2) = 125.18...
    assert_eq!(125, Color::new(255, 0, 0, 255).calculate_brightness());
    // sqrt(0.068 * 255^2) = 66.49...
    assert_eq!(66, Color::new(0, 0, 255, 255).calculate_brightness());
    assert_eq!(99, Color::new(55, 105, 155, 205).calculate_brightness());
}

#[test]
fn hex_long_form_defaults_alpha() {
    let c: Color = Color::from_hex("0xAABBCC").unwrap();
    assert_eq!((0xAA, 0xBB, 0xCC, 255), (c.r, c.g, c.b, c.a));
}

#[test]
fn hex_short_form_doubles_digits() {
    let short: Color = Color::from_hex("0xABC").unwrap();
    let long: Color = Color::from_hex("0xAABBCC").unwrap();
    assert_eq!((long.r, long.g, long.b, long.a), (short.r, short.g, short.b, short.a));
    let with_alpha: Color = Color::from_hex("0x1a2f").unwrap();
    assert_eq!((0x11, 0xAA, 0x22, 0xFF), (with_alpha.r, with_alpha.g, with_alpha.b, with_alpha.a));
}

#[test]
fn hex_eight_digits_give_alpha() {
    let c: Color = Color::from_hex("0xAABBCCDD").unwrap();
    assert_eq!((0xAA, 0xBB, 0xCC, 0xDD), (c.r, c.g, c.b, c.a));
    let lower: Color = Color::from_hex("0xaabbccdd").unwrap();
    assert_eq!((0xAA, 0xBB, 0xCC, 0xDD), (lower.r, lower.g, lower.b, lower.a));
}

#[test]
fn hex_rejects_bad_text() {
    assert!(Color::from_hex("0xABCDE").is_err());
    assert!(Color::from_hex("0xGGG").is_err());
    assert!(Color::from_hex("ABC").is_err());
    assert!(Color::from_hex("0x").is_err());
    assert!(Color::from_hex("").is_err());
    let e = Color::from_hex("0x12345").unwrap_err();
    assert_eq!("Could not parse '0x12345' as a hexadecimal value", e.msg);
}

#[test]
fn rgba_three_parts_default_alpha() {
    let c: Color = Color::from_rgba("255,70,120").unwrap();
    assert_eq!((255, 70, 120, 255), (c.r, c.g, c.b, c.a));
}

#[test]
fn rgba_four_parts_exact() {
    let c: Color = Color::from_rgba("1,2,3,4").unwrap();
    assert_eq!((1, 2, 3, 4), (c.r, c.g, c.b, c.a));
    let z: Color = Color::from_rgba("0,000,255,099").unwrap();
    assert_eq!((0, 0, 255, 99), (z.r, z.g, z.b, z.a));
}

#[test]
fn rgba_rejects_overflow() {
    let e = Color::from_rgba("256,0,0").unwrap_err();
    assert_eq!("All numbers in '256,0,0' must be between 0-255", e.msg);
    assert!(Color::from_rgba("1,2,3,999").is_err());
}

#[test]
fn rgba_rejects_bad_shape() {
    let e = Color::from_rgba("1,2").unwrap_err();
    assert_eq!("Could not parse '1,2' as a RGBA value", e.msg);
    assert!(Color::from_rgba("1,2,3,4,5").is_err());
    assert!(Color::from_rgba("1000,0,0").is_err());
    assert!(Color::from_rgba("1,,3").is_err());
    assert!(Color::from_rgba("1,2,3,").is_err());
    assert!(Color::from_rgba("a,2,3").is_err());
    assert!(Color::from_rgba("").is_err());
}

#[test]
fn to_hex_pads_each_channel() {
    assert_eq!("0x000AFF01", Color::new(0, 10, 255, 1).to_hex());
    assert_eq!("0xAABBCCDD", Color::new(0xAA, 0xBB, 0xCC, 0xDD).to_hex());
}

#[test]
fn hex_round_trip_keeps_channels() {
    for c in [Color::new(0, 10, 255, 1), Color::new(50, 100, 150, 200), Color::new(0, 0, 0, 0)] {
        let back: Color = Color::from_hex(&c.to_hex()).unwrap();
        assert_eq!((c.r, c.g, c.b, c.a), (back.r, back.g, back.b, back.a));
    }
}

#[test]
fn empty_palette_has_no_match() {
    let palette: Vec<Color> = Vec::new();
    assert!(Color::find_most_similar(&Color::new(1, 2, 3, 4), &palette).is_none());
}

#[test]
fn equal_brightness_means_equal() {
    let a: Color = Color::new(50, 100, 150, 200);
    let b: Color = Color::new(95, 95, 95, 0);
    assert_eq!(a.calculate_brightness(), b.calculate_brightness());
    assert!(a == b);
    assert!(!(a < b));
    assert!(!(a > b));
    assert_eq!(Some(std::cmp::Ordering::Equal), a.partial_cmp(&b));
    let darker: Color = Color::new(10, 10, 10, 255);
    assert!(darker < a);
    assert!(darker != a);
}

#[test]
fn scan_stops_at_crossover() {
    let palette: Vec<Color> =
        vec![Color::new(10, 10, 10, 255), Color::new(100, 100, 100, 255), Color::new(96, 96, 96, 255)];
    let found: &Color = Color::find_most_similar(&Color::new(95, 95, 95, 255), &palette).unwrap();
    assert_eq!((100, 100, 100), (found.r, found.g, found.b));
}

#[test]
fn scan_keeps_last_dimmer_entry() {
    let palette: Vec<Color> =
        vec![Color::new(10, 10, 10, 255), Color::new(80, 80, 80, 255), Color::new(120, 120, 120, 255)];
    // 120 - 95 = 25 is not below 95 - 80 = 15: the dimmer entry stays.
    let found: &Color = Color::find_most_similar(&Color::new(95, 95, 95, 255), &palette).unwrap();
    assert_eq!((80, 80, 80), (found.r, found.g, found.b));
    // 120 - 110 = 10 is below 110 - 80 = 30: the brighter entry wins.
    let found: &Color = Color::find_most_similar(&Color::new(110, 110, 110, 255), &palette).unwrap();
    assert_eq!((120, 120, 120), (found.r, found.g, found.b));
    // A tie keeps the dimmer entry.
    let found: &Color = Color::find_most_similar(&Color::new(100, 100, 100, 255), &palette).unwrap();
    assert_eq!((80, 80, 80), (found.r, found.g, found.b));
    // Brighter than all: the last entry.
    let found: &Color = Color::find_most_similar(&Color::new(250, 250, 250, 255), &palette).unwrap();
    assert_eq!((120, 120, 120), (found.r, found.g, found.b));
    // Darker than all: the first entry.
    let found: &Color = Color::find_most_similar(&Color::new(1, 1, 1, 255), &palette).unwrap();
    assert_eq!((10, 10, 10), (found.r, found.g, found.b));
}
