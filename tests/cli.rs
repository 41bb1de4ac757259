use recolor::cli::Cli;
use recolor::color::Color;

fn channels(palette: &[Color]) -> Vec<(u8, u8, u8, u8)> {
    palette.iter().map(|c| (c.r, c.g, c.b, c.a)).collect()
}

#[test]
fn sorted_palette_identity_match() {
    let cli: Cli = Cli::new(
        false,
        String::from("picture.png"),
        vec![Color::new(55, 105, 155, 205), Color::new(50, 100, 150, 200)],
    );
    assert_eq!(vec![(50, 100, 150, 200), (55, 105, 155, 205)], channels(&cli.palette));
    let found: &Color = Color::find_most_similar(&Color::new(50, 100, 150, 200), &cli.palette).unwrap();
    assert_eq!((50, 100, 150, 200), (found.r, found.g, found.b, found.a));
}

#[test]
fn new_inverts_then_sorts() {
    let cli: Cli = Cli::new(
        true,
        String::from("a.png"),
        vec![Color::new(10, 10, 10, 1), Color::new(200, 200, 200, 2), Color::new(100, 100, 100, 3)],
    );
    assert!(cli.invert);
    assert_eq!("a.png", cli.image);
    assert_eq!(vec![(55, 55, 55, 2), (155, 155, 155, 3), (245, 245, 245, 1)], channels(&cli.palette));
}

#[test]
fn new_keeps_empty_palette() {
    let cli: Cli = Cli::new(false, String::from("b.png"), Vec::new());
    assert!(cli.palette.is_empty());
}

#[test]
fn parse_color_picks_format() {
    let hex: Color = Cli::parse_color("0xABC").unwrap();
    assert_eq!((0xAA, 0xBB, 0xCC, 0xFF), (hex.r, hex.g, hex.b, hex.a));
    let dec: Color = Cli::parse_color("189,222,89").unwrap();
    assert_eq!((189, 222, 89, 255), (dec.r, dec.g, dec.b, dec.a));
    assert!(Cli::parse_color("hello").is_err());
    assert!(Cli::parse_color("0x12").is_err());
    assert!(Cli::parse_color("300,1,1").is_err());
}

#[test]
fn equal_brightness_keeps_input_order() {
    let cli: Cli = Cli::new(
        false,
        String::from("c.png"),
        vec![Color::new(95, 95, 95, 1), Color::new(10, 10, 10, 2), Color::new(50, 100, 150, 200)],
    );
    assert_eq!(vec![(10, 10, 10, 2), (95, 95, 95, 1), (50, 100, 150, 200)], channels(&cli.palette));
    let cli: Cli = Cli::new(
        false,
        String::from("c.png"),
        vec![Color::new(50, 100, 150, 200), Color::new(10, 10, 10, 2), Color::new(95, 95, 95, 1)],
    );
    assert_eq!(vec![(10, 10, 10, 2), (50, 100, 150, 200), (95, 95, 95, 1)], channels(&cli.palette));
}
