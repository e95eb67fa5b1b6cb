use image::Rgba;
use reso::resel::Resel;

const PALETTE_RESEL: [Resel; 11] = [
    Resel::WireOrangeOff,
    Resel::WireOrangeOn,
    Resel::WireSapphireOff,
    Resel::WireSapphireOn,
    Resel::WireLimeOff,
    Resel::WireLimeOn,
    Resel::AND,
    Resel::XOR,
    Resel::Input,
    Resel::Output,
    Resel::Empty,
];

const PALETTE_U8U8U8: [(u8, u8, u8); 11] = [
    (128, 64, 0),
    (255, 128, 0),
    (0, 64, 128),
    (0, 128, 255),
    (64, 128, 0),
    (128, 255, 0),
    (0, 128, 64),
    (0, 255, 128),
    (64, 0, 128),
    (128, 0, 255),
    (0, 0, 0),
];

const PALETTE_RGBA: [Rgba<u8>; 11] = [
    Rgba([128, 64, 0, 255]),
    Rgba([255, 128, 0, 255]),
    Rgba([0, 64, 128, 255]),
    Rgba([0, 128, 255, 255]),
    Rgba([64, 128, 0, 255]),
    Rgba([128, 255, 0, 255]),
    Rgba([0, 128, 64, 255]),
    Rgba([0, 255, 128, 255]),
    Rgba([64, 0, 128, 255]),
    Rgba([128, 0, 255, 255]),
    Rgba([0, 0, 0, 255]),
];

const PALETTE_STR: [&str; 11] = ["o", "O", "s", "S", "l", "L", "&", "^", "+", "=", " "];

#[test]
fn test_palettes() {
    assert_eq!(PALETTE_RESEL.len(), PALETTE_U8U8U8.len());
    assert_eq!(PALETTE_RESEL.len(), PALETTE_RGBA.len());
    assert_eq!(PALETTE_RESEL.len(), PALETTE_STR.len());

    for idx in 1..PALETTE_RESEL.len() {
        let resel = PALETTE_RESEL[idx];
        let u8u8u8 = PALETTE_U8U8U8[idx];
        let rgba = PALETTE_RGBA[idx];
        let cc = PALETTE_STR[idx];

        assert_eq!(resel, Resel::from(u8u8u8));
        assert_eq!(resel, Resel::from(rgba));
        assert_eq!(resel, Resel::from(cc));

        assert_eq!(u8u8u8, <(u8, u8, u8)>::from(resel));
        assert_eq!(rgba, <Rgba<u8>>::from(resel));
        assert_eq!(cc, <&str>::from(resel));
    }
}

#[test]
fn test_convert_from_u8u8u8() {
    for (r, g, b) in PALETTE_U8U8U8 {
        let rgba = Rgba([r, g, b, 255]);
        let resel_from_raw_rgb = Resel::from((r, g, b));
        let resel_from_rgba = Resel::from(rgba);

        let back_raw: (u8, u8, u8) = resel_from_raw_rgb.into();
        let back_rgba: (u8, u8, u8) = resel_from_rgba.into();
        assert_eq!((r, g, b), back_raw);
        assert_eq!((r, g, b), back_rgba);
    }
}

#[test]
fn test_convert_from_resel() {
    for resel in [
        Resel::WireOrangeOff,
        Resel::WireOrangeOn,
        Resel::WireSapphireOff,
        Resel::WireSapphireOn,
        Resel::WireLimeOff,
        Resel::WireLimeOn,
        Resel::AND,
        Resel::XOR,
        Resel::Input,
        Resel::Output,
    ] {
        let (r, g, b): (u8, u8, u8) = resel.into();
        let rgba: Rgba<u8> = resel.into();
        let cc: &str = resel.into();

        assert_eq!(Resel::from((r, g, b)), resel);
        assert_eq!(Resel::from(rgba), resel);
        assert_eq!(Resel::from(cc), resel);
    }
}

#[test]
fn test_same() {
    for (resel1, resel2) in [
        (Resel::WireOrangeOff, Resel::WireOrangeOn),
        (Resel::WireSapphireOff, Resel::WireSapphireOn),
        (Resel::WireLimeOff, Resel::WireLimeOn),
    ] {
        assert!(resel1.same(resel1));
        assert!(resel1.same(resel2));
        assert!(resel2.same(resel1));
        assert!(resel2.same(resel2));
    }

    for resel in [
        Resel::WireOrangeOff,
        Resel::WireOrangeOn,
        Resel::WireSapphireOff,
        Resel::WireSapphireOn,
        Resel::WireLimeOff,
        Resel::WireLimeOn,
        Resel::AND,
        Resel::XOR,
        Resel::Input,
        Resel::Output,
    ] {
        assert!(resel.same(resel));
    }
}

#[test]
fn different_classes_are_not_the_same() {
    assert!(!Resel::WireOrangeOn.same(Resel::WireLimeOn));
    assert!(!Resel::WireSapphireOff.same(Resel::WireOrangeOff));
    assert!(!Resel::AND.same(Resel::XOR));
    assert!(!Resel::Input.same(Resel::Output));
    assert!(!Resel::WireLimeOff.same(Resel::Input));
    assert!(!Resel::Empty.same(Resel::AND));
    assert!(Resel::Empty.same(Resel::Empty));
}

#[test]
fn unknown_colours_and_glyphs_are_empty() {
    assert_eq!(Resel::from((1u8, 2u8, 3u8)), Resel::Empty);
    assert_eq!(Resel::from((0u8, 0u8, 0u8)), Resel::Empty);
    // A translucent pixel of a palette colour is not that class.
    assert_eq!(Resel::from(Rgba([128u8, 64, 0, 128])), Resel::Empty);
    assert_eq!(Resel::from(Rgba([128u8, 64, 0, 255])), Resel::WireOrangeOff);
    assert_eq!(Resel::from("x"), Resel::Empty);
    assert_eq!(Resel::from(""), Resel::Empty);
    assert_eq!(Resel::from("oo"), Resel::Empty);
    assert_eq!(Resel::from(" "), Resel::Empty);
    assert_eq!(<Rgba<u8>>::from(Resel::Empty), Rgba([0, 0, 0, 255]));
    assert_eq!(<&str>::from(Resel::Empty), " ");
}

#[test]
fn class_predicates() {
    assert!(Resel::WireLimeOn.is_wire());
    assert!(!Resel::Input.is_wire());
    assert!(Resel::AND.is_logic() && Resel::XOR.is_logic());
    assert!(!Resel::Output.is_logic());
    assert!(Resel::Empty.is_empty());
    assert!(!Resel::WireOrangeOff.is_empty());
    assert!(Resel::Input.is_input() && !Resel::Output.is_input());
    assert!(Resel::Output.is_output() && !Resel::Input.is_output());
    assert!(Resel::Input.is_io() && Resel::Output.is_io() && !Resel::AND.is_io());
    assert_eq!(Resel::WireOrangeOn.wire_state(), Some(true));
    assert_eq!(Resel::WireSapphireOff.wire_state(), Some(false));
    assert_eq!(Resel::XOR.wire_state(), None);
}

#[test]
fn wire_state_variants() {
    assert_eq!(Resel::WireOrangeOff.with_state(true), Resel::WireOrangeOn);
    assert_eq!(Resel::WireSapphireOn.with_state(false), Resel::WireSapphireOff);
    assert_eq!(Resel::WireLimeOff.with_state(false), Resel::WireLimeOff);
    assert_eq!(Resel::AND.with_state(true), Resel::AND);
}

#[test]
fn delta_neighbors_by_class() {
    assert_eq!(
        Resel::WireOrangeOn.delta_neighbors(),
        vec![(1, 0), (1, 1), (0, 1), (-1, 1), (-1, 0), (-1, -1), (0, -1), (1, -1)]
    );
    assert_eq!(Resel::AND.delta_neighbors(), vec![(1, 0), (0, 1), (-1, 0), (0, -1)]);
    assert_eq!(Resel::Input.delta_neighbors().len(), 4);
    assert!(Resel::Empty.delta_neighbors().is_empty());
}
