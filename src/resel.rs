//! Cell classes ("resels", reso pixels) and the palette that maps them to
//! colours and glyphs.
//!
//! | Colour          | Meaning               | RGB               | Glyph |
//! | --------------- | --------------------- | ----------------- | ----- |
//! | Dark orange     | Orange wire (off)     | `(128,  64,   0)` | `o`   |
//! | Bright orange   | Orange wire (on)      | `(255, 128,   0)` | `O`   |
//! | Dark sapphire   | Sapphire wire (off)   | `(  0,  64, 128)` | `s`   |
//! | Bright sapphire | Sapphire wire (on)    | `(  0, 128, 255)` | `S`   |
//! | Dark lime       | Lime wire (off)       | `( 64, 128,   0)` | `l`   |
//! | Bright lime     | Lime wire (on)        | `(128, 255,   0)` | `L`   |
//! | Dark teal       | AND logic node        | `(  0, 128,  64)` | `&`   |
//! | Bright teal     | XOR logic node        | `(  0, 255, 128)` | `^`   |
//! | Dark purple     | Input (wire to node)  | `( 64,   0, 128)` | `+`   |
//! | Bright purple   | Output (node to wire) | `(128,   0, 255)` | `=`   |
//! | anything else   | Empty                 | `(  0,   0,   0)` | ` `   |
use vstd::prelude::*;

verus! {

/// The class of one grid cell.
#[derive(Debug, Clone, Copy, PartialEq, Eq, Structural)]
pub enum Resel {
    WireOrangeOff,
    WireOrangeOn,
    WireSapphireOff,
    WireSapphireOn,
    WireLimeOff,
    WireLimeOn,
    AND,
    XOR,
    Input,
    Output,
    Empty,
}

impl Resel {
    pub open spec fn spec_is_wire(&self) -> bool {
        match *self {
            Resel::WireOrangeOff | Resel::WireOrangeOn | Resel::WireSapphireOff
            | Resel::WireSapphireOn | Resel::WireLimeOff | Resel::WireLimeOn => true,
            _ => false,
        }
    }

    pub open spec fn spec_is_logic(&self) -> bool {
        *self == Resel::AND || *self == Resel::XOR
    }

    /// The on/off state of a wire cell; none for the other classes.
    pub open spec fn spec_wire_state(&self) -> Option<bool> {
        match *self {
            Resel::WireOrangeOn | Resel::WireSapphireOn | Resel::WireLimeOn => Some(true),
            Resel::WireOrangeOff | Resel::WireSapphireOff | Resel::WireLimeOff => Some(false),
            _ => None,
        }
    }

    /// The wire of the same colour in the given state; any other class is kept.
    pub open spec fn spec_with_state(&self, on: bool) -> Resel {
        match *self {
            Resel::WireOrangeOff | Resel::WireOrangeOn => if on {
                Resel::WireOrangeOn
            } else {
                Resel::WireOrangeOff
            },
            Resel::WireSapphireOff | Resel::WireSapphireOn => if on {
                Resel::WireSapphireOn
            } else {
                Resel::WireSapphireOff
            },
            Resel::WireLimeOff | Resel::WireLimeOn => if on {
                Resel::WireLimeOn
            } else {
                Resel::WireLimeOff
            },
            _ => *self,
        }
    }

    /// Two cells are the same class when they agree once a wire's on/off
    /// state is disregarded.
    pub open spec fn spec_same(&self, other: Resel) -> bool {
        self.spec_with_state(true) == other.spec_with_state(true)
    }

    /// Relative offsets of the cells that can join this cell's region: the
    /// eight surrounding cells for a wire, the four orthogonal ones for the
    /// other non-empty classes, none for an empty cell.
    pub open spec fn spec_delta_neighbors(&self) -> Seq<(isize, isize)> {
        if self.spec_is_wire() {
            seq![(1isize, 0isize), (1isize, 1isize), (0isize, 1isize), (-1isize, 1isize), (-1isize, 0isize), (-1isize, -1isize), (0isize, -1isize), (1isize, -1isize)]
        } else if *self == Resel::Empty {
            seq![]
        } else {
            seq![(1isize, 0isize), (0isize, 1isize), (-1isize, 0isize), (0isize, -1isize)]
        }
    }

    /// Whether two cells are the same class, on and off wires of one colour
    /// counting as one class.
    pub fn same(self, other: Resel) -> (r: bool)
        ensures
            r == self.spec_same(other),
    {
        match (self, other) {
            (
                Resel::WireOrangeOff | Resel::WireOrangeOn,
                Resel::WireOrangeOn | Resel::WireOrangeOff,
            )
            | (
                Resel::WireSapphireOff | Resel::WireSapphireOn,
                Resel::WireSapphireOn | Resel::WireSapphireOff,
            )
            | (
                Resel::WireLimeOff | Resel::WireLimeOn,
                Resel::WireLimeOn | Resel::WireLimeOff,
            ) => true,
            (_, _) => self == other,
        }
    }

    #[verifier::when_used_as_spec(spec_is_wire)]
    pub fn is_wire(&self) -> (r: bool)
        ensures
            r == self.spec_is_wire(),
    {
        match self {
            Resel::WireOrangeOff | Resel::WireOrangeOn | Resel::WireSapphireOff
            | Resel::WireSapphireOn | Resel::WireLimeOff | Resel::WireLimeOn => true,
            _ => false,
        }
    }

    #[verifier::when_used_as_spec(spec_is_logic)]
    pub fn is_logic(&self) -> (r: bool)
        ensures
            r == self.spec_is_logic(),
    {
        match self {
            Resel::AND | Resel::XOR => true,
            _ => false,
        }
    }

    #[verifier::when_used_as_spec(spec_wire_state)]
    pub fn wire_state(&self) -> (r: Option<bool>)
        ensures
            r == self.spec_wire_state(),
    {
        match self {
            Resel::WireOrangeOn | Resel::WireSapphireOn | Resel::WireLimeOn => Some(true),
            Resel::WireOrangeOff | Resel::WireSapphireOff | Resel::WireLimeOff => Some(false),
            _ => None,
        }
    }

    pub fn is_empty(&self) -> (r: bool)
        ensures
            r == (*self == Resel::Empty),
    {
        *self == Resel::Empty
    }

    pub fn is_input(&self) -> (r: bool)
        ensures
            r == (*self == Resel::Input),
    {
        *self == Resel::Input
    }

    pub fn is_output(&self) -> (r: bool)
        ensures
            r == (*self == Resel::Output),
    {
        *self == Resel::Output
    }

    pub fn is_io(&self) -> (r: bool)
        ensures
            r == (*self == Resel::Input || *self == Resel::Output),
    {
        self.is_input() || self.is_output()
    }

    /// Relative `(dx, dy)` offsets of the cells that may join this cell's
    /// region. Wires touch on sides and corners; the other classes only on
    /// sides.
    pub fn delta_neighbors(&self) -> (r: Vec<(isize, isize)>)
        ensures
            r@ == self.spec_delta_neighbors(),
    {
        match self {
            Resel::WireOrangeOff | Resel::WireOrangeOn | Resel::WireSapphireOff
            | Resel::WireSapphireOn | Resel::WireLimeOff | Resel::WireLimeOn => {
                vec![(1, 0), (1, 1), (0, 1), (-1, 1), (-1, 0), (-1, -1), (0, -1), (1, -1)]
            },
            Resel::Empty => Vec::new(),
            _ => vec![(1, 0), (0, 1), (-1, 0), (0, -1)],
        }
    }

    /// The wire of this colour lit or unlit as `on` says; any other class is
    /// returned unchanged.
    pub fn with_state(self, on: bool) -> (r: Resel)
        ensures
            r == self.spec_with_state(on),
    {
        match self {
            Resel::WireOrangeOff | Resel::WireOrangeOn => if on {
                Resel::WireOrangeOn
            } else {
                Resel::WireOrangeOff
            },
            Resel::WireSapphireOff | Resel::WireSapphireOn => if on {
                Resel::WireSapphireOn
            } else {
                Resel::WireSapphireOff
            },
            Resel::WireLimeOff | Resel::WireLimeOn => if on {
                Resel::WireLimeOn
            } else {
                Resel::WireLimeOff
            },
            _ => self,
        }
    }
}

/// Declares the pixel type of the image crate to Verus with its one public
/// field, `pub struct Rgba<T>(pub [T; 4])`, so that verified code reads the
/// four channels directly.
#[verifier::external_type_specification]
#[verifier::reject_recursive_types(T)]
pub struct ExRgba<T>(image::Rgba<T>);

/// The palette colour of a class; black for an empty cell.
pub open spec fn rgb_of(r: Resel) -> (u8, u8, u8) {
    match r {
        Resel::WireOrangeOff => (128, 64, 0),
        Resel::WireOrangeOn => (255, 128, 0),
        Resel::WireSapphireOff => (0, 64, 128),
        Resel::WireSapphireOn => (0, 128, 255),
        Resel::WireLimeOff => (64, 128, 0),
        Resel::WireLimeOn => (128, 255, 0),
        Resel::AND => (0, 128, 64),
        Resel::XOR => (0, 255, 128),
        Resel::Input => (64, 0, 128),
        Resel::Output => (128, 0, 255),
        Resel::Empty => (0, 0, 0),
    }
}

/// The class whose palette colour is `rgb`; a colour outside the palette
/// is an empty cell.
pub open spec fn resel_of_rgb(rgb: (u8, u8, u8)) -> Resel {
    match rgb {
        (128, 64, 0) => Resel::WireOrangeOff,
        (255, 128, 0) => Resel::WireOrangeOn,
        (0, 64, 128) => Resel::WireSapphireOff,
        (0, 128, 255) => Resel::WireSapphireOn,
        (64, 128, 0) => Resel::WireLimeOff,
        (128, 255, 0) => Resel::WireLimeOn,
        (0, 128, 64) => Resel::AND,
        (0, 255, 128) => Resel::XOR,
        (64, 0, 128) => Resel::Input,
        (128, 0, 255) => Resel::Output,
        _ => Resel::Empty,
    }
}

/// The glyph of a class in the textual encoding.
pub open spec fn glyph_of(r: Resel) -> char {
    match r {
        Resel::WireOrangeOff => 'o',
        Resel::WireOrangeOn => 'O',
        Resel::WireSapphireOff => 's',
        Resel::WireSapphireOn => 'S',
        Resel::WireLimeOff => 'l',
        Resel::WireLimeOn => 'L',
        Resel::AND => '&',
        Resel::XOR => '^',
        Resel::Input => '+',
        Resel::Output => '=',
        Resel::Empty => ' ',
    }
}

/// The class that glyph `c` names; any other character is an empty cell.
pub open spec fn resel_of_glyph(c: char) -> Resel {
    match c {
        'o' => Resel::WireOrangeOff,
        'O' => Resel::WireOrangeOn,
        's' => Resel::WireSapphireOff,
        'S' => Resel::WireSapphireOn,
        'l' => Resel::WireLimeOff,
        'L' => Resel::WireLimeOn,
        '&' => Resel::AND,
        '^' => Resel::XOR,
        '+' => Resel::Input,
        '=' => Resel::Output,
        _ => Resel::Empty,
    }
}

/// The class that a text of one glyph names; any other text is an empty cell.
pub open spec fn resel_of_text(s: Seq<char>) -> Resel {
    if s.len() == 1 {
        resel_of_glyph(s[0])
    } else {
        Resel::Empty
    }
}

/// Reading back a class's colour or glyph gives the class, for every class
/// but `Empty` (whose colour and glyph the palette shares with anything
/// unrecognised).
pub proof fn lemma_palette_round_trip(r: Resel)
    requires
        r != Resel::Empty,
    ensures
        resel_of_rgb(rgb_of(r)) == r,
        resel_of_glyph(glyph_of(r)) == r,
{
}

/// The class that an opaque palette colour names; a translucent pixel or a
/// colour outside the palette is an empty cell.
pub open spec fn resel_of_rgba(p: image::Rgba<u8>) -> Resel {
    if p.0@[3] == 255 {
        resel_of_rgb((p.0@[0], p.0@[1], p.0@[2]))
    } else {
        Resel::Empty
    }
}

fn glyph_to_resel(c: char) -> (r: Resel)
    ensures
        r == resel_of_glyph(c),
{
    match c {
        'o' => Resel::WireOrangeOff,
        'O' => Resel::WireOrangeOn,
        's' => Resel::WireSapphireOff,
        'S' => Resel::WireSapphireOn,
        'l' => Resel::WireLimeOff,
        'L' => Resel::WireLimeOn,
        '&' => Resel::AND,
        '^' => Resel::XOR,
        '+' => Resel::Input,
        '=' => Resel::Output,
        _ => Resel::Empty,
    }
}

impl From<(u8, u8, u8)> for Resel {
    fn from(rgb: (u8, u8, u8)) -> (r: Self) {
        match rgb {
            (128, 64, 0) => Resel::WireOrangeOff,
            (255, 128, 0) => Resel::WireOrangeOn,
            (0, 64, 128) => Resel::WireSapphireOff,
            (0, 128, 255) => Resel::WireSapphireOn,
            (64, 128, 0) => Resel::WireLimeOff,
            (128, 255, 0) => Resel::WireLimeOn,
            (0, 128, 64) => Resel::AND,
            (0, 255, 128) => Resel::XOR,
            (64, 0, 128) => Resel::Input,
            (128, 0, 255) => Resel::Output,
            _ => Resel::Empty,
        }
    }
}

impl vstd::std_specs::convert::FromSpecImpl<(u8, u8, u8)> for Resel {
    open spec fn obeys_from_spec() -> bool {
        true
    }

    open spec fn from_spec(rgb: (u8, u8, u8)) -> Resel {
        resel_of_rgb(rgb)
    }
}

impl From<image::Rgba<u8>> for Resel {
    fn from(rgba: image::Rgba<u8>) -> (r: Self) {
        let c = rgba.0;
        if c[3] == 255 {
            Resel::from((c[0], c[1], c[2]))
        } else {
            Resel::Empty
        }
    }
}

impl vstd::std_specs::convert::FromSpecImpl<image::Rgba<u8>> for Resel {
    open spec fn obeys_from_spec() -> bool {
        true
    }

    open spec fn from_spec(rgba: image::Rgba<u8>) -> Resel {
        resel_of_rgba(rgba)
    }
}

impl From<&str> for Resel {
    fn from(c: &str) -> (r: Self) {
        broadcast use vstd::string::axiom_spec_iter, vstd::string::next_postcondition;

        let mut chars = c.chars();
        let first = chars.next();
        let second = chars.next();
        match (first, second) {
            (Some(g), None) => glyph_to_resel(g),
            _ => Resel::Empty,
        }
    }
}

impl vstd::std_specs::convert::FromSpecImpl<&str> for Resel {
    open spec fn obeys_from_spec() -> bool {
        true
    }

    open spec fn from_spec(c: &str) -> Resel {
        resel_of_text(c@)
    }
}

impl From<Resel> for (u8, u8, u8) {
    fn from(resel: Resel) -> (r: Self) {
        match resel {
            Resel::WireOrangeOff => (128, 64, 0),
            Resel::WireOrangeOn => (255, 128, 0),
            Resel::WireSapphireOff => (0, 64, 128),
            Resel::WireSapphireOn => (0, 128, 255),
            Resel::WireLimeOff => (64, 128, 0),
            Resel::WireLimeOn => (128, 255, 0),
            Resel::AND => (0, 128, 64),
            Resel::XOR => (0, 255, 128),
            Resel::Input => (64, 0, 128),
            Resel::Output => (128, 0, 255),
            Resel::Empty => (0, 0, 0),
        }
    }
}

impl vstd::std_specs::convert::FromSpecImpl<Resel> for (u8, u8, u8) {
    open spec fn obeys_from_spec() -> bool {
        true
    }

    open spec fn from_spec(resel: Resel) -> (u8, u8, u8) {
        rgb_of(resel)
    }
}

impl From<Resel> for image::Rgba<u8> {
    fn from(resel: Resel) -> (r: Self) {
        let (red, green, blue) = <(u8, u8, u8)>::from(resel);
        image::Rgba([red, green, blue, 255])
    }
}

impl vstd::std_specs::convert::FromSpecImpl<Resel> for image::Rgba<u8> {
    open spec fn obeys_from_spec() -> bool {
        true
    }

    open spec fn from_spec(resel: Resel) -> image::Rgba<u8> {
        image::Rgba([rgb_of(resel).0, rgb_of(resel).1, rgb_of(resel).2, 255])
    }
}

impl From<Resel> for &str {
    fn from(resel: Resel) -> (r: Self) {
        match resel {
            Resel::WireOrangeOff => "o",
            Resel::WireOrangeOn => "O",
            Resel::WireSapphireOff => "s",
            Resel::WireSapphireOn => "S",
            Resel::WireLimeOff => "l",
            Resel::WireLimeOn => "L",
            Resel::AND => "&",
            Resel::XOR => "^",
            Resel::Input => "+",
            Resel::Output => "=",
            Resel::Empty => " ",
        }
    }
}

impl vstd::std_specs::convert::FromSpecImpl<Resel> for &str {
    open spec fn obeys_from_spec() -> bool {
        true
    }

    open spec fn from_spec(resel: Resel) -> &'static str {
        match resel {
            Resel::WireOrangeOff => "o",
            Resel::WireOrangeOn => "O",
            Resel::WireSapphireOff => "s",
            Resel::WireSapphireOn => "S",
            Resel::WireLimeOff => "l",
            Resel::WireLimeOn => "L",
            Resel::AND => "&",
            Resel::XOR => "^",
            Resel::Input => "+",
            Resel::Output => "=",
            Resel::Empty => " ",
        }
    }
}

} // verus!
