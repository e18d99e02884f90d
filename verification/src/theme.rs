//! The colours of the application and its mark.
//!
//! Each accent has two hand-picked values, one for dark surfaces and one for
//! light ones. Colours that carry a meaning do not depend on the accent: a clip
//! light must read as danger under every one of them.
use crate::float::Float32;
use crate::model::{AccentChoice, ThemeChoice};
use vstd::prelude::*;

verus! {

/// An opaque colour.
#[derive(Debug, Clone, Copy, PartialEq, Eq, Structural)]
pub struct Rgb {
    pub r: u8,
    pub g: u8,
    pub b: u8,
}

/// What a colour is drawn on.
#[derive(Debug, Clone, Copy, PartialEq, Eq, Structural)]
pub enum Surface {
    Dark,
    Light,
}

/// One accent, on both surfaces.
#[derive(Debug, Clone, Copy, PartialEq, Eq, Structural)]
pub struct Accent {
    pub dark: Rgb,
    pub light: Rgb,
}

/// Colours that carry a meaning.
#[derive(Debug, Clone, Copy, PartialEq, Eq, Structural)]
pub struct Semantic {
    pub meter_ok: Rgb,
    pub meter_hot: Rgb,
    pub meter_clip: Rgb,
    pub warning: Rgb,
}

/// What the window follows.
#[derive(Debug, Clone, Copy, PartialEq, Eq, Structural)]
pub enum ThemePreference {
    Always(Surface),
    System,
}

pub open spec fn rgb(r: u8, g: u8, b: u8) -> Rgb {
    Rgb { r, g, b }
}

fn colour(r: u8, g: u8, b: u8) -> (c: Rgb)
    ensures
        c == rgb(r, g, b),
{
    Rgb { r, g, b }
}

/// The colours of each accent.
pub open spec fn accent_of(choice: AccentChoice) -> Accent {
    match choice {
        AccentChoice::Brand => Accent { dark: rgb(90, 170, 255), light: rgb(0, 102, 204) },
        AccentChoice::Teal => Accent { dark: rgb(64, 200, 180), light: rgb(0, 120, 110) },
        AccentChoice::Amber => Accent { dark: rgb(240, 180, 60), light: rgb(170, 110, 0) },
        AccentChoice::Violet => Accent { dark: rgb(170, 140, 255), light: rgb(110, 70, 200) },
        AccentChoice::Slate => Accent { dark: rgb(140, 160, 190), light: rgb(70, 90, 120) },
    }
}

pub fn accent(choice: AccentChoice) -> (r: Accent)
    ensures
        r == accent_of(choice),
{
    match choice {
        AccentChoice::Brand => Accent { dark: colour(90, 170, 255), light: colour(0, 102, 204) },
        AccentChoice::Teal => Accent { dark: colour(64, 200, 180), light: colour(0, 120, 110) },
        AccentChoice::Amber => Accent { dark: colour(240, 180, 60), light: colour(170, 110, 0) },
        AccentChoice::Violet => Accent {
            dark: colour(170, 140, 255),
            light: colour(110, 70, 200),
        },
        AccentChoice::Slate => Accent { dark: colour(140, 160, 190), light: colour(70, 90, 120) },
    }
}

/// The colours with a meaning, on each surface.
pub open spec fn semantic_of(surface: Surface) -> Semantic {
    match surface {
        Surface::Dark => Semantic {
            meter_ok: rgb(60, 180, 90),
            meter_hot: rgb(220, 170, 40),
            meter_clip: rgb(220, 70, 45),
            warning: rgb(220, 80, 40),
        },
        Surface::Light => Semantic {
            meter_ok: rgb(20, 130, 60),
            meter_hot: rgb(150, 100, 0),
            meter_clip: rgb(190, 30, 30),
            warning: rgb(190, 60, 20),
        },
    }
}

pub fn semantic(surface: Surface) -> (r: Semantic)
    ensures
        r == semantic_of(surface),
{
    match surface {
        Surface::Dark => Semantic {
            meter_ok: colour(60, 180, 90),
            meter_hot: colour(220, 170, 40),
            meter_clip: colour(220, 70, 45),
            warning: colour(220, 80, 40),
        },
        Surface::Light => Semantic {
            meter_ok: colour(20, 130, 60),
            meter_hot: colour(150, 100, 0),
            meter_clip: colour(190, 30, 30),
            warning: colour(190, 60, 20),
        },
    }
}

/// A meter this full is close to clipping: 0.9, as the bits of the number.
pub const NEAR_CLIP_BITS: u32 = 0x3f66_6666;

/// A meter this full is hot: 0.75, as the bits of the number.
pub const HOT_BITS: u32 = 0x3f40_0000;

/// The colour of a meter that is filled to a fraction of its bar.
pub fn meter_color(fraction: Float32, surface: Surface) -> (r: Rgb)
    ensures
        r == if (Float32 { bits: 0x3f66_6666 }).less(fraction) {
            semantic_of(surface).meter_clip
        } else if (Float32 { bits: 0x3f40_0000 }).less(fraction) {
            semantic_of(surface).meter_hot
        } else {
            semantic_of(surface).meter_ok
        },
{
    let colours = semantic(surface);
    if Float32::from_bits(NEAR_CLIP_BITS).is_less(fraction) {
        colours.meter_clip
    } else if Float32::from_bits(HOT_BITS).is_less(fraction) {
        colours.meter_hot
    } else {
        colours.meter_ok
    }
}

pub fn theme_preference(theme: ThemeChoice) -> (r: ThemePreference)
    ensures
        r == match theme {
            ThemeChoice::Dark => ThemePreference::Always(Surface::Dark),
            ThemeChoice::Light => ThemePreference::Always(Surface::Light),
            ThemeChoice::System => ThemePreference::System,
        },
{
    match theme {
        ThemeChoice::Dark => ThemePreference::Always(Surface::Dark),
        ThemeChoice::Light => ThemePreference::Always(Surface::Light),
        ThemeChoice::System => ThemePreference::System,
    }
}

impl Accent {
    /// The accent on a surface.
    pub open spec fn shade(self, surface: Surface) -> Rgb {
        match surface {
            Surface::Dark => self.dark,
            Surface::Light => self.light,
        }
    }

    pub fn on(self, surface: Surface) -> (r: Rgb)
        ensures
            r == self.shade(surface),
    {
        match surface {
            Surface::Dark => self.dark,
            Surface::Light => self.light,
        }
    }
}

/// The text on a surface that is filled with the accent: near black on dark
/// surfaces, whose accents are bright, and white on light ones.
pub fn text_on_accent(surface: Surface) -> (r: Rgb)
    ensures
        r == match surface {
            Surface::Dark => rgb(20, 20, 20),
            Surface::Light => rgb(255, 255, 255),
        },
{
    match surface {
        Surface::Dark => colour(20, 20, 20),
        Surface::Light => colour(255, 255, 255),
    }
}

/// Whether a pixel belongs to the mark: a disc one pixel smaller than the
/// square all around. Distances are in half pixels, from the middle.
pub open spec fn in_mark(size: int, x: int, y: int) -> bool {
    let dx = 2 * x - (size - 1);
    let dy = 2 * y - (size - 1);
    dx * dx + dy * dy <= (size - 2) * (size - 2)
}

/// One byte of the mark: red, green, blue and alpha of each pixel, row by row.
pub open spec fn mark_byte(size: int, colour: Rgb, k: int) -> u8 {
    let pixel = k / 4;
    if in_mark(size, pixel % size, pixel / size) {
        if k % 4 == 0 {
            colour.r
        } else if k % 4 == 1 {
            colour.g
        } else if k % 4 == 2 {
            colour.b
        } else {
            255
        }
    } else {
        0
    }
}

fn is_in_mark(size: u32, x: u32, y: u32) -> (r: bool)
    requires
        x < size <= 0x7fff,
        y < size,
    ensures
        r == in_mark(size as int, x as int, y as int),
{
    let dx: i64 = 2 * (x as i64) - (size as i64 - 1);
    let dy: i64 = 2 * (y as i64) - (size as i64 - 1);
    let radius: i64 = size as i64 - 2;
    assert(0 <= dx * dx <= 0x4000_0000 && 0 <= dy * dy <= 0x4000_0000 && 0 <= radius * radius
        <= 0x4000_0000) by (nonlinear_arith)
        requires
            -0x8000 <= dx <= 0x8000,
            -0x8000 <= dy <= 0x8000,
            -0x8000 <= radius <= 0x8000,
    ;
    dx * dx + dy * dy <= radius * radius
}

/// The mark, `size` pixels square: a disc in the accent of the surface it will
/// sit on, on nothing.
pub fn brand_icon_rgba(size: u32, accent: Accent, surface: Surface) -> (r: Vec<u8>)
    requires
        size <= 0x7fff,
    ensures
        r@ == Seq::new(
            (size * size * 4) as nat,
            |k: int| mark_byte(size as int, accent.shade(surface), k),
        ),
{
    let colour = accent.on(surface);
    let mut rgba: Vec<u8> = Vec::new();
    let mut y: u32 = 0;
    while y < size
        invariant
            y <= size <= 0x7fff,
            rgba@.len() == y * size * 4,
            forall|k: int| 0 <= k < rgba@.len() ==> rgba@[k] == mark_byte(size as int, colour, k),
        decreases size - y,
    {
        let mut x: u32 = 0;
        while x < size
            invariant
                x <= size <= 0x7fff,
                y < size,
                rgba@.len() == (y * size + x) * 4,
                forall|k: int|
                    0 <= k < rgba@.len() ==> rgba@[k] == mark_byte(size as int, colour, k),
            decreases size - x,
        {
            let inside = is_in_mark(size, x, y);
            let ghost at = y * size + x;
            assert(at % (size as int) == x && at / (size as int) == y) by {
                vstd::arithmetic::div_mod::lemma_fundamental_div_mod_converse(
                    at,
                    size as int,
                    y as int,
                    x as int,
                );
            }
            assert(4 * at / 4 == at && (4 * at + 1) / 4 == at && (4 * at + 2) / 4 == at && (4 * at
                + 3) / 4 == at);
            if inside {
                rgba.push(colour.r);
                rgba.push(colour.g);
                rgba.push(colour.b);
                rgba.push(255);
            } else {
                rgba.push(0);
                rgba.push(0);
                rgba.push(0);
                rgba.push(0);
            }
            x = x + 1;
        }
        assert((y + 1) * size * 4 == (y * size + size) * 4) by (nonlinear_arith);
        y = y + 1;
    }
    assert(rgba@ =~= Seq::new(
        (size * size * 4) as nat,
        |k: int| mark_byte(size as int, colour, k),
    ));
    rgba
}

/// Whether the tray needs another icon: none was drawn yet, or for another
/// accent or surface.
pub fn tray_icon_is_due(
    last: Option<(AccentChoice, Surface)>,
    accent: AccentChoice,
    surface: Surface,
) -> (r: bool)
    ensures
        r == (last != Some((accent, surface))),
{
    match last {
        None => true,
        Some((a, s)) => a != accent || s != surface,
    }
}

/// The mark looks the same from left and right, and from above and below.
pub proof fn the_mark_is_symmetric(size: int, x: int, y: int)
    ensures
        in_mark(size, size - 1 - x, y) == in_mark(size, x, y),
        in_mark(size, x, size - 1 - y) == in_mark(size, x, y),
{
    let dx = 2 * x - (size - 1);
    let dy = 2 * y - (size - 1);
    assert(2 * (size - 1 - x) - (size - 1) == -dx);
    assert(2 * (size - 1 - y) - (size - 1) == -dy);
    assert((-dx) * (-dx) == dx * dx) by (nonlinear_arith);
    assert((-dy) * (-dy) == dy * dy) by (nonlinear_arith);
}

/// How much redder than green a colour is.
pub open spec fn redness(colour: Rgb) -> int {
    colour.r - colour.g
}

/// A meter is green up to three quarters of its bar, turns yellow above them and
/// red above nine tenths, and never gets greener as it fills.
pub proof fn a_fuller_meter_is_redder(a: Float32, b: Float32, surface: Surface, x: Rgb, y: Rgb)
    requires
        call_ensures(meter_color, (a, surface), x),
        call_ensures(meter_color, (b, surface), y),
        a.at_most(b),
    ensures
        redness(x) <= redness(y),
        redness(x) > 0 <==> (Float32 { bits: HOT_BITS }).less(a),
        redness(x) > 100 <==> (Float32 { bits: NEAR_CLIP_BITS }).less(a),
{
}

/// What a colour adds up to.
pub open spec fn brightness(colour: Rgb) -> int {
    colour.r + colour.g + colour.b
}

/// Colours stand out from what they are on: they are brighter on dark surfaces than
/// on light ones, and text on an accent is the darker the brighter the accent is.
pub proof fn colours_stand_out(
    choice: AccentChoice,
    dark: Rgb,
    light: Rgb,
    over_dark: Rgb,
    over_light: Rgb,
)
    requires
        call_ensures(Accent::on, (accent_of(choice), Surface::Dark), dark),
        call_ensures(Accent::on, (accent_of(choice), Surface::Light), light),
        call_ensures(text_on_accent, (Surface::Dark,), over_dark),
        call_ensures(text_on_accent, (Surface::Light,), over_light),
    ensures
        brightness(dark) > brightness(light),
        brightness(semantic_of(Surface::Dark).meter_ok) > brightness(
            semantic_of(Surface::Light).meter_ok,
        ),
        brightness(semantic_of(Surface::Dark).meter_hot) > brightness(
            semantic_of(Surface::Light).meter_hot,
        ),
        brightness(semantic_of(Surface::Dark).meter_clip) > brightness(
            semantic_of(Surface::Light).meter_clip,
        ),
        brightness(semantic_of(Surface::Dark).warning) > brightness(
            semantic_of(Surface::Light).warning,
        ),
        brightness(over_dark) + 300 < brightness(dark),
        brightness(over_light) > brightness(light) + 300,
{
}

/// Two different accents look different on every surface.
pub proof fn accents_differ(a: AccentChoice, b: AccentChoice, surface: Surface)
    requires
        a != b,
    ensures
        accent_of(a).shade(surface) != accent_of(b).shade(surface),
{
}

/// Every pixel of the mark is of one colour and opaque, or not there at all. The
/// middle is there, the corners are not, and a pixel further out in its row than
/// one that is not there is not there either.
pub proof fn the_mark_is_one_disc(size: int, colour: Rgb, x: int, y: int, further: int)
    requires
        3 <= size,
        0 <= x < size,
        0 <= y < size,
        2 * x >= size - 1,
        x <= further,
    ensures
        ({
            let k = 4 * (y * size + x);
            let pixel = (
                mark_byte(size, colour, k),
                mark_byte(size, colour, k + 1),
                mark_byte(size, colour, k + 2),
                mark_byte(size, colour, k + 3),
            );
            if in_mark(size, x, y) {
                pixel == (colour.r, colour.g, colour.b, 255u8)
            } else {
                pixel == (0u8, 0u8, 0u8, 0u8)
            }
        }),
        in_mark(size, (size - 1) / 2, (size - 1) / 2),
        !in_mark(size, 0, 0),
        in_mark(size, further, y) ==> in_mark(size, x, y),
{
    let at = y * size + x;
    vstd::arithmetic::div_mod::lemma_fundamental_div_mod_converse(at, size, y, x);
    let dx = 2 * x - (size - 1);
    let far = 2 * further - (size - 1);
    assert(dx * dx <= far * far) by (nonlinear_arith)
        requires
            0 <= dx <= far,
    ;
    let mid = 2 * ((size - 1) / 2) - (size - 1);
    assert(mid == 0 || mid == -1);
    assert(mid * mid <= 1) by (nonlinear_arith)
        requires
            mid == 0 || mid == -1,
    ;
    let r = size - 2;
    assert(1 <= r * r && (size == 3 || 4 <= r * r)) by (nonlinear_arith)
        requires
            r == size - 2,
            3 <= size,
    ;
    let corner = 0 - (size - 1);
    assert(corner * corner + corner * corner > r * r) by (nonlinear_arith)
        requires
            corner == 1 - size,
            r == size - 2,
            3 <= size,
    ;
}

} // verus!
