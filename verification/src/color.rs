use vstd::prelude::*;

verus! {

/// An RGB color with three unsigned 8-bit channels.
#[derive(Clone, Copy, Debug, PartialEq, Eq, Structural)]
pub struct Color {
    pub r: u8,
    pub g: u8,
    pub b: u8,
}

/// Value of one ASCII hexadecimal digit; any other byte counts as zero.
pub open spec fn hex_digit(c: u8) -> int {
    if 48 <= c <= 57 {
        c - 48
    } else if 97 <= c <= 102 {
        c - 97 + 10
    } else if 65 <= c <= 70 {
        c - 65 + 10
    } else {
        0
    }
}

/// The color denoted by a hexadecimal literal `#HHH` or `#HHHHHH`;
/// any other byte string denotes black.
pub open spec fn spec_hex(s: Seq<u8>) -> Color {
    if s.len() == 4 && s[0] == 35 {
        Color {
            r: (17 * hex_digit(s[1])) as u8,
            g: (17 * hex_digit(s[2])) as u8,
            b: (17 * hex_digit(s[3])) as u8,
        }
    } else if s.len() == 7 && s[0] == 35 {
        Color {
            r: (16 * hex_digit(s[1]) + hex_digit(s[2])) as u8,
            g: (16 * hex_digit(s[3]) + hex_digit(s[4])) as u8,
            b: (16 * hex_digit(s[5]) + hex_digit(s[6])) as u8,
        }
    } else {
        Color { r: 0, g: 0, b: 0 }
    }
}

/// The on-disk byte triple of a color: channels reversed, stored B, G, R.
pub open spec fn bgr_bytes(c: Color) -> Seq<u8> {
    seq![c.b, c.g, c.r]
}

/// The color read back from an on-disk byte triple (stored B, G, R).
pub open spec fn color_of_bgr(b0: u8, b1: u8, b2: u8) -> Color {
    Color { r: b2, g: b1, b: b0 }
}

/// Convert an ASCII character to the hexadecimal digit it stands for;
/// characters that are no hexadecimal digit convert to 0.
fn char_to_hex(val: u8) -> (r: u8)
    ensures
        r == hex_digit(val),
{
    if 48 <= val && val <= 57 {
        val - 48
    } else if 97 <= val && val <= 102 {
        val - 97 + 10
    } else if 65 <= val && val <= 70 {
        val - 65 + 10
    } else {
        0
    }
}

impl Color {
    /// Parse a hexadecimal color value of the form `#HHH` or `#HHHHHH`;
    /// an invalid value yields black.
    pub fn hex(value: &[u8]) -> (r: Color)
        ensures
            r == spec_hex(value@),
    {
        if value.len() == 4 && value[0] == 35 {
            let r = char_to_hex(value[1]);
            let g = char_to_hex(value[2]);
            let b = char_to_hex(value[3]);
            Color { r: 16 * r + r, g: 16 * g + g, b: 16 * b + b }
        } else if value.len() == 7 && value[0] == 35 {
            let r1 = char_to_hex(value[1]);
            let r0 = char_to_hex(value[2]);
            let g1 = char_to_hex(value[3]);
            let g0 = char_to_hex(value[4]);
            let b1 = char_to_hex(value[5]);
            let b0 = char_to_hex(value[6]);
            Color { r: 16 * r1 + r0, g: 16 * g1 + g0, b: 16 * b1 + b0 }
        } else {
            Color { r: 0, g: 0, b: 0 }
        }
    }

    /// The gray color with all three channels equal to `value`.
    pub fn gray(value: u8) -> (r: Color)
        ensures
            r == (Color { r: value, g: value, b: value }),
    {
        Color { r: value, g: value, b: value }
    }

    /// The on-disk byte triple of this color.
    pub fn to_bytes(self) -> (r: [u8; 3])
        ensures
            r@ == bgr_bytes(self),
    {
        [self.b, self.g, self.r]
    }

    /// The color read back from an on-disk byte triple.
    pub fn from_bytes(buffer: [u8; 3]) -> (r: Color)
        ensures
            r == color_of_bgr(buffer[0], buffer[1], buffer[2]),
    {
        Color { r: buffer[2], g: buffer[1], b: buffer[0] }
    }
}

/// A color scaled by the light intensity `num / den`, channel by channel,
/// rounded down and saturated at full brightness; an intensity of zero or
/// less clamps to black.
pub open spec fn spec_light_ratio(c: Color, num: int, den: int) -> Color {
    if num <= 0 {
        Color { r: 0, g: 0, b: 0 }
    } else {
        Color {
            r: if c.r * num / den > 255 { 255u8 } else { (c.r * num / den) as u8 },
            g: if c.g * num / den > 255 { 255u8 } else { (c.g * num / den) as u8 },
            b: if c.b * num / den > 255 { 255u8 } else { (c.b * num / den) as u8 },
        }
    }
}

/// Scale one channel by the intensity `num / den` with `num > 0`.
fn light_channel(c: u8, num: i64, den: i64) -> (r: u8)
    requires
        0 < num,
        0 < den,
    ensures
        r == if (c as int) * num / (den as int) > 255 { 255int } else { (c as int) * num / (den as int) },
{
    proof {
        assert((c as int) * (num as int) <= 255 * 0x7fff_ffff_ffff_ffff) by (nonlinear_arith)
            requires 0 <= c <= 255, 0 < num <= 0x7fff_ffff_ffff_ffff;
    }
    let p = (c as u128) * (num as u128);
    let q = p / (den as u128);
    if q > 255 {
        255
    } else {
        q as u8
    }
}

impl Color {
    /// The color lit by the intensity `num / den`: each channel scaled and
    /// rounded down, saturating at full brightness; an intensity of zero or
    /// less yields black, the no-light color.
    pub fn light_ratio(self, num: i64, den: i64) -> (r: Color)
        requires
            0 < den,
        ensures
            r == spec_light_ratio(self, num as int, den as int),
    {
        if num <= 0 {
            Color { r: 0, g: 0, b: 0 }
        } else {
            Color {
                r: light_channel(self.r, num, den),
                g: light_channel(self.g, num, den),
                b: light_channel(self.b, num, den),
            }
        }
    }
}

/// Law: full light leaves a color unchanged, and any intensity of zero or
/// less clamps it to black.
pub proof fn lemma_light_ratio_ends(c: Color, num: int, den: int)
    requires
        den > 0,
    ensures
        spec_light_ratio(c, den, den) == c,
        num <= 0 ==> spec_light_ratio(c, num, den) == (Color { r: 0, g: 0, b: 0 }),
{
    vstd::arithmetic::div_mod::lemma_div_multiples_vanish(c.r as int, den);
    vstd::arithmetic::div_mod::lemma_div_multiples_vanish(c.g as int, den);
    vstd::arithmetic::div_mod::lemma_div_multiples_vanish(c.b as int, den);
    assert(c.r * den == den * (c.r as int) && c.g * den == den * (c.g as int)
        && c.b * den == den * (c.b as int)) by (nonlinear_arith);
}

/// Writing a color to its on-disk byte triple and reading it back
/// returns the color itself.
pub proof fn lemma_color_bytes_round_trip(c: Color)
    ensures
        color_of_bgr(bgr_bytes(c)[0], bgr_bytes(c)[1], bgr_bytes(c)[2]) == c,
{
}

} // verus!
