//! Colors and their classification into semantic roles.
//!
//! A `ColorLedger` maps a color to the role it plays in a glyph: a registered
//! input color, a registered output color, the function-marker color, or a
//! numeric loop marker. Classification precedence is fixed and total:
//! input, then output, then function marker, then the loop-marker rule.

use vstd::prelude::*;

verus! {

/// An RGB color with 8-bit channels. Equality is exact channel match.
#[derive(Clone, Copy, Debug, PartialEq, Eq, Structural)]
pub struct Color {
    pub r: u8,
    pub g: u8,
    pub b: u8,
}

impl Color {
    /// Builds a color from its three channels.
    pub fn from(r: u8, g: u8, b: u8) -> (c: Self)
        ensures
            c == (Color { r, g, b }),
    {
        Color { r, g, b }
    }

    /// The blank color: a consumed or irrelevant pixel.
    pub fn white() -> (c: Self)
        ensures
            c == white(),
    {
        Color { r: 255, g: 255, b: 255 }
    }

    /// The fallback function-marker color.
    pub fn blue() -> (c: Self)
        ensures
            c == blue(),
    {
        Color { r: 0, g: 0, b: 255 }
    }
}

/// The blank color, white.
pub open spec fn white() -> Color {
    Color { r: 255, g: 255, b: 255 }
}

/// The fallback function-marker color, blue.
pub open spec fn blue() -> Color {
    Color { r: 0, g: 0, b: 255 }
}

/// The semantic role of a classified color.
#[derive(Clone, Copy, Debug, PartialEq, Eq, Structural)]
pub enum ColorType {
    /// A registered output color.
    Output(Color),
    /// A registered input color.
    Input(Color),
    /// The function-marker color.
    Function,
    /// A numeric loop marker: a color of the form (N, 0, 0) denotes the literal N.
    Loop(u8),
}

/// The registry of colors that matter to the machine: input colors, output
/// colors, and the single function-marker color.
#[derive(Clone, Debug)]
pub struct ColorLedger {
    pub inputs: Vec<Color>,
    pub outputs: Vec<Color>,
    pub function: Color,
}

/// The classification of `color` under the given registered colors, with its
/// fixed precedence: registered input, then registered output, then the
/// function marker, then the loop-marker rule (green and blue channels zero),
/// then unclassified. A color matching an earlier rule never falls through
/// to a later one.
pub open spec fn spec_classify(
    inputs: Seq<Color>,
    outputs: Seq<Color>,
    function: Color,
    color: Color,
) -> Option<ColorType> {
    if inputs.contains(color) {
        Some(ColorType::Input(color))
    } else if outputs.contains(color) {
        Some(ColorType::Output(color))
    } else if color == function {
        Some(ColorType::Function)
    } else if color.g == 0 && color.b == 0 {
        Some(ColorType::Loop(color.r))
    } else {
        None
    }
}

/// Returns whether the vector contains the color.
fn contains_color(v: &Vec<Color>, color: Color) -> (r: bool)
    ensures
        r == v@.contains(color),
{
    let mut i: usize = 0;
    while i < v.len()
        invariant
            i <= v@.len(),
            forall|k: int| 0 <= k < i ==> v@[k] != color,
        decreases v@.len() - i,
    {
        if v[i] == color {
            assert(v@.contains(color));
            return true;
        }
        i += 1;
    }
    assert(!v@.contains(color));
    false
}

impl ColorLedger {
    /// The classification of a color under this ledger.
    pub open spec fn classify(self, color: Color) -> Option<ColorType> {
        spec_classify(self.inputs@, self.outputs@, self.function, color)
    }

    /// Classifies a color: its semantic role if the ledger knows it, `None` otherwise.
    pub fn identify(&self, color: &Color) -> (r: Option<ColorType>)
        ensures
            r == self.classify(*color),
    {
        if contains_color(&self.inputs, *color) {
            return Some(ColorType::Input(*color));
        }
        if contains_color(&self.outputs, *color) {
            return Some(ColorType::Output(*color));
        }
        if self.function == *color {
            return Some(ColorType::Function);
        }
        if color.g == 0 && color.b == 0 {
            return Some(ColorType::Loop(color.r));
        }
        None
    }
}

/// Classification precedence never falls through: a color satisfying the
/// loop-marker rule that is also a registered input classifies as an input;
/// a registered input is never reported as output, function, or loop; and a
/// registered output is never reported as function or loop.
pub proof fn lemma_classification_precedence(ledger: ColorLedger, color: Color)
    ensures
        ledger.inputs@.contains(color) ==> ledger.classify(color) == Some(
            ColorType::Input(color),
        ),
        !ledger.inputs@.contains(color) && ledger.outputs@.contains(color)
            ==> ledger.classify(color) == Some(ColorType::Output(color)),
        !ledger.inputs@.contains(color) && !ledger.outputs@.contains(color) && color
            == ledger.function ==> ledger.classify(color) == Some(ColorType::Function),
        !ledger.inputs@.contains(color) && !ledger.outputs@.contains(color) && color
            != ledger.function && color.g == 0 && color.b == 0 ==> ledger.classify(color) == Some(
            ColorType::Loop(color.r),
        ),
{
}

} // verus!
