use vstd::prelude::*;

use crate::color::{match_index, Color};

verus! {

/// What a pixel of color `source` becomes: the palette's match for it, or
/// `source` itself when the palette is empty.
pub open spec fn remapped(source: Color, palette: Seq<Color>) -> Color {
    if palette.len() == 0 {
        source
    } else {
        palette[match_index(source.brightness(), palette)]
    }
}

/// Maps one source pixel to the color written in its place.
pub fn remap_pixel(source: &Color, palette: &Vec<Color>) -> (c: Color)
    ensures
        c == remapped(*source, palette@),
{
    match Color::find_most_similar(source, palette) {
        Some(found) => *found,
        None => *source,
    }
}

/// Maps every source pixel, in order, to the color written in its place.
pub fn convert_pixels(source: &Vec<Color>, palette: &Vec<Color>) -> (target: Vec<Color>)
    ensures
        target@.len() == source@.len(),
        forall|i: int| 0 <= i < source@.len() ==> target@[i] == remapped(source@[i], palette@),
{
    let mut target: Vec<Color> = Vec::new();
    let mut i: usize = 0;
    while i < source.len()
        invariant
            i <= source@.len(),
            target@.len() == i,
            forall|j: int| 0 <= j < i ==> target@[j] == remapped(source@[j], palette@),
        decreases source@.len() - i,
    {
        target.push(remap_pixel(&source[i], palette));
        i = i + 1;
    }
    target
}

} // verus!
