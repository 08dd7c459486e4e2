//! Chess pieces: light and dark areas laid over one another.
use crate::coverage::Coverage;
use crate::glyph::Glyph;
use crate::path;
use crate::path::{Cmd, Shape};
use crate::piece_art;
use crate::piece_art::Layer;
use crate::render;
use std::sync::Arc;
use vstd::prelude::*;

verus! {

/// Layered chess art preserves the light and dark fills of the pieces.
#[derive(Debug)]
pub struct ColoredCoverage {
    pub size: i32,
    pub tone: Vec<u8>,
    pub alpha: Vec<u8>,
}

/// A number, cut off at the largest byte.
pub open spec fn byte(n: int) -> u8 {
    if n > 255 {
        255
    } else {
        n as u8
    }
}

/// The alpha of a pixel with something laid over it: what lies on top, and of
/// the rest the share that was there before, to the nearest step.
pub open spec fn blended_alpha(alpha: u8, source: u8) -> int {
    source + (alpha * (255 - source) + 127) / 255
}

/// A pixel, tone and alpha, after ink is laid over it with the alpha `source`.
/// The new tone is the mean of both, by how much of each is to be seen.
pub open spec fn blended(pixel: (u8, u8), ink: u8, source: u8) -> (u8, u8) {
    if source == 0 {
        pixel
    } else {
        let alpha = blended_alpha(pixel.1, source);
        let below = pixel.0 * pixel.1 * (255 - source) / 255;
        (byte((ink * source + below + alpha / 2) / alpha), byte(alpha))
    }
}

/// A pixel under a stack of layers, the lowest first. It starts out empty.
pub open spec fn layered(stack: Seq<(u8, Seq<Cmd>)>, size: int, index: int) -> (u8, u8)
    decreases stack.len(),
{
    if stack.len() == 0 {
        (0, 0)
    } else {
        let top = stack.last();
        blended(
            layered(stack.drop_last(), size, index),
            top.0,
            render::picture(seq![path::Figure::Fill(top.1)], size)[index],
        )
    }
}

/// The tones of a stack of layers, row by row.
pub open spec fn tones(stack: Seq<(u8, Seq<Cmd>)>, size: int) -> Seq<u8> {
    Seq::new((size * size) as nat, |i: int| layered(stack, size, i).0)
}

/// The alpha values of a stack of layers, row by row.
pub open spec fn opacities(stack: Seq<(u8, Seq<Cmd>)>, size: int) -> Seq<u8> {
    Seq::new((size * size) as nat, |i: int| layered(stack, size, i).1)
}

/// Whether an image shows a stack of layers in a box of `size`.
pub open spec fn shows(image: ColoredCoverage, stack: Seq<(u8, Seq<Cmd>)>, size: int) -> bool {
    &&& image.size == size
    &&& image.tone@ == tones(stack, size)
    &&& image.alpha@ == opacities(stack, size)
}

/// Lays ink over one pixel.
pub fn blend(tone: u8, alpha: u8, ink: u8, source: u8) -> (pixel: (u8, u8))
    ensures
        pixel == blended((tone, alpha), ink, source),
{
    if source == 0 {
        return (tone, alpha);
    }
    let top: u32 = source as u32;
    let old_alpha: u32 = alpha as u32;
    let remaining: u32 = 255 - top;
    proof {
        lemma_blend_bounds(tone, alpha, ink, source);
    }
    let next_alpha: u32 = top + (old_alpha * remaining + 127) / 255;
    let old_ink: u32 = tone as u32 * old_alpha * remaining / 255;
    let next_ink: u32 = ink as u32 * top + old_ink;
    (byte_of((next_ink + next_alpha / 2) / next_alpha), byte_of(next_alpha))
}

/// The products of a blend are small.
proof fn lemma_blend_bounds(tone: u8, alpha: u8, ink: u8, source: u8)
    ensures
        0 <= alpha * (255 - source) <= 65025,
        0 <= tone * alpha <= 65025,
        0 <= tone * alpha * (255 - source) <= 16581375,
        0 <= ink * source <= 65025,
{
    assert(0 <= alpha * (255 - source) <= 65025) by (nonlinear_arith);
    assert(0 <= tone * alpha <= 65025) by (nonlinear_arith);
    assert(0 <= ink * source <= 65025) by (nonlinear_arith);
    let product = tone * alpha;
    assert(0 <= product * (255 - source) <= 16581375) by (nonlinear_arith)
        requires
            0 <= product <= 65025,
    ;
}

/// Cuts a number off at the largest byte.
fn byte_of(n: u32) -> (r: u8)
    ensures
        r == byte(n as int),
{
    if n > 255 {
        255
    } else {
        n as u8
    }
}

/// Lays the layers of a stack over one another, the lowest first.
#[must_use]
pub fn composite(layers: &Vec<Layer>, size: i32) -> (image: ColoredCoverage)
    requires
        0 < size,
        size * size <= usize::MAX,
    ensures
        shows(image, piece_art::stack(layers@), size as int),
{
    assert(0 <= size * size) by (nonlinear_arith)
        requires
            0 < size,
    ;
    let count: usize = size as usize * size as usize;
    let ghost all = piece_art::stack(layers@);
    let mut tone: Vec<u8> = vec![0u8; count];
    let mut alpha: Vec<u8> = vec![0u8; count];
    let total: usize = layers.len();
    assert(tone@ =~= tones(all.take(0), size as int));
    assert(alpha@ =~= opacities(all.take(0), size as int));
    for k in 0..total
        invariant
            0 < size,
            count == size * size,
            total == layers@.len(),
            all == piece_art::stack(layers@),
            tone@ == tones(all.take(k as int), size as int),
            alpha@ == opacities(all.take(k as int), size as int),
    {
        proof {
            assert(all.take(k + 1).drop_last() =~= all.take(k as int));
            assert(all.take(k + 1).last() == layers@[k as int]@);
        }
        lay_over(&mut tone, &mut alpha, &layers[k], size, Ghost(all.take(k as int)));
        assert(all.take(k as int).push(layers@[k as int]@) =~= all.take(k + 1));
    }
    assert(all.take(total as int) =~= all);
    ColoredCoverage { size, tone, alpha }
}

/// Lays one more layer over an image.
fn lay_over(
    tone: &mut Vec<u8>,
    alpha: &mut Vec<u8>,
    layer: &Layer,
    size: i32,
    Ghost(below): Ghost<Seq<(u8, Seq<Cmd>)>>,
)
    requires
        0 < size,
        size * size <= usize::MAX,
        old(tone)@ == tones(below, size as int),
        old(alpha)@ == opacities(below, size as int),
    ensures
        final(tone)@ == tones(below.push(layer@), size as int),
        final(alpha)@ == opacities(below.push(layer@), size as int),
{
    let shapes: Vec<Shape> = vec![Shape::Fill(layer.path.clone())];
    let coverage: Coverage = render::render(shapes.as_slice(), size);
    let ghost source = coverage.alpha@;
    let ghost stack = below.push(layer@);
    let count: usize = coverage.alpha.len();
    proof {
        assert(path::figures(shapes@) =~= seq![path::Figure::Fill(layer.path@)]);
        assert(stack.drop_last() =~= below);
        assert(0 <= size * size) by (nonlinear_arith)
            requires
                0 < size,
        ;
    }
    for i in 0..count
        invariant
            count == size * size,
            source == coverage.alpha@,
            source == render::picture(seq![path::Figure::Fill(layer.path@)], size as int),
            source.len() == count,
            stack.drop_last() == below,
            stack.last() == layer@,
            stack.len() > 0,
            tone@.len() == count,
            alpha@.len() == count,
            forall|j: int|
                #![trigger tone@[j]]
                #![trigger alpha@[j]]
                0 <= j < count ==> (tone@[j], alpha@[j]) == layered(
                    if j < i {
                        stack
                    } else {
                        below
                    },
                    size as int,
                    j,
                ),
    {
        let (t, a) = blend(tone[i], alpha[i], layer.tone, coverage.alpha[i]);
        assert((tone@[i as int], alpha@[i as int]) == layered(below, size as int, i as int));
        tone.set(i, t);
        alpha.set(i, a);
    }
    assert(tone@ =~= tones(stack, size as int));
    assert(alpha@ =~= opacities(stack, size as int));
}

/// Rasterises a chess piece: nothing for any other glyph, and nothing in a box
/// without room.
#[must_use]
pub fn rasterised(glyph: Glyph, size: i32) -> (image: Option<Arc<ColoredCoverage>>)
    requires
        0 < size && piece_art::piece_layers(glyph) is Some ==> size * size <= usize::MAX,
    ensures
        image is Some <==> 0 < size && piece_art::piece_layers(glyph) is Some,
        image is Some ==> shows(*image->0, piece_art::piece_layers(glyph)->0, size as int),
{
    if size <= 0 {
        return None;
    }
    match piece_art::layers(glyph) {
        None => None,
        Some(layers) => Some(Arc::new(composite(&layers, size))),
    }
}

} // verus!
