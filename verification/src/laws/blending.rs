//! What laying one layer over another does.
use crate::chess;
use crate::path;
use crate::path::Cmd;
use crate::render;
use vstd::prelude::*;

verus! {

/// What is laid over an empty pixel is all there is to be seen.
pub proof fn law_the_first_layer_shows_as_it_is(tone: u8, ink: u8, source: u8)
    requires
        source > 0,
    ensures
        chess::blended((tone, 0), ink, source) == (ink, source),
{
    let rest = 255 - source;
    assert(0 * rest == 0);
    assert(tone * 0 * rest == 0) by (nonlinear_arith);
    assert(chess::blended_alpha(0, source) == source);
    let half = source as int / 2;
    assert(0 <= half < source);
    assert((ink * source + half) / (source as int) == ink) by {
        vstd::arithmetic::div_mod::lemma_fundamental_div_mod_converse(
            ink * source + half,
            source as int,
            ink as int,
            half,
        );
    }
}

/// A solid layer hides what is below it.
pub proof fn law_a_solid_layer_hides_the_rest(pixel: (u8, u8), ink: u8)
    ensures
        chess::blended(pixel, ink, 255) == (ink, 255u8),
{
    assert(pixel.1 * 0 == 0);
    assert(pixel.0 * pixel.1 * 0 == 0);
    assert((ink * 255 + 127) / 255 == ink);
}

/// A clear layer changes nothing.
pub proof fn law_a_clear_layer_changes_nothing(pixel: (u8, u8), ink: u8)
    ensures
        chess::blended(pixel, ink, 0) == pixel,
{
}

/// A layer never makes a pixel clearer than it or the layer was, and what comes
/// out is never beyond solid.
pub proof fn law_layers_never_clear(alpha: u8, source: u8)
    ensures
        alpha <= chess::blended_alpha(alpha, source) <= 255,
        source <= chess::blended_alpha(alpha, source),
{
    let rest = 255 - source;
    let product = alpha * rest;
    assert(0 <= product <= 255 * rest) by (nonlinear_arith)
        requires
            product == alpha * rest,
            0 <= alpha <= 255,
            0 <= rest,
    ;
    // Of the layer, at least the share that the pixel lacks is added.
    assert(255 * source + product >= 255 * alpha) by (nonlinear_arith)
        requires
            product == alpha * (255 - source),
            0 <= alpha <= 255,
            0 <= source,
    ;
}

/// The order of two layers does not matter to how solid they are together.
pub proof fn law_solidity_has_no_order(a: u8, b: u8)
    ensures
        chess::blended_alpha(a, b) == chess::blended_alpha(b, a),
{
    let (p, q) = (a * (255 - b), b * (255 - a));
    assert(255 * b + p == 255 * a + q) by (nonlinear_arith)
        requires
            p == a * (255 - b),
            q == b * (255 - a),
    ;
    assert((p + 127 + 255 * b) / 255 == (p + 127) / 255 + b);
    assert((q + 127 + 255 * a) / 255 == (q + 127) / 255 + a);
}

/// A pixel of a stack is as solid as any of its layers, at least.
pub proof fn law_a_stack_is_as_solid_as_its_layers(
    stack: Seq<(u8, Seq<Cmd>)>,
    size: int,
    index: int,
    k: int,
)
    requires
        0 <= k < stack.len(),
    ensures
        render::picture(seq![path::Figure::Fill(stack[k].1)], size)[index] <= chess::layered(
            stack,
            size,
            index,
        ).1,
    decreases stack.len(),
{
    let below = chess::layered(stack.drop_last(), size, index);
    let source = render::picture(seq![path::Figure::Fill(stack.last().1)], size)[index];
    law_layers_never_clear(below.1, source);
    if k < stack.len() - 1 {
        assert(stack.drop_last()[k] == stack[k]);
        law_a_stack_is_as_solid_as_its_layers(stack.drop_last(), size, index, k);
    }
}

/// Where no layer of a stack has ink, the image is clear.
pub proof fn law_no_layer_no_ink(stack: Seq<(u8, Seq<Cmd>)>, size: int, index: int)
    requires
        forall|k: int|
            0 <= k < stack.len() ==> render::picture(
                seq![path::Figure::Fill((#[trigger] stack[k]).1)],
                size,
            )[index] == 0,
    ensures
        chess::layered(stack, size, index) == (0u8, 0u8),
    decreases stack.len(),
{
    if stack.len() > 0 {
        let below = stack.drop_last();
        assert forall|k: int| 0 <= k < below.len() implies render::picture(
            seq![path::Figure::Fill((#[trigger] below[k]).1)],
            size,
        )[index] == 0 by {
            assert(below[k] == stack[k]);
        }
        law_no_layer_no_ink(below, size, index);
        assert(stack[stack.len() - 1] == stack.last());
    }
}

/// Laying something over a pixel mixes alphas and inks by what is to be seen of
/// each: of the pixel, the share that what lies on top leaves. The alpha is the
/// nearest step. The ink of the pixel that is still seen, `below`, is rounded down; and
/// the tone, times the alpha, is nearest to the ink of both, halves going up, but it ends
/// at white.
pub proof fn law_layers_mix_by_what_is_seen(pixel: (u8, u8), ink: u8, source: u8, below: int)
    requires
        0 < source,
        255 * below <= pixel.0 * pixel.1 * (255 - source) < 255 * (below + 1),
    ensures
        ({
            let mixed = chess::blended(pixel, ink, source);
            let (tone, alpha) = (mixed.0 as int, mixed.1 as int);
            let shown = 255 * source + pixel.1 * (255 - source);
            let inks = ink * source + below;
            &&& -127 <= 255 * alpha - shown <= 127
            &&& 2 * (alpha * tone - inks) <= alpha
            &&& tone == 255 || 2 * (inks - alpha * tone) < alpha
        }),
{
    let rest = 255 - source;
    law_layers_never_clear(pixel.1, source);
    let product = pixel.1 * rest;
    let kept = (product + 127) / 255;
    let alpha = chess::blended_alpha(pixel.1, source);
    assert(alpha == source + kept);
    let dark = pixel.0 * pixel.1 * rest;
    assert(0 <= dark) by (nonlinear_arith)
        requires
            dark == pixel.0 * pixel.1 * rest,
            0 <= rest,
    ;
    assert(0 <= product) by (nonlinear_arith)
        requires
            product == pixel.1 * rest,
            0 <= rest,
    ;
    assert(below == dark / 255);
    let sum = ink * source + below + alpha / 2;
    assert(0 <= ink * source) by (nonlinear_arith);
    let tone = sum / alpha;
    vstd::arithmetic::div_mod::lemma_fundamental_div_mod(sum, alpha);
    vstd::arithmetic::div_mod::lemma_mod_bound(sum, alpha);
    vstd::arithmetic::div_mod::lemma_div_pos_is_pos(sum, alpha);
    assert(alpha * tone <= sum < alpha * tone + alpha);
    let mixed = chess::blended(pixel, ink, source);
    assert(mixed.1 == alpha && mixed.0 == chess::byte(tone));
    if tone > 255 {
        assert(alpha * 255 <= alpha * tone) by (nonlinear_arith)
            requires
                0 < alpha,
                255 < tone,
        ;
    }
}

/// Over a solid pixel, the new tone is the mean of both by the share of the layer,
/// to the nearest step, and the pixel stays solid. However faint a layer is, it
/// is seen.
pub proof fn law_tones_mix_over_a_solid_pixel(tone: u8, ink: u8, source: u8)
    requires
        0 < source,
    ensures
        ({
            let mixed = chess::blended((tone, 255), ink, source);
            let mean = ink * source + tone * (255 - source);
            &&& mixed.1 == 255
            &&& -127 <= 255 * mixed.0 - mean <= 127
        }),
{
    let rest = 255 - source;
    assert(255 * source + 255 * rest == 255 * 255);
    assert((255 * rest + 127) / 255 == rest);
    let product = tone * rest;
    assert(0 <= product <= 255 * rest) by (nonlinear_arith)
        requires
            product == tone * rest,
            0 <= tone <= 255,
            0 <= rest,
    ;
    assert(tone * 255 * rest == 255 * product) by (nonlinear_arith)
        requires
            product == tone * rest,
    ;
    assert((255 * product) / 255 == product);
    assert(0 <= ink * source <= 255 * source) by (nonlinear_arith)
        requires
            0 <= ink <= 255,
            0 <= source,
    ;
    let sum = ink * source + product + 127;
    assert(chess::blended_alpha(255, source) == 255);
    assert(chess::blended((tone, 255), ink, source).0 == sum / 255);
}

/// Layers are laid one over the other, the lowest first, on a pixel that starts out
/// empty: with one more layer on top, a pixel is what it was before with that layer
/// laid over it, as far as the layer covers the pixel.
pub proof fn law_layers_are_laid_in_turn(
    stack: Seq<(u8, Seq<Cmd>)>,
    layer: (u8, Seq<Cmd>),
    size: int,
    index: int,
)
    ensures
        chess::layered(Seq::empty(), size, index) == (0u8, 0u8),
        chess::layered(stack.push(layer), size, index) == chess::blended(
            chess::layered(stack, size, index),
            layer.0,
            render::picture(seq![path::Figure::Fill(layer.1)], size)[index],
        ),
{
    assert(stack.push(layer).drop_last() =~= stack);
}

/// An image that shows a stack has its size, a tone and an alpha for every pixel,
/// and both are those of the stack at that pixel.
pub proof fn law_an_image_shows_its_stack(
    image: chess::ColoredCoverage,
    stack: Seq<(u8, Seq<Cmd>)>,
    size: int,
    index: int,
)
    requires
        0 < size,
        chess::shows(image, stack, size),
        0 <= index < size * size,
    ensures
        image.size == size,
        image.tone@.len() == size * size,
        image.alpha@.len() == size * size,
        (image.tone@[index], image.alpha@[index]) == chess::layered(stack, size, index),
{
}

} // verus!
