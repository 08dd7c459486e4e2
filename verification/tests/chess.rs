use kobo_ui::chess::{blend, composite, rasterised};
use kobo_ui::piece_art::{layers, Layer};
use kobo_ui::{chess_coverage, render, ChessCache, Glyph, Path, Shape};
use std::sync::Arc;

fn block(tone: u8, left: i32, right: i32) -> Layer {
    Layer {
        tone,
        path: Path::new()
            .move_to(left, 0)
            .line_to(right, 0)
            .line_to(right, 1000)
            .line_to(left, 1000)
            .close(),
    }
}

#[test]
fn a_solid_layer_hides_what_is_below() {
    for pixel in [(0, 0), (10, 200), (255, 255)] {
        assert_eq!(blend(pixel.0, pixel.1, 77, 255), (77, 255));
    }
}

#[test]
fn a_clear_layer_changes_nothing() {
    for pixel in [(0, 0), (10, 200), (255, 255)] {
        assert_eq!(blend(pixel.0, pixel.1, 77, 0), pixel);
    }
}

#[test]
fn the_first_layer_shows_as_it_is() {
    for source in 1..=255 {
        for ink in [0, 1, 127, 254, 255] {
            assert_eq!(blend(99, 0, ink, source), (ink, source));
        }
    }
}

#[test]
fn layers_mix_by_how_much_is_seen_of_each() {
    // 128 over a solid white pixel: the rest of 127 parts stays white.
    assert_eq!(blend(255, 255, 0, 128), (127, 255));
    // 100 + (50 * 155 + 127) / 255 is 130; the ink is 200 * 100 + 10 * 50 * 155 / 255.
    assert_eq!(blend(10, 50, 200, 100), (156, 130));
}

#[test]
fn a_tone_is_cut_off_at_white() {
    // The rounded alpha is a little short of the exact one, so that white over
    // white comes out as 256 before it is cut off.
    assert_eq!(blend(255, 128, 255, 1), (255, 128));
}

#[test]
fn layers_never_clear_and_solidity_has_no_order() {
    for below in 0..=255 {
        for source in 0..=255 {
            let (_, alpha) = blend(0, below, 0, source);
            assert!(alpha >= below && alpha >= source);
            assert_eq!(alpha, blend(0, source, 0, below).1);
        }
    }
}

#[test]
fn a_stack_is_laid_from_the_lowest_up() {
    let image = composite(&vec![block(0, 0, 1000), block(255, 500, 1000)], 2);
    assert_eq!(image.size, 2);
    assert_eq!(image.alpha, vec![255; 4]);
    assert_eq!(image.tone, vec![0, 255, 0, 255]);
    let image = composite(&vec![block(255, 500, 1000), block(0, 0, 1000)], 2);
    assert_eq!(image.tone, vec![0; 4]);
    let image = composite(&Vec::new(), 2);
    assert_eq!((image.tone, image.alpha), (vec![0; 4], vec![0; 4]));
    // Half a pixel of white on black.
    let image = composite(&vec![block(0, 0, 1000), block(255, 0, 250)], 2);
    assert_eq!(image.tone, vec![127, 0, 127, 0]);
}

#[test]
fn a_stack_is_as_solid_as_its_layers() {
    let stack = layers(Glyph::ChessWhiteKnight).expect("a chess piece");
    let image = composite(&stack, 48);
    for layer in &stack {
        let alone = render(&[Shape::Fill(layer.path.clone())], 48);
        for (one, all) in alone.alpha.iter().zip(&image.alpha) {
            assert!(one <= all);
        }
    }
    assert_eq!(image.tone.len(), 48 * 48);
    assert_eq!(image.alpha.len(), 48 * 48);
}

#[test]
fn only_chess_pieces_have_tones() {
    let chess = 4..16;
    for (place, glyph) in Glyph::ALL.into_iter().enumerate() {
        let mut cache = ChessCache::new();
        assert_eq!(chess_coverage(&mut cache, glyph, 8).is_some(), chess.contains(&place));
        assert!(chess_coverage(&mut cache, glyph, 0).is_none());
        assert!(chess_coverage(&mut cache, glyph, -3).is_none());
    }
}

#[test]
fn the_cache_gives_what_rasterising_gives() {
    let mut cache = ChessCache::new();
    for glyph in [Glyph::ChessWhiteKing, Glyph::ChessBlackPawn] {
        for size in [1, 20, 33] {
            let direct = rasterised(glyph, size).expect("a chess piece");
            let first = Arc::clone(cache.coverage(glyph, size).expect("a chess piece"));
            let again = Arc::clone(cache.coverage(glyph, size).expect("a chess piece"));
            assert_eq!(first.size, size);
            assert_eq!(first.tone, direct.tone);
            assert_eq!(first.alpha, direct.alpha);
            assert!(Arc::ptr_eq(&first, &again));
        }
    }
    assert!(cache.coverage(Glyph::Mill, 20).is_none());
    assert!(cache.coverage(Glyph::ChessWhiteKing, 0).is_none());
    assert!(cache.coverage(Glyph::ChessWhiteKing, -1).is_none());
}

#[test]
fn the_cache_keeps_sizes_and_pieces_apart() {
    let mut cache = ChessCache::new();
    for glyph in Glyph::ALL {
        for size in [5, 6] {
            let kept = cache.coverage(glyph, size).map(|image| (image.size, image.alpha.clone()));
            let direct = rasterised(glyph, size).map(|image| (image.size, image.alpha.clone()));
            assert_eq!(kept, direct);
        }
    }
}

#[test]
fn what_the_cache_keeps_it_keeps() {
    let mut cache = ChessCache::new();
    let king = Arc::clone(cache.coverage(Glyph::ChessWhiteKing, 12).expect("a chess piece"));
    for glyph in Glyph::ALL {
        for size in [-2, 0, 11, 12, 13] {
            cache.coverage(glyph, size);
        }
    }
    let again = cache.coverage(Glyph::ChessWhiteKing, 12).expect("a chess piece");
    assert!(Arc::ptr_eq(&king, again));
}

#[test]
fn whoever_asks_again_is_given_the_same_image() {
    let mut cache = ChessCache::new();
    let first = chess_coverage(&mut cache, Glyph::ChessBlackRook, 30).expect("a chess piece");
    let other = chess_coverage(&mut cache, Glyph::ChessBlackRook, 31).expect("a chess piece");
    let again = chess_coverage(&mut cache, Glyph::ChessBlackRook, 30).expect("a chess piece");
    assert!(Arc::ptr_eq(&first, &again));
    assert_eq!((first.size, other.size), (30, 31));
    let direct = rasterised(Glyph::ChessBlackRook, 30).expect("a chess piece");
    assert_eq!((&first.tone, &first.alpha), (&direct.tone, &direct.alpha));
}

#[test]
fn black_pieces_carry_more_ink_at_larger_sizes_too() {
    let pieces = Glyph::ALL[4..16].to_vec();
    for size in [96, 97, 120, 151, 200] {
        for kind in 0..6 {
            let ink = |glyph: Glyph| -> usize {
                let image = rasterised(glyph, size).expect("a chess piece");
                let pixels = image.tone.iter().zip(&image.alpha);
                pixels.map(|(&tone, &alpha)| usize::from(255 - tone) * usize::from(alpha) / 255).sum()
            };
            assert!(ink(pieces[kind + 6]) > ink(pieces[kind]));
        }
    }
}
