//! Rasterised chess pieces, kept for the next time.
use crate::chess;
use crate::chess::ColoredCoverage;
use crate::glyph::Glyph;
use crate::piece_art;
use std::collections::HashMap;
use std::sync::Arc;
use vstd::prelude::*;

verus! {

broadcast use vstd::std_specs::hash::group_hash_axioms;

/// Caches the twelve rasterised pieces at each requested board size. A move
/// redraws the whole board, so rasterising every path again would slow each
/// tap.
pub struct ChessCache {
    images: HashMap<u64, Arc<ColoredCoverage>>,
}

/// The key of a glyph at a size.
spec fn key(glyph: Glyph, size: i32) -> u64 {
    (0x1_0000_0000 * glyph.place() + size) as u64
}

/// Whether an image is at hand.
spec fn cached(images: Map<u64, Arc<ColoredCoverage>>, glyph: Glyph, size: i32) -> bool {
    images.contains_key(key(glyph, size))
}

impl View for ChessCache {
    type V = Map<(Glyph, i32), Arc<ColoredCoverage>>;

    /// The images that are at hand, by piece and size.
    closed spec fn view(&self) -> Map<(Glyph, i32), Arc<ColoredCoverage>> {
        Map::new(
            |at: (Glyph, i32)| 0 < at.1 && cached(self.images@, at.0, at.1),
            |at: (Glyph, i32)| self.images@[key(at.0, at.1)],
        )
    }
}

/// Two glyphs, or two sizes, have two keys.
proof fn lemma_key(glyph: Glyph, size: i32, other: Glyph, extent: i32)
    requires
        0 < size,
        0 < extent,
        key(glyph, size) == key(other, extent),
    ensures
        glyph == other,
        size == extent,
{
    crate::glyph::lemma_all(glyph);
    crate::glyph::lemma_all(other);
}

impl ChessCache {
    /// Whatever is at hand is what rasterising it again would give.
    #[verifier::type_invariant]
    spec fn faithful(self) -> bool {
        forall|glyph: Glyph, size: i32|
            0 < size && #[trigger] cached(self.images@, glyph, size)
                ==> piece_art::piece_layers(glyph) is Some && chess::shows(
                *self.images@[key(glyph, size)],
                piece_art::piece_layers(glyph)->0,
                size as int,
            )
    }

    #[must_use]
    pub fn new() -> (cache: Self)
        ensures
            cache@ == Map::<(Glyph, i32), Arc<ColoredCoverage>>::empty(),
    {
        let cache = ChessCache { images: HashMap::new() };
        assert(cache@ =~= Map::<(Glyph, i32), Arc<ColoredCoverage>>::empty());
        cache
    }

    /// The rasterised chess piece: none for any other glyph, and none in a box
    /// without room. An image that is at hand is handed back as it is, and
    /// nothing changes; any other is rasterised, and kept for the next time.
    pub fn coverage(&mut self, glyph: Glyph, size: i32) -> (image: Option<&Arc<ColoredCoverage>>)
        requires
            0 < size && piece_art::piece_layers(glyph) is Some ==> size * size <= usize::MAX,
        ensures
            image is Some <==> 0 < size && piece_art::piece_layers(glyph) is Some,
            image is Some ==> chess::shows(
                **image->0,
                piece_art::piece_layers(glyph)->0,
                size as int,
            ),
            image is None || old(self)@.contains_key((glyph, size)) ==> final(self)@ == old(self)@,
            image is Some && !old(self)@.contains_key((glyph, size)) ==> final(self)@ ==
                old(self)@.insert((glyph, size), *image->0),
            image is Some ==> final(self)@.contains_key((glyph, size)) && *image->0 ==
                final(self)@[(glyph, size)],
    {
        proof {
            use_type_invariant(&*self);
        }
        if size <= 0 {
            return None;
        }
        let index: u64 = 0x1_0000_0000 * glyph.index() as u64 + size as u64;
        assert(index == key(glyph, size));
        if !self.images.contains_key(&index) {
            match chess::rasterised(glyph, size) {
                None => {
                    return None;
                },
                Some(image) => {
                    self.keep(glyph, size, index, image);
                },
            }
        }
        proof {
            use_type_invariant(&*self);
            assert(cached(self.images@, glyph, size));
        }
        self.images.get(&index)
    }

    /// Adds an image.
    fn keep(&mut self, glyph: Glyph, size: i32, index: u64, image: Arc<ColoredCoverage>)
        requires
            0 < size,
            index == key(glyph, size),
            piece_art::piece_layers(glyph) is Some,
            chess::shows(*image, piece_art::piece_layers(glyph)->0, size as int),
        ensures
            final(self).images@ == old(self).images@.insert(index, image),
            final(self)@ == old(self)@.insert((glyph, size), image),
    {
        proof {
            use_type_invariant(&*self);
        }
        let ghost before = self.images@;
        let mut images: HashMap<u64, Arc<ColoredCoverage>> = HashMap::new();
        std::mem::swap(&mut images, &mut self.images);
        images.insert(index, image);
        proof {
            assert forall|g: Glyph, s: i32| 0 < s && #[trigger] cached(images@, g, s) implies (g
                == glyph && s == size) || cached(before, g, s) by {
                if key(g, s) == index {
                    lemma_key(g, s, glyph, size);
                }
            }
        }
        self.images = images;
        proof {
            assert(cached(images@, glyph, size));
            assert forall|g: Glyph, s: i32|
                #![trigger cached(images@, g, s)]
                0 < s implies cached(images@, g, s) == (cached(before, g, s) || (g == glyph && s
                == size)) && (cached(before, g, s) && !(g == glyph && s == size) ==> images@[key(
                g,
                s,
            )] == before[key(g, s)]) by {
                if key(g, s) == index {
                    lemma_key(g, s, glyph, size);
                }
            }
            assert(self@ =~= old(self)@.insert((glyph, size), image));
        }
    }
}

/// The rasterised chess piece, in light and dark: none for any other glyph, and
/// none in a box without room. The cache holds it afterwards; whoever asks for it
/// again is given the image that is there.
pub fn chess_coverage(
    cache: &mut ChessCache,
    glyph: Glyph,
    size: i32,
) -> (image: Option<Arc<ColoredCoverage>>)
    requires
        0 < size && piece_art::piece_layers(glyph) is Some ==> size * size <= usize::MAX,
    ensures
        image is Some <==> 0 < size && piece_art::piece_layers(glyph) is Some,
        image is Some ==> chess::shows(*image->0, piece_art::piece_layers(glyph)->0, size as int),
        final(cache)@ == if image is None || old(cache)@.contains_key((glyph, size)) {
            old(cache)@
        } else {
            old(cache)@.insert((glyph, size), image->0)
        },
        image is Some ==> final(cache)@[(glyph, size)] == image->0,
{
    match cache.coverage(glyph, size) {
        None => None,
        Some(image) => Some(Arc::clone(image)),
    }
}

} // verus!
