//! The icons that are drawn in line, as open and closed outlines.
use crate::glyph::Glyph;
use crate::path;
use crate::path::{Cmd, Path};
use vstd::prelude::*;

verus! {

/// The commands of each of a list of paths.
pub open spec fn outlines(paths: Seq<Path>) -> Seq<Seq<Cmd>> {
    paths.map_values(|path: Path| path@)
}

/// The lens of the magnifying glass.
pub open spec fn lens() -> Seq<Cmd> {
    seq![
        Cmd::Move(125, 417),
        Cmd::Cubic(125, 256, 256, 125, 417, 125),
        Cmd::Cubic(578, 125, 708, 256, 708, 417),
        Cmd::Cubic(708, 578, 578, 708, 417, 708),
        Cmd::Cubic(256, 708, 125, 578, 125, 417),
    ]
}

/// The outlines of a glyph that is drawn in line; none for any other.
pub open spec fn line_art(glyph: Glyph) -> Seq<Seq<Cmd>> {
    match glyph {
        Glyph::App => seq![
            path::rounded(167, 167, 250, 250, 42),
            path::rounded(167, 583, 250, 250, 42),
            path::rounded(583, 583, 250, 250, 42),
            seq![Cmd::Move(583, 292), Cmd::Line(833, 292)],
            seq![Cmd::Move(708, 167), Cmd::Line(708, 417)],
        ],
        Glyph::Search => seq![lens(), seq![Cmd::Move(875, 875), Cmd::Line(625, 625)]],
        _ => Seq::empty(),
    }
}

/// The outlines of a glyph that is drawn in line.
#[must_use]
pub fn outline(glyph: Glyph) -> (paths: Vec<Path>)
    ensures
        outlines(paths@) == line_art(glyph),
{
    let paths: Vec<Path> = match glyph {
        Glyph::App => vec![
            Path::rounded(167, 167, 250, 250, 42),
            Path::rounded(167, 583, 250, 250, 42),
            Path::rounded(583, 583, 250, 250, 42),
            Path::line(583, 292, 833, 292),
            Path::line(708, 167, 708, 417),
        ],
        Glyph::Search => {
            let curves: Vec<Cmd> = vec![
                Cmd::Move(125, 417),
                Cmd::Cubic(125, 256, 256, 125, 417, 125),
                Cmd::Cubic(578, 125, 708, 256, 708, 417),
                Cmd::Cubic(708, 578, 578, 708, 417, 708),
                Cmd::Cubic(256, 708, 125, 578, 125, 417),
            ];
            assert(curves@ =~= lens());
            vec![Path::from_commands(curves.as_slice()), Path::line(875, 875, 625, 625)]
        },
        _ => Vec::new(),
    };
    assert(outlines(paths@) =~= line_art(glyph));
    paths
}

} // verus!
