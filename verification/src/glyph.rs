//! What can be drawn by name, and what the status marks show.
use vstd::prelude::*;

verus! {

/// The icons that have a name.
#[derive(Clone, Copy, Debug, PartialEq, Eq, Hash, Structural)]
pub enum Glyph {
    App,
    Search,
    Shift,
    Backspace,
    ChessWhiteKing,
    ChessWhiteQueen,
    ChessWhiteRook,
    ChessWhiteBishop,
    ChessWhiteKnight,
    ChessWhitePawn,
    ChessBlackKing,
    ChessBlackQueen,
    ChessBlackRook,
    ChessBlackBishop,
    ChessBlackKnight,
    ChessBlackPawn,
    BlackDisc,
    WhiteDisc,
    BlackDraughtsMan,
    WhiteDraughtsMan,
    BlackDraughtsKing,
    WhiteDraughtsKing,
    BoardPoint,
    LegalPoint,
    Mill,
}

impl Glyph {
    /// Every glyph, once.
    pub const ALL: [Glyph; 25] = [
        Glyph::App,
        Glyph::Search,
        Glyph::Shift,
        Glyph::Backspace,
        Glyph::ChessWhiteKing,
        Glyph::ChessWhiteQueen,
        Glyph::ChessWhiteRook,
        Glyph::ChessWhiteBishop,
        Glyph::ChessWhiteKnight,
        Glyph::ChessWhitePawn,
        Glyph::ChessBlackKing,
        Glyph::ChessBlackQueen,
        Glyph::ChessBlackRook,
        Glyph::ChessBlackBishop,
        Glyph::ChessBlackKnight,
        Glyph::ChessBlackPawn,
        Glyph::BlackDisc,
        Glyph::WhiteDisc,
        Glyph::BlackDraughtsMan,
        Glyph::WhiteDraughtsMan,
        Glyph::BlackDraughtsKing,
        Glyph::WhiteDraughtsKing,
        Glyph::BoardPoint,
        Glyph::LegalPoint,
        Glyph::Mill,
    ];

    /// Where a glyph stands in the list of all of them.
    pub open spec fn place(self) -> int {
        match self {
            Glyph::App => 0,
            Glyph::Search => 1,
            Glyph::Shift => 2,
            Glyph::Backspace => 3,
            Glyph::ChessWhiteKing => 4,
            Glyph::ChessWhiteQueen => 5,
            Glyph::ChessWhiteRook => 6,
            Glyph::ChessWhiteBishop => 7,
            Glyph::ChessWhiteKnight => 8,
            Glyph::ChessWhitePawn => 9,
            Glyph::ChessBlackKing => 10,
            Glyph::ChessBlackQueen => 11,
            Glyph::ChessBlackRook => 12,
            Glyph::ChessBlackBishop => 13,
            Glyph::ChessBlackKnight => 14,
            Glyph::ChessBlackPawn => 15,
            Glyph::BlackDisc => 16,
            Glyph::WhiteDisc => 17,
            Glyph::BlackDraughtsMan => 18,
            Glyph::WhiteDraughtsMan => 19,
            Glyph::BlackDraughtsKing => 20,
            Glyph::WhiteDraughtsKing => 21,
            Glyph::BoardPoint => 22,
            Glyph::LegalPoint => 23,
            Glyph::Mill => 24,
        }
    }

    /// Finds a glyph in the list of all of them.
    #[must_use]
    pub fn index(self) -> (index: usize)
        ensures
            index == self.place(),
            index < Self::ALL@.len(),
            Self::ALL@[index as int] == self,
    {
        let mut index: usize = 0;
        proof {
            lemma_all(self);
        }
        while Self::ALL[index] != self
            invariant
                0 <= index <= self.place() < Self::ALL@.len(),
                Self::ALL@[self.place()] == self,
            decreases self.place() - index,
        {
            index = index + 1;
        }
        proof {
            lemma_all(self);
        }
        index
    }
}

/// Every glyph stands in the list of all of them, in one place.
pub proof fn lemma_all(glyph: Glyph)
    ensures
        0 <= glyph.place() < Glyph::ALL@.len(),
        Glyph::ALL@[glyph.place()] == glyph,
        forall|i: int|
            0 <= i < Glyph::ALL@.len() && #[trigger] Glyph::ALL@[i] == glyph ==> i == glyph.place(),
{
}

/// A part of a hundred.
#[derive(Clone, Copy, Debug, PartialEq, Eq, Structural)]
pub struct Percent {
    value: u8,
}

impl View for Percent {
    type V = int;

    closed spec fn view(&self) -> int {
        self.value as int
    }
}

impl Percent {
    #[verifier::type_invariant]
    spec fn at_most_all(self) -> bool {
        self.value <= 100
    }

    /// Anything above a hundred counts as a hundred.
    #[must_use]
    pub fn new(value: u8) -> (percent: Self)
        ensures
            percent@ == if value > 100 {
                100
            } else {
                value as int
            },
    {
        Percent {
            value: if value > 100 {
                100
            } else {
                value
            },
        }
    }

    #[must_use]
    pub fn get(self) -> (value: u8)
        ensures
            value == self@,
            value <= 100,
    {
        proof {
            use_type_invariant(self);
        }
        self.value
    }
}

/// How well the radio is heard.
#[derive(Clone, Copy, Debug, PartialEq, Eq, Structural)]
pub enum Signal {
    Off,
    Weak,
    Fair,
    Strong,
}

} // verus!
