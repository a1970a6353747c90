//! The roles a color can play on the screen, independent of any palette.
use vstd::prelude::*;

use crate::game::alignment::Alignment;
use crate::game::player::PlayerNum;
use crate::game::unit::Unit;

verus! {

#[derive(Clone, Copy, Debug, PartialEq, Eq, Structural)]
pub enum Colors {
    /// The background behind everything else
    Background,
    /// Dry land
    Land,
    /// The ocean
    Ocean,
    /// The neutral "player"'s color
    Neutral,
    /// A player's color
    Player(PlayerNum),
    /// The default text color
    Text,
    /// A message that needs to be extra noticeable
    Notice,
    /// The cursor
    Cursor,
    /// Messages or effects about combat
    Combat,
    /// Scroll percentage indicators
    ScrollMarks,
}

/// Something drawn in a color of its own.
pub trait Colorized {
    spec fn spec_color(&self) -> Option<Colors>;

    fn color(&self) -> (c: Option<Colors>)
        ensures
            c == self.spec_color(),
    ;
}

impl Colorized for Alignment {
    /// The neutral color, or the player's.
    open spec fn spec_color(&self) -> Option<Colors> {
        match self {
            Alignment::Neutral => Some(Colors::Neutral),
            Alignment::Belligerent { player } => Some(Colors::Player(*player)),
        }
    }

    fn color(&self) -> (c: Option<Colors>) {
        match self {
            Alignment::Neutral => Some(Colors::Neutral),
            Alignment::Belligerent { player } => Some(Colors::Player(*player)),
        }
    }
}

impl Colorized for Unit {
    /// A unit is drawn in its alignment's color.
    open spec fn spec_color(&self) -> Option<Colors> {
        self.alignment.spec_color()
    }

    fn color(&self) -> (c: Option<Colors>) {
        self.alignment.color()
    }
}

} // verus!
