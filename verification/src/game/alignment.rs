//! Which side a city or unit is on.
use vstd::prelude::*;

use crate::game::player::PlayerNum;
use crate::util::{decimal, spec_decimal};

verus! {

#[derive(Clone, Copy, Debug, PartialEq, Eq, Hash, Structural)]
pub enum Alignment {
    Neutral,
    Belligerent { player: PlayerNum },
}

impl Alignment {
    pub fn is_friendly_to(self, other: Alignment) -> (b: bool)
        ensures
            b == (self == other),
    {
        self == other
    }

    pub fn is_friendly_to_player(self, player: PlayerNum) -> (b: bool)
        ensures
            b == (self == Alignment::Belligerent { player }),
    {
        self == Alignment::Belligerent { player }
    }

    pub fn is_enemy_of(self, other: Alignment) -> (b: bool)
        ensures
            b == (self != other),
    {
        !self.is_friendly_to(other)
    }

    pub fn is_enemy_of_player(self, player: PlayerNum) -> (b: bool)
        ensures
            b == (self != Alignment::Belligerent { player }),
    {
        !self.is_friendly_to_player(player)
    }

    pub fn is_neutral(self) -> (b: bool)
        ensures
            b == (self is Neutral),
    {
        self == Alignment::Neutral
    }

    /// The alignment as text.
    pub open spec fn spec_description(self) -> Seq<char> {
        match self {
            Alignment::Neutral => "Neutral"@,
            Alignment::Belligerent { player } => "Player "@ + spec_decimal(player as nat),
        }
    }

    /// The alignment as text: `Neutral`, or `Player` and the player's number.
    pub fn description(self) -> (s: String)
        ensures
            s@ == self.spec_description(),
    {
        match self {
            Alignment::Neutral => String::from_str("Neutral"),
            Alignment::Belligerent { player } => {
                let mut s = String::from_str("Player ");
                let n = decimal(player as u64);
                s.append(n.as_str());
                s
            },
        }
    }

    pub fn is_belligerent(self) -> (b: bool)
        ensures
            b == (self is Belligerent),
    {
        if let Alignment::Belligerent { .. } = self {
            true
        } else {
            false
        }
    }
}

/// Does an alignment (if any) place the thing it belongs to in the given player's hands?
pub open spec fn spec_belongs_to_player(alignment: Option<Alignment>, player: PlayerNum) -> bool {
    alignment == Some(Alignment::Belligerent { player })
}

/// Something that is always on some side.
pub trait Aligned {
    spec fn spec_alignment(&self) -> Alignment;

    fn alignment(&self) -> (a: Alignment)
        ensures
            a == self.spec_alignment(),
    ;

    fn is_friendly_to_player(&self, player: PlayerNum) -> (b: bool)
        ensures
            b == (self.spec_alignment() == Alignment::Belligerent { player }),
    {
        self.alignment().is_friendly_to_player(player)
    }

    fn is_enemy_of_player(&self, player: PlayerNum) -> (b: bool)
        ensures
            b == (self.spec_alignment() != Alignment::Belligerent { player }),
    {
        self.alignment().is_enemy_of_player(player)
    }

    fn is_neutral(&self) -> (b: bool)
        ensures
            b == (self.spec_alignment() is Neutral),
    {
        self.alignment().is_neutral()
    }

    fn is_belligerent(&self) -> (b: bool)
        ensures
            b == (self.spec_alignment() is Belligerent),
    {
        self.alignment().is_belligerent()
    }
}

/// Something that may or may not be on some side.
pub trait AlignedMaybe {
    spec fn spec_alignment_maybe(&self) -> Option<Alignment>;

    fn alignment_maybe(&self) -> (a: Option<Alignment>)
        ensures
            a == self.spec_alignment_maybe(),
    ;

    fn belongs_to_player(&self, player: PlayerNum) -> (b: bool)
        ensures
            b == spec_belongs_to_player(self.spec_alignment_maybe(), player),
    {
        if let Some(alignment) = self.alignment_maybe() {
            if let Alignment::Belligerent { player: player_ } = alignment {
                player == player_
            } else {
                false
            }
        } else {
            false
        }
    }
}

/// Are the two things on the same side?
pub fn is_friendly_to<A: Aligned, B: Aligned>(a: &A, b: &B) -> (r: bool)
    ensures
        r == (a.spec_alignment() == b.spec_alignment()),
{
    a.alignment().is_friendly_to(b.alignment())
}

/// Are the two things on different sides?
pub fn is_enemy_of<A: Aligned, B: Aligned>(a: &A, b: &B) -> (r: bool)
    ensures
        r == (a.spec_alignment() != b.spec_alignment()),
{
    a.alignment().is_enemy_of(b.alignment())
}

} // verus!
