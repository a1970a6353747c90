//! Players, and the kinds of player a game can have.
use vstd::prelude::*;

use crate::cli::Specified;
use crate::game::ai::{AISpec, AiDevice};

verus! {

/// The number identifying a player.
pub type PlayerNum = usize;

/// Who takes a player's turns: a person, or an AI of some specification.
#[derive(Clone, Debug, PartialEq, Eq, Hash)]
pub enum PlayerType {
    Human,
    AI(AISpec),
}

impl PlayerType {
    /// The kinds of player offered on the command line.
    pub fn values() -> (v: [PlayerType; 6])
        ensures
            v@ == seq![
                PlayerType::Human,
                PlayerType::AI(AISpec::Random { seed: None }),
                PlayerType::AI(AISpec::FromLevel { level: 1, device: AiDevice::Best }),
                PlayerType::AI(AISpec::FromLevel { level: 2, device: AiDevice::Best }),
                PlayerType::AI(AISpec::FromLevel { level: 3, device: AiDevice::Best }),
                PlayerType::AI(AISpec::FromLevel { level: 4, device: AiDevice::Best }),
            ],
    {
        [
            PlayerType::Human,
            PlayerType::AI(AISpec::Random { seed: None }),
            PlayerType::AI(AISpec::FromLevel { level: 1, device: AiDevice::default() }),
            PlayerType::AI(AISpec::FromLevel { level: 2, device: AiDevice::default() }),
            PlayerType::AI(AISpec::FromLevel { level: 3, device: AiDevice::default() }),
            PlayerType::AI(AISpec::FromLevel { level: 4, device: AiDevice::default() }),
        ]
    }
}

/// Does the token name a human player?
pub open spec fn names_human(token: Seq<char>) -> bool {
    token == "h"@ || token == "human"@
}

/// Does the token name a human player?
fn is_human_name(token: &str) -> (b: bool)
    ensures
        b == names_human(token@),
{
    proof {
        reveal_strlit("h");
        reveal_strlit("human");
    }
    let n = token.unicode_len();
    if n == 1 && token.get_char(0) == 'h' {
        proof {
            assert(token@ =~= "h"@);
        }
        return true;
    }
    if n == 5 && token.get_char(0) == 'h' && token.get_char(1) == 'u' && token.get_char(2) == 'm'
        && token.get_char(3) == 'a' && token.get_char(4) == 'n' {
        proof {
            assert(token@ =~= "human"@);
        }
        return true;
    }
    proof {
        if names_human(token@) {
            if token@.len() == 1 {
                assert(token@ == "h"@);
                assert(token@[0] == 'h');
            } else {
                assert(token@ == "human"@);
                assert(token@[0] == 'h' && token@[1] == 'u' && token@[2] == 'm' && token@[3] == 'a'
                    && token@[4] == 'n');
            }
        }
    }
    false
}

impl Specified for PlayerType {
    open spec fn spec_readable(token: Seq<char>) -> bool {
        !names_human(token) ==> AISpec::spec_readable(token)
    }

    /// `h` or `human` gives a human player; anything else is read as an AI's specification.
    open spec fn spec_read(token: Seq<char>, r: Result<PlayerType, String>) -> bool {
        if names_human(token) {
            r == Ok::<PlayerType, String>(PlayerType::Human)
        } else {
            match r {
                Ok(PlayerType::AI(a)) => AISpec::spec_read(token, Ok(a)),
                Ok(PlayerType::Human) => false,
                Err(e) => AISpec::spec_read(token, Err(e)),
            }
        }
    }

    open spec fn spec_desc(&self) -> Seq<char> {
        match self {
            PlayerType::Human => "human"@,
            PlayerType::AI(a) => a.spec_desc(),
        }
    }

    open spec fn spec_spec(&self) -> Seq<char> {
        match self {
            PlayerType::Human => "h"@,
            PlayerType::AI(a) => a.spec_spec(),
        }
    }

    fn try_from_spec(token: &str) -> (r: Result<PlayerType, String>) {
        if is_human_name(token) {
            return Ok(PlayerType::Human);
        }
        match AISpec::try_from_spec(token) {
            Ok(a) => Ok(PlayerType::AI(a)),
            Err(e) => Err(e),
        }
    }

    fn readable(token: &str) -> (b: bool) {
        is_human_name(token) || AISpec::readable(token)
    }

    fn desc(&self) -> (s: String) {
        match self {
            PlayerType::Human => String::from_str("human"),
            PlayerType::AI(a) => a.desc(),
        }
    }

    fn spec(&self) -> (s: String) {
        match self {
            PlayerType::Human => String::from_str("h"),
            PlayerType::AI(a) => a.spec(),
        }
    }
}

/// How a turn begins: in the ordinary way, by first clearing every unit's orders, or not at all.
#[derive(Clone, Copy, Debug, PartialEq, Eq, Structural)]
pub enum TurnStartType {
    Regular,
    Clearing,
    NotStarted,
}

} // verus!
