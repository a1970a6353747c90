//! The outcome of a fight between an attacker and a defender.
use vstd::prelude::*;

verus! {

/// How a fight between an attacker and a defender ended: the two parties as they went into it, and whether the
/// attacker won.
#[derive(Clone, Debug, PartialEq)]
pub struct CombatOutcome<A, D> {
    pub attacker: A,
    pub defender: D,
    pub attacker_won: bool,
}

impl<A, D> CombatOutcome<A, D> {
    pub fn new(attacker: A, defender: D, attacker_won: bool) -> (r: Self)
        ensures
            r.attacker == attacker,
            r.defender == defender,
            r.attacker_won == attacker_won,
    {
        CombatOutcome { attacker, defender, attacker_won }
    }

    /// Did the attacker win?
    pub fn victorious(&self) -> (b: bool)
        ensures
            b == self.attacker_won,
    {
        self.attacker_won
    }

    /// Was the attacker destroyed?
    pub fn destroyed(&self) -> (b: bool)
        ensures
            b == !self.attacker_won,
    {
        !self.attacker_won
    }

    pub fn attacker(&self) -> (a: &A)
        ensures
            *a == self.attacker,
    {
        &self.attacker
    }

    pub fn defender(&self) -> (d: &D)
        ensures
            *d == self.defender,
    {
        &self.defender
    }
}


/// `rand::random::<bool>()`: a fair coin, tossed with the thread's own random number generator. Nothing is stated
/// of what it comes up: that rests on chance. It panics only where the operating system's random source cannot
/// seed that generator.
#[verifier::external_body]
fn coin_toss() -> (b: bool) {
    rand::random::<bool>()
}

/// One round of a fight between sides with the given hit points: the defender loses one if `defender_hit`, the
/// attacker otherwise.
pub fn fight_round(attacker_hp: u16, defender_hp: u16, defender_hit: bool) -> (r: (u16, u16))
    requires
        attacker_hp > 0,
        defender_hp > 0,
    ensures
        r == if defender_hit {
            (attacker_hp, (defender_hp - 1) as u16)
        } else {
            ((attacker_hp - 1) as u16, defender_hp)
        },
{
    if defender_hit {
        (attacker_hp, defender_hp - 1)
    } else {
        (attacker_hp - 1, defender_hp)
    }
}

/// A fight to the end between sides with the given hit points: round by round, a coin decides which side loses a
/// hit point, until one side has none left. Returns the hit points each side is left with; neither side gains any,
/// and where both sides start with some, exactly one side ends with none.
pub fn fight_hp(attacker_hp: u16, defender_hp: u16) -> (r: (u16, u16))
    ensures
        r.0 <= attacker_hp,
        r.1 <= defender_hp,
        r.0 == 0 || r.1 == 0,
        attacker_hp > 0 && defender_hp > 0 ==> (r.0 > 0 || r.1 > 0),
        attacker_hp == 0 || defender_hp == 0 ==> r == (attacker_hp, defender_hp),
{
    let mut a = attacker_hp;
    let mut d = defender_hp;
    while a > 0 && d > 0
        invariant
            a <= attacker_hp,
            d <= defender_hp,
            attacker_hp > 0 && defender_hp > 0 ==> (a > 0 || d > 0),
            attacker_hp == 0 || defender_hp == 0 ==> a == attacker_hp && d == defender_hp,
        decreases a + d,
    {
        let r = fight_round(a, d, coin_toss());
        a = r.0;
        d = r.1;
    }
    (a, d)
}


} // verus!
