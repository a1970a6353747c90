//! The two kinds of ground a tile can have.
use vstd::prelude::*;

verus! {

#[derive(Clone, Copy, Debug, PartialEq, Eq, Hash, Structural)]
pub enum Terrain {
    Land,
    Water,
}

} // verus!
