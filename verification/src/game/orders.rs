//! Standing orders a unit can be given.
use vstd::prelude::*;

use crate::util::Location;

verus! {

#[derive(Clone, Copy, Debug, PartialEq, Eq, Hash, Structural)]
pub enum Orders {
    Skip,
    Sentry,
    GoTo { dest: Location },
    Explore,
}

} // verus!
