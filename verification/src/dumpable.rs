//! Objects that can describe themselves on standard output.

use vstd::prelude::*;

verus! {

/// An object that prints useful information about itself.
pub trait Dumpable {
    /// Prints useful information about this object on standard output.
    fn dump(&self);
}

} // verus!
