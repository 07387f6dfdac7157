//! Sealing of the node traits.

use vstd::prelude::*;

verus! {

/// This trait is used to seal other traits, such that they cannot be
/// implemented outside of the crate.
pub trait Sealed {

}

} // verus!
