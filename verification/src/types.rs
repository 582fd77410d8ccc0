use vstd::prelude::*;

verus! {

/// A colour with red, green, blue and alpha channels.
#[derive(Clone, Copy, Debug, PartialEq, Eq, Structural)]
pub struct RGBA(pub u8, pub u8, pub u8, pub u8);

} // verus!
