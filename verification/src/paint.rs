//! The colours that text and frames are drawn in.
use vstd::prelude::*;

verus! {

#[derive(Clone, Copy, Debug, PartialEq, Eq, Structural)]
pub enum Paint {
    Black,
    White,
    Gray,
    DarkGray,
    Yellow,
    Cyan,
    Red,
    Rgb(u8, u8, u8),
}

} // verus!
