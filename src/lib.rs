//! Tagged menus for a single-line selector: each entry gets a short tag, the entries become one
//! text stream, and the lines that come back are resolved to the entries' commands.
use vstd::prelude::*;

pub mod menu;
pub mod tag;
pub mod text;

verus! {

} // verus!
