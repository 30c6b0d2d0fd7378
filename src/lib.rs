//! A local tag index for web annotations and the decisions taken after each search window:
//! a two-way map between tags and annotation identifiers that stays consistent under every
//! change, the tag candidates offered to the user, and the action each closing gesture asks for.

use vstd::prelude::*;

pub mod dispatch;
pub mod errors;
pub mod order;
pub mod search;
pub mod set_map;
pub mod tag_index;

verus! {

} // verus!
