//! Verified core of a tableau-style card game: pointer hit-testing over
//! z-ordered boxes, a drag-and-drop state machine over piles of cards,
//! and the derived-state passes (stack membership, fan layout, liftable
//! runs) that keep a table consistent after every structural change.

use vstd::prelude::*;

pub mod card;
pub mod deal;
pub mod deck;
pub mod drag;
pub mod sync;
pub mod table;

verus! {

} // verus!
