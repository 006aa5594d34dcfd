//! A mahjong game server's rules: tiles, winning-hand search, fan scoring,
//! the commands the players send, and the game's state machine.

pub mod tile;
pub mod hand;
pub mod fan;
pub mod protocol;
pub mod rng;
pub mod game;
pub mod table;
pub mod events;
pub mod standings;
pub mod json;
pub mod contest;

use vstd::prelude::*;

verus! {

} // verus!
