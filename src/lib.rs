//! FreeCell solitaire: cards, the field of stacks, the move rules and the
//! game engine with cursor navigation, auto-stacking and undo.

pub mod board;
pub mod cards;
pub mod game;
pub mod history;
