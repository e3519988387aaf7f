//! The plain-value interface types: the wire form of one cell, a requested
//! play, and the closed taxonomy of rejected plays.

use vstd::prelude::*;

use crate::cards::{Card, CardsSet};

verus! {

/// The flat, serialization-friendly form of one occupied cell.
#[derive(Clone, Copy, Debug)]
pub struct Field {
    pub i: i8,
    pub j: i8,
    /// The visible top card, if the cell is not face-down.
    pub top_card: Option<Card>,
    /// The cards lying face-down in this cell.
    pub hidden_cards: CardsSet,
}

/// A requested card placement.
#[derive(Clone, Copy, Debug)]
pub struct CardToPlay {
    pub card: Card,
    pub i: i8,
    pub j: i8,
    /// Which cell a King flips; required exactly when a King is played as a
    /// combo.
    pub target_field_for_king_ability: Option<(i8, i8)>,
}

/// Why a requested play is illegal. Returned as data; a rejected play leaves
/// the board untouched.
#[derive(Clone, Copy, Debug, PartialEq, Eq, Structural)]
pub enum IllegalCardPlayed {
    /// The target lies outside the playable area.
    OutOfBounds,
    /// The target cell's visible top card does not accept the played card.
    IncompatibleCard { existing_card: Card },
    /// A King was played as a combo without a target for its ability.
    NoTargetForKingAbility,
    /// The King's target cell holds no cards.
    TargetForKingAbilityDoesNotExist { tgt_i: i8, tgt_j: i8 },
    /// The King's target cell is already face-down.
    TargetForKingAbilityIsFaceDown { tgt_i: i8, tgt_j: i8 },
}

} // verus!
