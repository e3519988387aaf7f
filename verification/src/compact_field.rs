//! One cell's card stack: an optional visible top card plus the set of
//! hidden (face-down or covered) cards beneath it.

use vstd::prelude::*;

use crate::cards::{Card, CardsSet};
use crate::field::Field;

verus! {

/// A cell's stack. A board lists a cell only if its stack is non-empty.
#[derive(Clone, Copy, Debug)]
pub struct CompactField {
    /// The visible top card, if the cell is not face-down.
    pub top_card: Option<Card>,
    /// The cards lying face-down under (or instead of) the top card.
    pub hidden_cards: CardsSet,
}

/// The abstract content of a cell: visible top card and hidden set.
pub type FieldModel = (Option<Card>, Set<Card>);

/// Placing `card` pushes the prior top card, if any, into the hidden set.
pub open spec fn place_model(m: FieldModel, card: Card) -> FieldModel {
    (
        Some(card),
        if m.0 is Some {
            m.1.insert(m.0.unwrap())
        } else {
            m.1
        },
    )
}

/// Turning a cell face-down moves its top card, if any, into the hidden set.
pub open spec fn face_down_model(m: FieldModel) -> FieldModel {
    (
        None::<Card>,
        if m.0 is Some {
            m.1.insert(m.0.unwrap())
        } else {
            m.1
        },
    )
}

impl CompactField {
    /// The abstract content of this cell.
    pub open spec fn model(self) -> FieldModel {
        (self.top_card, self.hidden_cards@)
    }

    /// True only for a fresh, unused cell; never true on a live board.
    pub open spec fn is_empty_spec(self) -> bool {
        self.top_card is None && self.hidden_cards@ == Set::<Card>::empty()
    }

    /// Whether `card` may be played onto this cell: always, if the cell is
    /// face-down; otherwise the stacking rule decides against the top card.
    pub open spec fn can_place_spec(self, card: Card) -> bool {
        match self.top_card {
            None => true,
            Some(t) => card.can_be_placed_on_spec(t),
        }
    }

    /// All cards in this cell, visible and hidden.
    pub open spec fn all_cards_spec(self) -> Set<Card> {
        if self.top_card is Some {
            self.hidden_cards@.insert(self.top_card.unwrap())
        } else {
            self.hidden_cards@
        }
    }

    /// An empty placeholder cell.
    pub fn new() -> (r: CompactField)
        ensures
            r.top_card is None,
            r.hidden_cards@ == Set::<Card>::empty(),
    {
        CompactField { top_card: None, hidden_cards: CardsSet::new() }
    }

    /// Converts the wire representation of a cell.
    pub fn from_field(f: &Field) -> (r: CompactField)
        ensures
            r.top_card == f.top_card,
            r.hidden_cards == f.hidden_cards,
    {
        CompactField { top_card: f.top_card, hidden_cards: f.hidden_cards }
    }

    /// The visible top card, if any.
    pub fn top_card(&self) -> (r: Option<Card>)
        ensures
            r == self.top_card,
    {
        self.top_card
    }

    /// The hidden cards.
    pub fn hidden_cards(&self) -> (r: CardsSet)
        ensures
            r == self.hidden_cards,
    {
        self.hidden_cards
    }

    /// Puts `card` on top; the prior top card, if any, goes face-down under
    /// it. The caller checks legality beforehand.
    pub fn place_card(self, card: Card) -> (r: CompactField)
        ensures
            r.model() == place_model(self.model(), card),
    {
        match self.top_card {
            Some(t) => CompactField {
                top_card: Some(card),
                hidden_cards: self.hidden_cards.insert(t),
            },
            None => CompactField { top_card: Some(card), hidden_cards: self.hidden_cards },
        }
    }

    /// Turns the cell face-down: the top card, if any, joins the hidden set.
    pub fn turn_face_down(self) -> (r: CompactField)
        ensures
            r.model() == face_down_model(self.model()),
    {
        match self.top_card {
            Some(t) => CompactField { top_card: None, hidden_cards: self.hidden_cards.insert(t) },
            None => self,
        }
    }

    /// Whether `card` may be played onto this cell.
    pub fn can_place_card(&self, card: Card) -> (r: bool)
        ensures
            r == self.can_place_spec(card),
    {
        match self.top_card {
            None => true,
            Some(t) => card.can_be_placed_on(t),
        }
    }

    /// All cards in this cell, visible and hidden; used when the cell is won.
    pub fn all_cards(&self) -> (r: CardsSet)
        ensures
            r@ == self.all_cards_spec(),
    {
        match self.top_card {
            Some(t) => self.hidden_cards.insert(t),
            None => self.hidden_cards,
        }
    }

    /// True only for a fresh, unused cell.
    pub fn is_empty(&self) -> (r: bool)
        ensures
            r == self.is_empty_spec(),
    {
        match self.top_card {
            Some(_) => false,
            None => self.hidden_cards.is_empty(),
        }
    }
}

} // verus!
