//! Cards: suits, ranks, the stacking-compatibility rule, and a bit-packed
//! set of cards.

use vstd::prelude::*;

use crate::bits::{bit, lemma_bit_or, lemma_bit_single, lemma_bit_and, lemma_bit_zero,
    lemma_nonzero_bit};

verus! {

/// One of the four card suits.
#[derive(Clone, Copy, Debug, PartialEq, Eq, Structural)]
pub enum Suit {
    Diamond,
    Heart,
    Spade,
    Club,
}

/// A card rank. Jack, Queen and King carry special abilities.
#[derive(Clone, Copy, Debug, PartialEq, Eq, Structural)]
pub enum Rank {
    Two,
    Three,
    Four,
    Five,
    Six,
    Seven,
    Eight,
    Nine,
    Ten,
    Jack,
    Queen,
    King,
    Ace,
}

/// A playing card.
#[derive(Clone, Copy, Debug, PartialEq, Eq, Structural)]
pub struct Card {
    pub suit: Suit,
    pub rank: Rank,
}

/// Numbers the suits 0 to 3.
pub open spec fn suit_ix(s: Suit) -> int {
    match s {
        Suit::Diamond => 0,
        Suit::Heart => 1,
        Suit::Spade => 2,
        Suit::Club => 3,
    }
}

/// Numbers the ranks 0 to 12.
pub open spec fn rank_ix(r: Rank) -> int {
    match r {
        Rank::Two => 0,
        Rank::Three => 1,
        Rank::Four => 2,
        Rank::Five => 3,
        Rank::Six => 4,
        Rank::Seven => 5,
        Rank::Eight => 6,
        Rank::Nine => 7,
        Rank::Ten => 8,
        Rank::Jack => 9,
        Rank::Queen => 10,
        Rank::King => 11,
        Rank::Ace => 12,
    }
}

/// Numbers the 52 cards 0 to 51.
pub open spec fn card_ix(c: Card) -> int {
    suit_ix(c.suit) * 13 + rank_ix(c.rank)
}

/// The card numbering is injective.
pub proof fn lemma_card_ix_injective(a: Card, b: Card)
    ensures
        card_ix(a) == card_ix(b) ==> a == b,
{
    if card_ix(a) == card_ix(b) {
        assert(suit_ix(a.suit) == suit_ix(b.suit) && rank_ix(a.rank) == rank_ix(b.rank));
        assert(a.suit == b.suit);
        assert(a.rank == b.rank);
    }
}

impl Card {
    /// The stacking rule: a card may be placed on a visible card of the same
    /// suit or the same rank, and a face card (Jack, Queen, King) may be
    /// placed on any visible card.
    pub open spec fn can_be_placed_on_spec(self, other: Card) -> bool {
        ||| self.rank == Rank::Jack
        ||| self.rank == Rank::Queen
        ||| self.rank == Rank::King
        ||| self.suit == other.suit
        ||| self.rank == other.rank
    }

    /// Decides whether `self` may be stacked on top of `other`.
    pub fn can_be_placed_on(self, other: Card) -> (r: bool)
        ensures
            r == self.can_be_placed_on_spec(other),
    {
        match self.rank {
            Rank::Jack | Rank::Queen | Rank::King => true,
            _ => self.suit == other.suit || self.rank == other.rank,
        }
    }
}

/// Maps a suit to its number.
pub fn suit_index(s: Suit) -> (r: u8)
    ensures
        r as int == suit_ix(s),
{
    match s {
        Suit::Diamond => 0,
        Suit::Heart => 1,
        Suit::Spade => 2,
        Suit::Club => 3,
    }
}

/// Maps a rank to its number.
pub fn rank_index(r: Rank) -> (res: u8)
    ensures
        res as int == rank_ix(r),
{
    match r {
        Rank::Two => 0,
        Rank::Three => 1,
        Rank::Four => 2,
        Rank::Five => 3,
        Rank::Six => 4,
        Rank::Seven => 5,
        Rank::Eight => 6,
        Rank::Nine => 7,
        Rank::Ten => 8,
        Rank::Jack => 9,
        Rank::Queen => 10,
        Rank::King => 11,
        Rank::Ace => 12,
    }
}

/// Maps a card to its number.
pub fn card_index(c: Card) -> (r: u8)
    ensures
        r as int == card_ix(c),
        r < 52,
{
    suit_index(c.suit) * 13 + rank_index(c.rank)
}

/// A set of cards, packed into one bit per card.
#[derive(Clone, Copy, Debug, PartialEq, Eq, Structural)]
pub struct CardsSet {
    bits: u64,
}

impl View for CardsSet {
    type V = Set<Card>;

    /// The set of cards whose bit is set.
    closed spec fn view(&self) -> Set<Card> {
        Set::new(|c: Card| bit(self.bits, card_ix(c) as u64))
    }
}

impl CardsSet {
    /// The empty set of cards.
    pub fn new() -> (r: CardsSet)
        ensures
            r@ == Set::<Card>::empty(),
    {
        let r = CardsSet { bits: 0 };
        proof {
            assert(forall|k: u64| (0u64 >> k) & 1 == 0) by (bit_vector);
            assert(r@ =~= Set::<Card>::empty());
        }
        r
    }

    /// Adds one card.
    pub fn insert(self, card: Card) -> (r: CardsSet)
        ensures
            r@ == self@.insert(card),
    {
        let ix = card_index(card);
        let r = CardsSet { bits: self.bits | (1u64 << (ix as u64)) };
        proof {
            lemma_bit_or(self.bits, 1u64 << (ix as u64));
            lemma_bit_single(ix as u64);
            assert forall|c: Card| r@.contains(c) == self@.insert(card).contains(c) by {
                lemma_card_ix_injective(c, card);
            }
            assert(r@ =~= self@.insert(card));
        }
        r
    }

    /// Tests membership of one card.
    pub fn contains(self, card: Card) -> (r: bool)
        ensures
            r == self@.contains(card),
    {
        let ix = card_index(card);
        let masked = self.bits & (1u64 << (ix as u64));
        proof {
            lemma_bit_and(self.bits, 1u64 << (ix as u64));
            lemma_bit_single(ix as u64);
            lemma_bit_zero();
            let k = ix as u64;
            if masked != 0 {
                lemma_nonzero_bit(masked);
                let w = choose|w: u64| w < 64 && bit(masked, w);
                assert(w == k);
                assert(self@.contains(card));
            } else {
                assert(!bit(masked, k));
                assert(!self@.contains(card));
            }
        }
        masked != 0
    }

    /// The union of two sets of cards.
    pub fn union(self, other: CardsSet) -> (r: CardsSet)
        ensures
            r@ == self@.union(other@),
    {
        let r = CardsSet { bits: self.bits | other.bits };
        proof {
            lemma_bit_or(self.bits, other.bits);
            assert(r@ =~= self@.union(other@));
        }
        r
    }

    /// True iff the set holds no card.
    pub fn is_empty(self) -> (r: bool)
        ensures
            r == (self@ == Set::<Card>::empty()),
    {
        let masked = self.bits & 0xF_FFFF_FFFF_FFFFu64;
        proof {
            lemma_bit_and(self.bits, 0xF_FFFF_FFFF_FFFFu64);
            assert(forall|k: u64| k < 52 ==> #[trigger] bit(0xF_FFFF_FFFF_FFFFu64, k))
                by (bit_vector);
            assert(forall|k: u64| 52 <= k < 64 ==> !#[trigger] bit(0xF_FFFF_FFFF_FFFFu64, k))
                by (bit_vector);
            if masked == 0 {
                lemma_bit_zero();
                assert forall|c: Card| !self@.contains(c) by {
                    let k = card_ix(c) as u64;
                    assert(0 <= card_ix(c) < 52);
                    assert(bit(0xF_FFFF_FFFF_FFFFu64, k));
                    assert(!bit(masked, k));
                }
                assert(self@ =~= Set::<Card>::empty());
            } else {
                lemma_nonzero_bit(masked);
                let k = choose|k: u64| k < 64 && bit(masked, k);
                let c = witness_card(k as int);
                assert(self@.contains(c));
            }
        }
        masked == 0
    }
}

/// For each number below 52, some card carries it.
proof fn witness_card(n: int) -> (c: Card)
    requires
        0 <= n < 52,
    ensures
        card_ix(c) == n,
{
    let s = if n < 13 {
        Suit::Diamond
    } else if n < 26 {
        Suit::Heart
    } else if n < 39 {
        Suit::Spade
    } else {
        Suit::Club
    };
    let ri = n % 13;
    let r = if ri == 0 {
        Rank::Two
    } else if ri == 1 {
        Rank::Three
    } else if ri == 2 {
        Rank::Four
    } else if ri == 3 {
        Rank::Five
    } else if ri == 4 {
        Rank::Six
    } else if ri == 5 {
        Rank::Seven
    } else if ri == 6 {
        Rank::Eight
    } else if ri == 7 {
        Rank::Nine
    } else if ri == 8 {
        Rank::Ten
    } else if ri == 9 {
        Rank::Jack
    } else if ri == 10 {
        Rank::Queen
    } else if ri == 11 {
        Rank::King
    } else {
        Rank::Ace
    };
    Card { suit: s, rank: r }
}

} // verus!
