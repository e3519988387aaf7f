//! The board: the list of occupied cells with its derived bounding box and
//! per-suit bitboards, the read-only queries, and the plan/apply transition
//! for playing a card.

use vstd::prelude::*;

use crate::bbox::BoundingBox;
use crate::bitboard::{in_window, lines_through, BitBoard};
use crate::cards::{Card, CardsSet, Rank, Suit};
use crate::compact_field::{face_down_model, place_model, CompactField, FieldModel};
use crate::field::{CardToPlay, Field, IllegalCardPlayed};

verus! {

/// One occupied cell: its coordinates and its stack.
pub type Cell = (i8, i8, CompactField);

/// The coordinates of a cell, as mathematical integers.
pub open spec fn cell_coord(c: Cell) -> (int, int) {
    (c.0 as int, c.1 as int)
}

/// No two cells of the list share coordinates.
pub open spec fn unique_coords(s: Seq<Cell>) -> bool {
    forall|k: int, l: int|
        #![trigger s[k], s[l]]
        0 <= k < l < s.len() ==> cell_coord(s[k]) != cell_coord(s[l])
}

/// The stack at `(i, j)`: the first matching entry of the list.
pub open spec fn field_at_seq(s: Seq<Cell>, i: int, j: int) -> Option<CompactField>
    decreases s.len(),
{
    if s.len() == 0 {
        None
    } else if s[0].0 as int == i && s[0].1 as int == j {
        Some(s[0].2)
    } else {
        field_at_seq(s.drop_first(), i, j)
    }
}

/// The stack at `(i, j)`, reduced to its abstract content.
pub open spec fn cell_model_at(s: Seq<Cell>, i: int, j: int) -> Option<FieldModel> {
    match field_at_seq(s, i, j) {
        Some(f) => Some(f.model()),
        None => None,
    }
}

/// An entry exists at `(i, j)` exactly when some index carries those
/// coordinates.
pub proof fn lemma_field_at_index(s: Seq<Cell>, i: int, j: int)
    ensures
        (field_at_seq(s, i, j) is Some) <==> exists|k: int|
            0 <= k < s.len() && cell_coord(#[trigger] s[k]) == (i, j),
    decreases s.len(),
{
    if s.len() > 0 {
        lemma_field_at_index(s.drop_first(), i, j);
        if s[0].0 as int == i && s[0].1 as int == j {
            assert(cell_coord(s[0]) == (i, j));
        } else {
            if field_at_seq(s, i, j) is Some {
                let k = choose|k: int|
                    0 <= k < s.drop_first().len() && cell_coord(s.drop_first()[k]) == (i, j);
                assert(cell_coord(s[k + 1]) == (i, j));
            }
            if exists|k: int| 0 <= k < s.len() && cell_coord(#[trigger] s[k]) == (i, j) {
                let k = choose|k: int| 0 <= k < s.len() && cell_coord(#[trigger] s[k]) == (i, j);
                assert(k != 0);
                assert(cell_coord(s.drop_first()[k - 1]) == (i, j));
            }
        }
    }
}

/// With unique coordinates, the entry at index `k` is the entry found at its
/// coordinates.
pub proof fn lemma_field_at_unique(s: Seq<Cell>, k: int)
    requires
        unique_coords(s),
        0 <= k < s.len(),
    ensures
        field_at_seq(s, s[k].0 as int, s[k].1 as int) == Some(s[k].2),
    decreases s.len(),
{
    if k == 0 {
    } else {
        assert(cell_coord(s[0]) != cell_coord(s[k]));
        assert(unique_coords(s.drop_first())) by {
            assert forall|a: int, b: int|
                #![trigger s.drop_first()[a], s.drop_first()[b]]
                0 <= a < b < s.drop_first().len() implies cell_coord(s.drop_first()[a])
                != cell_coord(s.drop_first()[b]) by {
                assert(cell_coord(s[a + 1]) != cell_coord(s[b + 1]));
            }
        }
        lemma_field_at_unique(s.drop_first(), k - 1);
        assert(s.drop_first()[k - 1] == s[k]);
    }
}

/// Appending an entry only affects lookup at its own coordinates, and only
/// when nothing stood there.
pub proof fn lemma_field_at_push(s: Seq<Cell>, c: Cell, i: int, j: int)
    ensures
        field_at_seq(s.push(c), i, j) == (if field_at_seq(s, i, j) is Some {
            field_at_seq(s, i, j)
        } else if cell_coord(c) == (i, j) {
            Some(c.2)
        } else {
            None
        }),
    decreases s.len(),
{
    if s.len() == 0 {
        assert(s.push(c)[0] == c);
        assert(s.push(c).drop_first() =~= Seq::<Cell>::empty());
        assert(field_at_seq(Seq::<Cell>::empty(), i, j) is None);
        assert(field_at_seq(s, i, j) is None);
    } else {
        assert(s.push(c)[0] == s[0]);
        assert(s.push(c).drop_first() =~= s.drop_first().push(c));
        lemma_field_at_push(s.drop_first(), c, i, j);
    }
}

/// The cell's visible top card is of the given suit.
pub open spec fn cell_has_suit_top(c: Cell, suit: Suit) -> bool {
    c.2.top_card matches Some(t) && t.suit == suit
}

/// The coordinates of the cells whose visible top card is of the given suit.
pub open spec fn suit_coords(s: Seq<Cell>, suit: Suit) -> Set<(int, int)> {
    Set::new(
        |p: (int, int)|
            exists|k: int|
                0 <= k < s.len() && cell_coord(#[trigger] s[k]) == p && cell_has_suit_top(
                    s[k],
                    suit,
                ),
    )
}

/// How appending one entry changes the suit coordinate sets.
pub proof fn lemma_suit_coords_push(s: Seq<Cell>, c: Cell, suit: Suit)
    ensures
        suit_coords(s.push(c), suit) == (if cell_has_suit_top(c, suit) {
            suit_coords(s, suit).insert(cell_coord(c))
        } else {
            suit_coords(s, suit)
        }),
{
    let pushed = suit_coords(s.push(c), suit);
    let base = suit_coords(s, suit);
    assert forall|p: (int, int)| base.contains(p) implies pushed.contains(p) by {
        let k = choose|k: int|
            0 <= k < s.len() && cell_coord(#[trigger] s[k]) == p && cell_has_suit_top(s[k], suit);
        assert(s.push(c)[k] == s[k]);
        assert(cell_coord(s.push(c)[k]) == p && cell_has_suit_top(s.push(c)[k], suit));
    }
    if cell_has_suit_top(c, suit) {
        assert(s.push(c)[s.len() as int] == c);
        assert(pushed.contains(cell_coord(c)));
        assert forall|p: (int, int)|
            pushed.contains(p) implies base.insert(cell_coord(c)).contains(p) by {
            let k = choose|k: int|
                0 <= k < s.push(c).len() && cell_coord(#[trigger] s.push(c)[k]) == p
                    && cell_has_suit_top(s.push(c)[k], suit);
            if k < s.len() {
                assert(s.push(c)[k] == s[k]);
            } else {
                assert(s.push(c)[k] == c);
            }
        }
        assert(pushed =~= base.insert(cell_coord(c)));
    } else {
        assert forall|p: (int, int)| pushed.contains(p) implies base.contains(p) by {
            let k = choose|k: int|
                0 <= k < s.push(c).len() && cell_coord(#[trigger] s.push(c)[k]) == p
                    && cell_has_suit_top(s.push(c)[k], suit);
            assert(k < s.len());
            assert(s.push(c)[k] == s[k]);
        }
        assert(pushed =~= base);
    }
}

/// Every listed coordinate lies inside the box.
pub open spec fn covers(bb: BoundingBox, s: Seq<Cell>) -> bool {
    forall|k: int|
        0 <= k < s.len() ==> bb.i_min as int <= (#[trigger] s[k]).0 as int <= bb.i_max as int
            && bb.j_min as int <= s[k].1 as int <= bb.j_max as int
}

/// Each of the four bounds is reached by some listed coordinate.
pub open spec fn attained(bb: BoundingBox, s: Seq<Cell>) -> bool {
    &&& exists|k: int| 0 <= k < s.len() && (#[trigger] s[k]).0 == bb.i_min
    &&& exists|k: int| 0 <= k < s.len() && (#[trigger] s[k]).0 == bb.i_max
    &&& exists|k: int| 0 <= k < s.len() && (#[trigger] s[k]).1 == bb.j_min
    &&& exists|k: int| 0 <= k < s.len() && (#[trigger] s[k]).1 == bb.j_max
}

/// A valid flat cell list: non-empty, unique coordinates, no empty stacks,
/// and any two coordinates within a 4-span on each axis.
pub open spec fn valid_cell_list(s: Seq<Cell>) -> bool {
    &&& s.len() >= 1
    &&& unique_coords(s)
    &&& forall|k: int| 0 <= k < s.len() ==> !(#[trigger] s[k]).2.is_empty_spec()
    &&& forall|k: int, l: int|
        #![trigger s[k], s[l]]
        0 <= k < s.len() && 0 <= l < s.len() ==> -3 <= s[k].0 as int - s[l].0 as int <= 3 && -3
            <= s[k].1 as int - s[l].1 as int <= 3
}

/// A board with at least one card on it.
///
/// A flat [`Field`] list is the interchange form; this type carries the
/// derived structures used by the actual queries and transitions.
#[derive(Clone, Debug)]
pub struct Board {
    /// Exactly one entry for every cell with at least one card on it.
    fields: Vec<Cell>,
    /// The shared center of all four bitboards.
    center_i: i8,
    center_j: i8,
    /// The smallest area containing all cards.
    bbox: BoundingBox,
    /// Coordinates with a visible top card, one bitboard per suit.
    bb_diamonds: BitBoard,
    bb_hearts: BitBoard,
    bb_spades: BitBoard,
    bb_clubs: BitBoard,
}

impl Board {
    /// The list of occupied cells.
    pub closed spec fn cells(self) -> Seq<Cell> {
        self.fields@
    }

    /// The shared bitboard center.
    pub closed spec fn center(self) -> (int, int) {
        (self.center_i as int, self.center_j as int)
    }

    /// The bounding box of the occupied cells.
    pub closed spec fn bbox_spec(self) -> BoundingBox {
        self.bbox
    }

    /// The bitboard of one suit.
    pub closed spec fn suit_bb(self, suit: Suit) -> BitBoard {
        match suit {
            Suit::Diamond => self.bb_diamonds,
            Suit::Heart => self.bb_hearts,
            Suit::Spade => self.bb_spades,
            Suit::Club => self.bb_clubs,
        }
    }

    /// The stack at `(i, j)`, if the cell is occupied.
    pub open spec fn field_at(self, i: int, j: int) -> Option<CompactField> {
        field_at_seq(self.cells(), i, j)
    }

    /// Representation validity: derived structures agree with the cell
    /// list, the box spans at most 4 cells per axis, and no listed cell is
    /// empty.
    pub open spec fn wf(self) -> bool {
        let s = self.cells();
        let c = self.center();
        let bb = self.bbox_spec();
        &&& s.len() >= 1
        &&& unique_coords(s)
        &&& forall|k: int| 0 <= k < s.len() ==> !(#[trigger] s[k]).2.is_empty_spec()
        &&& forall|k: int|
            0 <= k < s.len() ==> in_window(c.0, c.1, (#[trigger] s[k]).0 as int, s[k].1 as int)
        &&& covers(bb, s)
        &&& attained(bb, s)
        &&& bb.i_max as int - bb.i_min as int <= 3
        &&& bb.j_max as int - bb.j_min as int <= 3
        &&& bb.i_min as int <= c.0 <= bb.i_max as int
        &&& bb.j_min as int <= c.1 <= bb.j_max as int
        &&& self.suit_bb(Suit::Diamond).wf()
        &&& self.suit_bb(Suit::Heart).wf()
        &&& self.suit_bb(Suit::Spade).wf()
        &&& self.suit_bb(Suit::Club).wf()
        &&& self.suit_bb(Suit::Diamond).ctr() == c
        &&& self.suit_bb(Suit::Heart).ctr() == c
        &&& self.suit_bb(Suit::Spade).ctr() == c
        &&& self.suit_bb(Suit::Club).ctr() == c
        &&& self.suit_bb(Suit::Diamond)@ == suit_coords(s, Suit::Diamond)
        &&& self.suit_bb(Suit::Heart)@ == suit_coords(s, Suit::Heart)
        &&& self.suit_bb(Suit::Spade)@ == suit_coords(s, Suit::Spade)
        &&& self.suit_bb(Suit::Club)@ == suit_coords(s, Suit::Club)
    }

    /// The target rectangle of legal placements: the box expanded so the
    /// board still fits a 4-span after the placement.
    pub open spec fn in_playable(self, i: int, j: int) -> bool {
        &&& self.bbox_spec().i_max as int - 3 <= i <= self.bbox_spec().i_min as int + 3
        &&& self.bbox_spec().j_max as int - 3 <= j <= self.bbox_spec().j_min as int + 3
    }

    /// A representable coordinate inside the playable rectangle.
    pub open spec fn playable_cell(self, p: (int, int)) -> bool {
        &&& self.in_playable(p.0, p.1)
        &&& -128 <= p.0 <= 127
        &&& -128 <= p.1 <= 127
    }

    /// Creates a board from a list of [`Field`]s. The list must describe a
    /// plausible board: non-empty, coordinates unique and within a shared
    /// 4-span, no cell without cards.
    pub fn new(fields: &[Field]) -> (r: Board)
        requires
            valid_field_list(fields@),
        ensures
            r.wf(),
            r.cells() == fields@.map_values(|f: Field| compact_cell_of(f)),
    {
        let ghost target = fields@.map_values(|f: Field| compact_cell_of(f));
        let mut v: Vec<Cell> = Vec::new();
        let mut k: usize = 0;
        while k < fields.len()
            invariant
                0 <= k <= fields@.len(),
                v@ == fields@.take(k as int).map_values(|f: Field| compact_cell_of(f)),
            decreases fields@.len() - k as int,
        {
            let f = &fields[k];
            let cf = CompactField::from_field(f);
            v.push((f.i, f.j, cf));
            proof {
                assert(fields@.take(k as int + 1) =~= fields@.take(k as int).push(fields@[k as int]));
                assert(fields@.take(k as int + 1).map_values(|f: Field| compact_cell_of(f)) =~= fields@.take(
                    k as int,
                ).map_values(|f: Field| compact_cell_of(f)).push(compact_cell_of(fields@[k as int])));
            }
            k = k + 1;
        }
        proof {
            assert(fields@.take(fields@.len() as int) =~= fields@);
            assert(v@ =~= target);
            assert(v@.len() == fields@.len());
            assert(valid_cell_list(v@)) by {
                assert forall|a: int| 0 <= a < v@.len() implies !(#[trigger] v@[a]).2.is_empty_spec() by {
                    assert(v@[a] == compact_cell_of(fields@[a]));
                }
                assert forall|a: int, b: int|
                    #![trigger v@[a], v@[b]]
                    0 <= a < b < v@.len() implies cell_coord(v@[a]) != cell_coord(v@[b]) by {
                    assert(v@[a] == compact_cell_of(fields@[a]));
                    assert(v@[b] == compact_cell_of(fields@[b]));
                    assert(field_coord(fields@[a]) != field_coord(fields@[b]));
                }
                assert forall|a: int, b: int|
                    #![trigger v@[a], v@[b]]
                    0 <= a < v@.len() && 0 <= b < v@.len() implies -3 <= v@[a].0 as int - v@[b].0
                    as int <= 3 && -3 <= v@[a].1 as int - v@[b].1 as int <= 3 by {
                    assert(v@[a] == compact_cell_of(fields@[a]));
                    assert(v@[b] == compact_cell_of(fields@[b]));
                    assert(field_coord(fields@[a]) == cell_coord(v@[a]));
                    assert(field_coord(fields@[b]) == cell_coord(v@[b]));
                }
            }
        }
        Board::from_fields_list(v)
    }

    /// Creates a board from a list of cells. The list must describe a
    /// plausible board: non-empty, coordinates unique and within a shared
    /// 4-span, no cell without cards.
    #[verifier::rlimit(100)]
    pub fn from_fields_list(fields: Vec<Cell>) -> (r: Board)
        requires
            valid_cell_list(fields@),
        ensures
            r.wf(),
            r.cells() == fields@,
            r.center() == cell_coord(fields@[0]),
    {
        let ghost s = fields@;
        let first = fields[0];
        let center = (first.0, first.1);
        let mut bbox = BoundingBox::singleton(first.0, first.1);
        let mut bb_diamonds = BitBoard::empty_board_centered_at(center);
        let mut bb_hearts = BitBoard::empty_board_centered_at(center);
        let mut bb_spades = BitBoard::empty_board_centered_at(center);
        let mut bb_clubs = BitBoard::empty_board_centered_at(center);
        let ghost c = (center.0 as int, center.1 as int);
        proof {
            assert(suit_coords(s.take(0), Suit::Diamond) =~= Set::<(int, int)>::empty());
            assert(suit_coords(s.take(0), Suit::Heart) =~= Set::<(int, int)>::empty());
            assert(suit_coords(s.take(0), Suit::Spade) =~= Set::<(int, int)>::empty());
            assert(suit_coords(s.take(0), Suit::Club) =~= Set::<(int, int)>::empty());
        }
        let mut k: usize = 0;
        while k < fields.len()
            invariant
                valid_cell_list(s),
                s == fields@,
                0 <= k <= s.len(),
                c == cell_coord(s[0]),
                center.0 == s[0].0 && center.1 == s[0].1,
                bbox.i_min as int <= s[0].0 as int <= bbox.i_max as int,
                bbox.j_min as int <= s[0].1 as int <= bbox.j_max as int,
                covers(bbox, s.take(k as int)),
                bbox.i_min == s[0].0 || exists|l: int| 0 <= l < k && (#[trigger] s[l]).0 == bbox.i_min,
                bbox.i_max == s[0].0 || exists|l: int| 0 <= l < k && (#[trigger] s[l]).0 == bbox.i_max,
                bbox.j_min == s[0].1 || exists|l: int| 0 <= l < k && (#[trigger] s[l]).1 == bbox.j_min,
                bbox.j_max == s[0].1 || exists|l: int| 0 <= l < k && (#[trigger] s[l]).1 == bbox.j_max,
                bb_diamonds.wf() && bb_diamonds.ctr() == c && bb_diamonds@ == suit_coords(
                    s.take(k as int),
                    Suit::Diamond,
                ),
                bb_hearts.wf() && bb_hearts.ctr() == c && bb_hearts@ == suit_coords(
                    s.take(k as int),
                    Suit::Heart,
                ),
                bb_spades.wf() && bb_spades.ctr() == c && bb_spades@ == suit_coords(
                    s.take(k as int),
                    Suit::Spade,
                ),
                bb_clubs.wf() && bb_clubs.ctr() == c && bb_clubs@ == suit_coords(
                    s.take(k as int),
                    Suit::Club,
                ),
            decreases s.len() - k as int,
        {
            let cell = fields[k];
            proof {
                assert(cell == s[k as int]);
                assert(cell_coord(s[k as int]) == cell_coord(s[k as int]));
                assert(-3 <= s[k as int].0 as int - s[0].0 as int <= 3 && -3 <= s[k as int].1 as int
                    - s[0].1 as int <= 3);
                assert(s.take(k as int + 1) =~= s.take(k as int).push(s[k as int]));
            }
            bbox.update(cell.0, cell.1);
            match cell.2.top_card() {
                Some(card) => {
                    proof {
                        lemma_suit_coords_push(s.take(k as int), s[k as int], Suit::Diamond);
                        lemma_suit_coords_push(s.take(k as int), s[k as int], Suit::Heart);
                        lemma_suit_coords_push(s.take(k as int), s[k as int], Suit::Spade);
                        lemma_suit_coords_push(s.take(k as int), s[k as int], Suit::Club);
                    }
                    match card.suit {
                        Suit::Diamond => { bb_diamonds = bb_diamonds.insert(cell.0, cell.1); },
                        Suit::Heart => { bb_hearts = bb_hearts.insert(cell.0, cell.1); },
                        Suit::Spade => { bb_spades = bb_spades.insert(cell.0, cell.1); },
                        Suit::Club => { bb_clubs = bb_clubs.insert(cell.0, cell.1); },
                    }
                },
                None => {
                    proof {
                        lemma_suit_coords_push(s.take(k as int), s[k as int], Suit::Diamond);
                        lemma_suit_coords_push(s.take(k as int), s[k as int], Suit::Spade);
                        lemma_suit_coords_push(s.take(k as int), s[k as int], Suit::Heart);
                        lemma_suit_coords_push(s.take(k as int), s[k as int], Suit::Club);
                    }
                },
            }
            k = k + 1;
        }
        proof {
            assert(s.take(s.len() as int) =~= s);
        }
        let r = Board {
            fields,
            center_i: center.0,
            center_j: center.1,
            bbox,
            bb_diamonds,
            bb_hearts,
            bb_spades,
            bb_clubs,
        };
        proof {
            assert(r.wf()) by {
                assert(r.cells() == s);
                let bb = r.bbox_spec();
                assert(covers(bb, s));
                assert(attained(bb, s)) by {
                    if bb.i_min == s[0].0 {
                        assert(0 <= 0 < s.len() && s[0].0 == bb.i_min);
                    }
                    if bb.i_max == s[0].0 {
                        assert(0 <= 0 < s.len() && s[0].0 == bb.i_max);
                    }
                    if bb.j_min == s[0].1 {
                        assert(0 <= 0 < s.len() && s[0].1 == bb.j_min);
                    }
                    if bb.j_max == s[0].1 {
                        assert(0 <= 0 < s.len() && s[0].1 == bb.j_max);
                    }
                }
                assert(bb.i_max as int - bb.i_min as int <= 3 && bb.j_max as int - bb.j_min as int
                    <= 3) by {
                    let ka = choose|l: int| 0 <= l < s.len() && (#[trigger] s[l]).0 == bb.i_min;
                    let kb = choose|l: int| 0 <= l < s.len() && (#[trigger] s[l]).0 == bb.i_max;
                    let kc = choose|l: int| 0 <= l < s.len() && (#[trigger] s[l]).1 == bb.j_min;
                    let kd = choose|l: int| 0 <= l < s.len() && (#[trigger] s[l]).1 == bb.j_max;
                    assert(attained(bb, s));
                    assert(-3 <= s[kb].0 as int - s[ka].0 as int <= 3);
                    assert(-3 <= s[kd].1 as int - s[kc].1 as int <= 3);
                }
                assert forall|l: int|
                    0 <= l < s.len() implies in_window(c.0, c.1, (#[trigger] s[l]).0 as int, s[l].1 as int) by {
                    assert(-3 <= s[l].0 as int - s[0].0 as int <= 3 && -3 <= s[l].1 as int
                        - s[0].1 as int <= 3);
                }
            }
        }
        r
    }

    /// The smallest area enclosing the cards currently on the board.
    pub fn bbox(&self) -> (r: BoundingBox)
        ensures
            r == self.bbox_spec(),
    {
        self.bbox
    }

    /// The rectangle into which a card may be placed without the board
    /// leaving its 4-span; clipped to the coordinate domain.
    pub fn playable_area(&self) -> (r: BoundingBox)
        requires
            self.wf(),
        ensures
            r.i_min as int == clip_low(self.bbox_spec().i_max as int - 3),
            r.j_min as int == clip_low(self.bbox_spec().j_max as int - 3),
            r.i_max as int == clip_high(self.bbox_spec().i_min as int + 3),
            r.j_max as int == clip_high(self.bbox_spec().j_min as int + 3),
            r.ordered(),
    {
        BoundingBox {
            i_min: clamp_to_i8(self.bbox.i_max as i16 - 3),
            j_min: clamp_to_i8(self.bbox.j_max as i16 - 3),
            i_max: clamp_to_i8(self.bbox.i_min as i16 + 3),
            j_max: clamp_to_i8(self.bbox.j_min as i16 + 3),
        }
    }

    /// The visible diamonds on the board.
    pub fn diamonds(&self) -> (r: BitBoard)
        ensures
            r == self.suit_bb(Suit::Diamond),
    {
        self.bb_diamonds
    }

    /// The visible hearts on the board.
    pub fn hearts(&self) -> (r: BitBoard)
        ensures
            r == self.suit_bb(Suit::Heart),
    {
        self.bb_hearts
    }

    /// The visible spades on the board.
    pub fn spades(&self) -> (r: BitBoard)
        ensures
            r == self.suit_bb(Suit::Spade),
    {
        self.bb_spades
    }

    /// The visible clubs on the board.
    pub fn clubs(&self) -> (r: BitBoard)
        ensures
            r == self.suit_bb(Suit::Club),
    {
        self.bb_clubs
    }

    /// Whether the play target lies within the playable area.
    pub fn is_in_bounds(&self, i: i8, j: i8) -> (r: bool)
        ensures
            r == self.in_playable(i as int, j as int),
    {
        let d1 = i as i16 - self.bbox.i_min as i16;
        let d2 = self.bbox.i_max as i16 - i as i16;
        let d3 = j as i16 - self.bbox.j_min as i16;
        let d4 = self.bbox.j_max as i16 - j as i16;
        d1 < 4 && d2 < 4 && d3 < 4 && d4 < 4
    }

    /// The stack at the given coordinate, if any.
    pub fn get(&self, i: i8, j: i8) -> (r: Option<CompactField>)
        ensures
            r == self.field_at(i as int, j as int),
    {
        let ghost s = self.fields@;
        proof {
            assert(s.skip(0) =~= s);
        }
        let mut k: usize = 0;
        while k < self.fields.len()
            invariant
                s == self.fields@,
                0 <= k <= s.len(),
                field_at_seq(s, i as int, j as int) == field_at_seq(
                    s.skip(k as int),
                    i as int,
                    j as int,
                ),
            decreases s.len() - k as int,
        {
            let cell = self.fields[k];
            proof {
                assert(s.skip(k as int)[0] == s[k as int]);
            }
            if cell.0 == i && cell.1 == j {
                return Some(cell.2);
            }
            proof {
                assert(s.skip(k as int).drop_first() =~= s.skip(k as int + 1));
            }
            k = k + 1;
        }
        proof {
            assert(s.skip(s.len() as int) =~= Seq::<Cell>::empty());
        }
        None
    }
}

impl Board {
    /// Somewhere to play the card exists: always while fewer than 16 cells
    /// are occupied, else some occupied cell must accept it.
    pub open spec fn possible_spec(self, card: Card) -> bool {
        self.cells().len() < 16 || exists|k: int|
            0 <= k < self.cells().len() && (#[trigger] self.cells()[k]).2.can_place_spec(card)
    }

    /// The coordinates where the card may legally be placed: playable-area
    /// cells whose stack, if any, accepts it.
    pub open spec fn locations_spec(self, card: Card) -> Set<(int, int)> {
        Set::new(
            |p: (int, int)|
                self.playable_cell(p) && match field_at_seq(self.cells(), p.0, p.1) {
                    Some(f) => f.can_place_spec(card),
                    None => true,
                },
        )
    }

    /// The occupied coordinates whose stack accepts the card.
    pub open spec fn combo_locations_spec(self, card: Card) -> Set<(int, int)> {
        Set::new(
            |p: (int, int)|
                match field_at_seq(self.cells(), p.0, p.1) {
                    Some(f) => f.can_place_spec(card),
                    None => false,
                },
        )
    }

    /// Is it possible to play this card anywhere?
    pub fn possible_to_play_card(&self, card: Card) -> (r: bool)
        ensures
            r == self.possible_spec(card),
    {
        let ghost s = self.cells();
        if self.fields.len() < 16 {
            return true;
        }
        let mut k: usize = 0;
        while k < self.fields.len()
            invariant
                s == self.cells(),
                s == self.fields@,
                0 <= k <= s.len(),
                forall|l: int| 0 <= l < k ==> !(#[trigger] s[l]).2.can_place_spec(card),
            decreases s.len() - k as int,
        {
            let cell = self.fields[k];
            if cell.2.can_place_card(card) {
                proof {
                    assert((#[trigger] s[k as int]).2.can_place_spec(card));
                }
                return true;
            }
            k = k + 1;
        }
        false
    }

    /// All coordinates that are valid places to play the given card.
    pub fn locations_for_card(&self, card: Card) -> (r: BitBoard)
        requires
            self.wf(),
        ensures
            r.wf(),
            r.ctr() == self.center(),
            r@ == self.locations_spec(card),
    {
        let ghost s = self.cells();
        let pa = self.playable_area();
        let empty = BitBoard::empty_board_centered_at((self.center_i, self.center_j));
        let mut bb = empty.insert_area(pa.i_min, pa.j_min, pa.i_max, pa.j_max);
        proof {
            assert(bb@ =~= Set::new(|p: (int, int)| self.playable_cell(p)));
        }
        let mut k: usize = 0;
        while k < self.fields.len()
            invariant
                self.wf(),
                s == self.cells(),
                s == self.fields@,
                0 <= k <= s.len(),
                bb.wf(),
                bb.ctr() == self.center(),
                bb@ == Set::new(
                    |p: (int, int)|
                        self.playable_cell(p) && !(exists|l: int|
                            0 <= l < k && cell_coord(#[trigger] s[l]) == p && !s[l].2.can_place_spec(
                                card,
                            )),
                ),
            decreases s.len() - k as int,
        {
            let ghost prev = bb@;
            let ghost goal = Set::new(
                |p: (int, int)|
                    self.playable_cell(p) && !(exists|l: int|
                        0 <= l < k as int + 1 && cell_coord(#[trigger] s[l]) == p
                            && !s[l].2.can_place_spec(card)),
            );
            let cell = self.fields[k];
            proof {
                assert(cell == s[k as int]);
            }
            if !cell.2.can_place_card(card) {
                bb = bb.remove(cell.0, cell.1);
                proof {
                    assert(bb@ =~= goal) by {
                        assert forall|p: (int, int)| bb@.contains(p) implies goal.contains(p) by {
                            if exists|l: int|
                                0 <= l < k as int + 1 && cell_coord(#[trigger] s[l]) == p
                                    && !s[l].2.can_place_spec(card) {
                                let l = choose|l: int|
                                    0 <= l < k as int + 1 && cell_coord(#[trigger] s[l]) == p
                                        && !s[l].2.can_place_spec(card);
                                assert(l == k as int);
                                assert(p == cell_coord(s[k as int]));
                            }
                        }
                        assert forall|p: (int, int)| goal.contains(p) implies bb@.contains(p) by {
                            assert(p != cell_coord(s[k as int]));
                            assert(prev.contains(p));
                        }
                    }
                }
            } else {
                proof {
                    assert(bb@ =~= goal) by {
                        assert forall|p: (int, int)| bb@.contains(p) implies goal.contains(p) by {
                            if exists|l: int|
                                0 <= l < k as int + 1 && cell_coord(#[trigger] s[l]) == p
                                    && !s[l].2.can_place_spec(card) {
                                let l = choose|l: int|
                                    0 <= l < k as int + 1 && cell_coord(#[trigger] s[l]) == p
                                        && !s[l].2.can_place_spec(card);
                                assert(l == k as int);
                            }
                        }
                        assert forall|p: (int, int)| goal.contains(p) implies bb@.contains(p) by {}
                    }
                }
            }
            k = k + 1;
        }
        proof {
            assert(bb@ =~= self.locations_spec(card)) by {
                assert forall|p: (int, int)|
                    bb@.contains(p) == self.locations_spec(card).contains(p) by {
                    lemma_field_at_index(s, p.0, p.1);
                    if field_at_seq(s, p.0, p.1) is Some {
                        let l = choose|l: int|
                            0 <= l < s.len() && cell_coord(#[trigger] s[l]) == p;
                        lemma_field_at_unique(s, l);
                        assert(field_at_seq(s, p.0, p.1) == Some(s[l].2));
                        if !s[l].2.can_place_spec(card) {
                            assert(cell_coord(s[l]) == p && !s[l].2.can_place_spec(card));
                        } else {
                            assert forall|m: int|
                                0 <= m < s.len() && cell_coord(#[trigger] s[m]) == p implies !(!s[m].2.can_place_spec(
                                card,
                            )) by {
                                lemma_field_at_unique(s, m);
                            }
                        }
                    }
                }
            }
        }
        bb
    }

    /// All coordinates that already hold cards and accept the given card.
    pub fn combo_locations_for_card(&self, card: Card) -> (r: BitBoard)
        requires
            self.wf(),
        ensures
            r.wf(),
            r.ctr() == self.center(),
            r@ == self.combo_locations_spec(card),
    {
        let ghost s = self.cells();
        let mut bb = BitBoard::empty_board_centered_at((self.center_i, self.center_j));
        let mut k: usize = 0;
        while k < self.fields.len()
            invariant
                self.wf(),
                s == self.cells(),
                s == self.fields@,
                0 <= k <= s.len(),
                bb.wf(),
                bb.ctr() == self.center(),
                bb@ == Set::new(
                    |p: (int, int)|
                        exists|l: int|
                            0 <= l < k && cell_coord(#[trigger] s[l]) == p && s[l].2.can_place_spec(
                                card,
                            ),
                ),
            decreases s.len() - k as int,
        {
            let ghost prev = bb@;
            let ghost goal = Set::new(
                |p: (int, int)|
                    exists|l: int|
                        0 <= l < k as int + 1 && cell_coord(#[trigger] s[l]) == p
                            && s[l].2.can_place_spec(card),
            );
            let cell = self.fields[k];
            proof {
                assert(cell == s[k as int]);
            }
            if cell.2.can_place_card(card) {
                bb = bb.insert(cell.0, cell.1);
                proof {
                    assert(bb@ =~= goal) by {
                        assert forall|p: (int, int)| bb@.contains(p) implies goal.contains(p) by {
                            if p == cell_coord(s[k as int]) {
                                assert(cell_coord(s[k as int]) == p && s[k as int].2.can_place_spec(
                                    card,
                                ));
                            } else {
                                let l = choose|l: int|
                                    0 <= l < k && cell_coord(#[trigger] s[l]) == p
                                        && s[l].2.can_place_spec(card);
                                assert(0 <= l < k as int + 1 && cell_coord(s[l]) == p
                                    && s[l].2.can_place_spec(card));
                            }
                        }
                        assert forall|p: (int, int)| goal.contains(p) implies bb@.contains(p) by {
                            let l = choose|l: int|
                                0 <= l < k as int + 1 && cell_coord(#[trigger] s[l]) == p
                                    && s[l].2.can_place_spec(card);
                            if l < k {
                                assert(prev.contains(p));
                            }
                        }
                    }
                }
            } else {
                proof {
                    assert(bb@ =~= goal) by {
                        assert forall|p: (int, int)| goal.contains(p) implies bb@.contains(p) by {
                            let l = choose|l: int|
                                0 <= l < k as int + 1 && cell_coord(#[trigger] s[l]) == p
                                    && s[l].2.can_place_spec(card);
                            assert(l < k);
                        }
                        assert forall|p: (int, int)| bb@.contains(p) implies goal.contains(p) by {
                            let l = choose|l: int|
                                0 <= l < k && cell_coord(#[trigger] s[l]) == p
                                    && s[l].2.can_place_spec(card);
                            assert(0 <= l < k as int + 1 && cell_coord(s[l]) == p
                                && s[l].2.can_place_spec(card));
                        }
                    }
                }
            }
            k = k + 1;
        }
        proof {
            assert(bb@ =~= self.combo_locations_spec(card)) by {
                assert forall|p: (int, int)|
                    bb@.contains(p) == self.combo_locations_spec(card).contains(p) by {
                    lemma_field_at_index(s, p.0, p.1);
                    if field_at_seq(s, p.0, p.1) is Some {
                        let l = choose|l: int|
                            0 <= l < s.len() && cell_coord(#[trigger] s[l]) == p;
                        lemma_field_at_unique(s, l);
                        if bb@.contains(p) {
                            let m = choose|m: int|
                                0 <= m < s.len() && cell_coord(#[trigger] s[m]) == p
                                    && s[m].2.can_place_spec(card);
                            lemma_field_at_unique(s, m);
                        } else {
                            if s[l].2.can_place_spec(card) {
                                assert(cell_coord(s[l]) == p && s[l].2.can_place_spec(card));
                            }
                        }
                    } else {
                        if bb@.contains(p) {
                            let m = choose|m: int|
                                0 <= m < s.len() && cell_coord(#[trigger] s[m]) == p
                                    && s[m].2.can_place_spec(card);
                        }
                    }
                }
            }
        }
        bb
    }
}

/// Two boards with the same cell list and derived structures.
pub open spec fn same_model(a: Board, b: Board) -> bool {
    &&& a.cells() == b.cells()
    &&& a.center() == b.center()
    &&& a.bbox_spec() == b.bbox_spec()
    &&& a.suit_bb(Suit::Diamond) == b.suit_bb(Suit::Diamond)
    &&& a.suit_bb(Suit::Heart) == b.suit_bb(Suit::Heart)
    &&& a.suit_bb(Suit::Spade) == b.suit_bb(Suit::Spade)
    &&& a.suit_bb(Suit::Club) == b.suit_bb(Suit::Club)
}

/// What the cell at `(x, y)` holds after the planned play is applied to the
/// cell list `s`: won cells leave the board, the play coordinate receives
/// the card (on a fresh cell if it was empty), and flipped cells turn
/// face-down.
pub open spec fn applied_cell(
    s: Seq<Cell>,
    flips: Set<(int, int)>,
    won: Set<(int, int)>,
    card: Card,
    pi: int,
    pj: int,
    x: int,
    y: int,
) -> Option<FieldModel> {
    if won.contains((x, y)) {
        None
    } else {
        match field_at_seq(s, x, y) {
            Some(f) => {
                let m1 = if x == pi && y == pj {
                    place_model(f.model(), card)
                } else {
                    f.model()
                };
                Some(
                    if flips.contains((x, y)) {
                        face_down_model(m1)
                    } else {
                        m1
                    },
                )
            },
            None => {
                if x == pi && y == pj {
                    let m1 = place_model((None::<Card>, Set::<Card>::empty()), card);
                    Some(
                        if flips.contains((x, y)) {
                            face_down_model(m1)
                        } else {
                            m1
                        },
                    )
                } else {
                    None
                }
            },
        }
    }
}

/// The cards held by the cells of `won` among the first `n` entries.
pub open spec fn cards_won_in(s: Seq<Cell>, won: Set<(int, int)>, n: int) -> Set<Card>
    decreases n,
{
    if n <= 0 {
        Set::<Card>::empty()
    } else {
        cards_won_in(s, won, n - 1).union(
            if won.contains(cell_coord(s[n - 1])) {
                s[n - 1].2.all_cards_spec()
            } else {
                Set::<Card>::empty()
            },
        )
    }
}

impl Board {
    /// The play stacks onto an already occupied cell.
    pub open spec fn combo_spec(self, ctp: CardToPlay) -> bool {
        self.field_at(ctp.i as int, ctp.j as int) is Some
    }

    /// The visible card at the target that refuses the played card, if any.
    pub open spec fn incompat_spec(self, ctp: CardToPlay) -> Option<Card> {
        match self.field_at(ctp.i as int, ctp.j as int) {
            Some(f) => match f.top_card {
                Some(t) => if !ctp.card.can_be_placed_on_spec(t) {
                    Some(t)
                } else {
                    None
                },
                None => None,
            },
            None => None,
        }
    }

    /// The in-bounds orthogonal neighbors of `(i, j)`, flipped by a Jack.
    pub open spec fn orth_flips(self, i: int, j: int) -> Set<(int, int)> {
        Set::new(
            |p: (int, int)|
                self.playable_cell(p) && (p == (i - 1, j) || p == (i + 1, j) || p == (i, j - 1) || p
                    == (i, j + 1)),
        )
    }

    /// The in-bounds diagonal neighbors of `(i, j)`, flipped by a Queen.
    pub open spec fn diag_flips(self, i: int, j: int) -> Set<(int, int)> {
        Set::new(
            |p: (int, int)|
                self.playable_cell(p) && (p == (i - 1, j - 1) || p == (i - 1, j + 1) || p == (
                    i + 1,
                    j - 1,
                ) || p == (i + 1, j + 1)),
        )
    }

    /// Ability resolution for a combo play: which cells the face card flips,
    /// or why the play is rejected. Kings demand an existing, visible
    /// target (unless the King lands on the target itself).
    pub open spec fn flips_result(self, ctp: CardToPlay) -> Result<Set<(int, int)>, IllegalCardPlayed> {
        match ctp.card.rank {
            Rank::Jack => Ok(self.orth_flips(ctp.i as int, ctp.j as int)),
            Rank::Queen => Ok(self.diag_flips(ctp.i as int, ctp.j as int)),
            Rank::King => match ctp.target_field_for_king_ability {
                Some(t) => match self.field_at(t.0 as int, t.1 as int) {
                    Some(f) => if f.top_card is None && !(t.0 == ctp.i && t.1 == ctp.j) {
                        Err(
                            IllegalCardPlayed::TargetForKingAbilityIsFaceDown {
                                tgt_i: t.0,
                                tgt_j: t.1,
                            },
                        )
                    } else {
                        Ok(Set::<(int, int)>::empty().insert((t.0 as int, t.1 as int)))
                    },
                    None => Err(
                        IllegalCardPlayed::TargetForKingAbilityDoesNotExist {
                            tgt_i: t.0,
                            tgt_j: t.1,
                        },
                    ),
                },
                None => Err(IllegalCardPlayed::NoTargetForKingAbility),
            },
            _ => Ok(Set::<(int, int)>::empty()),
        }
    }

    /// The flip set of the play: abilities activate only on combo plays.
    pub open spec fn flips_of(self, ctp: CardToPlay) -> Set<(int, int)> {
        if self.combo_spec(ctp) && self.flips_result(ctp) is Ok {
            self.flips_result(ctp)->Ok_0
        } else {
            Set::<(int, int)>::empty()
        }
    }

    /// The cells won by the play: insert the played coordinate into its
    /// suit's visible set, discount this turn's flips, detect lines through
    /// the played point, and keep the newly played card itself on the board.
    pub open spec fn won_spec(self, ctp: CardToPlay) -> Set<(int, int)> {
        lines_through(
            suit_coords(self.cells(), ctp.card.suit).insert(
                (ctp.i as int, ctp.j as int),
            ).difference(self.flips_of(ctp)),
            ctp.i as int,
            ctp.j as int,
        ).remove((ctp.i as int, ctp.j as int))
    }

    /// Every card, visible or hidden, of every won cell.
    pub open spec fn cards_won_spec(self, ctp: CardToPlay) -> Set<Card> {
        cards_won_in(self.cells(), self.won_spec(ctp), self.cells().len() as int)
    }

    /// Why the play is rejected, if it is; the checks run in this order:
    /// bounds, compatibility, then ability resolution.
    pub open spec fn rejection(self, ctp: CardToPlay) -> Option<IllegalCardPlayed> {
        if !self.playable_cell((ctp.i as int, ctp.j as int)) {
            Some(IllegalCardPlayed::OutOfBounds)
        } else if self.incompat_spec(ctp) is Some {
            Some(
                IllegalCardPlayed::IncompatibleCard {
                    existing_card: self.incompat_spec(ctp).unwrap(),
                },
            )
        } else if self.combo_spec(ctp) && self.flips_result(ctp) is Err {
            Some(self.flips_result(ctp)->Err_0)
        } else {
            None
        }
    }

    /// A field-for-field copy.
    fn duplicate(&self) -> (r: Board)
        ensures
            same_model(r, *self),
    {
        let mut v: Vec<Cell> = Vec::new();
        let mut k: usize = 0;
        while k < self.fields.len()
            invariant
                0 <= k <= self.fields@.len(),
                v@ == self.fields@.take(k as int),
            decreases self.fields@.len() - k as int,
        {
            let c = self.fields[k];
            v.push(c);
            proof {
                assert(self.fields@.take(k as int + 1) =~= self.fields@.take(k as int).push(
                    self.fields@[k as int],
                ));
            }
            k = k + 1;
        }
        proof {
            assert(self.fields@.take(self.fields@.len() as int) =~= self.fields@);
        }
        Board {
            fields: v,
            center_i: self.center_i,
            center_j: self.center_j,
            bbox: self.bbox,
            bb_diamonds: self.bb_diamonds,
            bb_hearts: self.bb_hearts,
            bb_spades: self.bb_spades,
            bb_clubs: self.bb_clubs,
        }
    }

    /// Adds `(x, y)` to the flip set when it lies in the playable area.
    fn flip_if_in_bounds(&self, bb: BitBoard, x: i16, y: i16) -> (r: BitBoard)
        requires
            self.wf(),
            bb.wf(),
            bb.ctr() == self.center(),
        ensures
            r.wf(),
            r.ctr() == self.center(),
            r@ == (if self.playable_cell((x as int, y as int)) {
                bb@.insert((x as int, y as int))
            } else {
                bb@
            }),
    {
        if x >= -128 && x <= 127 && y >= -128 && y <= 127 {
            if self.is_in_bounds(x as i8, y as i8) {
                return bb.insert(x as i8, y as i8);
            }
        }
        bb
    }

    /// Which cells a combo face-card play flips, or why it is rejected.
    fn fields_to_flip(&self, card_to_play: CardToPlay) -> (r: Result<
        BitBoard,
        IllegalCardPlayed,
    >)
        requires
            self.wf(),
            self.playable_cell((card_to_play.i as int, card_to_play.j as int)),
        ensures
            (self.flips_result(card_to_play) is Ok) <==> (r is Ok),
            r is Ok ==> (r->Ok_0).wf() && (r->Ok_0)@ == self.flips_result(card_to_play)->Ok_0
                && (r->Ok_0).ctr() == self.center(),
            r is Err ==> r->Err_0 == self.flips_result(card_to_play)->Err_0,
    {
        let card_i = card_to_play.i;
        let card_j = card_to_play.j;
        let mut flipped = BitBoard::empty_board_centered_at((self.center_i, self.center_j));
        match card_to_play.card.rank {
            Rank::Jack => {
                flipped = self.flip_if_in_bounds(flipped, card_i as i16 - 1, card_j as i16);
                flipped = self.flip_if_in_bounds(flipped, card_i as i16 + 1, card_j as i16);
                flipped = self.flip_if_in_bounds(flipped, card_i as i16, card_j as i16 - 1);
                flipped = self.flip_if_in_bounds(flipped, card_i as i16, card_j as i16 + 1);
                proof {
                    assert(flipped@ =~= self.orth_flips(card_i as int, card_j as int));
                }
                Ok(flipped)
            },
            Rank::Queen => {
                flipped = self.flip_if_in_bounds(flipped, card_i as i16 - 1, card_j as i16 - 1);
                flipped = self.flip_if_in_bounds(flipped, card_i as i16 - 1, card_j as i16 + 1);
                flipped = self.flip_if_in_bounds(flipped, card_i as i16 + 1, card_j as i16 - 1);
                flipped = self.flip_if_in_bounds(flipped, card_i as i16 + 1, card_j as i16 + 1);
                proof {
                    assert(flipped@ =~= self.diag_flips(card_i as int, card_j as int));
                }
                Ok(flipped)
            },
            Rank::King => {
                match card_to_play.target_field_for_king_ability {
                    Some((tgt_i, tgt_j)) => {
                        match self.get(tgt_i, tgt_j) {
                            Some(f) => {
                                if f.top_card().is_none() && !(card_i == tgt_i && card_j == tgt_j) {
                                    Err(
                                        IllegalCardPlayed::TargetForKingAbilityIsFaceDown {
                                            tgt_i,
                                            tgt_j,
                                        },
                                    )
                                } else {
                                    proof {
                                        lemma_field_at_index(
                                            self.cells(),
                                            tgt_i as int,
                                            tgt_j as int,
                                        );
                                        let l = choose|l: int|
                                            0 <= l < self.cells().len() && cell_coord(
                                                #[trigger] self.cells()[l],
                                            ) == (tgt_i as int, tgt_j as int);
                                        assert(in_window(
                                            self.center().0,
                                            self.center().1,
                                            self.cells()[l].0 as int,
                                            self.cells()[l].1 as int,
                                        ));
                                    }
                                    flipped = flipped.insert(tgt_i, tgt_j);
                                    proof {
                                        assert(flipped@ =~= Set::<(int, int)>::empty().insert(
                                            (tgt_i as int, tgt_j as int),
                                        ));
                                    }
                                    Ok(flipped)
                                }
                            },
                            None => Err(
                                IllegalCardPlayed::TargetForKingAbilityDoesNotExist {
                                    tgt_i,
                                    tgt_j,
                                },
                            ),
                        }
                    },
                    None => Err(IllegalCardPlayed::NoTargetForKingAbility),
                }
            },
            _ => {
                proof {
                    assert(flipped@ =~= Set::<(int, int)>::empty());
                }
                Ok(flipped)
            },
        }
    }

    /// Plans playing a card: checks bounds and compatibility, resolves
    /// abilities, detects won lines, and collects the won cards — without
    /// touching this board.
    pub fn calculate(&self, card_to_play: CardToPlay) -> (r: Result<
        CalculatedEffects,
        IllegalCardPlayed,
    >)
        requires
            self.wf(),
        ensures
            self.rejection(card_to_play) matches Some(e) ==> r == Err::<
                CalculatedEffects,
                IllegalCardPlayed,
            >(e),
            self.rejection(card_to_play) is None ==> r is Ok && (r->Ok_0).wf() && same_model(
                (r->Ok_0).board_spec(),
                *self,
            ) && (r->Ok_0).flip_bb()@ == self.flips_of(card_to_play) && (r->Ok_0).won_bb()@
                == self.won_spec(card_to_play) && (r->Ok_0).new_card_spec() == card_to_play.card
                && (r->Ok_0).new_coord() == (card_to_play.i as int, card_to_play.j as int) && (
            r->Ok_0).won_cards_view() == self.cards_won_spec(card_to_play) && (
            r->Ok_0).combo_flag() == self.combo_spec(card_to_play),
    {
        let i = card_to_play.i;
        let j = card_to_play.j;
        let card = card_to_play.card;
        if !self.is_in_bounds(i, j) {
            return Err(IllegalCardPlayed::OutOfBounds);
        }
        let existing_field = self.get(i, j);
        match existing_field {
            Some(f) => match f.top_card() {
                Some(t) => if !card.can_be_placed_on(t) {
                    return Err(IllegalCardPlayed::IncompatibleCard { existing_card: t });
                },
                None => {},
            },
            None => {},
        }
        let combo = existing_field.is_some();
        let flipped: BitBoard = if combo {
            match self.fields_to_flip(card_to_play) {
                Ok(bb) => bb,
                Err(e) => {
                    return Err(e);
                },
            }
        } else {
            BitBoard::empty_board_centered_at((self.center_i, self.center_j))
        };
        proof {
            assert(flipped@ == self.flips_of(card_to_play));
        }
        let suit_board = match card.suit {
            Suit::Diamond => self.bb_diamonds,
            Suit::Heart => self.bb_hearts,
            Suit::Spade => self.bb_spades,
            Suit::Club => self.bb_clubs,
        };
        let with_new = suit_board.insert(i, j);
        let minus_flipped = with_new.difference(flipped);
        let lines = minus_flipped.lines_going_through_point(i, j);
        let won = lines.remove(i, j);
        proof {
            assert(won@ == self.won_spec(card_to_play));
        }
        let ghost s = self.cells();
        let ghost w = won@;
        let mut cards_won = CardsSet::new();
        proof {
            assert(cards_won@ =~= cards_won_in(s, w, 0));
        }
        let mut k: usize = 0;
        while k < self.fields.len()
            invariant
                s == self.cells(),
                s == self.fields@,
                w == won@,
                won.wf(),
                0 <= k <= s.len(),
                cards_won@ == cards_won_in(s, w, k as int),
            decreases s.len() - k as int,
        {
            let cell = self.fields[k];
            proof {
                assert(cell == s[k as int]);
            }
            if won.contains(cell.0, cell.1) {
                cards_won = cards_won.union(cell.2.all_cards());
            } else {
                proof {
                    assert(cards_won@ =~= cards_won@.union(Set::<Card>::empty()));
                }
            }
            k = k + 1;
        }
        let plan = CalculatedEffects {
            board: self.duplicate(),
            diff: Diff { flipped, won, new_card: card, new_card_i: i, new_card_j: j },
            cards_won,
            combo,
        };
        proof {
            assert(plan.board_spec().wf()) by {
                assert(same_model(plan.board_spec(), *self));
            }
        }
        Ok(plan)
    }

    /// Plans the play and, if it is legal, applies it at once.
    pub fn play_card(&self, card_to_play: CardToPlay) -> (r: Result<Board, IllegalCardPlayed>)
        requires
            self.wf(),
        ensures
            self.rejection(card_to_play) matches Some(e) ==> r == Err::<Board, IllegalCardPlayed>(
                e,
            ),
            self.rejection(card_to_play) is None ==> r is Ok && (r->Ok_0).wf() && (
            r->Ok_0).center() == (card_to_play.i as int, card_to_play.j as int) && forall|
                x: int,
                y: int,
            |
                #[trigger] cell_model_at((r->Ok_0).cells(), x, y) == applied_cell(
                    self.cells(),
                    self.flips_of(card_to_play),
                    self.won_spec(card_to_play),
                    card_to_play.card,
                    card_to_play.i as int,
                    card_to_play.j as int,
                    x,
                    y,
                ),
    {
        match self.calculate(card_to_play) {
            Ok(plan) => Ok(plan.execute()),
            Err(e) => Err(e),
        }
    }
}

/// The planned changes of one play.
struct Diff {
    flipped: BitBoard,
    won: BitBoard,
    new_card: Card,
    new_card_i: i8,
    new_card_j: i8,
}

/// The effects that playing a card would have, returned by
/// [`Board::calculate`]; [`CalculatedEffects::execute`] materializes them
/// into a new board.
pub struct CalculatedEffects {
    /// The board the plan was computed against.
    board: Board,
    /// The planned changes.
    diff: Diff,
    /// The cards that would be won by this play.
    pub cards_won: CardsSet,
    /// Should another card be played?
    pub combo: bool,
}

impl CalculatedEffects {
    /// The board the plan was computed against.
    pub closed spec fn board_spec(self) -> Board {
        self.board
    }

    /// The planned flip set.
    pub closed spec fn flip_bb(self) -> BitBoard {
        self.diff.flipped
    }

    /// The planned won-cells set.
    pub closed spec fn won_bb(self) -> BitBoard {
        self.diff.won
    }

    /// The card being played.
    pub closed spec fn new_card_spec(self) -> Card {
        self.diff.new_card
    }

    /// The set of cards won by the play.
    pub closed spec fn won_cards_view(self) -> Set<Card> {
        self.cards_won@
    }

    /// Whether the play stacks onto an occupied cell.
    pub closed spec fn combo_flag(self) -> bool {
        self.combo
    }

    /// Where the card is being played.
    pub closed spec fn new_coord(self) -> (int, int) {
        (self.diff.new_card_i as int, self.diff.new_card_j as int)
    }

    /// A plan as produced by [`Board::calculate`]: its board is valid, the
    /// play target lies in the playable area, and the played coordinate is
    /// never among the won cells.
    pub open spec fn wf(self) -> bool {
        &&& self.board_spec().wf()
        &&& self.board_spec().playable_cell(self.new_coord())
        &&& self.flip_bb().wf()
        &&& self.won_bb().wf()
        &&& !self.won_bb()@.contains(self.new_coord())
    }

    /// The planned flip set.
    pub fn flipped(&self) -> (r: BitBoard)
        ensures
            r == self.flip_bb(),
    {
        self.diff.flipped
    }

    /// The planned won-cells set.
    pub fn won(&self) -> (r: BitBoard)
        ensures
            r == self.won_bb(),
    {
        self.diff.won
    }

    /// Applies the planned changes, deriving a new board; the source board
    /// remains valid.
    pub fn execute(self) -> (r: Board)
        requires
            self.wf(),
        ensures
            r.wf(),
            r.center() == self.new_coord(),
            forall|x: int, y: int|
                #[trigger] cell_model_at(r.cells(), x, y) == applied_cell(
                    self.board_spec().cells(),
                    self.flip_bb()@,
                    self.won_bb()@,
                    self.new_card_spec(),
                    self.new_coord().0,
                    self.new_coord().1,
                    x,
                    y,
                ),
    {
        apply_diff(&self.board, &self.diff)
    }
}

/// Strict ascending lexicographic order on coordinates.
pub open spec fn coord_lt(a: (int, int), b: (int, int)) -> bool {
    a.0 < b.0 || (a.0 == b.0 && a.1 < b.1)
}

/// `out` enumerates exactly the cells of `s`, ascending by coordinate, each
/// with the content the board holds there.
pub open spec fn snapshot_of(s: Seq<Cell>, out: Seq<Field>) -> bool {
    &&& out.len() == s.len()
    &&& forall|m: int|
        0 <= m < out.len() ==> field_at_seq(s, (#[trigger] out[m]).i as int, out[m].j as int)
            == Some(
            CompactField { top_card: out[m].top_card, hidden_cards: out[m].hidden_cards },
        )
    &&& forall|l: int|
        0 <= l < s.len() ==> exists|m: int|
            0 <= m < out.len() && field_coord(#[trigger] out[m]) == cell_coord(#[trigger] s[l])
    &&& forall|a: int, b: int|
        #![trigger out[a], out[b]]
        0 <= a < b < out.len() ==> coord_lt(field_coord(out[a]), field_coord(out[b]))
}

/// A sorted list of the wire forms of exactly the cells of `s` is a
/// snapshot of `s`.
proof fn lemma_snapshot_from_wires(s: Seq<Cell>, out: Seq<Field>)
    requires
        unique_coords(s),
        out.len() == s.len(),
        sorted_fields(out),
        forall|m: int|
            0 <= m < out.len() ==> exists|l: int|
                0 <= l < s.len() && wire_of(#[trigger] s[l]) == #[trigger] out[m],
        forall|l: int|
            0 <= l < s.len() ==> exists|m: int|
                0 <= m < out.len() && #[trigger] out[m] == wire_of(#[trigger] s[l]),
    ensures
        snapshot_of(s, out),
{
    assert forall|m: int|
        0 <= m < out.len() implies field_at_seq(
        s,
        (#[trigger] out[m]).i as int,
        out[m].j as int,
    ) == Some(
        CompactField { top_card: out[m].top_card, hidden_cards: out[m].hidden_cards },
    ) by {
        let l = choose|l: int| 0 <= l < s.len() && wire_of(#[trigger] s[l]) == #[trigger] out[m];
        lemma_field_at_unique(s, l);
        assert(CompactField { top_card: out[m].top_card, hidden_cards: out[m].hidden_cards }
            == s[l].2);
    }
    assert forall|l: int|
        0 <= l < s.len() implies exists|m: int|
            0 <= m < out.len() && field_coord(#[trigger] out[m]) == cell_coord(
                #[trigger] s[l],
            ) by {
        let m = choose|m: int| 0 <= m < out.len() && #[trigger] out[m] == wire_of(#[trigger] s[l]);
        assert(field_coord(out[m]) == cell_coord(s[l]));
    }
}

/// Ascending coordinate order, strictly.
pub open spec fn sorted_fields(s: Seq<Field>) -> bool {
    forall|a: int, b: int|
        #![trigger s[a], s[b]]
        0 <= a < b < s.len() ==> coord_lt(field_coord(s[a]), field_coord(s[b]))
}

/// The wire form of one cell.
pub open spec fn wire_of(c: Cell) -> Field {
    Field { i: c.0, j: c.1, top_card: c.2.top_card, hidden_cards: c.2.hidden_cards }
}

/// Inserts a field with a fresh coordinate into a sorted list, keeping it
/// sorted and keeping every entry.
#[verifier::rlimit(100)]
fn insert_sorted(v: &mut Vec<Field>, f: Field)
    requires
        sorted_fields(old(v)@),
        forall|m: int| 0 <= m < old(v)@.len() ==> field_coord(#[trigger] old(v)@[m]) != field_coord(f),
    ensures
        sorted_fields(final (v)@),
        final (v)@.len() == old(v)@.len() + 1,
        exists|m: int| 0 <= m < final (v)@.len() && #[trigger] final (v)@[m] == f,
        forall|m: int|
            0 <= m < final (v)@.len() ==> #[trigger] final (v)@[m] == f || exists|m2: int|
                0 <= m2 < old(v)@.len() && #[trigger] old(v)@[m2] == final (v)@[m],
        forall|m2: int|
            0 <= m2 < old(v)@.len() ==> exists|m: int|
                0 <= m < final (v)@.len() && #[trigger] final (v)@[m] == #[trigger] old(v)@[m2],
{
    let ghost fc = (f.i as int, f.j as int);
    let mut pos: usize = 0;
    while pos < v.len() && (v[pos].i < f.i || (v[pos].i == f.i && v[pos].j < f.j))
        invariant
            sorted_fields(v@),
            v@ == old(v)@,
            fc == field_coord(f),
            0 <= pos <= v@.len(),
            forall|m: int| 0 <= m < pos ==> coord_lt(field_coord(#[trigger] v@[m]), fc),
        decreases v@.len() - pos as int,
    {
        pos = pos + 1;
    }
    proof {
        if pos < v@.len() {
            assert(coord_lt(fc, field_coord(v@[pos as int])));
        }
    }
    let ghost before = v@;
    v.insert(pos, f);
    proof {
        before.insert_ensures(pos as int, f);
        assert(v@[pos as int] == f);
        assert forall|a: int, b: int|
            #![trigger v@[a], v@[b]]
            0 <= a < b < v@.len() implies coord_lt(field_coord(v@[a]), field_coord(v@[b])) by {
            if a < pos as int {
                assert(v@[a] == before[a]);
            }
            if b < pos as int {
                assert(v@[b] == before[b]);
            }
            if a > pos as int {
                assert(v@[a] == before[a - 1]);
            }
            if b > pos as int {
                assert(v@[b] == before[b - 1]);
                if a == pos as int && (pos as int) < before.len() {
                    assert(coord_lt(fc, field_coord(before[pos as int])));
                    if b - 1 > pos as int {
                        assert(coord_lt(
                            field_coord(before[pos as int]),
                            field_coord(before[b - 1]),
                        ));
                    }
                }
            }
        }
        assert forall|m: int|
            0 <= m < v@.len() implies #[trigger] v@[m] == f || exists|m2: int|
                0 <= m2 < before.len() && #[trigger] before[m2] == v@[m] by {
            if m < pos as int {
                assert(before[m] == v@[m]);
            } else if m > pos as int {
                assert(before[m - 1] == v@[m]);
            }
        }
        assert forall|m2: int|
            0 <= m2 < before.len() implies exists|m: int|
                0 <= m < v@.len() && #[trigger] v@[m] == #[trigger] before[m2] by {
            if m2 < pos as int {
                assert(v@[m2] == before[m2]);
            } else {
                assert(v@[m2 + 1] == before[m2]);
            }
        }
    }
}

impl Board {
    /// The occupied cells in wire form, sorted ascending by coordinate —
    /// the contract surface for downstream serialization.
    #[verifier::rlimit(100)]
    pub fn to_fields_vec(&self) -> (r: Vec<Field>)
        requires
            self.wf(),
        ensures
            snapshot_of(self.cells(), r@),
    {
        let ghost s = self.cells();
        let mut out: Vec<Field> = Vec::new();
        let mut k: usize = 0;
        while k < self.fields.len()
            invariant
                self.wf(),
                s == self.cells(),
                s == self.fields@,
                0 <= k <= s.len(),
                out@.len() == k as int,
                sorted_fields(out@),
                forall|m: int|
                    0 <= m < out@.len() ==> exists|l: int|
                        0 <= l < k && wire_of(#[trigger] s[l]) == #[trigger] out@[m],
                forall|l: int|
                    0 <= l < k ==> exists|m: int|
                        0 <= m < out@.len() && #[trigger] out@[m] == wire_of(#[trigger] s[l]),
            decreases s.len() - k as int,
        {
            let cell = self.fields[k];
            proof {
                assert(cell == s[k as int]);
            }
            let f = Field {
                i: cell.0,
                j: cell.1,
                top_card: cell.2.top_card(),
                hidden_cards: cell.2.hidden_cards(),
            };
            proof {
                assert(f == wire_of(s[k as int]));
                assert forall|m: int|
                    0 <= m < out@.len() implies field_coord(#[trigger] out@[m]) != field_coord(
                    f,
                ) by {
                    let l = choose|l: int|
                        0 <= l < k && wire_of(#[trigger] s[l]) == #[trigger] out@[m];
                    assert(cell_coord(s[l]) != cell_coord(s[k as int]));
                }
            }
            let ghost before = out@;
            insert_sorted(&mut out, f);
            proof {
                assert forall|m: int|
                    0 <= m < out@.len() implies exists|l: int|
                        0 <= l < k as int + 1 && wire_of(#[trigger] s[l]) == #[trigger] out@[m] by {
                    if out@[m] == f {
                        assert(wire_of(s[k as int]) == out@[m]);
                    } else {
                        let m2 = choose|m2: int|
                            0 <= m2 < before.len() && #[trigger] before[m2] == out@[m];
                        let l = choose|l: int|
                            0 <= l < k && wire_of(#[trigger] s[l]) == #[trigger] before[m2];
                        assert(wire_of(s[l]) == out@[m]);
                    }
                }
                assert forall|l: int|
                    0 <= l < k as int + 1 implies exists|m: int|
                        0 <= m < out@.len() && #[trigger] out@[m] == wire_of(#[trigger] s[l]) by {
                    if l == k as int {
                        let m = choose|m: int| 0 <= m < out@.len() && #[trigger] out@[m] == f;
                        assert(out@[m] == wire_of(s[l]));
                    } else {
                        let m2 = choose|m2: int|
                            0 <= m2 < before.len() && #[trigger] before[m2] == wire_of(s[l]);
                        let m = choose|m: int|
                            0 <= m < out@.len() && #[trigger] out@[m] == before[m2];
                        assert(out@[m] == wire_of(s[l]));
                    }
                }
            }
            k = k + 1;
        }
        proof {
            lemma_snapshot_from_wires(s, out@);
        }
        out
    }
}

/// The coordinates of a wire-form field, as mathematical integers.
pub open spec fn field_coord(f: Field) -> (int, int) {
    (f.i as int, f.j as int)
}

/// The cell built from a wire-form field.
pub open spec fn compact_cell_of(f: Field) -> Cell {
    (f.i, f.j, CompactField { top_card: f.top_card, hidden_cards: f.hidden_cards })
}

/// A valid flat field list: non-empty, unique coordinates, no empty stacks,
/// and any two coordinates within a 4-span on each axis.
pub open spec fn valid_field_list(s: Seq<Field>) -> bool {
    &&& s.len() >= 1
    &&& forall|k: int, l: int|
        #![trigger s[k], s[l]]
        0 <= k < l < s.len() ==> field_coord(s[k]) != field_coord(s[l])
    &&& forall|k: int|
        0 <= k < s.len() ==> ((#[trigger] s[k]).top_card is Some || s[k].hidden_cards@
            != Set::<Card>::empty())
    &&& forall|k: int, l: int|
        #![trigger s[k], s[l]]
        0 <= k < s.len() && 0 <= l < s.len() ==> -3 <= s[k].i as int - s[l].i as int <= 3 && -3
            <= s[k].j as int - s[l].j as int <= 3
}

/// Clips to the lowest representable coordinate.
pub open spec fn clip_low(x: int) -> int {
    if x < -128 {
        -128
    } else {
        x
    }
}

/// Clips to the highest representable coordinate.
pub open spec fn clip_high(x: int) -> int {
    if x > 127 {
        127
    } else {
        x
    }
}

/// Materializes a plan: rebuilds the full cell list with won cells dropped,
/// the new card placed, flips applied, and every derived structure
/// recomputed around the new card's coordinate.
#[verifier::rlimit(100)]
fn apply_diff(board: &Board, diff: &Diff) -> (r: Board)
    requires
        board.wf(),
        board.playable_cell((diff.new_card_i as int, diff.new_card_j as int)),
        diff.flipped.wf(),
        diff.won.wf(),
        !diff.won@.contains((diff.new_card_i as int, diff.new_card_j as int)),
    ensures
        r.wf(),
        r.center() == (diff.new_card_i as int, diff.new_card_j as int),
        forall|x: int, y: int|
            #[trigger] cell_model_at(r.cells(), x, y) == applied_cell(
                board.cells(),
                diff.flipped@,
                diff.won@,
                diff.new_card,
                diff.new_card_i as int,
                diff.new_card_j as int,
                x,
                y,
            ),
{
    let pi = diff.new_card_i;
    let pj = diff.new_card_j;
    let ghost s = board.cells();
    let ghost flips = diff.flipped@;
    let ghost won = diff.won@;
    let ghost pii = pi as int;
    let ghost pjj = pj as int;
    let mut new_fields: Vec<Cell> = Vec::new();
    let mut bbox = BoundingBox::singleton(pi, pj);
    let mut bb_diamonds = BitBoard::empty_board_centered_at((pi, pj));
    let mut bb_hearts = BitBoard::empty_board_centered_at((pi, pj));
    let mut bb_spades = BitBoard::empty_board_centered_at((pi, pj));
    let mut bb_clubs = BitBoard::empty_board_centered_at((pi, pj));
    let mut exists_play = false;
    proof {
        assert(suit_coords(new_fields@, Suit::Diamond) =~= Set::<(int, int)>::empty());
        assert(suit_coords(new_fields@, Suit::Heart) =~= Set::<(int, int)>::empty());
        assert(suit_coords(new_fields@, Suit::Spade) =~= Set::<(int, int)>::empty());
        assert(suit_coords(new_fields@, Suit::Club) =~= Set::<(int, int)>::empty());
    }
    let mut k: usize = 0;
    while k < board.fields.len()
        invariant
            board.wf(),
            s == board.cells(),
            s == board.fields@,
            flips == diff.flipped@,
            won == diff.won@,
            board.playable_cell((pii, pjj)),
            !won.contains((pii, pjj)),
            pii == pi as int,
            pjj == pj as int,
            diff.flipped.wf(),
            diff.won.wf(),
            0 <= k <= s.len(),
            unique_coords(new_fields@),
            forall|m: int|
                0 <= m < new_fields@.len() ==> !(#[trigger] new_fields@[m]).2.is_empty_spec(),
            forall|m: int|
                0 <= m < new_fields@.len() ==> exists|l: int|
                    0 <= l < k && cell_coord(#[trigger] s[l]) == cell_coord(
                        #[trigger] new_fields@[m],
                    ),
            forall|x: int, y: int|
                #[trigger] cell_model_at(new_fields@, x, y) == (if exists|l: int|
                    0 <= l < k && cell_coord(#[trigger] s[l]) == (x, y) {
                    applied_cell(s, flips, won, diff.new_card, pii, pjj, x, y)
                } else {
                    None
                }),
            exists_play == exists|l: int| 0 <= l < k && cell_coord(#[trigger] s[l]) == (pii, pjj),
            bbox.i_min as int <= pii <= bbox.i_max as int,
            bbox.j_min as int <= pjj <= bbox.j_max as int,
            forall|m: int|
                0 <= m < new_fields@.len() ==> bbox.i_min as int <= (#[trigger] new_fields@[m]).0
                    as int <= bbox.i_max as int && bbox.j_min as int <= new_fields@[m].1 as int
                    <= bbox.j_max as int,
            bbox.i_min == pi || exists|m: int|
                0 <= m < new_fields@.len() && (#[trigger] new_fields@[m]).0 == bbox.i_min,
            bbox.i_max == pi || exists|m: int|
                0 <= m < new_fields@.len() && (#[trigger] new_fields@[m]).0 == bbox.i_max,
            bbox.j_min == pj || exists|m: int|
                0 <= m < new_fields@.len() && (#[trigger] new_fields@[m]).1 == bbox.j_min,
            bbox.j_max == pj || exists|m: int|
                0 <= m < new_fields@.len() && (#[trigger] new_fields@[m]).1 == bbox.j_max,
            bb_diamonds.wf() && bb_diamonds.ctr() == (pii, pjj) && bb_diamonds@ == suit_coords(
                new_fields@,
                Suit::Diamond,
            ),
            bb_hearts.wf() && bb_hearts.ctr() == (pii, pjj) && bb_hearts@ == suit_coords(
                new_fields@,
                Suit::Heart,
            ),
            bb_spades.wf() && bb_spades.ctr() == (pii, pjj) && bb_spades@ == suit_coords(
                new_fields@,
                Suit::Spade,
            ),
            bb_clubs.wf() && bb_clubs.ctr() == (pii, pjj) && bb_clubs@ == suit_coords(
                new_fields@,
                Suit::Club,
            ),
        decreases s.len() - k as int,
    {
        let cell = board.fields[k];
        proof {
            assert(cell == s[k as int]);
            assert(in_window(board.center().0, board.center().1, cell.0 as int, cell.1 as int));
        }
        let ghost prev = new_fields@;
        if diff.won.contains(cell.0, cell.1) {
            proof {
                assert forall|x: int, y: int|
                    #[trigger] cell_model_at(new_fields@, x, y) == (if exists|l: int|
                        0 <= l < k as int + 1 && cell_coord(#[trigger] s[l]) == (x, y) {
                        applied_cell(s, flips, won, diff.new_card, pii, pjj, x, y)
                    } else {
                        None
                    }) by {
                    if exists|l: int| 0 <= l < k as int + 1 && cell_coord(#[trigger] s[l]) == (
                        x,
                        y,
                    ) {
                        let l = choose|l: int|
                            0 <= l < k as int + 1 && cell_coord(#[trigger] s[l]) == (x, y);
                        if l == k as int {
                            assert(won.contains((x, y)));
                            assert(applied_cell(s, flips, won, diff.new_card, pii, pjj, x, y)
                                is None);
                            if exists|l2: int|
                                0 <= l2 < k && cell_coord(#[trigger] s[l2]) == (x, y) {
                                let l2 = choose|l2: int|
                                    0 <= l2 < k && cell_coord(#[trigger] s[l2]) == (x, y);
                                assert(cell_coord(s[l2]) != cell_coord(s[k as int]));
                                assert(false);
                            }
                        }
                    }
                }
            }
        } else {
            let mut f2 = cell.2;
            if cell.0 == pi && cell.1 == pj {
                f2 = f2.place_card(diff.new_card);
                exists_play = true;
            }
            if diff.flipped.contains(cell.0, cell.1) {
                f2 = f2.turn_face_down();
            }
            proof {
                assert(!f2.is_empty_spec()) by {
                    assert(!cell.2.is_empty_spec());
                    if flips.contains((cell.0 as int, cell.1 as int)) {
                        if cell.0 as int == pii && cell.1 as int == pjj {
                            assert(f2.hidden_cards@.contains(diff.new_card));
                        } else if cell.2.top_card is Some {
                            assert(f2.hidden_cards@.contains(cell.2.top_card.unwrap()));
                        } else {
                            assert(f2.hidden_cards@ == cell.2.hidden_cards@);
                        }
                    } else {
                        if cell.0 as int == pii && cell.1 as int == pjj {
                            assert(f2.top_card is Some);
                        } else {
                            assert(f2 == cell.2);
                        }
                    }
                }
                assert(f2.model() == (match applied_cell(
                    s,
                    flips,
                    won,
                    diff.new_card,
                    pii,
                    pjj,
                    cell.0 as int,
                    cell.1 as int,
                ) {
                    Some(m) => m,
                    None => f2.model(),
                })) by {
                    lemma_field_at_unique(s, k as int);
                }
                // the new entry's coordinates are not yet listed
                assert(field_at_seq(prev, cell.0 as int, cell.1 as int) is None) by {
                    if field_at_seq(prev, cell.0 as int, cell.1 as int) is Some {
                        lemma_field_at_index(prev, cell.0 as int, cell.1 as int);
                        let m = choose|m: int|
                            0 <= m < prev.len() && cell_coord(#[trigger] prev[m]) == (
                                cell.0 as int,
                                cell.1 as int,
                            );
                        let l = choose|l: int|
                            0 <= l < k && cell_coord(#[trigger] s[l]) == cell_coord(
                                #[trigger] prev[m],
                            );
                        assert(cell_coord(s[l]) != cell_coord(s[k as int]));
                        assert(false);
                    }
                }
            }
            let ghost ob = bbox;
            new_fields.push((cell.0, cell.1, f2));
            bbox.update(cell.0, cell.1);
            proof {
                let last = new_fields@.len() - 1;
                assert(new_fields@[last] == (cell.0, cell.1, f2));
                if bbox.i_min != pi {
                    if bbox.i_min == cell.0 {
                        assert((#[trigger] new_fields@[last]).0 == bbox.i_min);
                    } else {
                        let m = choose|m: int|
                            0 <= m < prev.len() && (#[trigger] prev[m]).0 == ob.i_min;
                        assert((#[trigger] new_fields@[m]).0 == bbox.i_min);
                    }
                }
                if bbox.i_max != pi {
                    if bbox.i_max == cell.0 {
                        assert((#[trigger] new_fields@[last]).0 == bbox.i_max);
                    } else {
                        let m = choose|m: int|
                            0 <= m < prev.len() && (#[trigger] prev[m]).0 == ob.i_max;
                        assert((#[trigger] new_fields@[m]).0 == bbox.i_max);
                    }
                }
                if bbox.j_min != pj {
                    if bbox.j_min == cell.1 {
                        assert((#[trigger] new_fields@[last]).1 == bbox.j_min);
                    } else {
                        let m = choose|m: int|
                            0 <= m < prev.len() && (#[trigger] prev[m]).1 == ob.j_min;
                        assert((#[trigger] new_fields@[m]).1 == bbox.j_min);
                    }
                }
                if bbox.j_max != pj {
                    if bbox.j_max == cell.1 {
                        assert((#[trigger] new_fields@[last]).1 == bbox.j_max);
                    } else {
                        let m = choose|m: int|
                            0 <= m < prev.len() && (#[trigger] prev[m]).1 == ob.j_max;
                        assert((#[trigger] new_fields@[m]).1 == bbox.j_max);
                    }
                }
            }
            proof {
                lemma_suit_coords_push(prev, (cell.0, cell.1, f2), Suit::Diamond);
                lemma_suit_coords_push(prev, (cell.0, cell.1, f2), Suit::Heart);
                lemma_suit_coords_push(prev, (cell.0, cell.1, f2), Suit::Spade);
                lemma_suit_coords_push(prev, (cell.0, cell.1, f2), Suit::Club);
                lemma_field_at_push(prev, (cell.0, cell.1, f2), cell.0 as int, cell.1 as int);
                // window around the new center
                assert(in_window(pii, pjj, cell.0 as int, cell.1 as int)) by {
                    assert(board.bbox_spec().i_min as int <= cell.0 as int
                        <= board.bbox_spec().i_max as int);
                }
            }
            match f2.top_card() {
                Some(c2) => {
                    match c2.suit {
                        Suit::Diamond => { bb_diamonds = bb_diamonds.insert(cell.0, cell.1); },
                        Suit::Heart => { bb_hearts = bb_hearts.insert(cell.0, cell.1); },
                        Suit::Spade => { bb_spades = bb_spades.insert(cell.0, cell.1); },
                        Suit::Club => { bb_clubs = bb_clubs.insert(cell.0, cell.1); },
                    }
                },
                None => {},
            }
            proof {
                assert(unique_coords(new_fields@)) by {
                    assert forall|a: int, b: int|
                        #![trigger new_fields@[a], new_fields@[b]]
                        0 <= a < b < new_fields@.len() implies cell_coord(new_fields@[a])
                        != cell_coord(new_fields@[b]) by {
                        if b == new_fields@.len() - 1 {
                            assert(new_fields@[a] == prev[a]);
                            if cell_coord(prev[a]) == cell_coord(new_fields@[b]) {
                                lemma_field_at_index(prev, cell.0 as int, cell.1 as int);
                                assert(false);
                            }
                        } else {
                            assert(new_fields@[a] == prev[a]);
                            assert(new_fields@[b] == prev[b]);
                        }
                    }
                }
                assert forall|x: int, y: int|
                    #[trigger] cell_model_at(new_fields@, x, y) == (if exists|l: int|
                        0 <= l < k as int + 1 && cell_coord(#[trigger] s[l]) == (x, y) {
                        applied_cell(s, flips, won, diff.new_card, pii, pjj, x, y)
                    } else {
                        None
                    }) by {
                    lemma_field_at_push(prev, (cell.0, cell.1, f2), x, y);
                    if (x, y) == (cell.0 as int, cell.1 as int) {
                        assert(cell_coord(s[k as int]) == (x, y));
                        lemma_field_at_unique(s, k as int);
                        assert(field_at_seq(s, x, y) == Some(s[k as int].2));
                    } else {
                        assert(cell_model_at(new_fields@, x, y) == cell_model_at(prev, x, y));
                        if exists|l: int|
                            0 <= l < k as int + 1 && cell_coord(#[trigger] s[l]) == (x, y) {
                            let l = choose|l: int|
                                0 <= l < k as int + 1 && cell_coord(#[trigger] s[l]) == (x, y);
                            assert(l < k);
                        }
                    }
                }
            }
        }
        k = k + 1;
    }
    proof {
        assert(exists_play ==> field_at_seq(s, pii, pjj) is Some) by {
            if exists_play {
                let l = choose|l: int| 0 <= l < s.len() && cell_coord(#[trigger] s[l]) == (
                    pii,
                    pjj,
                );
                lemma_field_at_unique(s, l);
            }
        }
        assert(!exists_play ==> field_at_seq(s, pii, pjj) is None) by {
            if !exists_play && field_at_seq(s, pii, pjj) is Some {
                lemma_field_at_index(s, pii, pjj);
                assert(false);
            }
        }
    }
    let ghost base = new_fields@;
    if !exists_play {
        let ghost prev = new_fields@;
        let mut nf = CompactField::new().place_card(diff.new_card);
        let flipped_here = diff.flipped.contains(pi, pj);
        if flipped_here {
            nf = nf.turn_face_down();
        }
        proof {
            assert(!nf.is_empty_spec()) by {
                if nf.top_card is None {
                    assert(nf.hidden_cards@.contains(diff.new_card));
                }
            }
            assert(field_at_seq(prev, pii, pjj) is None);
            lemma_field_at_push(prev, (pi, pj, nf), pii, pjj);
            lemma_suit_coords_push(prev, (pi, pj, nf), Suit::Diamond);
            lemma_suit_coords_push(prev, (pi, pj, nf), Suit::Heart);
            lemma_suit_coords_push(prev, (pi, pj, nf), Suit::Spade);
            lemma_suit_coords_push(prev, (pi, pj, nf), Suit::Club);
            assert(in_window(pii, pjj, pii, pjj));
        }
        new_fields.push((pi, pj, nf));
        match nf.top_card() {
            Some(c2) => {
                match c2.suit {
                    Suit::Diamond => { bb_diamonds = bb_diamonds.insert(pi, pj); },
                    Suit::Heart => { bb_hearts = bb_hearts.insert(pi, pj); },
                    Suit::Spade => { bb_spades = bb_spades.insert(pi, pj); },
                    Suit::Club => { bb_clubs = bb_clubs.insert(pi, pj); },
                }
            },
            None => {},
        }
        proof {
            assert(unique_coords(new_fields@)) by {
                assert forall|a: int, b: int|
                    #![trigger new_fields@[a], new_fields@[b]]
                    0 <= a < b < new_fields@.len() implies cell_coord(new_fields@[a])
                    != cell_coord(new_fields@[b]) by {
                    if b == new_fields@.len() - 1 {
                        assert(new_fields@[a] == prev[a]);
                        if cell_coord(prev[a]) == (pii, pjj) {
                            lemma_field_at_index(prev, pii, pjj);
                            assert(false);
                        }
                    } else {
                        assert(new_fields@[a] == prev[a]);
                        assert(new_fields@[b] == prev[b]);
                    }
                }
            }
            assert forall|x: int, y: int|
                #[trigger] cell_model_at(new_fields@, x, y) == applied_cell(
                    s,
                    flips,
                    won,
                    diff.new_card,
                    pii,
                    pjj,
                    x,
                    y,
                ) by {
                lemma_field_at_push(prev, (pi, pj, nf), x, y);
                if (x, y) == (pii, pjj) {
                    assert(cell_model_at(new_fields@, x, y) == Some(nf.model()));
                } else {
                    assert(cell_model_at(new_fields@, x, y) == cell_model_at(prev, x, y));
                    if exists|l: int| 0 <= l < s.len() && cell_coord(#[trigger] s[l]) == (x, y) {
                    } else {
                        lemma_field_at_index(s, x, y);
                        assert(applied_cell(s, flips, won, diff.new_card, pii, pjj, x, y)
                            is None);
                    }
                }
            }
        }
    } else {
        proof {
            assert forall|x: int, y: int|
                #[trigger] cell_model_at(new_fields@, x, y) == applied_cell(
                    s,
                    flips,
                    won,
                    diff.new_card,
                    pii,
                    pjj,
                    x,
                    y,
                ) by {
                if exists|l: int| 0 <= l < s.len() && cell_coord(#[trigger] s[l]) == (x, y) {
                } else {
                    lemma_field_at_index(s, x, y);
                    assert((x, y) != (pii, pjj));
                    assert(applied_cell(s, flips, won, diff.new_card, pii, pjj, x, y) is None);
                }
            }
        }
    }
    let r = Board {
        fields: new_fields,
        center_i: pi,
        center_j: pj,
        bbox,
        bb_diamonds,
        bb_hearts,
        bb_spades,
        bb_clubs,
    };
    proof {
        let rs = r.cells();
        let obb = board.bbox_spec();
        assert(rs.len() >= 1) by {
            assert(cell_model_at(rs, pii, pjj) == applied_cell(
                s,
                flips,
                won,
                diff.new_card,
                pii,
                pjj,
                pii,
                pjj,
            ));
            assert(cell_model_at(rs, pii, pjj) is Some);
        }
        // every entry is the play coordinate, or an old cell inside the old
        // box — so it lies near the new center
        assert forall|m: int|
            0 <= m < rs.len() implies (cell_coord(#[trigger] rs[m]) == (pii, pjj) || (
        obb.i_min as int <= rs[m].0 as int <= obb.i_max as int && obb.j_min as int <= rs[m].1
            as int <= obb.j_max as int)) by {
            if m < base.len() {
                assert(rs[m] == base[m]);
                let l = choose|l: int|
                    0 <= l < s.len() && cell_coord(#[trigger] s[l]) == cell_coord(base[m]);
                assert(obb.i_min as int <= s[l].0 as int <= obb.i_max as int);
            } else {
                assert(cell_coord(rs[m]) == (pii, pjj));
            }
        }
        assert forall|m: int|
            0 <= m < rs.len() implies in_window(pii, pjj, (#[trigger] rs[m]).0 as int, rs[m].1
            as int) by {
            if cell_coord(rs[m]) != (pii, pjj) {
                assert(obb.i_max as int - 3 <= pii <= obb.i_min as int + 3);
            }
        }
        assert(attained(r.bbox_spec(), rs)) by {
            assert(field_at_seq(rs, pii, pjj) is Some);
            lemma_field_at_index(rs, pii, pjj);
            let l0 = choose|l: int| 0 <= l < rs.len() && cell_coord(#[trigger] rs[l]) == (
                pii,
                pjj,
            );
            if bbox.i_min == pi {
                assert(rs[l0].0 == bbox.i_min);
            } else {
                let m = choose|m: int| 0 <= m < base.len() && (#[trigger] base[m]).0 == bbox.i_min;
                assert(rs[m] == base[m]);
                assert((#[trigger] rs[m]).0 == bbox.i_min);
            }
            if bbox.i_max == pi {
                assert(rs[l0].0 == bbox.i_max);
            } else {
                let m = choose|m: int| 0 <= m < base.len() && (#[trigger] base[m]).0 == bbox.i_max;
                assert(rs[m] == base[m]);
                assert((#[trigger] rs[m]).0 == bbox.i_max);
            }
            if bbox.j_min == pj {
                assert(rs[l0].1 == bbox.j_min);
            } else {
                let m = choose|m: int| 0 <= m < base.len() && (#[trigger] base[m]).1 == bbox.j_min;
                assert(rs[m] == base[m]);
                assert((#[trigger] rs[m]).1 == bbox.j_min);
            }
            if bbox.j_max == pj {
                assert(rs[l0].1 == bbox.j_max);
            } else {
                let m = choose|m: int| 0 <= m < base.len() && (#[trigger] base[m]).1 == bbox.j_max;
                assert(rs[m] == base[m]);
                assert((#[trigger] rs[m]).1 == bbox.j_max);
            }
        }
        assert(r.bbox_spec().i_max as int - r.bbox_spec().i_min as int <= 3
            && r.bbox_spec().j_max as int - r.bbox_spec().j_min as int <= 3) by {
            let ka = choose|m: int| 0 <= m < rs.len() && (#[trigger] rs[m]).0 == bbox.i_min;
            let kb = choose|m: int| 0 <= m < rs.len() && (#[trigger] rs[m]).0 == bbox.i_max;
            let kc = choose|m: int| 0 <= m < rs.len() && (#[trigger] rs[m]).1 == bbox.j_min;
            let kd = choose|m: int| 0 <= m < rs.len() && (#[trigger] rs[m]).1 == bbox.j_max;
            assert(cell_coord(rs[ka]) == (pii, pjj) || obb.i_min as int <= rs[ka].0 as int
                <= obb.i_max as int);
            assert(cell_coord(rs[kb]) == (pii, pjj) || obb.i_min as int <= rs[kb].0 as int
                <= obb.i_max as int);
            assert(cell_coord(rs[kc]) == (pii, pjj) || obb.j_min as int <= rs[kc].1 as int
                <= obb.j_max as int);
            assert(cell_coord(rs[kd]) == (pii, pjj) || obb.j_min as int <= rs[kd].1 as int
                <= obb.j_max as int);
        }
        assert(r.wf());
    }
    r
}

/// Saturates a widened coordinate into the coordinate domain.
fn clamp_to_i8(x: i16) -> (r: i8)
    ensures
        x < -128 ==> r as int == -128,
        x > 127 ==> r as int == 127,
        -128 <= x <= 127 ==> r as int == x as int,
{
    if x < -128 {
        -128
    } else if x > 127 {
        127
    } else {
        x as i8
    }
}

} // verus!
