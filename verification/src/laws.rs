//! Cross-cutting laws of the engine, proved over the same specification
//! functions that the executable functions' contracts use.

use vstd::prelude::*;

use vstd::seq_lib::seq_to_set_is_finite;
use vstd::set_lib::{lemma_len_subset, lemma_subset_equality};

use crate::bitboard::lemma_lines_subset;
use crate::board::{cell_coord, compact_cell_of, field_at_seq, field_coord, lemma_field_at_index,
    lemma_field_at_unique, snapshot_of, sorted_fields, unique_coords, valid_field_list, Board,
    Cell};
use crate::cards::Card;
use crate::counting::{lemma_rect_len, rect};
use crate::field::{CardToPlay, Field, IllegalCardPlayed};

verus! {

/// The coordinates of the cells, in listed order.
spec fn coords_seq(s: Seq<Cell>) -> Seq<(int, int)> {
    s.map_values(|c: Cell| cell_coord(c))
}

/// A list with unique coordinates covers exactly as many coordinates as it
/// has entries.
proof fn lemma_coords_card(s: Seq<Cell>)
    requires
        unique_coords(s),
    ensures
        coords_seq(s).to_set().finite(),
        coords_seq(s).to_set().len() == s.len(),
        forall|p: (int, int)|
            #[trigger] coords_seq(s).to_set().contains(p) <==> exists|k: int|
                0 <= k < s.len() && cell_coord(#[trigger] s[k]) == p,
{
    broadcast use seq_to_set_is_finite;

    let cs = coords_seq(s);
    assert(cs.no_duplicates()) by {
        assert forall|a: int, b: int|
            0 <= a < cs.len() && 0 <= b < cs.len() && a != b implies cs[a] != cs[b] by {
            assert(cs[a] == cell_coord(s[a]));
            assert(cs[b] == cell_coord(s[b]));
        }
    }
    cs.unique_seq_to_set();
    assert forall|p: (int, int)|
        #[trigger] cs.to_set().contains(p) <==> exists|k: int|
            0 <= k < s.len() && cell_coord(#[trigger] s[k]) == p by {
        if cs.to_set().contains(p) {
            let k = choose|k: int| 0 <= k < cs.len() && cs[k] == p;
            assert(cell_coord(s[k]) == p);
        }
        if exists|k: int| 0 <= k < s.len() && cell_coord(#[trigger] s[k]) == p {
            let k = choose|k: int| 0 <= k < s.len() && cell_coord(#[trigger] s[k]) == p;
            assert(cs[k] == p);
            assert(cs.contains(p));
        }
    }
}

/// It is possible to play a card exactly when it has at least one legal
/// location: while fewer than 16 cells are occupied an empty playable cell
/// always exists, and on a full board every playable cell is occupied, so
/// room exists exactly when some stack accepts the card.
pub proof fn lemma_possible_iff_locations(b: Board, card: Card)
    requires
        b.wf(),
    ensures
        b.possible_spec(card) <==> b.locations_spec(card) != Set::<(int, int)>::empty(),
{
    let s = b.cells();
    let bb = b.bbox_spec();
    let locs = b.locations_spec(card);
    lemma_coords_card(s);
    let coords = coords_seq(s).to_set();
    if b.possible_spec(card) {
        if exists|k: int| 0 <= k < s.len() && (#[trigger] s[k]).2.can_place_spec(card) {
            let k = choose|k: int| 0 <= k < s.len() && (#[trigger] s[k]).2.can_place_spec(card);
            let p = cell_coord(s[k]);
            lemma_field_at_unique(s, k);
            assert(b.playable_cell(p));
            assert(locs.contains(p));
            assert(locs != Set::<(int, int)>::empty());
        } else {
            // fewer than 16 cells: a 4 x 4 playable patch cannot be covered
            let lo_i = if bb.i_max as int - 3 < -128 {
                -128
            } else {
                bb.i_max as int - 3
            };
            let lo_j = if bb.j_max as int - 3 < -128 {
                -128
            } else {
                bb.j_max as int - 3
            };
            let patch = rect(lo_i, lo_j, 4, 4);
            lemma_rect_len(lo_i, lo_j, 4, 4);
            assert(!patch.subset_of(coords)) by {
                if patch.subset_of(coords) {
                    lemma_len_subset(patch, coords);
                }
            }
            let p = choose|p: (int, int)| patch.contains(p) && !coords.contains(p);
            assert(b.playable_cell(p));
            assert(field_at_seq(s, p.0, p.1) is None) by {
                lemma_field_at_index(s, p.0, p.1);
                if field_at_seq(s, p.0, p.1) is Some {
                    assert(coords.contains(p));
                }
            }
            assert(locs.contains(p));
            assert(locs != Set::<(int, int)>::empty());
        }
    }
    if locs != Set::<(int, int)>::empty() {
        if s.len() >= 16 {
            let p = locs.choose();
            assert(locs.contains(p)) by {
                if !(exists|q: (int, int)| locs.contains(q)) {
                    assert(locs =~= Set::<(int, int)>::empty());
                }
            }
            if !(exists|k: int| 0 <= k < s.len() && (#[trigger] s[k]).2.can_place_spec(card)) {
                // every stack rejects the card, so the chosen location must
                // be an empty cell — but a 16-cell board fills its box
                let si = (bb.i_max as int - bb.i_min as int + 1) as nat;
                let sj = (bb.j_max as int - bb.j_min as int + 1) as nat;
                let whole = rect(bb.i_min as int, bb.j_min as int, si, sj);
                lemma_rect_len(bb.i_min as int, bb.j_min as int, si, sj);
                assert(coords.subset_of(whole));
                lemma_len_subset(coords, whole);
                assert(si * sj <= 16 && 16 <= si * sj && si <= 4 && sj <= 4) by (nonlinear_arith)
                    requires
                        1 <= si <= 4,
                        1 <= sj <= 4,
                        coords.len() <= si * sj,
                        coords.len() >= 16,
                ;
                assert(si == 4 && sj == 4) by (nonlinear_arith)
                    requires
                        1 <= si <= 4,
                        1 <= sj <= 4,
                        si * sj == 16,
                ;
                lemma_subset_equality(coords, whole);
                assert(whole.contains(p));
                assert(coords.contains(p));
                let k = choose|k: int| 0 <= k < s.len() && cell_coord(#[trigger] s[k]) == p;
                lemma_field_at_unique(s, k);
                assert(s[k].2.can_place_spec(card));
                assert(false);
            }
        }
    }
}

/// Every coordinate that `locations_spec` offers is accepted by the play
/// checks: a play there is rejected only when a King is played as a combo
/// without a target for its ability.
pub proof fn lemma_location_play_outcome(b: Board, card: Card, i: i8, j: i8)
    requires
        b.wf(),
        b.locations_spec(card).contains((i as int, j as int)),
    ensures
        ({
            let r = b.rejection(
                (CardToPlay { card, i, j, target_field_for_king_ability: None }),
            );
            r is None || r == Some(IllegalCardPlayed::NoTargetForKingAbility)
        }),
{
    let ctp = CardToPlay { card, i, j, target_field_for_king_ability: None };
    assert(b.playable_cell((i as int, j as int)));
    assert(b.incompat_spec(ctp) is None);
}

/// The read-only queries are pure: their contracts pin each result to a
/// specification function of the board value alone, so equal boards answer
/// equally, repeated calls agree, and no call changes the board.
pub proof fn lemma_queries_are_functions_of_the_board(a: Board, b: Board, card: Card, i: int, j: int)
    requires
        a == b,
    ensures
        a.possible_spec(card) == b.possible_spec(card),
        a.locations_spec(card) == b.locations_spec(card),
        a.combo_locations_spec(card) == b.combo_locations_spec(card),
        a.field_at(i, j) == b.field_at(i, j),
        a.bbox_spec() == b.bbox_spec(),
{
}

/// Construction from a valid cell list followed by a snapshot yields a
/// coordinate-sorted list holding exactly the input cells, record for
/// record.
pub proof fn lemma_construct_snapshot_round_trip(input: Seq<Field>, b: Board, out: Seq<Field>)
    requires
        valid_field_list(input),
        b.cells() == input.map_values(|f: Field| compact_cell_of(f)),
        snapshot_of(b.cells(), out),
    ensures
        sorted_fields(out),
        out.len() == input.len(),
        forall|m: int| 0 <= m < out.len() ==> input.contains(#[trigger] out[m]),
        forall|l: int| 0 <= l < input.len() ==> out.contains(#[trigger] input[l]),
{
    let s = b.cells();
    assert(s.len() == input.len());
    assert forall|k: int| 0 <= k < s.len() implies #[trigger] s[k] == compact_cell_of(
        input[k],
    ) by {}
    assert(unique_coords(s)) by {
        assert forall|k: int, l: int|
            #![trigger s[k], s[l]]
            0 <= k < l < s.len() implies cell_coord(s[k]) != cell_coord(s[l]) by {
            assert(field_coord(input[k]) != field_coord(input[l]));
        }
    }
    assert forall|m: int| 0 <= m < out.len() implies input.contains(#[trigger] out[m]) by {
        lemma_field_at_index(s, out[m].i as int, out[m].j as int);
        let k = choose|k: int|
            0 <= k < s.len() && cell_coord(#[trigger] s[k]) == (out[m].i as int, out[m].j as int);
        lemma_field_at_unique(s, k);
        assert(input[k].i == out[m].i && input[k].j == out[m].j && input[k].top_card
            == out[m].top_card && input[k].hidden_cards == out[m].hidden_cards);
        assert(input[k] == out[m]);
    }
    assert forall|l: int| 0 <= l < input.len() implies out.contains(#[trigger] input[l]) by {
        let m = choose|m: int|
            0 <= m < out.len() && field_coord(#[trigger] out[m]) == cell_coord(s[l]);
        lemma_field_at_index(s, out[m].i as int, out[m].j as int);
        lemma_field_at_unique(s, l);
        assert(out[m].top_card == input[l].top_card && out[m].hidden_cards
            == input[l].hidden_cards);
        assert(out[m] == input[l]);
    }
}

/// A Jack played as a combo flips exactly the in-bounds orthogonal
/// neighbors, and no cell flipped this turn counts toward this turn's won
/// lines.
pub proof fn lemma_jack_flip(b: Board, ctp: CardToPlay)
    requires
        b.wf(),
        ctp.card.rank == crate::cards::Rank::Jack,
        b.combo_spec(ctp),
    ensures
        b.flips_of(ctp) == b.orth_flips(ctp.i as int, ctp.j as int),
        b.won_spec(ctp).intersect(b.flips_of(ctp)) == Set::<(int, int)>::empty(),
{
    lemma_flips_never_win(b, ctp);
}

/// No cell flipped by any play counts toward that play's won lines.
pub proof fn lemma_flips_never_win(b: Board, ctp: CardToPlay)
    requires
        b.wf(),
    ensures
        b.won_spec(ctp).intersect(b.flips_of(ctp)) == Set::<(int, int)>::empty(),
{
    let base = crate::board::suit_coords(b.cells(), ctp.card.suit).insert(
        (ctp.i as int, ctp.j as int),
    ).difference(b.flips_of(ctp));
    lemma_lines_subset(base, ctp.i as int, ctp.j as int);
    assert(b.won_spec(ctp).intersect(b.flips_of(ctp)) =~= Set::<(int, int)>::empty());
}

/// A King played as a combo without a target is rejected as missing its
/// target.
pub proof fn lemma_king_needs_target(b: Board, ctp: CardToPlay)
    requires
        b.wf(),
        ctp.card.rank == crate::cards::Rank::King,
        b.playable_cell((ctp.i as int, ctp.j as int)),
        b.incompat_spec(ctp) is None,
        b.combo_spec(ctp),
        ctp.target_field_for_king_ability is None,
    ensures
        b.rejection(ctp) == Some(IllegalCardPlayed::NoTargetForKingAbility),
{
}

/// A King targeting an unoccupied cell is rejected as target-absent.
pub proof fn lemma_king_target_must_exist(b: Board, ctp: CardToPlay, ti: i8, tj: i8)
    requires
        b.wf(),
        ctp.card.rank == crate::cards::Rank::King,
        b.playable_cell((ctp.i as int, ctp.j as int)),
        b.incompat_spec(ctp) is None,
        b.combo_spec(ctp),
        ctp.target_field_for_king_ability == Some((ti, tj)),
        b.field_at(ti as int, tj as int) is None,
    ensures
        b.rejection(ctp) == Some(
            (IllegalCardPlayed::TargetForKingAbilityDoesNotExist { tgt_i: ti, tgt_j: tj }),
        ),
{
}

/// A King targeting a face-down cell other than its own landing cell is
/// rejected as target-face-down.
pub proof fn lemma_king_target_face_down(b: Board, ctp: CardToPlay, ti: i8, tj: i8)
    requires
        b.wf(),
        ctp.card.rank == crate::cards::Rank::King,
        b.playable_cell((ctp.i as int, ctp.j as int)),
        b.incompat_spec(ctp) is None,
        b.combo_spec(ctp),
        ctp.target_field_for_king_ability == Some((ti, tj)),
        b.field_at(ti as int, tj as int) is Some,
        b.field_at(ti as int, tj as int).unwrap().top_card is None,
        !(ti == ctp.i && tj == ctp.j),
    ensures
        b.rejection(ctp) == Some(
            (IllegalCardPlayed::TargetForKingAbilityIsFaceDown { tgt_i: ti, tgt_j: tj }),
        ),
{
}

} // verus!
