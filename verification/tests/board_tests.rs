use gomori::{Board, Card, CardToPlay, CardsSet, Field, IllegalCardPlayed, Rank, Suit};

fn card(suit: Suit, rank: Rank) -> Card {
    Card { suit, rank }
}

fn field(i: i8, j: i8, c: Card) -> Field {
    Field { i, j, top_card: Some(c), hidden_cards: CardsSet::new() }
}

fn play(card: Card, i: i8, j: i8) -> CardToPlay {
    CardToPlay { card, i, j, target_field_for_king_ability: None }
}

#[test]
fn play_card_horizontal() {
    let board = Board::new(&[
        field(-1, 0, card(Suit::Diamond, Rank::Four)),
        field(-1, -1, card(Suit::Diamond, Rank::Five)),
        field(-1, -2, card(Suit::Diamond, Rank::Six)),
        field(-1, -3, card(Suit::Spade, Rank::Ace)),
    ]);
    let c = card(Suit::Diamond, Rank::Ace);
    let plan = board.calculate(play(c, -1, -3)).unwrap();
    assert!(plan.flipped().is_empty());
    let expected = CardsSet::new()
        .insert(card(Suit::Diamond, Rank::Four))
        .insert(card(Suit::Diamond, Rank::Five))
        .insert(card(Suit::Diamond, Rank::Six));
    assert_eq!(plan.cards_won, expected);
}

#[test]
fn play_card_antidiag() {
    let board = Board::new(&[
        field(-1, 0, card(Suit::Diamond, Rank::Four)),
        field(0, -1, card(Suit::Diamond, Rank::Five)),
        field(1, -2, card(Suit::Diamond, Rank::Six)),
        field(2, -3, card(Suit::Spade, Rank::Ace)),
    ]);
    let c = card(Suit::Diamond, Rank::Ace);
    let plan = board.calculate(play(c, 2, -3)).unwrap();
    assert!(plan.flipped().is_empty());
    assert!(!plan.won().is_empty());
}

#[test]
fn straight_line_win_combo_and_result() {
    let board = Board::new(&[
        field(-1, 0, card(Suit::Diamond, Rank::Four)),
        field(-1, -1, card(Suit::Diamond, Rank::Five)),
        field(-1, -2, card(Suit::Diamond, Rank::Six)),
        field(-1, -3, card(Suit::Spade, Rank::Ace)),
    ]);
    let plan = board.calculate(play(card(Suit::Diamond, Rank::Ace), -1, -3)).unwrap();
    assert!(plan.combo);
    let after = plan.execute();
    // the won cells are gone; the played card stays, covering the spade ace
    assert!(after.get(-1, 0).is_none());
    assert!(after.get(-1, -1).is_none());
    assert!(after.get(-1, -2).is_none());
    let kept = after.get(-1, -3).unwrap();
    assert_eq!(kept.top_card(), Some(card(Suit::Diamond, Rank::Ace)));
    assert!(kept.hidden_cards().contains(card(Suit::Spade, Rank::Ace)));
}

#[test]
fn hidden_cards_are_won_with_the_cell() {
    let mut f = field(-1, -1, card(Suit::Diamond, Rank::Five));
    f.hidden_cards = CardsSet::new().insert(card(Suit::Heart, Rank::Nine));
    let board = Board::new(&[
        field(-1, 0, card(Suit::Diamond, Rank::Four)),
        f,
        field(-1, -2, card(Suit::Diamond, Rank::Six)),
        field(-1, -3, card(Suit::Spade, Rank::Ace)),
    ]);
    let plan = board.calculate(play(card(Suit::Diamond, Rank::Ace), -1, -3)).unwrap();
    assert!(plan.cards_won.contains(card(Suit::Heart, Rank::Nine)));
    assert!(plan.cards_won.contains(card(Suit::Diamond, Rank::Five)));
}

#[test]
fn jack_flips_orthogonal_neighbors() {
    let board = Board::new(&[
        field(0, 0, card(Suit::Diamond, Rank::Five)),
        field(0, 1, card(Suit::Heart, Rank::Two)),
        field(1, 0, card(Suit::Club, Rank::Three)),
    ]);
    let plan = board.calculate(play(card(Suit::Diamond, Rank::Jack), 0, 0)).unwrap();
    assert!(plan.combo);
    let flipped = plan.flipped();
    assert!(flipped.contains(0, 1));
    assert!(flipped.contains(1, 0));
    assert!(flipped.contains(0, -1));
    assert!(flipped.contains(-1, 0));
    assert!(!flipped.contains(1, 1));
    let after = plan.execute();
    // flipped neighbors no longer count as visible suit members
    assert!(after.hearts().is_empty());
    assert!(after.clubs().is_empty());
    assert!(after.diamonds().contains(0, 0));
    assert!(after.get(0, 1).unwrap().top_card().is_none());
    assert!(after.get(0, 1).unwrap().hidden_cards().contains(card(Suit::Heart, Rank::Two)));
}

#[test]
fn face_card_on_empty_cell_does_not_flip() {
    let board = Board::new(&[
        field(0, 0, card(Suit::Diamond, Rank::Five)),
        field(0, 1, card(Suit::Heart, Rank::Two)),
    ]);
    let plan = board.calculate(play(card(Suit::Diamond, Rank::Jack), 1, 0)).unwrap();
    assert!(!plan.combo);
    assert!(plan.flipped().is_empty());
}

#[test]
fn queen_flips_diagonal_neighbors() {
    let board = Board::new(&[
        field(0, 0, card(Suit::Diamond, Rank::Five)),
        field(1, 1, card(Suit::Heart, Rank::Two)),
    ]);
    let plan = board.calculate(play(card(Suit::Spade, Rank::Queen), 0, 0)).unwrap();
    let flipped = plan.flipped();
    assert!(flipped.contains(1, 1));
    assert!(flipped.contains(1, -1));
    assert!(flipped.contains(-1, 1));
    assert!(flipped.contains(-1, -1));
    assert!(!flipped.contains(0, 1));
}

#[test]
fn king_without_target_is_rejected() {
    let board = Board::new(&[field(0, 0, card(Suit::Diamond, Rank::Five))]);
    let r = board.calculate(play(card(Suit::Diamond, Rank::King), 0, 0));
    assert_eq!(r.err().unwrap(), IllegalCardPlayed::NoTargetForKingAbility);
}

#[test]
fn king_target_must_exist() {
    let board = Board::new(&[field(0, 0, card(Suit::Diamond, Rank::Five))]);
    let ctp = CardToPlay {
        card: card(Suit::Diamond, Rank::King),
        i: 0,
        j: 0,
        target_field_for_king_ability: Some((2, 2)),
    };
    let r = board.calculate(ctp);
    assert_eq!(
        r.err().unwrap(),
        IllegalCardPlayed::TargetForKingAbilityDoesNotExist { tgt_i: 2, tgt_j: 2 }
    );
}

#[test]
fn king_target_must_be_face_up() {
    let face_down = Field {
        i: 1,
        j: 1,
        top_card: None,
        hidden_cards: CardsSet::new().insert(card(Suit::Spade, Rank::Two)),
    };
    let board = Board::new(&[field(0, 0, card(Suit::Diamond, Rank::Five)), face_down]);
    let ctp = CardToPlay {
        card: card(Suit::Diamond, Rank::King),
        i: 0,
        j: 0,
        target_field_for_king_ability: Some((1, 1)),
    };
    let r = board.calculate(ctp);
    assert_eq!(
        r.err().unwrap(),
        IllegalCardPlayed::TargetForKingAbilityIsFaceDown { tgt_i: 1, tgt_j: 1 }
    );
}

#[test]
fn king_flips_its_single_target() {
    let board = Board::new(&[
        field(0, 0, card(Suit::Diamond, Rank::Five)),
        field(1, 1, card(Suit::Heart, Rank::Two)),
    ]);
    let ctp = CardToPlay {
        card: card(Suit::Diamond, Rank::King),
        i: 0,
        j: 0,
        target_field_for_king_ability: Some((1, 1)),
    };
    let plan = board.calculate(ctp).unwrap();
    assert!(plan.flipped().contains(1, 1));
    let after = plan.execute();
    assert!(after.hearts().is_empty());
    assert!(after.get(1, 1).unwrap().top_card().is_none());
}

#[test]
fn out_of_bounds_play_is_rejected() {
    let board = Board::new(&[field(0, 0, card(Suit::Diamond, Rank::Five))]);
    let r = board.calculate(play(card(Suit::Heart, Rank::Two), 4, 0));
    assert_eq!(r.err().unwrap(), IllegalCardPlayed::OutOfBounds);
}

#[test]
fn incompatible_card_is_rejected_with_the_blocking_card() {
    let board = Board::new(&[field(0, 0, card(Suit::Diamond, Rank::Five))]);
    let r = board.calculate(play(card(Suit::Club, Rank::Seven), 0, 0));
    assert_eq!(
        r.err().unwrap(),
        IllegalCardPlayed::IncompatibleCard { existing_card: card(Suit::Diamond, Rank::Five) }
    );
}

#[test]
fn rejected_play_leaves_board_untouched() {
    let board = Board::new(&[field(0, 0, card(Suit::Diamond, Rank::Five))]);
    let _ = board.calculate(play(card(Suit::Club, Rank::Seven), 0, 0));
    assert_eq!(board.get(0, 0).unwrap().top_card(), Some(card(Suit::Diamond, Rank::Five)));
    assert_eq!(board.to_fields_vec().len(), 1);
}

#[test]
fn snapshot_is_sorted_and_content_equal() {
    let board = Board::new(&[
        field(1, 1, card(Suit::Club, Rank::Two)),
        field(-1, 2, card(Suit::Heart, Rank::Three)),
        field(1, -1, card(Suit::Spade, Rank::Four)),
        field(-1, -1, card(Suit::Diamond, Rank::Five)),
    ]);
    let out = board.to_fields_vec();
    assert_eq!(out.len(), 4);
    let coords: Vec<(i8, i8)> = out.iter().map(|f| (f.i, f.j)).collect();
    assert_eq!(coords, vec![(-1, -1), (-1, 2), (1, -1), (1, 1)]);
    assert_eq!(out[0].top_card, Some(card(Suit::Diamond, Rank::Five)));
    assert_eq!(out[1].top_card, Some(card(Suit::Heart, Rank::Three)));
    assert_eq!(out[2].top_card, Some(card(Suit::Spade, Rank::Four)));
    assert_eq!(out[3].top_card, Some(card(Suit::Club, Rank::Two)));
}

#[test]
fn possible_iff_locations_nonempty_on_full_board() {
    let mut fields = Vec::new();
    for i in 0..4i8 {
        for j in 0..4i8 {
            fields.push(field(i, j, card(Suit::Diamond, Rank::Two)));
        }
    }
    let board = Board::new(&fields);
    // nothing accepts a club seven: neither same suit, nor same rank, nor a face card
    let blocked = card(Suit::Club, Rank::Seven);
    assert!(!board.possible_to_play_card(blocked));
    assert!(board.locations_for_card(blocked).is_empty());
    assert!(board.combo_locations_for_card(blocked).is_empty());
    // a diamond stacks fine
    let ok = card(Suit::Diamond, Rank::Seven);
    assert!(board.possible_to_play_card(ok));
    assert!(!board.locations_for_card(ok).is_empty());
    assert!(!board.combo_locations_for_card(ok).is_empty());
}

#[test]
fn partial_board_always_has_room() {
    let board = Board::new(&[field(0, 0, card(Suit::Diamond, Rank::Two))]);
    assert!(board.possible_to_play_card(card(Suit::Club, Rank::Seven)));
    assert!(!board.locations_for_card(card(Suit::Club, Rank::Seven)).is_empty());
    // but not on top of the incompatible card itself
    assert!(!board.locations_for_card(card(Suit::Club, Rank::Seven)).contains(0, 0));
    assert!(board.combo_locations_for_card(card(Suit::Club, Rank::Seven)).is_empty());
}

#[test]
fn playable_area_saturates_at_the_coordinate_edge() {
    let board = Board::new(&[field(-128, -128, card(Suit::Diamond, Rank::Two))]);
    let pa = board.playable_area();
    assert_eq!((pa.i_min, pa.j_min, pa.i_max, pa.j_max), (-128, -128, -125, -125));
    assert!(board.is_in_bounds(-126, -125));
    assert!(!board.is_in_bounds(-124, -128));
}

#[test]
fn bounds_follow_the_occupied_box() {
    let board = Board::new(&[
        field(0, 0, card(Suit::Diamond, Rank::Two)),
        field(2, 1, card(Suit::Heart, Rank::Three)),
    ]);
    let bb = board.bbox();
    assert_eq!((bb.i_min, bb.j_min, bb.i_max, bb.j_max), (0, 0, 2, 1));
    assert!(board.is_in_bounds(-1, -2));
    assert!(!board.is_in_bounds(-2, 0));
    assert!(board.is_in_bounds(3, 3));
    assert!(!board.is_in_bounds(4, 0));
}

#[test]
fn apply_keeps_the_board_within_a_four_span() {
    let board = Board::new(&[field(0, 0, card(Suit::Diamond, Rank::Two))]);
    let after = board.play_card(play(card(Suit::Heart, Rank::Three), 3, -3)).unwrap();
    let bb = after.bbox();
    assert!(bb.size_i() <= 4);
    assert!(bb.size_j() <= 4);
    for f in after.to_fields_vec() {
        assert!(f.top_card.is_some() || !f.hidden_cards.is_empty());
    }
}

#[test]
fn locations_enumerate_member_coordinates() {
    let board = Board::new(&[field(0, 0, card(Suit::Diamond, Rank::Two))]);
    let locs = board.locations_for_card(card(Suit::Club, Rank::Seven));
    let coords = locs.member_coords();
    // the full 7 x 7 playable area minus the one incompatible cell
    assert_eq!(coords.len(), 48);
    assert!(!coords.contains(&(0, 0)));
    assert!(coords.contains(&(3, 3)));
    assert!(coords.contains(&(-3, -3)));
    // restartable: a second pass yields the same enumeration
    assert_eq!(coords, locs.member_coords());
}

#[test]
fn suit_bitboards_track_visible_tops() {
    let board = Board::new(&[
        field(0, 0, card(Suit::Diamond, Rank::Two)),
        field(0, 1, card(Suit::Spade, Rank::Three)),
    ]);
    assert!(board.diamonds().contains(0, 0));
    assert!(!board.diamonds().contains(0, 1));
    assert!(board.spades().contains(0, 1));
    assert!(board.hearts().is_empty());
    assert!(board.clubs().is_empty());
}
