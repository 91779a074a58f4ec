use freecell::board::Board;
use freecell::board::deal;
use freecell::board::shuffle_deck;
use freecell::board::standard_deck;
use freecell::cursor::Key;
use freecell::cursor::clamp_row;
use freecell::cursor::pick_cursor_step;
use freecell::cursor::place_cursor_step;
use freecell::moves::pick_is_valid;
use freecell::moves::try_move;

fn col(tokens: &[&str]) -> Vec<String> {
    tokens.iter().map(|t| t.to_string()).collect()
}

fn board(cols: [&[&str]; 8]) -> Board {
    Board { cascades: cols.iter().map(|c| col(c)).collect() }
}

fn snapshot(b: &Board) -> Vec<Vec<String>> {
    b.cascades.clone()
}

#[test]
fn standard_deck_has_52_distinct_cards() {
    let deck = standard_deck();
    assert_eq!(deck.len(), 52);
    for i in 0..52 {
        for j in 0..i {
            assert_ne!(deck[i], deck[j]);
        }
    }
    assert_eq!(deck[0], "A ♠");
    assert_eq!(deck[12], "K ♠");
    assert_eq!(deck[13], "A ♥");
    assert_eq!(deck[51], "K ♦");
}

#[test]
fn deal_distributes_round_robin() {
    let deck = standard_deck();
    let b = deal(&deck);
    assert_eq!(b.cascades.len(), 8);
    for c in 0..8 {
        assert_eq!(b.cascades[c][0], "   ");
        assert_eq!(b.cascades[c].len(), if c < 4 { 8 } else { 7 });
    }
    for j in 0..52 {
        assert_eq!(b.cascades[j % 8][j / 8 + 1], deck[j]);
    }
}

#[test]
fn shuffled_deal_partitions_all_52_cards_exactly_once() {
    let mut deck = standard_deck();
    shuffle_deck(&mut deck, 42);
    assert_eq!(deck.len(), 52);
    let b = deal(&deck);
    let mut dealt: Vec<String> = Vec::new();
    for c in 0..8 {
        assert_eq!(b.cascades[c][0], "   ");
        for k in 1..b.cascades[c].len() {
            dealt.push(b.cascades[c][k].clone());
        }
    }
    assert_eq!(dealt.len(), 52);
    let reference = standard_deck();
    for card in &reference {
        assert_eq!(dealt.iter().filter(|t| *t == card).count(), 1);
    }
}

#[test]
fn fixed_seed_shuffles_reproducibly() {
    let mut d1 = standard_deck();
    let mut d2 = standard_deck();
    shuffle_deck(&mut d1, 7);
    shuffle_deck(&mut d2, 7);
    assert_eq!(d1, d2);
    // the arrangement really changed
    assert_ne!(d1, standard_deck());
    // but no card appeared or vanished
    let reference = standard_deck();
    for card in &reference {
        assert_eq!(d1.iter().filter(|t| *t == card).count(), 1);
    }
}

#[test]
fn red_two_moves_onto_black_three() {
    let mut b = board([
        &["   ", "7 ♦", "2 ♥"],
        &["   ", "3 ♠"],
        &["   ", "9 ♣"],
        &["   ", "8 ♦"],
        &["   ", "5 ♠"],
        &["   ", "6 ♥"],
        &["   ", "J ♣"],
        &["   ", "Q ♦"],
    ]);
    // pick the 2 of hearts at (0, 2), place on cascade 1
    assert!(try_move(&mut b, 0, 2, 1, false, true));
    assert_eq!(b.cascades[0].len(), 2);
    assert_eq!(b.cascades[1].len(), 3);
    assert_eq!(b.cascades[1][2], "2 ♥");
    assert_eq!(b.cascades[1][1], "3 ♠");
    assert_eq!(b.cascades[0][1], "7 ♦");
}

#[test]
fn wrong_suit_foundation_move_is_rejected_unchanged() {
    let mut b = board([
        &["   ", "7 ♦", "2 ♥"],
        &["   ", "3 ♣"],
        &["   ", "9 ♣"],
        &["   ", "8 ♦"],
        &["A ♠", "9 ♦"],
        &["   ", "5 ♠"],
        &["   ", "J ♣"],
        &["   ", "Q ♦"],
    ]);
    let before = snapshot(&b);
    // 2 of hearts onto the spade foundation: right value, wrong suit
    assert!(!try_move(&mut b, 0, 2, 4, true, true));
    assert_eq!(b.cascades, before);
}

#[test]
fn wrong_suit_rejected_even_over_an_empty_cascade() {
    let mut b = board([
        &["   ", "7 ♦", "2 ♥"],
        &["   ", "3 ♣"],
        &["   ", "9 ♣"],
        &["   ", "8 ♦"],
        &["A ♠"],
        &["   ", "5 ♠"],
        &["   ", "J ♣"],
        &["   ", "Q ♦"],
    ]);
    let before = snapshot(&b);
    // the spade foundation refuses the 2 of hearts; nothing may land below
    // the pile either, even though that column has no cascade cards
    assert!(!try_move(&mut b, 0, 2, 4, true, true));
    assert_eq!(b.cascades, before);
}

#[test]
fn refused_top_row_move_does_not_fall_through_to_the_cascade() {
    let mut b = board([
        &["   ", "7 ♦", "2 ♥"],
        &["   ", "3 ♣"],
        &["   ", "9 ♣"],
        &["   ", "8 ♦"],
        &["A ♠", "3 ♠"],
        &["   ", "5 ♠"],
        &["   ", "J ♣"],
        &["   ", "Q ♦"],
    ]);
    let before = snapshot(&b);
    // confirmed on the top row: the 2 of hearts would fit the 3 of spades
    // at that column's cascade end, but the foundation slot was the
    // destination and it refuses
    assert!(!try_move(&mut b, 0, 2, 4, true, true));
    assert_eq!(b.cascades, before);
    // aimed below instead, the same columns accept the cascade move
    assert!(try_move(&mut b, 0, 2, 4, false, true));
    assert_eq!(b.cascades[4].len(), 3);
    assert_eq!(b.cascades[4][2], "2 ♥");
}

#[test]
fn occupied_free_cell_never_swallows_a_card() {
    let mut b = board([
        &["   ", "7 ♦", "3 ♣"],
        &["2 ♣", "9 ♥"],
        &["   ", "9 ♣"],
        &["   ", "8 ♦"],
        &["   ", "9 ♦"],
        &["   ", "5 ♠"],
        &["   ", "J ♣"],
        &["   ", "7 ♥"],
    ]);
    let before = snapshot(&b);
    // the 3 of clubs is one rank above the parked 2 of clubs, same suit:
    // free cells are not foundations, the move is refused
    assert!(!try_move(&mut b, 0, 2, 1, true, true));
    assert_eq!(b.cascades, before);
}

#[test]
fn matching_foundation_move_replaces_the_top() {
    let mut b = board([
        &["   ", "7 ♦", "2 ♠"],
        &["   ", "3 ♣"],
        &["   ", "9 ♣"],
        &["   ", "8 ♦"],
        &["A ♠", "9 ♦"],
        &["   ", "5 ♠"],
        &["   ", "J ♣"],
        &["   ", "Q ♦"],
    ]);
    assert!(try_move(&mut b, 0, 2, 4, true, true));
    assert_eq!(b.cascades[4][0], "2 ♠");
    assert_eq!(b.cascades[0].len(), 2);
}

#[test]
fn ace_moves_onto_empty_foundation() {
    let mut b = board([
        &["   ", "7 ♦", "A ♥"],
        &["   ", "3 ♣"],
        &["   ", "9 ♣"],
        &["   ", "8 ♦"],
        &["   ", "9 ♦"],
        &["   ", "5 ♠"],
        &["   ", "J ♣"],
        &["   ", "Q ♦"],
    ]);
    assert!(try_move(&mut b, 0, 2, 5, true, true));
    assert_eq!(b.cascades[5][0], "A ♥");
    assert_eq!(b.cascades[0].len(), 2);
}

#[test]
fn card_moves_into_empty_free_cell_and_back_out() {
    let mut b = board([
        &["   ", "7 ♦", "6 ♣"],
        &["   ", "3 ♣"],
        &["   ", "9 ♣"],
        &["   ", "8 ♦"],
        &["   ", "9 ♦"],
        &["   ", "5 ♠"],
        &["   ", "J ♣"],
        &["   ", "7 ♥"],
    ]);
    // 6 of clubs into free cell 1
    assert!(try_move(&mut b, 0, 2, 1, true, true));
    assert_eq!(b.cascades[1][0], "6 ♣");
    assert_eq!(b.cascades[0].len(), 2);
    // and from the free cell onto the 7 of hearts
    assert!(try_move(&mut b, 1, 0, 7, false, true));
    assert_eq!(b.cascades[1][0], "   ");
    assert_eq!(b.cascades[7].len(), 3);
    assert_eq!(b.cascades[7][2], "6 ♣");
}

#[test]
fn occupied_free_cell_rejects_a_move() {
    let mut b = board([
        &["   ", "7 ♦", "6 ♣"],
        &["K ♠", "3 ♣"],
        &["   ", "9 ♣"],
        &["   ", "8 ♦"],
        &["   ", "9 ♦"],
        &["   ", "5 ♠"],
        &["   ", "J ♣"],
        &["   ", "7 ♥"],
    ]);
    let before = snapshot(&b);
    assert!(!try_move(&mut b, 0, 2, 1, true, true));
    assert_eq!(b.cascades, before);
}

#[test]
fn valid_run_moves_whole_suffix_in_order() {
    let mut b = board([
        &["   ", "9 ♥", "5 ♦", "4 ♣", "3 ♥"],
        &["   ", "6 ♠"],
        &["   ", "9 ♣"],
        &["   ", "8 ♦"],
        &["   ", "9 ♦"],
        &["   ", "5 ♠"],
        &["   ", "J ♣"],
        &["   ", "7 ♥"],
    ]);
    // the run 5♦ 4♣ 3♥ onto the 6 of spades; four free cells allow it
    assert!(try_move(&mut b, 0, 2, 1, false, true));
    assert_eq!(b.cascades[0].len(), 2);
    assert_eq!(b.cascades[1].len(), 5);
    assert_eq!(b.cascades[1][2], "5 ♦");
    assert_eq!(b.cascades[1][3], "4 ♣");
    assert_eq!(b.cascades[1][4], "3 ♥");
}

#[test]
fn too_long_a_run_is_rejected_when_restricted() {
    let mut b = board([
        &["A ♠", "9 ♥", "5 ♦", "4 ♣", "3 ♥"],
        &["2 ♠", "6 ♠"],
        &["3 ♦", "9 ♣"],
        &["4 ♦", "8 ♦"],
        &["   ", "9 ♦"],
        &["   ", "5 ♠"],
        &["   ", "J ♣"],
        &["   ", "7 ♥"],
    ]);
    let before = snapshot(&b);
    // no free cells, no empty cascades: a 3-card run may not move
    assert!(!try_move(&mut b, 0, 2, 1, false, true));
    assert_eq!(b.cascades, before);
    // without the restriction the same move is legal
    assert!(try_move(&mut b, 0, 2, 1, false, false));
    assert_eq!(b.cascades[1].len(), 5);
}

#[test]
fn broken_run_is_rejected() {
    let mut b = board([
        &["   ", "9 ♥", "5 ♦", "4 ♦", "3 ♥"],
        &["   ", "6 ♠"],
        &["   ", "9 ♣"],
        &["   ", "8 ♦"],
        &["   ", "9 ♦"],
        &["   ", "5 ♠"],
        &["   ", "J ♣"],
        &["   ", "7 ♥"],
    ]);
    let before = snapshot(&b);
    // 5♦ and 4♦ share a colour: the suffix is no run
    assert!(!try_move(&mut b, 0, 2, 1, false, true));
    assert_eq!(b.cascades, before);
}

#[test]
fn picking_blanks_and_foundations_is_rejected() {
    let b = board([
        &["   ", "7 ♦"],
        &["   ", "3 ♣"],
        &["   ", "9 ♣"],
        &["   ", "8 ♦"],
        &["A ♠", "9 ♦"],
        &["   ", "5 ♠"],
        &["   ", "J ♣"],
        &["   ", "Q ♦"],
    ]);
    // blank free cell
    assert!(!pick_is_valid(&b, 0, 0));
    // foundation slot, even when occupied
    assert!(!pick_is_valid(&b, 4, 0));
    // out of range row
    assert!(!pick_is_valid(&b, 0, 5));
    // a real card
    assert!(pick_is_valid(&b, 0, 1));
}

#[test]
fn whole_run_to_empty_cascade() {
    let mut b = board([
        &["   ", "9 ♥", "5 ♦", "4 ♣"],
        &["   "],
        &["   ", "9 ♣"],
        &["   ", "8 ♦"],
        &["   ", "9 ♦"],
        &["   ", "5 ♠"],
        &["   ", "J ♣"],
        &["   ", "7 ♥"],
    ]);
    // 4 free cells, destination empty: a 5-card run would be allowed,
    // and an empty cascade accepts any valid run
    assert!(try_move(&mut b, 0, 2, 1, false, true));
    assert_eq!(b.cascades[0].len(), 2);
    assert_eq!(b.cascades[1].len(), 3);
    assert_eq!(b.cascades[1][1], "5 ♦");
    assert_eq!(b.cascades[1][2], "4 ♣");
}

#[test]
fn cursor_moves_clamp_to_the_board() {
    let b = board([
        &["   ", "7 ♦", "6 ♣"],
        &["   ", "3 ♣"],
        &["   ", "9 ♣"],
        &["   ", "8 ♦"],
        &["   ", "9 ♦"],
        &["   ", "5 ♠"],
        &["   ", "J ♣"],
        &["   ", "7 ♥"],
    ]);
    assert_eq!(pick_cursor_step(&b, 0, 1, Key::Left), (0, 1));
    assert_eq!(pick_cursor_step(&b, 7, 1, Key::Right), (7, 1));
    assert_eq!(pick_cursor_step(&b, 3, 1, Key::Left), (2, 1));
    assert_eq!(pick_cursor_step(&b, 3, 1, Key::Right), (4, 1));
    assert_eq!(pick_cursor_step(&b, 3, 1, Key::Down), (3, 2));
    assert_eq!(pick_cursor_step(&b, 3, 1, Key::Up), (3, 0));
    assert_eq!(pick_cursor_step(&b, 3, 0, Key::Up), (3, 0));
    assert_eq!(pick_cursor_step(&b, 0, 2, Key::Top), (0, 0));
    assert_eq!(pick_cursor_step(&b, 0, 0, Key::Bottom), (0, 3));
    // the clamp pulls a runaway row back into the column
    assert_eq!(clamp_row(&b, 0, 9), 2);
    assert_eq!(clamp_row(&b, 1, 9), 1);
    assert_eq!(clamp_row(&b, 0, 1), 1);
}

#[test]
fn place_cursor_toggles_between_top_and_bottom() {
    assert_eq!(place_cursor_step(3, false, Key::Up), (3, true));
    assert_eq!(place_cursor_step(3, true, Key::Down), (3, false));
    assert_eq!(place_cursor_step(0, false, Key::Left), (0, false));
    assert_eq!(place_cursor_step(7, true, Key::Right), (7, true));
    assert_eq!(place_cursor_step(2, true, Key::Top), (2, true));
}
