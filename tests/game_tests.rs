use freecell::cards::{new_standard_deck, Card, CLUBS, DIAMONDS, HEARTS, SPADES};
use freecell::game::Game;

/// A standard deck with each given card swapped into the given deck index.
fn deck_with(placements: &[(Card, usize)]) -> Vec<Card> {
    let mut deck = new_standard_deck(13, 4);
    for &(card, at) in placements {
        let from = deck.iter().position(|c| *c == card).unwrap();
        deck.swap(from, at);
    }
    deck
}

fn all_cards(game: &Game) -> Vec<(u8, u8)> {
    let mut cards = Vec::new();
    for i in 0..16 {
        for c in game.stack(i).iter() {
            cards.push((c.suit, c.rank));
        }
    }
    cards.sort();
    cards
}

fn snapshot(game: &Game) -> Vec<Vec<Card>> {
    (0..16).map(|i| game.stack(i).clone()).collect()
}

#[test]
fn deal_column_sizes() {
    let game = Game::from_deck(new_standard_deck(13, 4));
    let sizes: Vec<usize> = (8..16).map(|i| game.stack(i).len()).collect();
    assert_eq!(sizes, vec![7, 7, 7, 7, 6, 6, 6, 6]);
    for i in 0..8 {
        assert!(game.stack(i).is_empty());
    }
}

#[test]
fn deal_keeps_deck_order_in_columns() {
    let deck = new_standard_deck(13, 4);
    let game = Game::from_deck(deck.clone());
    let col0: Vec<Card> = (0..7).map(|j| deck[8 * j]).collect();
    assert_eq!(*game.stack(8), col0);
    let col5: Vec<Card> = (0..6).map(|j| deck[8 * j + 5]).collect();
    assert_eq!(*game.stack(13), col5);
}

#[test]
fn fresh_game_state() {
    let game = Game::from_deck(new_standard_deck(13, 4));
    assert_eq!(game.highlighted_card(), 8);
    assert_eq!(game.selected_card(), None);
    assert_eq!(game.move_count(), 0);
    assert!(!game.high_contrast());
    assert!(!game.is_won());
}

#[test]
fn shuffled_game_holds_each_card_once() {
    let mut rng = rand::thread_rng();
    let game = Game::new(&mut rng);
    let mut expected: Vec<(u8, u8)> = new_standard_deck(13, 4).iter().map(|c| (c.suit, c.rank)).collect();
    expected.sort();
    assert_eq!(all_cards(&game), expected);
    assert!(!game.is_won());
    let sizes: Vec<usize> = (8..16).map(|i| game.stack(i).len()).collect();
    assert_eq!(sizes, vec![7, 7, 7, 7, 6, 6, 6, 6]);
}

#[test]
fn new_games_are_shuffled() {
    let mut rng = rand::thread_rng();
    let unshuffled = snapshot(&Game::from_deck(new_standard_deck(13, 4)));
    let differs = (0..3).any(|_| snapshot(&Game::new(&mut rng)) != unshuffled);
    assert!(differs);
}

#[test]
fn move_from_empty_source_rejected() {
    let mut game = Game::from_deck(new_standard_deck(13, 4));
    let before = snapshot(&game);
    // free cell 4 and foundation 0 are empty
    assert!(!game.move_is_valid(4, 8));
    assert!(!game.move_is_valid(0, 5));
    assert!(!game.move_is_valid(4, 5));
    game.player_try_execute_move(4, 8);
    assert_eq!(snapshot(&game), before);
    assert_eq!(game.move_count(), 0);
}

#[test]
fn move_out_of_field_rejected() {
    let game = Game::from_deck(new_standard_deck(13, 4));
    assert!(!game.move_is_valid(8, 16));
    assert!(!game.move_is_valid(99, 4));
    assert!(!game.move_is_valid(8, 8));
}

#[test]
fn ace_to_its_foundation() {
    let ace = Card { rank: 1, suit: HEARTS };
    let mut game = Game::from_deck(deck_with(&[(ace, 48)]));
    assert_eq!(*game.stack(8).last().unwrap(), ace);
    assert!(game.move_is_valid(8, 0));
    assert!(!game.move_is_valid(8, 1));
    assert!(!game.move_is_valid(8, 2));
    assert!(!game.move_is_valid(8, 3));
    game.player_try_execute_move(8, 1);
    assert!(game.stack(1).is_empty());
    game.player_try_execute_move(8, 0);
    assert_eq!(*game.stack(0), vec![ace]);
    assert_eq!(game.stack(8).len(), 6);
    assert_eq!(game.move_count(), 1);
}

#[test]
fn foundation_builds_up_by_suit() {
    let ace = Card { rank: 1, suit: SPADES };
    let two = Card { rank: 2, suit: SPADES };
    let two_hearts = Card { rank: 2, suit: HEARTS };
    let three = Card { rank: 3, suit: SPADES };
    let mut game = Game::from_deck(deck_with(&[(ace, 48), (two, 49), (two_hearts, 50), (three, 51)]));
    game.player_try_execute_move(8, 3);
    assert_eq!(game.stack(3).len(), 1);
    assert!(!game.move_is_valid(10, 3));
    assert!(!game.move_is_valid(11, 3));
    assert!(game.move_is_valid(9, 3));
    game.player_try_execute_move(9, 3);
    assert!(game.move_is_valid(11, 3));
    game.player_try_execute_move(11, 3);
    assert_eq!(*game.stack(3), vec![ace, two, three]);
}

#[test]
fn black_seven_on_red_eight() {
    let seven = Card { rank: 7, suit: CLUBS };
    let red_eight = Card { rank: 8, suit: HEARTS };
    let black_eight = Card { rank: 8, suit: SPADES };
    let red_six = Card { rank: 6, suit: DIAMONDS };
    let mut game = Game::from_deck(deck_with(&[(seven, 48), (red_eight, 49), (black_eight, 50), (red_six, 51)]));
    assert_eq!(*game.stack(8).last().unwrap(), seven);
    assert_eq!(*game.stack(9).last().unwrap(), red_eight);
    assert_eq!(*game.stack(10).last().unwrap(), black_eight);
    assert_eq!(*game.stack(11).last().unwrap(), red_six);
    assert!(!game.move_is_valid(8, 10));
    assert!(!game.move_is_valid(8, 11));
    assert!(game.move_is_valid(8, 9));
    game.player_try_execute_move(8, 9);
    assert_eq!(*game.stack(9).last().unwrap(), seven);
    assert_eq!(game.stack(9).len(), 8);
    assert_eq!(game.move_count(), 1);
}

#[test]
fn free_cell_holds_one_card() {
    let mut game = Game::from_deck(new_standard_deck(13, 4));
    let top = *game.stack(8).last().unwrap();
    assert!(game.move_is_valid(8, 4));
    game.player_try_execute_move(8, 4);
    assert_eq!(*game.stack(4), vec![top]);
    assert!(!game.move_is_valid(9, 4));
    assert!(game.move_is_valid(9, 5));
}

#[test]
fn any_card_to_empty_column() {
    let h = |rank: u8, suit: u8| Card { rank, suit };
    // column at field 15 deals deck indices 7, 15, 23, 31, 39, 47 (top)
    let mut game = Game::from_deck(deck_with(&[
        (h(2, HEARTS), 7),
        (h(2, CLUBS), 15),
        (h(1, HEARTS), 23),
        (h(1, CLUBS), 31),
        (h(1, DIAMONDS), 39),
        (h(1, SPADES), 47),
    ]));
    for (to, count) in [(3, 1), (2, 1), (1, 1), (0, 1), (1, 2), (0, 2)] {
        game.player_try_execute_move(15, to);
        assert_eq!(game.stack(to).len(), count);
    }
    assert!(game.stack(15).is_empty());
    let top = *game.stack(8).last().unwrap();
    assert!(game.move_is_valid(8, 15));
    game.player_try_execute_move(8, 15);
    assert_eq!(*game.stack(15), vec![top]);
}

#[test]
fn move_then_undo_restores() {
    let mut game = Game::from_deck(new_standard_deck(13, 4));
    let before = snapshot(&game);
    let h = game.highlighted_card();
    game.player_try_execute_move(8, 4);
    assert_eq!(game.move_count(), 1);
    assert_ne!(snapshot(&game), before);
    game.perform_undo();
    assert_eq!(snapshot(&game), before);
    assert_eq!(game.move_count(), 0);
    assert_eq!(game.highlighted_card(), h);
    assert_eq!(game.selected_card(), None);
}

#[test]
fn undo_on_empty_history_does_nothing() {
    let mut game = Game::from_deck(new_standard_deck(13, 4));
    let before = snapshot(&game);
    game.perform_undo();
    assert_eq!(snapshot(&game), before);
    assert_eq!(game.move_count(), 0);
}

#[test]
fn undo_restores_a_foundation_card() {
    let ace = Card { rank: 1, suit: HEARTS };
    let mut game = Game::from_deck(deck_with(&[(ace, 48)]));
    game.player_try_execute_move(8, 0);
    game.player_try_execute_move(0, 4);
    assert_eq!(*game.stack(4), vec![ace]);
    game.perform_undo();
    assert_eq!(*game.stack(0), vec![ace]);
    game.perform_undo();
    assert!(game.stack(0).is_empty());
    assert_eq!(*game.stack(8).last().unwrap(), ace);
    assert_eq!(game.move_count(), 0);
}

#[test]
fn undo_log_keeps_last_thousand_moves() {
    let mut game = Game::from_deck(new_standard_deck(13, 4));
    game.player_try_execute_move(8, 4);
    for i in 0..1004 {
        if i % 2 == 0 {
            game.player_try_execute_move(4, 5);
        } else {
            game.player_try_execute_move(5, 4);
        }
    }
    assert_eq!(game.move_count(), 1005);
    for _ in 0..1000 {
        game.perform_undo();
    }
    assert_eq!(game.move_count(), 5);
    let after = snapshot(&game);
    game.perform_undo();
    assert_eq!(game.move_count(), 5);
    assert_eq!(snapshot(&game), after);
}

#[test]
fn card_press_selects_deselects_and_moves() {
    let mut game = Game::from_deck(new_standard_deck(13, 4));
    assert_eq!(game.highlighted_card(), 8);
    game.handle_card_press();
    assert_eq!(game.selected_card(), Some(8));
    game.handle_card_press();
    assert_eq!(game.selected_card(), None);
    game.handle_card_press();
    game.move_cursor_left();
    // free cell 7 is the first legal target to the left of column 8
    assert_eq!(game.highlighted_card(), 7);
    let top = *game.stack(8).last().unwrap();
    game.handle_card_press();
    assert_eq!(*game.stack(7), vec![top]);
    assert_eq!(game.selected_card(), None);
    assert_eq!(game.move_count(), 1);
}

#[test]
fn browsing_cursor_skips_empty_stacks() {
    let mut game = Game::from_deck(new_standard_deck(13, 4));
    game.move_cursor_right();
    assert_eq!(game.highlighted_card(), 9);
    game.move_cursor_left();
    game.move_cursor_left();
    // foundations and free cells are empty: wraps to the last column
    assert_eq!(game.highlighted_card(), 15);
    game.move_cursor_right();
    assert_eq!(game.highlighted_card(), 8);
}

#[test]
fn selecting_cursor_stops_on_legal_targets_or_selection() {
    let seven = Card { rank: 7, suit: CLUBS };
    let red_eight = Card { rank: 8, suit: HEARTS };
    let mut game = Game::from_deck(deck_with(&[(seven, 48), (red_eight, 49)]));
    game.handle_card_press();
    game.move_cursor_right();
    assert_eq!(game.highlighted_card(), 9);
    game.move_cursor_right();
    // no other column accepts the seven: free cell 4 is next, wrapping round
    assert_eq!(game.highlighted_card(), 4);
    for _ in 0..4 {
        game.move_cursor_right();
    }
    assert_eq!(game.highlighted_card(), 8);
}

#[test]
fn toggle_high_contrast_flips() {
    let mut game = Game::from_deck(new_standard_deck(13, 4));
    game.toggle_high_contrast();
    assert!(game.high_contrast());
    game.toggle_high_contrast();
    assert!(!game.high_contrast());
}

#[test]
fn quick_stack_wins_a_sorted_deal() {
    // kings first, aces last: every column runs down towards its top
    let mut deck = Vec::new();
    for rank in (1..=13u8).rev() {
        for suit in 1..=4u8 {
            deck.push(Card { rank, suit });
        }
    }
    let mut game = Game::from_deck(deck);
    assert!(!game.is_won());
    game.quick_stack_to_foundations();
    assert!(game.is_won());
    assert_eq!(game.move_count(), 52);
    for i in 0..4 {
        assert_eq!(game.stack(i).len(), 13);
    }
    for i in 4..16 {
        assert!(game.stack(i).is_empty());
    }
    game.perform_undo();
    assert!(!game.is_won());
    assert_eq!(game.move_count(), 51);
}

#[test]
fn quick_stack_leaves_no_foundation_move() {
    let ace = Card { rank: 1, suit: DIAMONDS };
    let two = Card { rank: 2, suit: DIAMONDS };
    let mut game = Game::from_deck(deck_with(&[(ace, 49), (two, 48)]));
    game.quick_stack_to_foundations();
    assert_eq!(*game.stack(2), vec![ace, two]);
    assert_eq!(game.move_count(), 2);
    for s in 0..16 {
        for t in 0..4 {
            assert!(!game.move_is_valid(s, t));
        }
    }
}

#[test]
fn quick_stack_without_moves_changes_nothing() {
    let mut game = Game::from_deck(new_standard_deck(13, 4));
    game.handle_card_press();
    let before = snapshot(&game);
    game.quick_stack_to_foundations();
    assert_eq!(snapshot(&game), before);
    assert_eq!(game.move_count(), 0);
    assert_eq!(game.selected_card(), Some(8));
}
