use connect_four::board::{Board, Piece};

#[test]
fn test_eq() {
    let mut board1 = Board::new();
    let mut board2 = Board::new();
    assert_eq!(board1, board2);

    board1.with_place(0, Piece::Red);
    board2.with_place(0, Piece::Red);
    assert_eq!(board1, board2);

    board1.with_place(1, Piece::Blue);
    board2.with_place(2, Piece::Red);
    assert_ne!(board1, board2);

    // Order doesn't matter
    board1.with_place(2, Piece::Red);
    board2.with_place(1, Piece::Blue);
    assert_eq!(board1, board2);
}

#[test]
fn to_from_array() {
    let mut board = Board::new();
    assert_eq!(Board::from_array(board.to_array()), board);

    board.with_place(0, Piece::Red);
    board.with_place(1, Piece::Blue);
    board.with_place(2, Piece::Red);
    assert_eq!(Board::from_array(board.to_array()), board);

    board.with_place(0, Piece::Blue);
    board.with_place(1, Piece::Red);
    board.with_place(2, Piece::Blue);
    assert_eq!(Board::from_array(board.to_array()), board);

    board.with_place(0, Piece::Blue);
    board.with_place(6, Piece::Red);
    board.with_place(0, Piece::Blue);
    board.with_place(6, Piece::Red);
    board.with_place(0, Piece::Blue);
    board.with_place(6, Piece::Red);
    assert!(board.is_terminal());
    assert_eq!(Board::from_array(board.to_array()), board);
}

#[test]
fn test_count_winning_opportunities_empty_board() {
    let board = Board::new();
    assert_eq!(board.count_winning_opportunities(Piece::Red), 0);
    assert_eq!(board.count_winning_opportunities(Piece::Blue), 0);
}

#[test]
fn test_count_winning_opportunities_horizontal() {
    let mut board = Board::new();
    // Place three red pieces horizontally: RRR_
    board.with_place(0, Piece::Red);
    board.with_place(1, Piece::Red);
    board.with_place(2, Piece::Red);

    // Should have 1 winning opportunity (can complete at column 3)
    assert_eq!(board.count_winning_opportunities(Piece::Red), 1);
    assert_eq!(board.count_winning_opportunities(Piece::Blue), 0);
}

#[test]
fn test_count_winning_opportunities_horizontal_gap_in_middle() {
    let mut board = Board::new();
    // Place RR_R pattern
    board.with_place(0, Piece::Red);
    board.with_place(1, Piece::Red);
    board.with_place(3, Piece::Red);

    // Should have 1 winning opportunity (can complete at column 2)
    assert_eq!(board.count_winning_opportunities(Piece::Red), 1);
    assert_eq!(board.count_winning_opportunities(Piece::Blue), 0);
}

#[test]
fn test_count_winning_opportunities_horizontal_gap_at_start() {
    let mut board = Board::new();
    // Place _RRR pattern
    board.with_place(1, Piece::Red);
    board.with_place(2, Piece::Red);
    board.with_place(3, Piece::Red);

    // This creates two overlapping opportunities:
    // _RRR (positions 0-3) and RRR_ (positions 1-4)
    assert_eq!(board.count_winning_opportunities(Piece::Red), 2);
    assert_eq!(board.count_winning_opportunities(Piece::Blue), 0);
}

#[test]
fn test_count_winning_opportunities_vertical() {
    let mut board = Board::new();
    // Place three red pieces vertically in column 0
    board.with_place(0, Piece::Red);
    board.with_place(0, Piece::Red);
    board.with_place(0, Piece::Red);

    // Should have 1 winning opportunity (can complete by placing on top)
    assert_eq!(board.count_winning_opportunities(Piece::Red), 1);
    assert_eq!(board.count_winning_opportunities(Piece::Blue), 0);
}

#[test]
fn test_count_winning_opportunities_diagonal_positive_slope() {
    let mut board = Board::new();
    // Create a diagonal pattern (bottom-left to top-right)
    // Place pieces to build up the diagonal
    board.with_place(0, Piece::Red); // Bottom of column 0

    board.with_place(1, Piece::Blue); // Bottom of column 1
    board.with_place(1, Piece::Red); // Second level of column 1

    board.with_place(2, Piece::Blue); // Bottom of column 2
    board.with_place(2, Piece::Blue); // Second level of column 2
    board.with_place(2, Piece::Red); // Third level of column 2

    // Now we have a diagonal RRR_ pattern, missing the top-right piece
    // Should have 1 winning opportunity
    assert_eq!(board.count_winning_opportunities(Piece::Red), 1);
}

#[test]
fn test_count_winning_opportunities_diagonal_negative_slope() {
    let mut board = Board::new();
    // Create a diagonal pattern (top-left to bottom-right)
    // We need to build up the columns to the right heights

    // Column 0: need red at row 2 (third from top)
    board.with_place(0, Piece::Blue); // Row 5 (bottom)
    board.with_place(0, Piece::Blue); // Row 4
    board.with_place(0, Piece::Blue); // Row 3
    board.with_place(0, Piece::Red); // Row 2

    // Column 1: need red at row 3
    board.with_place(1, Piece::Blue); // Row 5
    board.with_place(1, Piece::Blue); // Row 4
    board.with_place(1, Piece::Red); // Row 3

    // Column 2: need red at row 4
    board.with_place(2, Piece::Blue); // Row 5
    board.with_place(2, Piece::Red); // Row 4

    // Column 3: needs to be empty at row 5 for the opportunity
    // Don't place anything in column 3

    // This should create a diagonal RRR_ pattern
    assert_eq!(board.count_winning_opportunities(Piece::Red), 1);
}

#[test]
fn test_count_winning_opportunities_blocked_by_opponent() {
    let mut board = Board::new();
    // Place RRR but then block with opponent piece
    board.with_place(0, Piece::Red);
    board.with_place(1, Piece::Red);
    board.with_place(2, Piece::Red);
    board.with_place(3, Piece::Blue); // Block the winning opportunity

    // Should have 0 winning opportunities because opponent piece blocks
    assert_eq!(board.count_winning_opportunities(Piece::Red), 0);
    assert_eq!(board.count_winning_opportunities(Piece::Blue), 0);
}

#[test]
fn test_count_winning_opportunities_multiple_opportunities() {
    let mut board = Board::new();
    // Create a simple case with clear multiple opportunities
    // Bottom row: RRR_
    board.with_place(0, Piece::Red);
    board.with_place(1, Piece::Red);
    board.with_place(2, Piece::Red);

    // Create a separate vertical opportunity in column 6
    board.with_place(6, Piece::Red);
    board.with_place(6, Piece::Red);
    board.with_place(6, Piece::Red);

    // Should have at least 2 opportunities: horizontal and vertical
    assert_eq!(board.count_winning_opportunities(Piece::Red), 2);
}

#[test]
fn test_count_winning_opportunities_r_gap_rr_pattern() {
    let mut board = Board::new();
    // Create R_RR pattern
    board.with_place(0, Piece::Red);
    board.with_place(2, Piece::Red);
    board.with_place(3, Piece::Red);

    // Should have 1 winning opportunity (can complete at column 1)
    assert_eq!(board.count_winning_opportunities(Piece::Red), 1);
}

#[test]
fn placed_piece_rests_at_lowest_empty_row() {
    let mut board = Board::new();
    assert_eq!(board.column_height(3), 0);
    board.with_place(3, Piece::Red);
    assert_eq!(board.get_checked(3, 0), Piece::Red);
    assert_eq!(board.column_height(3), 1);
    board.with_place(3, Piece::Blue);
    assert_eq!(board.get_checked(3, 1), Piece::Blue);
    assert_eq!(board.get_checked(3, 0), Piece::Red);
    assert_eq!(board.column_height(3), 2);

    let next = board.place(3, Piece::Red);
    assert_eq!(next.get_checked(3, 2), Piece::Red);
    assert_eq!(next.column_height(3), 3);
    // The hypothetical move left the original board unchanged.
    assert_eq!(board.column_height(3), 2);
}

#[test]
fn winner_appears_only_with_a_line_of_four() {
    let mut board = Board::new();
    assert_eq!(board.has_winner(), None);
    board.with_place(2, Piece::Blue);
    board.with_place(2, Piece::Blue);
    board.with_place(2, Piece::Blue);
    assert_eq!(board.has_winner(), None);
    assert!(!board.is_terminal());
    board.with_place(2, Piece::Blue);
    assert_eq!(board.has_winner(), Some(Piece::Blue));
    assert!(board.is_terminal());
    assert!(board.has_line(Piece::Blue));
    assert!(!board.has_line(Piece::Red));
}

#[test]
fn winning_moves_of_a_bottom_row_run() {
    let mut board = Board::new();
    board.with_place(0, Piece::Red);
    board.with_place(1, Piece::Red);
    board.with_place(2, Piece::Red);
    let wins = board.winning_moves(Piece::Red);
    assert!(wins.contains(&3));
    assert_eq!(wins, vec![3]);
    assert_eq!(board.count_winning_opportunities(Piece::Red), 1);
    assert_eq!(board.winning_moves(Piece::Blue), Vec::<usize>::new());
}

#[test]
fn text_form_round_trips() {
    let mut board = Board::new();
    assert_eq!(Board::from(&board.short_string()), board);

    board.with_place(0, Piece::Red);
    board.with_place(3, Piece::Blue);
    board.with_place(3, Piece::Red);
    board.with_place(6, Piece::Blue);
    assert_eq!(Board::from(&board.short_string()), board);

    board.with_place(2, Piece::Red);
    board.with_place(2, Piece::Blue);
    board.with_place(2, Piece::Red);
    board.with_place(2, Piece::Blue);
    board.with_place(2, Piece::Red);
    board.with_place(2, Piece::Blue);
    assert_eq!(Board::from(&board.short_string()), board);
}

#[test]
fn parses_the_documented_text_form() {
    let board = Board::from("!///    B/    B/  BRRRR");
    assert_eq!(board.get_checked(2, 0), Piece::Blue);
    assert_eq!(board.get_checked(3, 0), Piece::Red);
    assert_eq!(board.get_checked(4, 0), Piece::Red);
    assert_eq!(board.get_checked(5, 0), Piece::Red);
    assert_eq!(board.get_checked(6, 0), Piece::Red);
    assert_eq!(board.get_checked(4, 1), Piece::Blue);
    assert_eq!(board.get_checked(4, 2), Piece::Blue);
    assert_eq!(board.num_pieces_played(), 7);
    assert_eq!(board.short_string(), "!///    B/    B/  BRRRR");
}

#[test]
fn next_player_follows_piece_counts() {
    let mut board = Board::new();
    assert_eq!(board.next_player(), Piece::Red);
    board.with_place(0, Piece::Red);
    assert_eq!(board.next_player(), Piece::Blue);
    board.with_place(1, Piece::Blue);
    assert_eq!(board.next_player(), Piece::Red);
    assert_eq!(board.num_pieces_played(), 2);
}

#[test]
fn valid_moves_lists_open_columns_in_order() {
    let mut board = Board::new();
    assert_eq!(board.valid_moves(), vec![0, 1, 2, 3, 4, 5, 6]);
    for _ in 0..3 {
        board.with_place(4, Piece::Red);
        board.with_place(4, Piece::Blue);
    }
    assert_eq!(board.column_height(4), 6);
    assert_eq!(board.valid_moves(), vec![0, 1, 2, 3, 5, 6]);
}

#[test]
fn opponent_swaps_the_players() {
    assert_eq!(Piece::Red.opponent(), Piece::Blue);
    assert_eq!(Piece::Blue.opponent(), Piece::Red);
    assert_eq!(Piece::Red.name(), "Red");
    assert_eq!(Piece::Blue.name(), "Blue");
}

#[test]
fn next_states_and_future_boards_follow_valid_moves() {
    let mut board = Board::new();
    board.with_place(0, Piece::Red);
    let futures = board.all_future_boards(Piece::Blue);
    assert_eq!(futures.len(), 7);
    assert_eq!(futures[0].get_checked(0, 1), Piece::Blue);
    assert_eq!(futures[5].get_checked(5, 0), Piece::Blue);
    let nexts = board.next_states();
    assert_eq!(nexts, futures);
}

#[test]
fn cache_key_matches_on_equal_boards() {
    let mut board1 = Board::new();
    let mut board2 = Board::new();
    board1.with_place(3, Piece::Red);
    board1.with_place(4, Piece::Blue);
    board2.with_place(3, Piece::Red);
    board2.with_place(4, Piece::Blue);
    assert_eq!(board1.cache_key(), board2.cache_key());
    assert!(board1.same_as(&board2));
    board2.with_place(4, Piece::Red);
    assert_ne!(board1.cache_key(), board2.cache_key());
    assert!(!board1.same_as(&board2));
}
