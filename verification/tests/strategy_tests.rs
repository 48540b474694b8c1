use connect_four::board::{Board, Piece};
use connect_four::game::{game, Connect4AI};
use connect_four::search_for_win::SearchForWinCache;
use connect_four::strategy::{
    AvoidInescapableTraps, AvoidTraps, DeciderKind, LayerKind, SearchForWin, Setup, Strategy,
    StrategyStack, ThreeInARow, TriesToWin,
};
use connect_four::strategy_cache::StrategyCache;

#[test]
fn search_for_win() {
    // [ ] [ ] [ ] [R] [B] [ ] [ ]
    // [ ] [ ] [ ] [B] [R] [ ] [ ]
    // [ ] [B] [R] [B] [B] [ ] [ ]
    // [ ] [R] [B] [B] [B] [ ] [ ]
    // [ ] [R] [R] [R] [B] [ ] [ ]
    // [B] [R] [R] [B] [R] [ ] [R]
    let board = "!   RB/   BR/ BRBB/ RBBB/ RRRB/BRRBR R";
    let board = Board::from(board);
    let strategy = SearchForWin::new(Piece::Red, 1);
    let options = board.valid_moves();
    let choice = strategy.decide(&board, &options);
    assert!(choice.is_some());
}

/// A board, built by legal alternating play, where dropping red in column 3
/// builds an open-ended run of three on the bottom row: an unstoppable
/// two-move win.
fn double_threat_board() -> Board {
    let mut board = Board::new();
    board.with_place(1, Piece::Red);
    board.with_place(5, Piece::Blue);
    board.with_place(2, Piece::Red);
    board.with_place(5, Piece::Blue);
    board
}

/// A board, built by legal alternating play, where red's column 0 move
/// builds a second vertical threat beside the standing one on column 4:
/// whichever the opponent blocks, red completes the other.
fn twin_tower_board() -> Board {
    // Column 0: blue, blue, red, red — one red short of a vertical threat.
    // Columns 1-3 are full with no line of four anywhere.
    // Column 4: blue, then three reds — red already threatens its top.
    // Column 5: two blues.
    let mut b = Board::new();
    b.with_place(0, Piece::Blue);
    b.with_place(0, Piece::Blue);
    b.with_place(0, Piece::Red);
    b.with_place(0, Piece::Red);
    b.with_place(1, Piece::Blue);
    b.with_place(1, Piece::Red);
    b.with_place(1, Piece::Blue);
    b.with_place(1, Piece::Red);
    b.with_place(1, Piece::Blue);
    b.with_place(1, Piece::Red);
    b.with_place(2, Piece::Blue);
    b.with_place(2, Piece::Red);
    b.with_place(2, Piece::Blue);
    b.with_place(2, Piece::Red);
    b.with_place(2, Piece::Blue);
    b.with_place(2, Piece::Red);
    b.with_place(3, Piece::Red);
    b.with_place(3, Piece::Blue);
    b.with_place(3, Piece::Red);
    b.with_place(3, Piece::Blue);
    b.with_place(3, Piece::Red);
    b.with_place(3, Piece::Blue);
    b.with_place(4, Piece::Blue);
    b.with_place(4, Piece::Red);
    b.with_place(4, Piece::Red);
    b.with_place(4, Piece::Red);
    b.with_place(5, Piece::Blue);
    b.with_place(5, Piece::Blue);
    b
}

#[test]
fn cached_search_proves_a_two_move_win() {
    let board = twin_tower_board();
    assert_eq!(board.has_winner(), None);
    let options = board.valid_moves();
    assert_eq!(options, vec![0, 4, 5, 6]);
    let mut strategy = SearchForWinCache::new(Piece::Red, 1);
    assert_eq!(strategy.decide(&board, &options), Some(0));
}

#[test]
fn cached_search_remembers_explored_positions() {
    let board = double_threat_board();
    let options = board.valid_moves();
    let mut strategy = SearchForWinCache::new(Piece::Red, 1);
    let fresh = strategy.get_stats();
    assert_eq!(fresh.hits, 0);
    assert_eq!(fresh.misses, 0);
    assert_eq!(fresh.entries, 0);
    let first = strategy.decide(&board, &options);
    assert_eq!(first, Some(3));
    let stats = strategy.get_stats();
    assert!(stats.entries > 0);
    // Queries on another position leave the recorded verdicts untouched.
    let other = twin_tower_board();
    let other_options = other.valid_moves();
    assert_eq!(strategy.decide(&other, &other_options), Some(0));
    // The same query again leans on the memo table and repeats the verdict.
    let second = strategy.decide(&board, &options);
    assert_eq!(second, Some(3));
    let stats = strategy.get_stats();
    assert!(stats.hits > 0);
}

#[test]
fn plain_search_proves_a_two_move_win() {
    // Twenty pieces on the board, none of them a line or an immediate win:
    // dropping red in column 3 builds an open-ended run of three on the
    // bottom row, an unstoppable two-move win.
    let mut board = Board::new();
    board.with_place(1, Piece::Red);
    board.with_place(1, Piece::Blue);
    board.with_place(1, Piece::Red);
    board.with_place(1, Piece::Blue);
    board.with_place(2, Piece::Red);
    board.with_place(2, Piece::Blue);
    board.with_place(2, Piece::Red);
    board.with_place(2, Piece::Blue);
    board.with_place(5, Piece::Blue);
    board.with_place(5, Piece::Red);
    board.with_place(5, Piece::Blue);
    board.with_place(5, Piece::Red);
    board.with_place(5, Piece::Blue);
    board.with_place(5, Piece::Red);
    board.with_place(6, Piece::Red);
    board.with_place(6, Piece::Blue);
    board.with_place(6, Piece::Red);
    board.with_place(6, Piece::Blue);
    board.with_place(6, Piece::Red);
    board.with_place(6, Piece::Blue);
    assert_eq!(board.num_pieces_played(), 20);
    assert_eq!(board.has_winner(), None);
    let options = board.valid_moves();
    let deep = SearchForWin::new(Piece::Red, 1);
    assert_eq!(deep.decide(&board, &options), Some(3));
    let shallow = SearchForWin::new(Piece::Red, 0);
    assert_eq!(shallow.decide(&board, &options), None);
}

#[test]
fn cached_search_declines_at_depth_zero() {
    let board = double_threat_board();
    let options = board.valid_moves();
    let mut strategy = SearchForWinCache::new(Piece::Red, 0);
    assert_eq!(strategy.decide(&board, &options), None);
}

#[test]
fn search_declines_on_a_young_board() {
    // Fewer than the threshold number of pieces: the plain search passes.
    let board = double_threat_board();
    let options = board.valid_moves();
    let strategy = SearchForWin::new(Piece::Red, 3);
    assert_eq!(strategy.decide(&board, &options), None);
}

#[test]
fn tries_to_win_takes_the_win_and_blocks_the_loss() {
    let mut board = Board::new();
    board.with_place(0, Piece::Red);
    board.with_place(6, Piece::Blue);
    board.with_place(1, Piece::Red);
    board.with_place(6, Piece::Blue);
    board.with_place(2, Piece::Red);
    board.with_place(6, Piece::Blue);
    // Red wins at once in column 3; blue would win on top of column 6.
    let options = board.valid_moves();
    let red = TriesToWin::new(Piece::Red);
    assert_eq!(red.decide(&board, &options), Some(3));

    // With no win of its own anywhere, a fourth player move must block.
    let mut block_board = Board::new();
    block_board.with_place(6, Piece::Blue);
    block_board.with_place(6, Piece::Blue);
    block_board.with_place(6, Piece::Blue);
    let block_options = block_board.valid_moves();
    assert_eq!(red.decide(&block_board, &block_options), Some(6));
}

#[test]
fn setup_builds_a_winning_follow_up() {
    // Red in columns 1 and 2: playing column 3 leaves winning replies.
    let mut board = Board::new();
    board.with_place(1, Piece::Red);
    board.with_place(5, Piece::Blue);
    board.with_place(2, Piece::Red);
    board.with_place(5, Piece::Blue);
    let options = board.valid_moves();
    let red = Setup::new(Piece::Red);
    // Column 0 already sets up a follow-up win at column 3.
    assert_eq!(red.decide(&board, &options), Some(0));
}

#[test]
fn three_in_a_row_keeps_the_best_scoring_moves() {
    let mut board = Board::new();
    board.with_place(1, Piece::Red);
    board.with_place(5, Piece::Blue);
    board.with_place(2, Piece::Red);
    board.with_place(5, Piece::Blue);
    let options = board.valid_moves();
    let red = ThreeInARow::new(Piece::Red);
    let kept = red.prune_from(&board, &options);
    // Completing the run at 0 or 3 creates open threats; 3 scores best by
    // leaving both ends of the run open.
    assert_eq!(kept, vec![3]);
}

#[test]
fn avoid_traps_drops_losing_moves() {
    let mut board = Board::new();
    board.with_place(0, Piece::Blue);
    board.with_place(6, Piece::Red);
    board.with_place(1, Piece::Blue);
    board.with_place(6, Piece::Red);
    board.with_place(2, Piece::Blue);
    board.with_place(6, Piece::Red);
    // Blue wins at once in column 3, so every other move loses on the spot
    // — except column 6, where red completes its own four.
    let options = board.valid_moves();
    let red = AvoidTraps::new(Piece::Red);
    let kept = red.prune_from(&board, &options);
    assert_eq!(kept, vec![3, 6]);
}

#[test]
fn stack_falls_back_when_a_layer_empties_the_candidates() {
    // Blue holds an open run of three: every red move leaves blue an
    // immediate winning reply, so the layer would discard everything.
    let mut board = Board::new();
    board.with_place(2, Piece::Blue);
    board.with_place(3, Piece::Blue);
    board.with_place(4, Piece::Blue);
    board.with_place(0, Piece::Red);
    board.with_place(0, Piece::Red);
    board.with_place(6, Piece::Red);
    let mut stack = StrategyStack::new(vec![Strategy::Layer(LayerKind::AvoidTraps(
        AvoidTraps::new(Piece::Red),
    ))]);
    let options = stack.evaluate_options(&board);
    // Fail open: the unfiltered candidate set comes back.
    assert_eq!(options, vec![0, 1, 2, 3, 4, 5, 6]);
}

#[test]
fn avoid_inescapable_traps_drops_double_threat_openings() {
    // Blue has a run of two with both ends open on the bottom row. If red
    // ignores it, blue can build an unblockable double threat.
    let mut board = Board::new();
    board.with_place(2, Piece::Blue);
    board.with_place(0, Piece::Red);
    board.with_place(3, Piece::Blue);
    board.with_place(0, Piece::Red);
    let options = board.valid_moves();
    let red = AvoidInescapableTraps::new(Piece::Red);
    let kept = red.prune_from(&board, &options);
    // Only the moves touching the run's surroundings deny blue the
    // unblockable double threat.
    assert_eq!(kept, vec![1, 4, 5]);
}

#[test]
fn stack_decision_short_circuits() {
    let mut board = Board::new();
    board.with_place(0, Piece::Red);
    board.with_place(6, Piece::Blue);
    board.with_place(1, Piece::Red);
    board.with_place(6, Piece::Blue);
    board.with_place(2, Piece::Red);
    board.with_place(5, Piece::Blue);
    let mut stack = StrategyStack::new(vec![
        Strategy::Decision(DeciderKind::TriesToWin(TriesToWin::new(Piece::Red))),
        Strategy::Layer(LayerKind::ThreeInARow(ThreeInARow::new(Piece::Red))),
    ]);
    let options = stack.evaluate_options(&board);
    assert_eq!(options, vec![3]);
    let choice = stack.play(&board);
    assert_eq!(choice, Some(3));
}

#[test]
fn stack_play_returns_a_legal_move() {
    let board = Board::new();
    let mut stack = StrategyStack::new(vec![Strategy::Decision(DeciderKind::Setup(Setup::new(
        Piece::Red,
    )))]);
    let choice = stack.play(&board);
    let col = choice.expect("a fresh board always has a move");
    assert!(col < 7);
}

#[test]
fn strategy_names_are_stable() {
    let red = Piece::Red;
    assert_eq!(
        Strategy::Decision(DeciderKind::TriesToWin(TriesToWin::new(red))).name(),
        "TriesToWin"
    );
    assert_eq!(Strategy::Decision(DeciderKind::Setup(Setup::new(red))).name(), "Setup");
    assert_eq!(
        Strategy::Decision(DeciderKind::SearchForWin(SearchForWin::new(red, 3))).name(),
        "SearchForWin"
    );
    assert_eq!(
        Strategy::Decision(DeciderKind::SearchForWinCache(SearchForWinCache::new(red, 6))).name(),
        "SearchForWinCache"
    );
    assert_eq!(Strategy::Layer(LayerKind::ThreeInARow(ThreeInARow::new(red))).name(), "ThreeInARow");
    assert_eq!(Strategy::Layer(LayerKind::AvoidTraps(AvoidTraps::new(red))).name(), "AvoidTraps");
    assert_eq!(
        Strategy::Layer(LayerKind::AvoidInescapableTraps(AvoidInescapableTraps::new(red))).name(),
        "AvoidInescapableTraps"
    );
}

#[test]
fn cached_stack_repeats_its_decision() {
    // A deterministic stack with a single committed answer: red wins at 3.
    let mut board = Board::new();
    board.with_place(0, Piece::Red);
    board.with_place(6, Piece::Blue);
    board.with_place(1, Piece::Red);
    board.with_place(6, Piece::Blue);
    board.with_place(2, Piece::Red);
    board.with_place(5, Piece::Blue);
    let stack = StrategyStack::new(vec![Strategy::Decision(DeciderKind::TriesToWin(
        TriesToWin::new(Piece::Red),
    ))]);
    let mut cached = StrategyCache::new(stack);

    let first = cached.play(&board);
    assert_eq!(first, Some(3));
    let stats = cached.cache_stats();
    assert_eq!(stats.hits, 0);
    assert_eq!(stats.misses, 1);
    assert_eq!(stats.entries, 1);

    // Querying the identical board answers from the memo table, bit for bit
    // the same candidate set.
    let second = cached.play(&board);
    assert_eq!(second, Some(3));
    let stats = cached.cache_stats();
    assert_eq!(stats.hits, 1);
    assert_eq!(stats.misses, 1);
    assert_eq!(stats.entries, 1);
}

#[test]
fn game_runs_to_a_finished_board() {
    let mut red = Connect4AI::Stack(StrategyStack::new(vec![
        Strategy::Decision(DeciderKind::TriesToWin(TriesToWin::new(Piece::Red))),
        Strategy::Layer(LayerKind::ThreeInARow(ThreeInARow::new(Piece::Red))),
    ]));
    let mut yellow = Connect4AI::Cached(StrategyCache::new(StrategyStack::new(vec![
        Strategy::Decision(DeciderKind::TriesToWin(TriesToWin::new(Piece::Blue))),
        Strategy::Layer(LayerKind::AvoidTraps(AvoidTraps::new(Piece::Blue))),
    ])));
    let finished = game(&mut red, &mut yellow).expect("a game always finishes");
    assert!(finished.is_terminal());
}
