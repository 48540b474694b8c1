use vstd::prelude::*;

use crate::board::{
    balanced, key_spec, lemma_balance_preserved, lemma_empty_counts, lemma_total_pieces_bound,
    lemma_valid_moves, next_player_spec, num_pieces, terminal_spec, valid_moves_spec, Board, Piece,
};
use crate::strategy::{
    eval_spec, is_move, no_winner, same_strategy, stage_fits, DeciderKind, Strategy, StrategyStack,
};
use crate::strategy_cache::StrategyCache;

verus! {

/// The stage plays for `p`: any searching stage is configured for `p`.
pub open spec fn stage_for(s: Strategy, p: Piece) -> bool {
    match s {
        Strategy::Decision(DeciderKind::SearchForWin(t)) => t.piece == p,
        Strategy::Decision(DeciderKind::SearchForWinCache(t)) => t.piece == p,
        _ => true,
    }
}

/// An agent that proposes a move for a board: a plain strategy stack, or a
/// stack wrapped in a memo table.
pub enum Connect4AI {
    Stack(StrategyStack),
    Cached(StrategyCache),
}

impl Connect4AI {
    /// The stages of the agent's stack.
    pub open spec fn strategies(self) -> Seq<Strategy> {
        match self {
            Connect4AI::Stack(s) => s.strategies@,
            Connect4AI::Cached(c) => c.stack.strategies@,
        }
    }

    pub open spec fn wf(self) -> bool {
        match self {
            Connect4AI::Stack(s) => s.wf(),
            Connect4AI::Cached(c) => c.wf(),
        }
    }

    /// Every stage of the agent can run on this board.
    pub open spec fn fits(self, g: Seq<Piece>) -> bool {
        match self {
            Connect4AI::Stack(s) => s.fits(g),
            Connect4AI::Cached(c) => c.stack.fits(g),
        }
    }

    /// Every searching stage of the agent is configured for `p`.
    pub open spec fn plays_for(self, p: Piece) -> bool {
        forall|k: int|
            0 <= k < self.strategies().len() ==> stage_for(#[trigger] self.strategies()[k], p)
    }

    /// Propose a move for the board. Always returns a legal move.
    pub fn play(&mut self, board: &Board) -> (r: Option<usize>)
        requires
            old(self).wf(),
            old(self).fits(board@),
            board.wf(),
            no_winner(board@),
            valid_moves_spec(board@).len() > 0,
        ensures
            final(self).wf(),
            r is Some,
            r matches Some(c) ==> is_move(board@, c as int),
            final(self).strategies().len() == old(self).strategies().len(),
            forall|k: int|
                0 <= k < old(self).strategies().len() ==> same_strategy(
                    #[trigger] old(self).strategies()[k],
                    final(self).strategies()[k],
                ),
            match *old(self) {
                Connect4AI::Stack(s) => s.deterministic() ==> (r matches Some(c) ==> eval_spec(
                    board@,
                    s.strategies@,
                ).contains(c)),
                Connect4AI::Cached(_) => true,
            },
            match (*old(self), *final(self)) {
                (Connect4AI::Stack(_), Connect4AI::Stack(_)) => true,
                (Connect4AI::Cached(a), Connect4AI::Cached(b)) => {
                    &&& b.cache@.contains_key(key_spec(board@) as u64)
                    &&& b.cache@[key_spec(board@) as u64].board@ == board@
                    &&& (r matches Some(c) ==> b.cache@[key_spec(board@) as u64]
                        .options@.contains(c))
                    &&& ((a.cache@.contains_key(key_spec(board@) as u64) && a.cache@[key_spec(
                        board@,
                    ) as u64].board@ == board@) ==> (b.cache@ == a.cache@ && b.stack == a.stack))
                },
                _ => false,
            },
    {
        match self {
            Connect4AI::Stack(s) => s.play(board),
            Connect4AI::Cached(c) => {
                let ghost before = *c;
                let r = c.play(board);
                proof {
                    assert(*old(self) == Connect4AI::Cached(before));
                }
                r
            },
        }
    }
}

/// After one agent's stages run, they still play for the same piece.
proof fn lemma_plays_for_kept(a: Connect4AI, b: Connect4AI, p: Piece)
    requires
        a.plays_for(p),
        b.strategies().len() == a.strategies().len(),
        forall|k: int|
            0 <= k < a.strategies().len() ==> same_strategy(
                #[trigger] a.strategies()[k],
                b.strategies()[k],
            ),
    ensures
        b.plays_for(p),
{
    assert forall|k: int| 0 <= k < b.strategies().len() implies stage_for(
        #[trigger] b.strategies()[k],
        p,
    ) by {
        assert(same_strategy(a.strategies()[k], b.strategies()[k]));
        assert(stage_for(a.strategies()[k], p));
    }
}

/// An agent whose searching stages play for the player to move can run all
/// its stages on the board.
proof fn lemma_agent_fits(a: Connect4AI, g: Seq<Piece>, p: Piece)
    requires
        a.plays_for(p),
        balanced(g),
        next_player_spec(g) == p,
    ensures
        a.fits(g),
{
    match a {
        Connect4AI::Stack(s) => {
            assert(a.strategies() == s.strategies@);
            assert forall|k: int| 0 <= k < s.strategies@.len() implies stage_fits(
                #[trigger] s.strategies@[k],
                g,
            ) by {
                assert(stage_for(a.strategies()[k], p));
            }
        },
        Connect4AI::Cached(c) => {
            assert(a.strategies() == c.stack.strategies@);
            assert forall|k: int| 0 <= k < c.stack.strategies@.len() implies stage_fits(
                #[trigger] c.stack.strategies@[k],
                g,
            ) by {
                assert(stage_for(a.strategies()[k], p));
            }
        },
    }
}

/// Play one full game between a red agent and a blue agent from the empty
/// board. Red moves first and the players alternate until someone has four
/// in a row or the board is full. The finished board is reachable: it was
/// built up from the empty board by legal moves of alternating play. Which
/// moves were played is pinned by the agents' own contracts, since the
/// tie-break between equally good moves is drawn at random.
pub fn game(red: &mut Connect4AI, yellow: &mut Connect4AI) -> (r: Option<Board>)
    requires
        old(red).wf(),
        old(yellow).wf(),
        old(red).plays_for(Piece::Red),
        old(yellow).plays_for(Piece::Blue),
    ensures
        final(red).wf(),
        final(yellow).wf(),
        r is Some,
        r matches Some(b) ==> b.wf() && terminal_spec(b@) && balanced(b@)
            && crate::board::reachable(b@),
{
    let mut board = Board::new();
    proof {
        lemma_empty_counts();
        assert(num_pieces(board@) == 0);
        assert(crate::board::reachable_in(board@, 0));
    }
    loop
        invariant_except_break
            red.wf(),
            yellow.wf(),
            red.plays_for(Piece::Red),
            yellow.plays_for(Piece::Blue),
            board.wf(),
            balanced(board@),
            next_player_spec(board@) == Piece::Red,
            crate::board::reachable(board@),
        ensures
            red.wf(),
            yellow.wf(),
            board.wf(),
            balanced(board@),
            crate::board::reachable(board@),
            terminal_spec(board@),
        decreases 42 - num_pieces(board@),
    {
        proof {
            lemma_total_pieces_bound(board@);
        }
        if board.is_terminal() {
            break ;
        }
        proof {
            lemma_agent_fits(*red, board@, Piece::Red);
            lemma_valid_moves(board@);
            if valid_moves_spec(board@).len() == 0 {
                assert forall|c: int| 0 <= c < 7 implies crate::board::col_height(board@, c)
                    == 6 by {
                    crate::board::lemma_height(board@, c);
                    if crate::board::col_height(board@, c) < 6 {
                        assert(valid_moves_spec(board@).contains(c as usize));
                    }
                }
                assert(false);
            }
        }
        let ghost red_before = *red;
        let ghost before_red_move = board@;
        let red_move = red.play(&board);
        proof {
            lemma_plays_for_kept(red_before, *red, Piece::Red);
            lemma_balance_preserved(board@, red_move.unwrap() as int);
            crate::board::lemma_place_counts(board@, red_move.unwrap() as int, Piece::Red);
        }
        match red_move {
            Some(col) => board.with_place(col, Piece::Red),
            None => vstd::pervasive::unreached(),
        }
        proof {
            assert(board@ == crate::board::place_spec(
                before_red_move,
                red_move.unwrap() as int,
                next_player_spec(before_red_move),
            ));
            assert(crate::board::reachable_in(board@, num_pieces(board@)));
        }
        proof {
            lemma_total_pieces_bound(board@);
        }
        if board.is_terminal() {
            break ;
        }
        proof {
            lemma_agent_fits(*yellow, board@, Piece::Blue);
            lemma_valid_moves(board@);
            if valid_moves_spec(board@).len() == 0 {
                assert forall|c: int| 0 <= c < 7 implies crate::board::col_height(board@, c)
                    == 6 by {
                    crate::board::lemma_height(board@, c);
                    if crate::board::col_height(board@, c) < 6 {
                        assert(valid_moves_spec(board@).contains(c as usize));
                    }
                }
                assert(false);
            }
        }
        let ghost yellow_before = *yellow;
        let ghost before_yellow_move = board@;
        let yellow_move = yellow.play(&board);
        proof {
            lemma_plays_for_kept(yellow_before, *yellow, Piece::Blue);
            lemma_balance_preserved(board@, yellow_move.unwrap() as int);
            crate::board::lemma_place_counts(board@, yellow_move.unwrap() as int, Piece::Blue);
        }
        match yellow_move {
            Some(col) => board.with_place(col, Piece::Blue),
            None => vstd::pervasive::unreached(),
        }
        proof {
            assert(board@ == crate::board::place_spec(
                before_yellow_move,
                yellow_move.unwrap() as int,
                next_player_spec(before_yellow_move),
            ));
            assert(crate::board::reachable_in(board@, num_pieces(board@)));
        }
    }
    Some(board)
}

} // verus!
