use vstd::prelude::*;

use crate::board::{
    ascending, balanced, col_height, has_four, lemma_balance_preserved, lemma_place_no_new_four,
    lemma_valid_moves, next_player_spec, num_pieces, opportunity_count, place_spec,
    valid_moves_spec, winning_moves_spec, Board, Piece,
};
use crate::search_for_win::SearchForWinCache;

verus! {

/// Every listed option is an open column of the board.
pub open spec fn options_ok(g: Seq<Piece>, opts: Seq<usize>) -> bool {
    forall|i: int|
        0 <= i < opts.len() ==> (#[trigger] opts[i] < 7 && col_height(g, opts[i] as int) < 6)
}

/// Neither player has four in a row yet.
pub open spec fn no_winner(g: Seq<Piece>) -> bool {
    !has_four(g, Piece::Red) && !has_four(g, Piece::Blue)
}

/// Column `m` is a legal move on `g`.
pub open spec fn is_move(g: Seq<Piece>, m: int) -> bool {
    0 <= m < 7 && col_height(g, m) < 6
}

/// What `TriesToWin` picks, scanning the options from index `i`: the first
/// option that wins outright for `p`, or that the opponent would win with
/// and so must be occupied first.
pub open spec fn tries_to_win_from(g: Seq<Piece>, p: Piece, opts: Seq<usize>, i: int) -> Option<
    usize,
>
    decreases opts.len() - i,
{
    if i < 0 || i >= opts.len() {
        None
    } else {
        let c = opts[i] as int;
        if has_four(place_spec(g, c, p), p) {
            Some(opts[i])
        } else if has_four(place_spec(g, c, p.flip()), p.flip()) {
            Some(opts[i])
        } else {
            tries_to_win_from(g, p, opts, i + 1)
        }
    }
}

/// What `TriesToWin` picks from the whole option list.
pub open spec fn tries_to_win_spec(g: Seq<Piece>, p: Piece, opts: Seq<usize>) -> Option<usize> {
    tries_to_win_from(g, p, opts, 0)
}

/// A decider that takes an immediate win, or occupies the square the
/// opponent would win with.
pub struct TriesToWin {
    pub piece: Piece,
}

impl TriesToWin {
    pub fn new(piece: Piece) -> (s: Self)
        requires
            piece != Piece::Empty,
        ensures
            s.piece == piece,
    {
        TriesToWin { piece }
    }

    /// The first option that wins outright for this player, or that denies
    /// the opponent an immediate win; `None` when there is neither.
    pub fn decide(&self, board: &Board, options: &Vec<usize>) -> (r: Option<usize>)
        requires
            board.wf(),
            self.piece != Piece::Empty,
            options_ok(board@, options@),
        ensures
            r == tries_to_win_spec(board@, self.piece, options@),
            r matches Some(c) ==> options@.contains(c),
    {
        let p = self.piece;
        let opp = p.opponent();
        let mut i: usize = 0;
        while i < options.len()
            invariant
                board.wf(),
                p == self.piece,
                p != Piece::Empty,
                opp == p.flip(),
                options_ok(board@, options@),
                i <= options@.len(),
                tries_to_win_spec(board@, p, options@) == tries_to_win_from(
                    board@,
                    p,
                    options@,
                    i as int,
                ),
            decreases options@.len() - i,
        {
            let col = options[i];
            let win_board = board.place(col, p);
            if win_board.has_line(p) {
                proof {
                    assert(options@[i as int] == col);
                }
                return Some(col);
            }
            let lose_board = board.place(col, opp);
            if lose_board.has_line(opp) {
                proof {
                    assert(options@[i as int] == col);
                }
                return Some(col);
            }
            i += 1;
        }
        None
    }
}

/// What `Setup` picks, scanning the options from index `i`: the first
/// option that wins outright, or that leaves this player an immediate
/// winning follow-up.
pub open spec fn setup_from(g: Seq<Piece>, p: Piece, opts: Seq<usize>, i: int) -> Option<usize>
    decreases opts.len() - i,
{
    if i < 0 || i >= opts.len() {
        None
    } else {
        let c = opts[i] as int;
        if has_four(place_spec(g, c, p), p) {
            Some(opts[i])
        } else if winning_moves_spec(place_spec(g, c, p), p).len() > 0 {
            Some(opts[i])
        } else {
            setup_from(g, p, opts, i + 1)
        }
    }
}

/// What `Setup` picks from the whole option list.
pub open spec fn setup_spec(g: Seq<Piece>, p: Piece, opts: Seq<usize>) -> Option<usize> {
    setup_from(g, p, opts, 0)
}

/// A decider that plays a move which wins now, or sets up an immediate
/// winning threat for the next turn.
pub struct Setup {
    pub piece: Piece,
}

impl Setup {
    pub fn new(piece: Piece) -> (s: Self)
        requires
            piece != Piece::Empty,
        ensures
            s.piece == piece,
    {
        Setup { piece }
    }

    /// The first option that wins outright or creates a winning follow-up;
    /// `None` when there is neither.
    pub fn decide(&self, board: &Board, options: &Vec<usize>) -> (r: Option<usize>)
        requires
            board.wf(),
            self.piece != Piece::Empty,
            no_winner(board@),
            options_ok(board@, options@),
        ensures
            r == setup_spec(board@, self.piece, options@),
            r matches Some(c) ==> options@.contains(c),
    {
        let p = self.piece;
        let mut i: usize = 0;
        while i < options.len()
            invariant
                board.wf(),
                p == self.piece,
                p != Piece::Empty,
                no_winner(board@),
                options_ok(board@, options@),
                i <= options@.len(),
                setup_spec(board@, p, options@) == setup_from(board@, p, options@, i as int),
            decreases options@.len() - i,
        {
            let col = options[i];
            let test_board = board.place(col, p);
            if test_board.has_line(p) {
                proof {
                    assert(options@[i as int] == col);
                }
                return Some(col);
            }
            proof {
                lemma_place_no_new_four(board@, col as int, p, p.flip());
                if p == Piece::Red {
                    assert(!has_four(test_board@, Piece::Blue));
                } else {
                    assert(!has_four(test_board@, Piece::Red));
                }
            }
            let followups = test_board.winning_moves(p);
            if followups.len() > 0 {
                proof {
                    assert(options@[i as int] == col);
                }
                return Some(col);
            }
            i += 1;
        }
        None
    }
}

/// Whether `AvoidTraps` keeps option `c`: the move wins outright, or it
/// leaves the opponent no immediate winning reply.
pub open spec fn avoid_traps_keeps(g: Seq<Piece>, p: Piece, c: int) -> bool {
    ||| has_four(place_spec(g, c, p), p)
    ||| winning_moves_spec(place_spec(g, c, p), p.flip()).len() == 0
}

/// The options among the first `i` that `AvoidTraps` keeps, in order.
pub open spec fn avoid_traps_upto(g: Seq<Piece>, p: Piece, opts: Seq<usize>, i: int) -> Seq<usize>
    decreases i,
{
    if i <= 0 {
        Seq::empty()
    } else {
        avoid_traps_upto(g, p, opts, i - 1) + (if avoid_traps_keeps(g, p, opts[i - 1] as int) {
            seq![opts[i - 1]]
        } else {
            Seq::empty()
        })
    }
}

/// What `AvoidTraps` keeps from the whole option list.
pub open spec fn avoid_traps_spec(g: Seq<Piece>, p: Piece, opts: Seq<usize>) -> Seq<usize> {
    avoid_traps_upto(g, p, opts, opts.len() as int)
}

/// A layer that removes moves which hand the opponent an immediate winning
/// reply; an immediate own win is always kept.
pub struct AvoidTraps {
    pub piece: Piece,
}

impl AvoidTraps {
    pub fn new(piece: Piece) -> (s: Self)
        requires
            piece != Piece::Empty,
        ensures
            s.piece == piece,
    {
        AvoidTraps { piece }
    }

    /// The options that do not lose on the spot, in their original order.
    /// The result may be empty; the strategy stack then falls back to the
    /// unfiltered options.
    pub fn prune_from(&self, board: &Board, options: &Vec<usize>) -> (kept: Vec<usize>)
        requires
            board.wf(),
            self.piece != Piece::Empty,
            no_winner(board@),
            options_ok(board@, options@),
        ensures
            kept@ == avoid_traps_spec(board@, self.piece, options@),
            options_ok(board@, kept@),
            ascending(options@) ==> ascending(kept@),
    {
        let p = self.piece;
        let opp = p.opponent();
        let mut kept: Vec<usize> = Vec::new();
        let mut i: usize = 0;
        while i < options.len()
            invariant
                board.wf(),
                p == self.piece,
                p != Piece::Empty,
                opp == p.flip(),
                no_winner(board@),
                options_ok(board@, options@),
                i <= options@.len(),
                kept@ == avoid_traps_upto(board@, p, options@, i as int),
                options_ok(board@, kept@),
                ascending(options@) ==> (ascending(kept@) && (kept@.len() > 0 && i > 0
                    ==> kept@.last() <= options@[i - 1])),
            decreases options@.len() - i,
        {
            let col = options[i];
            let test_board = board.place(col, p);
            if test_board.has_line(p) {
                kept.push(col);
            } else {
                proof {
                    lemma_place_no_new_four(board@, col as int, p, p.flip());
                    if p == Piece::Red {
                        assert(!has_four(test_board@, Piece::Blue));
                    } else {
                        assert(!has_four(test_board@, Piece::Red));
                    }
                }
                let replies = test_board.winning_moves(opp);
                if replies.len() == 0 {
                    kept.push(col);
                }
            }
            proof {
                assert(kept@ =~= avoid_traps_upto(board@, p, options@, i as int + 1));
            }
            i += 1;
        }
        kept
    }
}

/// What `ThreeInARow` returns, scanning the options from index `i` with the
/// best score seen so far and the options that achieved it: the first
/// outright win short-circuits, otherwise the options with the most winning
/// opportunities after the move are kept, ties preserved in order.
pub open spec fn three_in_a_row_from(
    g: Seq<Piece>,
    p: Piece,
    opts: Seq<usize>,
    i: int,
    best: nat,
    moves: Seq<usize>,
) -> Seq<usize>
    decreases opts.len() - i,
{
    if i < 0 || i >= opts.len() {
        moves
    } else {
        let c = opts[i] as int;
        let tb = place_spec(g, c, p);
        if has_four(tb, p) {
            seq![opts[i]]
        } else {
            let score = opportunity_count(tb, p);
            if score > best {
                three_in_a_row_from(g, p, opts, i + 1, score, seq![opts[i]])
            } else if score == best {
                three_in_a_row_from(g, p, opts, i + 1, best, moves.push(opts[i]))
            } else {
                three_in_a_row_from(g, p, opts, i + 1, best, moves)
            }
        }
    }
}

/// What `ThreeInARow` keeps from the whole option list.
pub open spec fn three_in_a_row_spec(g: Seq<Piece>, p: Piece, opts: Seq<usize>) -> Seq<usize> {
    three_in_a_row_from(g, p, opts, 0, 0, Seq::empty())
}

proof fn lemma_three_in_a_row_nonempty(
    g: Seq<Piece>,
    p: Piece,
    opts: Seq<usize>,
    i: int,
    best: nat,
    moves: Seq<usize>,
)
    requires
        0 <= i <= opts.len(),
        moves.len() > 0 || i < opts.len(),
        moves.len() > 0 || best == 0,
    ensures
        three_in_a_row_from(g, p, opts, i, best, moves).len() > 0,
    decreases opts.len() - i,
{
    if i < opts.len() {
        let c = opts[i] as int;
        let tb = place_spec(g, c, p);
        if !has_four(tb, p) {
            let score = opportunity_count(tb, p);
            if score > best {
                lemma_three_in_a_row_nonempty(g, p, opts, i + 1, score, seq![opts[i]]);
            } else if score == best {
                lemma_three_in_a_row_nonempty(g, p, opts, i + 1, best, moves.push(opts[i]));
            } else {
                lemma_three_in_a_row_nonempty(g, p, opts, i + 1, best, moves);
            }
        }
    }
}

/// A layer that keeps the options which maximize the number of winning
/// opportunities after the move, short-circuiting on an immediate win.
pub struct ThreeInARow {
    pub piece: Piece,
}

impl ThreeInARow {
    pub fn new(piece: Piece) -> (s: Self)
        requires
            piece != Piece::Empty,
        ensures
            s.piece == piece,
    {
        ThreeInARow { piece }
    }

    /// The options scoring the most winning opportunities, ties preserved;
    /// a single immediate win when one exists. Never empty.
    pub fn prune_from(&self, board: &Board, options: &Vec<usize>) -> (kept: Vec<usize>)
        requires
            board.wf(),
            self.piece != Piece::Empty,
            no_winner(board@),
            options_ok(board@, options@),
            options@.len() > 0,
        ensures
            kept@ == three_in_a_row_spec(board@, self.piece, options@),
            kept@.len() > 0,
            options_ok(board@, kept@),
            ascending(options@) ==> ascending(kept@),
    {
        let p = self.piece;
        let mut best: usize = 0;
        let mut best_moves: Vec<usize> = Vec::new();
        let mut i: usize = 0;
        while i < options.len()
            invariant
                board.wf(),
                p == self.piece,
                p != Piece::Empty,
                no_winner(board@),
                options_ok(board@, options@),
                i <= options@.len(),
                three_in_a_row_spec(board@, p, options@) == three_in_a_row_from(
                    board@,
                    p,
                    options@,
                    i as int,
                    best as nat,
                    best_moves@,
                ),
                i > 0 ==> best_moves@.len() > 0,
                i == 0 ==> best == 0 && best_moves@.len() == 0,
                options_ok(board@, best_moves@),
                ascending(options@) ==> (ascending(best_moves@) && (best_moves@.len() > 0 && i > 0
                    ==> best_moves@.last() <= options@[i - 1])),
            decreases options@.len() - i,
        {
            let col = options[i];
            let test_board = board.place(col, p);
            if test_board.has_line(p) {
                let mut kept: Vec<usize> = Vec::new();
                kept.push(col);
                proof {
                    assert(options@[i as int] == col);
                    assert(kept@ =~= seq![col]);
                }
                return kept;
            }
            proof {
                lemma_place_no_new_four(board@, col as int, p, p.flip());
                if p == Piece::Red {
                    assert(!has_four(test_board@, Piece::Blue));
                } else {
                    assert(!has_four(test_board@, Piece::Red));
                }
            }
            let score = test_board.count_winning_opportunities(p);
            if score > best {
                best = score;
                let mut fresh: Vec<usize> = Vec::new();
                fresh.push(col);
                best_moves = fresh;
                proof {
                    assert(best_moves@ =~= seq![col]);
                }
            } else if score == best {
                best_moves.push(col);
            }
            i += 1;
        }
        proof {
            if best_moves@.len() == 0 {
                lemma_three_in_a_row_nonempty(board@, p, options@, 0, 0, Seq::empty());
                assert(false);
            }
        }
        best_moves
    }
}

/// Whether `AvoidInescapableTraps` keeps option `c`: the move wins
/// outright, or no opponent reply wins at once or sets up more than one
/// simultaneous winning threat.
pub open spec fn inescapable_keeps(g: Seq<Piece>, p: Piece, c: int) -> bool {
    let tb = place_spec(g, c, p);
    ||| has_four(tb, p)
    ||| forall|m: int|
        is_move(tb, m) ==> {
            let nb = #[trigger] place_spec(tb, m, p.flip());
            !has_four(nb, p.flip()) && winning_moves_spec(nb, p.flip()).len() <= 1
        }
}

/// The options among the first `i` that `AvoidInescapableTraps` keeps.
pub open spec fn inescapable_upto(g: Seq<Piece>, p: Piece, opts: Seq<usize>, i: int) -> Seq<usize>
    decreases i,
{
    if i <= 0 {
        Seq::empty()
    } else {
        inescapable_upto(g, p, opts, i - 1) + (if inescapable_keeps(g, p, opts[i - 1] as int) {
            seq![opts[i - 1]]
        } else {
            Seq::empty()
        })
    }
}

/// What `AvoidInescapableTraps` keeps from the whole option list.
pub open spec fn inescapable_spec(g: Seq<Piece>, p: Piece, opts: Seq<usize>) -> Seq<usize> {
    inescapable_upto(g, p, opts, opts.len() as int)
}

/// A layer that removes moves after which the opponent can win at once or
/// build an unblockable double threat; an immediate own win is always kept.
pub struct AvoidInescapableTraps {
    pub piece: Piece,
}

impl AvoidInescapableTraps {
    pub fn new(piece: Piece) -> (s: Self)
        requires
            piece != Piece::Empty,
        ensures
            s.piece == piece,
    {
        AvoidInescapableTraps { piece }
    }

    /// The options that leave the opponent neither an immediate win nor a
    /// double threat, in their original order. The result may be empty; the
    /// strategy stack then falls back to the unfiltered options.
    pub fn prune_from(&self, board: &Board, options: &Vec<usize>) -> (kept: Vec<usize>)
        requires
            board.wf(),
            self.piece != Piece::Empty,
            no_winner(board@),
            options_ok(board@, options@),
        ensures
            kept@ == inescapable_spec(board@, self.piece, options@),
            options_ok(board@, kept@),
            ascending(options@) ==> ascending(kept@),
    {
        let p = self.piece;
        let opp = p.opponent();
        let mut kept: Vec<usize> = Vec::new();
        let mut i: usize = 0;
        while i < options.len()
            invariant
                board.wf(),
                p == self.piece,
                p != Piece::Empty,
                opp == p.flip(),
                no_winner(board@),
                options_ok(board@, options@),
                i <= options@.len(),
                kept@ == inescapable_upto(board@, p, options@, i as int),
                options_ok(board@, kept@),
                ascending(options@) ==> (ascending(kept@) && (kept@.len() > 0 && i > 0
                    ==> kept@.last() <= options@[i - 1])),
            decreases options@.len() - i,
        {
            let col = options[i];
            let test_board = board.place(col, p);
            if test_board.has_line(p) {
                kept.push(col);
            } else {
                proof {
                    lemma_place_no_new_four(board@, col as int, p, p.flip());
                    if p == Piece::Red {
                        assert(!has_four(test_board@, Piece::Blue));
                    } else {
                        assert(!has_four(test_board@, Piece::Red));
                    }
                    lemma_valid_moves(test_board@);
                }
                let replies = test_board.valid_moves();
                let mut j: usize = 0;
                let mut trapped = false;
                while j < replies.len() && !trapped
                    invariant
                        board.wf(),
                        test_board.wf(),
                        test_board@ == place_spec(board@, col as int, p),
                        p != Piece::Empty,
                        opp == p.flip(),
                        !has_four(test_board@, p),
                        !has_four(test_board@, opp),
                        replies@ == valid_moves_spec(test_board@),
                        forall|k: int| 0 <= k < replies@.len() ==> (#[trigger] replies@[k] < 7
                            && col_height(test_board@, replies@[k] as int) < 6),
                        j <= replies@.len(),
                        !trapped ==> forall|k: int|
                            0 <= k < j ==> {
                                let nb = #[trigger] place_spec(
                                    test_board@,
                                    replies@[k] as int,
                                    opp,
                                );
                                !has_four(nb, opp) && winning_moves_spec(nb, opp).len() <= 1
                            },
                        trapped ==> exists|m: int|
                            is_move(test_board@, m) && {
                                let nb = #[trigger] place_spec(test_board@, m, opp);
                                has_four(nb, opp) || winning_moves_spec(nb, opp).len() > 1
                            },
                    decreases replies@.len() - j,
                {
                    let next_board = test_board.place(replies[j], opp);
                    if next_board.has_line(opp) {
                        trapped = true;
                        proof {
                            assert(is_move(test_board@, replies@[j as int] as int));
                        }
                    } else {
                        proof {
                            lemma_place_no_new_four(
                                test_board@,
                                replies@[j as int] as int,
                                opp,
                                p,
                            );
                            if p == Piece::Red {
                                assert(!has_four(next_board@, Piece::Red));
                            } else {
                                assert(!has_four(next_board@, Piece::Blue));
                            }
                        }
                        let threats = next_board.winning_moves(opp);
                        if threats.len() > 1 {
                            trapped = true;
                            proof {
                                assert(is_move(test_board@, replies@[j as int] as int));
                            }
                        }
                    }
                    j += 1;
                }
                if !trapped {
                    proof {
                        assert forall|m: int| is_move(test_board@, m) implies {
                            let nb = #[trigger] place_spec(test_board@, m, opp);
                            !has_four(nb, opp) && winning_moves_spec(nb, opp).len() <= 1
                        } by {
                            assert(replies@.contains(m as usize));
                            let k = replies@.index_of(m as usize);
                            assert(replies@[k] == m as usize);
                        }
                        assert(inescapable_keeps(board@, p, col as int));
                    }
                    kept.push(col);
                } else {
                    proof {
                        assert(!inescapable_keeps(board@, p, col as int));
                    }
                }
            }
            proof {
                assert(kept@ =~= inescapable_upto(board@, p, options@, i as int + 1));
            }
            i += 1;
        }
        kept
    }
}

/// Player `p` can force a win within `n` of their own moves from `g`,
/// where it is the opponent's turn: either `p` has already won, or every
/// opponent reply leaves the opponent short of four and some response of
/// `p` forces a win one move sooner.
pub open spec fn forces_win(g: Seq<Piece>, p: Piece, n: nat) -> bool
    decreases n, 1int,
{
    if has_four(g, p) {
        true
    } else if n == 0 {
        false
    } else {
        forall|m: int| #[trigger] is_move(g, m) ==> survives_reply(g, p, m, n)
    }
}

/// After the opponent replies in column `m`, the opponent has not won and
/// `p` has a response that forces a win within `n - 1` further moves.
pub open spec fn survives_reply(g: Seq<Piece>, p: Piece, m: int, n: nat) -> bool
    decreases n, 0int,
{
    if n == 0 {
        false
    } else {
        let g1 = place_spec(g, m, p.flip());
        !has_four(g1, p.flip()) && exists|m2: int|
            #[trigger] is_move(g1, m2) && forces_win(place_spec(g1, m2, p), p, (n - 1) as nat)
    }
}

/// Forcing a win within `n1` moves also forces one within any larger
/// horizon.
pub proof fn lemma_forces_win_mono(g: Seq<Piece>, p: Piece, n1: nat, n2: nat)
    requires
        n1 <= n2,
        forces_win(g, p, n1),
    ensures
        forces_win(g, p, n2),
    decreases n1,
{
    if !has_four(g, p) {
        assert(n1 > 0);
        assert forall|m: int| #[trigger] is_move(g, m) implies survives_reply(g, p, m, n2) by {
            assert(survives_reply(g, p, m, n1));
            let g1 = place_spec(g, m, p.flip());
            let m2 = choose|m2: int|
                #[trigger] is_move(g1, m2) && forces_win(place_spec(g1, m2, p), p, (n1 - 1) as nat);
            lemma_forces_win_mono(place_spec(g1, m2, p), p, (n1 - 1) as nat, (n2 - 1) as nat);
        }
    }
}

/// Once some opponent reply refutes the position, no horizon forces a win:
/// either that reply wins for the opponent at once, or every response of
/// `p` is refuted at every horizon.
pub proof fn lemma_refuted(g: Seq<Piece>, p: Piece, m: int)
    requires
        !has_four(g, p),
        is_move(g, m),
        has_four(place_spec(g, m, p.flip()), p.flip()) || forall|m2: int, k: nat|
            is_move(place_spec(g, m, p.flip()), m2) ==> !#[trigger] forces_win(
                place_spec(place_spec(g, m, p.flip()), m2, p),
                p,
                k,
            ),
    ensures
        forall|n: nat| !forces_win(g, p, n),
{
    assert forall|n: nat| !forces_win(g, p, n) by {
        if forces_win(g, p, n) {
            assert(n > 0);
            assert(survives_reply(g, p, m, n));
            let g1 = place_spec(g, m, p.flip());
            let m2 = choose|m2: int|
                #[trigger] is_move(g1, m2) && forces_win(place_spec(g1, m2, p), p, (n - 1) as nat);
            assert(!forces_win(place_spec(g1, m2, p), p, (n - 1) as nat));
            assert(false);
        }
    }
}

/// The floor of pieces on the board below which `SearchForWin` declines to
/// search.
pub const MIN_PIECES_PLAYED: usize = 20;

/// What `SearchForWin` picks, scanning the options from index `i`: the
/// first option whose move forces a win within `d` further moves.
pub open spec fn search_from(g: Seq<Piece>, p: Piece, d: nat, opts: Seq<usize>, i: int) -> Option<
    usize,
>
    decreases opts.len() - i,
{
    if i < 0 || i >= opts.len() {
        None
    } else if forces_win(place_spec(g, opts[i] as int, p), p, d) {
        Some(opts[i])
    } else {
        search_from(g, p, d, opts, i + 1)
    }
}

/// What `SearchForWin` picks from the whole option list: nothing until
/// enough pieces are on the board, then the first forcing option.
pub open spec fn search_choice_spec(g: Seq<Piece>, p: Piece, d: nat, opts: Seq<usize>) -> Option<
    usize,
> {
    if num_pieces(g) < MIN_PIECES_PLAYED {
        None
    } else {
        search_from(g, p, d, opts, 0)
    }
}

/// A decider that plays a move proven to force a win within a fixed search
/// depth, once enough pieces are on the board.
pub struct SearchForWin {
    pub piece: Piece,
    pub depth: usize,
}

impl SearchForWin {
    pub fn new(piece: Piece, depth: usize) -> (s: Self)
        requires
            piece != Piece::Empty,
        ensures
            s.piece == piece,
            s.depth == depth,
    {
        SearchForWin { piece, depth }
    }

    /// Whether this player forces a win within `depth` of their own moves
    /// from `board`, where it is the opponent's turn. The result equals the
    /// forced-win predicate at exactly this horizon; with
    /// `lemma_forces_win_mono`, a win forceable within any smaller horizon
    /// is therefore always reported.
    fn has_guaranteed_win(&self, board: &Board, depth: usize) -> (r: bool)
        requires
            board.wf(),
            balanced(board@),
            self.piece != Piece::Empty,
            next_player_spec(board@) == self.piece.flip(),
        ensures
            r == forces_win(board@, self.piece, depth as nat),
        decreases depth,
    {
        let p = self.piece;
        if board.has_line(p) {
            return true;
        }
        if depth == 0 {
            return false;
        }
        let opp = p.opponent();
        proof {
            lemma_valid_moves(board@);
        }
        let enemy_boards = board.all_future_boards(opp);
        let ghost vm = valid_moves_spec(board@);
        let mut i: usize = 0;
        while i < enemy_boards.len()
            invariant
                board.wf(),
                balanced(board@),
                p == self.piece,
                p != Piece::Empty,
                opp == p.flip(),
                next_player_spec(board@) == opp,
                !has_four(board@, p),
                depth >= 1,
                vm == valid_moves_spec(board@),
                forall|k: int| 0 <= k < vm.len() ==> (#[trigger] vm[k] < 7 && col_height(
                    board@,
                    vm[k] as int,
                ) < 6),
                forall|m: usize| m < 7 && col_height(board@, m as int) < 6 ==> vm.contains(m),
                enemy_boards@.len() == vm.len(),
                forall|k: int|
                    0 <= k < vm.len() ==> (#[trigger] enemy_boards@[k]).wf()
                        && enemy_boards@[k]@ == place_spec(board@, vm[k] as int, opp),
                i <= vm.len(),
                forall|k: int| 0 <= k < i ==> #[trigger] survives_reply(
                    board@,
                    p,
                    vm[k] as int,
                    depth as nat,
                ),
            decreases vm.len() - i,
        {
            let eb = &enemy_boards[i];
            proof {
                lemma_balance_preserved(board@, vm[i as int] as int);
            }
            if eb.has_line(opp) {
                proof {
                    assert(!survives_reply(board@, p, vm[i as int] as int, depth as nat));
                    if forces_win(board@, p, depth as nat) {
                        assert(is_move(board@, vm[i as int] as int));
                        assert(false);
                    }
                }
                return false;
            }
            proof {
                lemma_valid_moves(eb@);
            }
            let responses = eb.all_future_boards(p);
            let ghost vm2 = valid_moves_spec(eb@);
            let mut j: usize = 0;
            let mut found = false;
            while j < responses.len() && !found
                invariant
                    board.wf(),
                    eb.wf(),
                    balanced(eb@),
                    p == self.piece,
                    p != Piece::Empty,
                    opp == p.flip(),
                    next_player_spec(eb@) == p,
                    eb@ == place_spec(board@, vm[i as int] as int, opp),
                    depth >= 1,
                    vm2 == valid_moves_spec(eb@),
                    forall|k: int| 0 <= k < vm2.len() ==> (#[trigger] vm2[k] < 7 && col_height(
                        eb@,
                        vm2[k] as int,
                    ) < 6),
                    forall|m: usize| m < 7 && col_height(eb@, m as int) < 6 ==> vm2.contains(m),
                    responses@.len() == vm2.len(),
                    forall|k: int|
                        0 <= k < vm2.len() ==> (#[trigger] responses@[k]).wf()
                            && responses@[k]@ == place_spec(eb@, vm2[k] as int, p),
                    j <= vm2.len(),
                    !found ==> forall|k: int|
                        0 <= k < j ==> !forces_win(
                            #[trigger] place_spec(eb@, vm2[k] as int, p),
                            p,
                            (depth - 1) as nat,
                        ),
                    found ==> exists|m2: int|
                        #[trigger] is_move(eb@, m2) && forces_win(
                            place_spec(eb@, m2, p),
                            p,
                            (depth - 1) as nat,
                        ),
                decreases vm2.len() - j,
            {
                let rb = &responses[j];
                proof {
                    lemma_balance_preserved(eb@, vm2[j as int] as int);
                }
                if self.has_guaranteed_win(rb, depth - 1) {
                    found = true;
                    proof {
                        assert(is_move(eb@, vm2[j as int] as int));
                    }
                }
                j += 1;
            }
            if !found {
                proof {
                    assert forall|m2: int| #[trigger] is_move(eb@, m2) implies !forces_win(
                        place_spec(eb@, m2, p),
                        p,
                        (depth - 1) as nat,
                    ) by {
                        assert(vm2.contains(m2 as usize));
                        let k2 = vm2.index_of(m2 as usize);
                        assert(vm2[k2] == m2 as usize);
                    }
                    if survives_reply(board@, p, vm[i as int] as int, depth as nat) {
                        let m2 = choose|m2: int|
                            #[trigger] is_move(eb@, m2) && forces_win(
                                place_spec(eb@, m2, p),
                                p,
                                (depth - 1) as nat,
                            );
                        assert(false);
                    }
                    if forces_win(board@, p, depth as nat) {
                        assert(is_move(board@, vm[i as int] as int));
                        assert(false);
                    }
                }
                return false;
            }
            proof {
                assert(survives_reply(board@, p, vm[i as int] as int, depth as nat));
            }
            i += 1;
        }
        proof {
            assert forall|m: int| #[trigger] is_move(board@, m) implies survives_reply(
                board@,
                p,
                m,
                depth as nat,
            ) by {
                assert(vm.contains(m as usize));
                let k = vm.index_of(m as usize);
                assert(vm[k] == m as usize);
            }
            assert(forces_win(board@, p, depth as nat));
        }
        true
    }

    /// The first option that forces a win within this strategy's depth, or
    /// `None` when the board is still young or no option forces a win.
    pub fn decide(&self, board: &Board, options: &Vec<usize>) -> (r: Option<usize>)
        requires
            board.wf(),
            balanced(board@),
            self.piece != Piece::Empty,
            next_player_spec(board@) == self.piece,
            options_ok(board@, options@),
        ensures
            r == search_choice_spec(board@, self.piece, self.depth as nat, options@),
            r matches Some(c) ==> options@.contains(c),
    {
        let p = self.piece;
        if board.num_pieces_played() < MIN_PIECES_PLAYED {
            return None;
        }
        let mut i: usize = 0;
        while i < options.len()
            invariant
                board.wf(),
                balanced(board@),
                p == self.piece,
                p != Piece::Empty,
                next_player_spec(board@) == p,
                options_ok(board@, options@),
                num_pieces(board@) >= MIN_PIECES_PLAYED,
                i <= options@.len(),
                search_choice_spec(board@, p, self.depth as nat, options@) == search_from(
                    board@,
                    p,
                    self.depth as nat,
                    options@,
                    i as int,
                ),
            decreases options@.len() - i,
        {
            let col = options[i];
            proof {
                lemma_balance_preserved(board@, col as int);
            }
            let next_board = board.place(col, p);
            if self.has_guaranteed_win(&next_board, self.depth) {
                proof {
                    assert(options@[i as int] == col);
                }
                return Some(col);
            }
            i += 1;
        }
        None
    }
}

/// The filtering policies a stack may hold.
pub enum LayerKind {
    ThreeInARow(ThreeInARow),
    AvoidTraps(AvoidTraps),
    AvoidInescapableTraps(AvoidInescapableTraps),
}

/// The committing policies a stack may hold.
pub enum DeciderKind {
    TriesToWin(TriesToWin),
    Setup(Setup),
    SearchForWin(SearchForWin),
    SearchForWinCache(SearchForWinCache),
}

/// One stage of a strategy stack: a layer narrows the candidate set, a
/// decision may commit to one move.
pub enum Strategy {
    Layer(LayerKind),
    Decision(DeciderKind),
}

/// What one application of a stage reports back to the stack.
pub enum StageResult {
    Decided(usize),
    Declined,
    Narrowed(Vec<usize>),
}

/// What a layer keeps, as the layer specs say.
pub open spec fn layer_filter_spec(l: LayerKind, g: Seq<Piece>, opts: Seq<usize>) -> Seq<usize> {
    match l {
        LayerKind::ThreeInARow(t) => three_in_a_row_spec(g, t.piece, opts),
        LayerKind::AvoidTraps(t) => avoid_traps_spec(g, t.piece, opts),
        LayerKind::AvoidInescapableTraps(t) => inescapable_spec(g, t.piece, opts),
    }
}

/// What a decider picks, as the decider specs say. The memoizing search is
/// not a function of the board alone, so it has no exact spec here.
pub open spec fn decider_choice_spec(d: DeciderKind, g: Seq<Piece>, opts: Seq<usize>) -> Option<
    usize,
> {
    match d {
        DeciderKind::TriesToWin(t) => tries_to_win_spec(g, t.piece, opts),
        DeciderKind::Setup(t) => setup_spec(g, t.piece, opts),
        DeciderKind::SearchForWin(t) => search_choice_spec(g, t.piece, t.depth as nat, opts),
        DeciderKind::SearchForWinCache(_) => None,
    }
}

/// A stage whose outcome is a function of the board and options alone.
pub open spec fn stage_deterministic(s: Strategy) -> bool {
    !(s matches Strategy::Decision(DeciderKind::SearchForWinCache(_)))
}

/// The stage's own board-independent well-formedness.
pub open spec fn stage_wf(s: Strategy) -> bool {
    match s {
        Strategy::Layer(LayerKind::ThreeInARow(t)) => t.piece != Piece::Empty,
        Strategy::Layer(LayerKind::AvoidTraps(t)) => t.piece != Piece::Empty,
        Strategy::Layer(LayerKind::AvoidInescapableTraps(t)) => t.piece != Piece::Empty,
        Strategy::Decision(DeciderKind::TriesToWin(t)) => t.piece != Piece::Empty,
        Strategy::Decision(DeciderKind::Setup(t)) => t.piece != Piece::Empty,
        Strategy::Decision(DeciderKind::SearchForWin(t)) => t.piece != Piece::Empty,
        Strategy::Decision(DeciderKind::SearchForWinCache(t)) => t.wf(),
    }
}

/// What the board must look like for the stage to run: the searching stages
/// must be asked on their own turn of a balanced board.
pub open spec fn stage_fits(s: Strategy, g: Seq<Piece>) -> bool {
    match s {
        Strategy::Decision(DeciderKind::SearchForWin(t)) => balanced(g) && next_player_spec(g)
            == t.piece,
        Strategy::Decision(DeciderKind::SearchForWinCache(t)) => balanced(g) && next_player_spec(
            g,
        ) == t.piece,
        _ => true,
    }
}

/// Two stages are the same policy with the same configuration; only a
/// memoizing search's table may differ.
pub open spec fn same_strategy(a: Strategy, b: Strategy) -> bool {
    if stage_deterministic(a) {
        b == a
    } else {
        match (a, b) {
            (
                Strategy::Decision(DeciderKind::SearchForWinCache(x)),
                Strategy::Decision(DeciderKind::SearchForWinCache(y)),
            ) => x.piece == y.piece && x.depth == y.depth,
            _ => false,
        }
    }
}

impl Strategy {
    /// The display name of the stage's policy.
    pub fn name(&self) -> (r: &'static str)
        ensures
            *self matches Strategy::Layer(LayerKind::ThreeInARow(_)) ==> r@ == "ThreeInARow"@,
            *self matches Strategy::Layer(LayerKind::AvoidTraps(_)) ==> r@ == "AvoidTraps"@,
            *self matches Strategy::Layer(LayerKind::AvoidInescapableTraps(_)) ==> r@
                == "AvoidInescapableTraps"@,
            *self matches Strategy::Decision(DeciderKind::TriesToWin(_)) ==> r@ == "TriesToWin"@,
            *self matches Strategy::Decision(DeciderKind::Setup(_)) ==> r@ == "Setup"@,
            *self matches Strategy::Decision(DeciderKind::SearchForWin(_)) ==> r@
                == "SearchForWin"@,
            *self matches Strategy::Decision(DeciderKind::SearchForWinCache(_)) ==> r@
                == "SearchForWinCache"@,
    {
        match self {
            Strategy::Layer(LayerKind::ThreeInARow(_)) => "ThreeInARow",
            Strategy::Layer(LayerKind::AvoidTraps(_)) => "AvoidTraps",
            Strategy::Layer(LayerKind::AvoidInescapableTraps(_)) => "AvoidInescapableTraps",
            Strategy::Decision(DeciderKind::TriesToWin(_)) => "TriesToWin",
            Strategy::Decision(DeciderKind::Setup(_)) => "Setup",
            Strategy::Decision(DeciderKind::SearchForWin(_)) => "SearchForWin",
            Strategy::Decision(DeciderKind::SearchForWinCache(_)) => "SearchForWinCache",
        }
    }

    /// Run this stage on the board and candidate set: a layer narrows, a
    /// decider commits or declines.
    fn apply(&mut self, board: &Board, options: &Vec<usize>) -> (r: StageResult)
        requires
            board.wf(),
            no_winner(board@),
            options_ok(board@, options@),
            options@.len() > 0,
            stage_wf(*old(self)),
            stage_fits(*old(self), board@),
        ensures
            same_strategy(*old(self), *final(self)),
            stage_wf(*final(self)),
            match *old(self) {
                Strategy::Layer(l) => r matches StageResult::Narrowed(v) && v@
                    == layer_filter_spec(l, board@, options@) && options_ok(board@, v@) && (
                ascending(options@) ==> ascending(v@)),
                Strategy::Decision(d) => !(r is Narrowed) && (stage_deterministic(*old(self))
                    ==> (match decider_choice_spec(d, board@, options@) {
                    Some(c) => r == StageResult::Decided(c),
                    None => r == StageResult::Declined,
                })),
            },
            r matches StageResult::Decided(c) ==> options@.contains(c),
            match (*old(self), r) {
                (
                    Strategy::Decision(DeciderKind::SearchForWinCache(t)),
                    StageResult::Decided(c),
                ) => crate::search_for_win::decide_ok(board@, t.piece, options@, Some(c)),
                _ => true,
            },
    {
        match self {
            Strategy::Layer(LayerKind::ThreeInARow(t)) => StageResult::Narrowed(
                t.prune_from(board, options),
            ),
            Strategy::Layer(LayerKind::AvoidTraps(t)) => StageResult::Narrowed(
                t.prune_from(board, options),
            ),
            Strategy::Layer(LayerKind::AvoidInescapableTraps(t)) => StageResult::Narrowed(
                t.prune_from(board, options),
            ),
            Strategy::Decision(DeciderKind::TriesToWin(t)) => {
                match t.decide(board, options) {
                    Some(c) => StageResult::Decided(c),
                    None => StageResult::Declined,
                }
            },
            Strategy::Decision(DeciderKind::Setup(t)) => {
                match t.decide(board, options) {
                    Some(c) => StageResult::Decided(c),
                    None => StageResult::Declined,
                }
            },
            Strategy::Decision(DeciderKind::SearchForWin(t)) => {
                match t.decide(board, options) {
                    Some(c) => StageResult::Decided(c),
                    None => StageResult::Declined,
                }
            },
            Strategy::Decision(DeciderKind::SearchForWinCache(t)) => {
                let ghost before = *t;
                let res = t.decide(board, options);
                proof {
                    assert(*old(self) == Strategy::Decision(
                        DeciderKind::SearchForWinCache(before),
                    ));
                }
                match res {
                    Some(c) => StageResult::Decided(c),
                    None => StageResult::Declined,
                }
            },
        }
    }
}

/// What the stack's pipeline returns, scanning stages in order on a fixed
/// board with the given candidate set: a decision ends it with a singleton,
/// a layer's non-empty filtering replaces the candidates, and a lone
/// survivor ends it early.
pub open spec fn eval_from(g: Seq<Piece>, stages: Seq<Strategy>, opts: Seq<usize>) -> Seq<usize>
    decreases stages.len(),
{
    if stages.len() == 0 {
        opts
    } else {
        match stages[0] {
            Strategy::Layer(l) => {
                let f = layer_filter_spec(l, g, opts);
                let o2 = if f.len() > 0 {
                    f
                } else {
                    opts
                };
                if o2.len() == 1 {
                    o2
                } else {
                    eval_from(g, stages.drop_first(), o2)
                }
            },
            Strategy::Decision(d) => {
                match decider_choice_spec(d, g, opts) {
                    Some(c) => seq![c],
                    None => {
                        if opts.len() == 1 {
                            opts
                        } else {
                            eval_from(g, stages.drop_first(), opts)
                        }
                    },
                }
            },
        }
    }
}

/// What a stack of deterministic stages returns on a board.
pub open spec fn eval_spec(g: Seq<Piece>, stages: Seq<Strategy>) -> Seq<usize> {
    eval_from(g, stages, valid_moves_spec(g))
}

/// `r` is a possible outcome of threading `opts` through the stages: every
/// deterministic stage acts exactly as its spec says, and a memoizing
/// search stage either declines or commits to one of the candidates whose
/// move it has proven a forced win (`decide_ok`).
pub open spec fn pipeline_ok(
    g: Seq<Piece>,
    stages: Seq<Strategy>,
    opts: Seq<usize>,
    r: Seq<usize>,
) -> bool
    decreases stages.len(),
{
    if stages.len() == 0 {
        r == opts
    } else {
        match stages[0] {
            Strategy::Layer(l) => {
                let f = layer_filter_spec(l, g, opts);
                let o2 = if f.len() > 0 {
                    f
                } else {
                    opts
                };
                if o2.len() == 1 {
                    r == o2
                } else {
                    pipeline_ok(g, stages.drop_first(), o2, r)
                }
            },
            Strategy::Decision(DeciderKind::SearchForWinCache(t)) => {
                ||| (exists|c: usize|
                    crate::search_for_win::decide_ok(g, t.piece, opts, Some(c)) && r == seq![c])
                ||| (if opts.len() == 1 {
                    r == opts
                } else {
                    pipeline_ok(g, stages.drop_first(), opts, r)
                })
            },
            Strategy::Decision(d) => {
                match decider_choice_spec(d, g, opts) {
                    Some(c) => r == seq![c],
                    None => {
                        if opts.len() == 1 {
                            r == opts
                        } else {
                            pipeline_ok(g, stages.drop_first(), opts, r)
                        }
                    },
                }
            },
        }
    }
}

/// An ordered pipeline of layers and deciders that narrows the legal moves
/// of a board down to a candidate set, and plays one of them at random.
pub struct StrategyStack {
    pub strategies: Vec<Strategy>,
}

impl StrategyStack {
    /// Every stage is well formed.
    pub open spec fn wf(self) -> bool {
        forall|k: int|
            0 <= k < self.strategies@.len() ==> stage_wf(#[trigger] self.strategies@[k])
    }

    /// Every stage can run on this board.
    pub open spec fn fits(self, g: Seq<Piece>) -> bool {
        forall|k: int|
            0 <= k < self.strategies@.len() ==> stage_fits(#[trigger] self.strategies@[k], g)
    }

    /// No stage's outcome depends on anything but the board and options.
    pub open spec fn deterministic(self) -> bool {
        forall|k: int|
            0 <= k < self.strategies@.len() ==> stage_deterministic(
                #[trigger] self.strategies@[k],
            )
    }

    pub fn new(strategies: Vec<Strategy>) -> (s: Self)
        ensures
            s.strategies == strategies,
    {
        StrategyStack { strategies }
    }

    /// Thread the board's legal moves through every stage: a decision ends
    /// the pipeline at once, an empty filtering is ignored (fail open), and
    /// a lone survivor ends it early. The result is never empty and holds
    /// only legal moves. On a stack of deterministic stages the result is
    /// exactly `eval_spec`.
    pub fn evaluate_options(&mut self, board: &Board) -> (r: Vec<usize>)
        requires
            old(self).wf(),
            old(self).fits(board@),
            board.wf(),
            no_winner(board@),
            valid_moves_spec(board@).len() > 0,
        ensures
            r@.len() > 0,
            options_ok(board@, r@),
            ascending(r@),
            final(self).strategies@.len() == old(self).strategies@.len(),
            forall|k: int|
                0 <= k < old(self).strategies@.len() ==> same_strategy(
                    #[trigger] old(self).strategies@[k],
                    final(self).strategies@[k],
                ),
            final(self).wf(),
            pipeline_ok(board@, old(self).strategies@, valid_moves_spec(board@), r@),
            old(self).deterministic() ==> (final(self).strategies@ == old(self).strategies@ && r@
                == eval_spec(board@, old(self).strategies@)),
    {
        let ghost stages = self.strategies@;
        let ghost g = board@;
        let mut options = board.valid_moves();
        proof {
            lemma_valid_moves(board@);
            assert(ascending(options@));
            assert(stages.skip(0) =~~= stages);
        }
        let mut i: usize = 0;
        while i < self.strategies.len()
            invariant
                board.wf(),
                no_winner(board@),
                g == board@,
                self.strategies@.len() == stages.len(),
                stages == old(self).strategies@,
                forall|k: int|
                    0 <= k < stages.len() ==> same_strategy(
                        #[trigger] stages[k],
                        self.strategies@[k],
                    ),
                forall|k: int|
                    0 <= k < stages.len() ==> stage_wf(#[trigger] self.strategies@[k]),
                forall|k: int| 0 <= k < stages.len() ==> stage_fits(#[trigger] stages[k], g),
                i <= stages.len(),
                options@.len() > 0,
                options_ok(board@, options@),
                ascending(options@),
                forall|res: Seq<usize>|
                    #[trigger] pipeline_ok(g, stages.skip(i as int), options@, res)
                        ==> pipeline_ok(g, stages, valid_moves_spec(g), res),
                (forall|k: int| 0 <= k < stages.len() ==> stage_deterministic(
                    #[trigger] stages[k],
                )) ==> (self.strategies@ == stages && eval_from(g, stages, valid_moves_spec(g))
                    == eval_from(g, stages.skip(i as int), options@)),
            decreases stages.len() - i,
        {
            let ghost before_remove = self.strategies@;
            let mut stage = self.strategies.remove(i);
            let ghost stage_before = stage;
            let effect = stage.apply(board, &options);
            let ghost stage_after = stage;
            self.strategies.insert(i, stage);
            let ghost options_before = options@;
            proof {
                assert(self.strategies@ =~= before_remove.update(i as int, stage_after));
                assert(stages.skip(i as int)[0] == stages[i as int]);
                assert(stage_before == before_remove[i as int]);
                assert(same_strategy(stages[i as int], stage_before));
                if stage_deterministic(stages[i as int]) {
                    assert(stage_before == stages[i as int]);
                }
                if forall|k: int|
                    0 <= k < stages.len() ==> stage_deterministic(#[trigger] stages[k]) {
                    assert(before_remove == stages);
                    assert(stage_before == stages[i as int]);
                    assert(stage_after == stage_before);
                    assert(self.strategies@ =~= stages);
                }
            }
            match effect {
                StageResult::Decided(c) => {
                    let mut chosen: Vec<usize> = Vec::new();
                    chosen.push(c);
                    proof {
                        assert(chosen@ =~= seq![c]);
                        assert(ascending(chosen@));
                        let j = options_before.index_of(c);
                        assert(options_before[j] == c);
                        assert(pipeline_ok(g, stages.skip(i as int), options_before, seq![c]))
                            by {
                            match stages[i as int] {
                                Strategy::Decision(DeciderKind::SearchForWinCache(t)) => {
                                    match stage_before {
                                        Strategy::Decision(
                                            DeciderKind::SearchForWinCache(tc),
                                        ) => {
                                            assert(tc.piece == t.piece);
                                            assert(crate::search_for_win::decide_ok(
                                                g,
                                                t.piece,
                                                options_before,
                                                Some(c),
                                            ));
                                        },
                                        _ => {
                                            assert(false);
                                        },
                                    }
                                },
                                _ => {
                                    assert(stage_deterministic(stages[i as int]));
                                    assert(stage_before == stages[i as int]);
                                },
                            }
                        }
                        assert(pipeline_ok(g, stages, valid_moves_spec(g), chosen@));
                        if forall|k: int|
                            0 <= k < stages.len() ==> stage_deterministic(#[trigger] stages[k]) {
                            assert(eval_from(g, stages.skip(i as int), options_before)
                                == seq![c]);
                        }
                    }
                    return chosen;
                },
                StageResult::Declined => {
                    proof {
                        if forall|k: int|
                            0 <= k < stages.len() ==> stage_deterministic(#[trigger] stages[k]) {
                            assert(stages.skip(i as int).drop_first() =~~= stages.skip(
                                i as int + 1,
                            ));
                        }
                    }
                },
                StageResult::Narrowed(filtered) => {
                    if filtered.len() > 0 {
                        options = filtered;
                    }
                    proof {
                        if forall|k: int|
                            0 <= k < stages.len() ==> stage_deterministic(#[trigger] stages[k]) {
                            assert(stages.skip(i as int).drop_first() =~~= stages.skip(
                                i as int + 1,
                            ));
                        }
                    }
                },
            }
            if options.len() == 1 {
                proof {
                    assert(pipeline_ok(g, stages.skip(i as int), options_before, options@)) by {
                        match stages[i as int] {
                            Strategy::Decision(DeciderKind::SearchForWinCache(_)) => {},
                            _ => {
                                assert(stage_deterministic(stages[i as int]));
                                assert(stage_before == stages[i as int]);
                            },
                        }
                    }
                    assert(pipeline_ok(g, stages, valid_moves_spec(g), options@));
                    if forall|k: int|
                        0 <= k < stages.len() ==> stage_deterministic(#[trigger] stages[k]) {
                        assert(eval_from(g, stages.skip(i as int), options_before) == options@);
                    }
                }
                return options;
            }
            proof {
                assert(stages.skip(i as int).drop_first() =~~= stages.skip(i as int + 1));
                assert forall|res: Seq<usize>| #[trigger] pipeline_ok(
                    g,
                    stages.skip(i as int + 1),
                    options@,
                    res,
                ) implies pipeline_ok(g, stages, valid_moves_spec(g), res) by {
                    assert(pipeline_ok(g, stages.skip(i as int), options_before, res)) by {
                        match stages[i as int] {
                            Strategy::Decision(DeciderKind::SearchForWinCache(_)) => {},
                            _ => {
                                assert(stage_deterministic(stages[i as int]));
                                assert(stage_before == stages[i as int]);
                            },
                        }
                    }
                }
            }
            i += 1;
        }
        proof {
            assert(stages.skip(stages.len() as int) =~~= Seq::<Strategy>::empty());
            assert(pipeline_ok(g, stages.skip(stages.len() as int), options@, options@));
            assert(pipeline_ok(g, stages, valid_moves_spec(g), options@));
            if forall|k: int| 0 <= k < stages.len() ==> stage_deterministic(#[trigger] stages[k]) {
                assert(eval_from(g, stages.skip(stages.len() as int), options@) == options@);
            }
        }
        options
    }

    /// Evaluate the pipeline and play one of the surviving candidates,
    /// drawn at random. Always returns a move, and always a legal one.
    pub fn play(&mut self, board: &Board) -> (r: Option<usize>)
        requires
            old(self).wf(),
            old(self).fits(board@),
            board.wf(),
            no_winner(board@),
            valid_moves_spec(board@).len() > 0,
        ensures
            final(self).wf(),
            final(self).strategies@.len() == old(self).strategies@.len(),
            forall|k: int|
                0 <= k < old(self).strategies@.len() ==> same_strategy(
                    #[trigger] old(self).strategies@[k],
                    final(self).strategies@[k],
                ),
            r is Some,
            r matches Some(c) ==> is_move(board@, c as int),
            old(self).deterministic() ==> (final(self).strategies@ == old(self).strategies@ && (
            r matches Some(c) ==> eval_spec(board@, old(self).strategies@).contains(c))),
    {
        let moves = self.evaluate_options(board);
        let idx = pick_index(moves.len());
        let c = moves[idx];
        proof {
            assert(options_ok(board@, moves@));
            assert(moves@[idx as int] == c);
            if old(self).deterministic() {
                assert(eval_spec(board@, old(self).strategies@).contains(c)) by {
                    assert(moves@[idx as int] == c);
                }
            }
        }
        Some(c)
    }
}

/// Relies on rand::random_range: a value drawn uniformly from the half-open
/// range `0..n`, always below `n`; the range is non-empty by precondition.
#[verifier::external_body]
pub(crate) fn pick_index(n: usize) -> (r: usize)
    requires
        n > 0,
    ensures
        r < n,
{
    rand::random_range(0..n)
}

} // verus!
