use vstd::prelude::*;

use std::collections::HashMap;

use crate::board::{
    balanced, has_four, key_spec, lemma_balance_preserved, lemma_valid_moves, next_player_spec,
    place_spec, valid_moves_spec, Board, Piece,
};
use crate::strategy::{
    forces_win, is_move, lemma_forces_win_mono, lemma_refuted, options_ok, survives_reply,
};
use crate::strategy_cache::StrategyCacheStats;

verus! {

broadcast use vstd::std_specs::hash::group_hash_axioms;

/// One memoized search result: the board it is about, the horizon at which
/// the search last gave up on it, and the verdict if one is known.
pub struct SearchForWinCacheEntry {
    pub board: Board,
    pub depth_searched_at: usize,
    pub forced_win: Option<bool>,
}

/// A cache entry never lies: a `true` verdict means the player forces a win
/// at some horizon, a `false` verdict means no horizon forces one, and an
/// unknown entry records a horizon within which no win can be forced.
pub open spec fn entry_ok(p: Piece, e: SearchForWinCacheEntry) -> bool {
    &&& e.board.wf()
    &&& (e.forced_win == Some(true) ==> exists|n: nat| forces_win(e.board@, p, n))
    &&& (e.forced_win == Some(false) ==> forall|n: nat| !forces_win(e.board@, p, n))
    &&& (e.forced_win is None ==> !forces_win(e.board@, p, e.depth_searched_at as nat))
}

/// After the opponent replies in column `m`, some response of `p` forces a
/// win within `b` further moves and the opponent has not won.
pub open spec fn branch_ok(g: Seq<Piece>, p: Piece, m: int, b: nat) -> bool {
    &&& !has_four(place_spec(g, m, p.flip()), p.flip())
    &&& exists|m2: int|
        #[trigger] is_move(place_spec(g, m, p.flip()), m2) && forces_win(
            place_spec(place_spec(g, m, p.flip()), m2, p),
            p,
            b,
        )
}

proof fn lemma_branch_mono(g: Seq<Piece>, p: Piece, m: int, b1: nat, b2: nat)
    requires
        branch_ok(g, p, m, b1),
        b1 <= b2,
    ensures
        branch_ok(g, p, m, b2),
{
    let g1 = place_spec(g, m, p.flip());
    let m2 = choose|m2: int|
        #[trigger] is_move(g1, m2) && forces_win(place_spec(g1, m2, p), p, b1);
    lemma_forces_win_mono(place_spec(g1, m2, p), p, b1, b2);
}

/// The decider's promise: a chosen column is one of the options and its
/// move forces a win at some horizon.
pub open spec fn decide_ok(g: Seq<Piece>, p: Piece, opts: Seq<usize>, r: Option<usize>) -> bool {
    match r {
        Some(c) => opts.contains(c) && exists|n: nat|
            forces_win(place_spec(g, c as int, p), p, n),
        None => true,
    }
}

/// In a table whose entries sit under their own boards' keys, the entry
/// found under a well-formed grid's key holds that very grid: the key
/// packing is injective.
proof fn lemma_hit_is_exact(m: Map<u64, SearchForWinCacheEntry>, g: Seq<Piece>, k: u64)
    requires
        crate::board::grid_ok(g),
        k == key_spec(g) as u64,
        m.contains_key(k),
        m[k].board.wf(),
        key_spec(m[k].board@) as u64 == k,
    ensures
        m[k].board@ == g,
{
    crate::board::lemma_key_bounds(g);
    crate::board::lemma_key_bounds(m[k].board@);
    crate::board::lemma_key_spec_injective(m[k].board@, g);
}

/// The table has an entry keyed and cross-checked for exactly this grid.
pub open spec fn table_holds(m: Map<u64, SearchForWinCacheEntry>, g: Seq<Piece>) -> bool {
    m.contains_key(key_spec(g) as u64) && m[key_spec(g) as u64].board@ == g
}

/// The table's entry for this grid.
pub open spec fn table_entry(
    m: Map<u64, SearchForWinCacheEntry>,
    g: Seq<Piece>,
) -> SearchForWinCacheEntry {
    m[key_spec(g) as u64]
}

/// No listed option forces a win for `p` within `d` further moves.
pub open spec fn no_forced_option(g: Seq<Piece>, p: Piece, d: nat, opts: Seq<usize>) -> bool {
    forall|i: int|
        0 <= i < opts.len() ==> !#[trigger] forces_win(place_spec(g, opts[i] as int, p), p, d)
}

/// `c` stands in the option list, and no option before it forces a win for
/// `p` within `d` further moves: the choice respects the scan order.
pub open spec fn picked_in_order(g: Seq<Piece>, p: Piece, d: nat, opts: Seq<usize>, c: usize) -> bool {
    exists|i: int|
        0 <= i < opts.len() && #[trigger] opts[i] == c && no_forced_option(g, p, d, opts.take(i))
}

/// A decider that searches for a forced win like `SearchForWin`, but
/// memoizes verdicts in a transposition table keyed by the exact board, so
/// repeated positions are not searched again.
pub struct SearchForWinCache {
    pub piece: Piece,
    pub depth: usize,
    pub cache: HashMap<u64, SearchForWinCacheEntry>,
    pub hits: u64,
    pub misses: u64,
}

impl SearchForWinCache {
    /// Every entry of the table is sound for this player and sits under the
    /// key of its own board.
    pub open spec fn wf(self) -> bool {
        &&& self.piece != Piece::Empty
        &&& forall|k: u64|
            self.cache@.contains_key(k) ==> entry_ok(self.piece, #[trigger] self.cache@[k])
        &&& forall|k: u64|
            self.cache@.contains_key(k) ==> key_spec(#[trigger] self.cache@[k].board@) as u64 == k
    }

    pub fn new(piece: Piece, depth: usize) -> (s: Self)
        requires
            piece != Piece::Empty,
        ensures
            s.wf(),
            s.piece == piece,
            s.depth == depth,
            s.cache@ == Map::<u64, SearchForWinCacheEntry>::empty(),
            s.hits == 0,
            s.misses == 0,
    {
        SearchForWinCache {
            piece,
            depth,
            cache: HashMap::new(),
            hits: 0,
            misses: 0,
        }
    }

    /// How often the table answered, how often it could not, and how many
    /// positions it holds.
    pub fn get_stats(&self) -> (stats: StrategyCacheStats)
        ensures
            stats.hits == self.hits,
            stats.misses == self.misses,
            stats.entries == self.cache@.len(),
    {
        StrategyCacheStats { hits: self.hits, misses: self.misses, entries: self.cache.len() }
    }

    /// Whether playing `move_to_test` on `prior` forces a win for this
    /// player: `Some(true)` and `Some(false)` are proven verdicts, `None`
    /// means the horizon ran out before a verdict was reached. The search
    /// is complete for its horizon: a win forceable within `depth` is
    /// always reported as `Some(true)`, whatever the table holds. Every
    /// verdict is recorded in the table under the position it is about, no
    /// key is ever dropped, and a definite verdict, once stored, is never
    /// changed — so later calls on the position repeat it.
    #[verifier::rlimit(60)]
    fn has_guaranteed_win(&mut self, prior: &Board, depth: usize, move_to_test: usize) -> (r:
        Option<bool>)
        requires
            old(self).wf(),
            prior.wf(),
            balanced(prior@),
            next_player_spec(prior@) == old(self).piece,
            is_move(prior@, move_to_test as int),
        ensures
            final(self).wf(),
            final(self).piece == old(self).piece,
            final(self).depth == old(self).depth,
            r == Some(true) ==> exists|n: nat|
                forces_win(
                    place_spec(prior@, move_to_test as int, old(self).piece),
                    old(self).piece,
                    n,
                ),
            r == Some(false) ==> forall|n: nat|
                !forces_win(
                    place_spec(prior@, move_to_test as int, old(self).piece),
                    old(self).piece,
                    n,
                ),
            r is None ==> !forces_win(
                place_spec(prior@, move_to_test as int, old(self).piece),
                old(self).piece,
                depth as nat,
            ),
            has_four(place_spec(prior@, move_to_test as int, old(self).piece), old(self).piece)
                ==> r == Some(true),
            depth == 0 && !has_four(
                place_spec(prior@, move_to_test as int, old(self).piece),
                old(self).piece,
            ) ==> r is None,
            (depth >= 1 && table_holds(
                old(self).cache@,
                place_spec(prior@, move_to_test as int, old(self).piece),
            ) && table_entry(
                old(self).cache@,
                place_spec(prior@, move_to_test as int, old(self).piece),
            ).forced_win is Some) ==> r == table_entry(
                old(self).cache@,
                place_spec(prior@, move_to_test as int, old(self).piece),
            ).forced_win,
            (depth >= 1 && table_holds(
                old(self).cache@,
                place_spec(prior@, move_to_test as int, old(self).piece),
            ) && table_entry(
                old(self).cache@,
                place_spec(prior@, move_to_test as int, old(self).piece),
            ).forced_win is None && table_entry(
                old(self).cache@,
                place_spec(prior@, move_to_test as int, old(self).piece),
            ).depth_searched_at >= depth) ==> r is None,
            r == Some(false) ==> (table_holds(
                final(self).cache@,
                place_spec(prior@, move_to_test as int, old(self).piece),
            ) && table_entry(
                final(self).cache@,
                place_spec(prior@, move_to_test as int, old(self).piece),
            ).forced_win == Some(false)),
            (r == Some(true) && !has_four(
                place_spec(prior@, move_to_test as int, old(self).piece),
                old(self).piece,
            )) ==> (table_holds(
                final(self).cache@,
                place_spec(prior@, move_to_test as int, old(self).piece),
            ) && table_entry(
                final(self).cache@,
                place_spec(prior@, move_to_test as int, old(self).piece),
            ).forced_win == Some(true)),
            (r is None && depth >= 1) ==> (table_holds(
                final(self).cache@,
                place_spec(prior@, move_to_test as int, old(self).piece),
            ) && table_entry(
                final(self).cache@,
                place_spec(prior@, move_to_test as int, old(self).piece),
            ).forced_win is None && table_entry(
                final(self).cache@,
                place_spec(prior@, move_to_test as int, old(self).piece),
            ).depth_searched_at >= depth),
            forall|k: u64|
                old(self).cache@.contains_key(k) ==> final(self).cache@.contains_key(k),
            forall|k: u64|
                old(self).cache@.contains_key(k) && (#[trigger] old(self).cache@[k]).forced_win
                    is Some ==> final(self).cache@[k] == old(self).cache@[k],
        decreases depth,
    {
        let p = self.piece;
        let opp = p.opponent();
        proof {
            lemma_balance_preserved(prior@, move_to_test as int);
        }
        let board = prior.place(move_to_test, p);
        if board.has_line(p) {
            proof {
                assert(forces_win(board@, p, 0));
                let k2 = key_spec(board@) as u64;
                if self.cache@.contains_key(k2) && self.cache@[k2].board@ == board@ {
                    assert(entry_ok(p, self.cache@[k2]));
                    if self.cache@[k2].forced_win == Some(false) {
                        assert(!forces_win(board@, p, 0));
                        assert(false);
                    }
                    if self.cache@[k2].forced_win is None {
                        lemma_forces_win_mono(
                            board@,
                            p,
                            0,
                            self.cache@[k2].depth_searched_at as nat,
                        );
                        assert(false);
                    }
                }
            }
            return Some(true);
        }
        if depth == 0 {
            proof {
                assert(!forces_win(board@, p, 0));
            }
            return None;
        }
        let key = board.cache_key();
        let mut cache_hit = false;
        let mut verdict: Option<bool> = None;
        let mut deep_enough = false;
        match self.cache.get(&key) {
            Some(entry) => {
                if entry.board.same_as(&board) {
                    cache_hit = true;
                    verdict = entry.forced_win;
                    deep_enough = entry.depth_searched_at >= depth;
                    proof {
                        assert(old(self).cache@.contains_key(key));
                        assert(old(self).cache@[key] == *entry);
                        assert(old(self).cache@[key].board@ == board@);
                        assert(old(self).cache@[key].forced_win == verdict);
                        assert(deep_enough == (old(self).cache@[key].depth_searched_at >= depth));
                    }
                }
            },
            None => {},
        }
        proof {
            assert(key == key_spec(board@) as u64);
            if old(self).cache@.contains_key(key) {
                assert(entry_ok(p, old(self).cache@[key]));
                lemma_hit_is_exact(old(self).cache@, board@, key);
                assert(old(self).cache@[key].board@ == board@);
                assert(cache_hit);
            }
        }
        if cache_hit {
            self.hits = self.hits.wrapping_add(1);
            match verdict {
                Some(true) => {
                    proof {
                        assert(entry_ok(p, self.cache@[key]));
                        let n = choose|n: nat| forces_win(self.cache@[key].board@, p, n);
                        assert(forces_win(board@, p, n));
                    }
                    return Some(true);
                },
                Some(false) => {
                    proof {
                        assert(entry_ok(p, self.cache@[key]));
                        assert forall|n: nat| !forces_win(board@, p, n) by {
                            assert(!forces_win(self.cache@[key].board@, p, n));
                        }
                    }
                    return Some(false);
                },
                None => {
                    if deep_enough {
                        proof {
                            assert(entry_ok(p, self.cache@[key]));
                            assert(!forces_win(
                                board@,
                                p,
                                self.cache@[key].depth_searched_at as nat,
                            ));
                            if forces_win(board@, p, depth as nat) {
                                lemma_forces_win_mono(
                                    board@,
                                    p,
                                    depth as nat,
                                    self.cache@[key].depth_searched_at as nat,
                                );
                                assert(false);
                            }
                        }
                        return None;
                    }
                },
            }
        } else {
            self.misses = self.misses.wrapping_add(1);
        }
        proof {
            lemma_valid_moves(board@);
        }
        let enemy_moves = board.valid_moves();
        let ghost vm = valid_moves_spec(board@);
        let ghost mut bound: nat = 0;
        let mut i: usize = 0;
        while i < enemy_moves.len()
            invariant
                self.wf(),
                self.piece == p,
                p == old(self).piece,
                self.depth == old(self).depth,
                board.wf(),
                balanced(board@),
                p != Piece::Empty,
                opp == p.flip(),
                next_player_spec(board@) == opp,
                !has_four(board@, p),
                depth >= 1,
                board@ == place_spec(prior@, move_to_test as int, p),
                key == key_spec(board@) as u64,
                old(self).cache@.contains_key(key) ==> (old(self).cache@[key].forced_win is None
                    && old(self).cache@[key].depth_searched_at < depth && old(self).cache@[key]
                    .board@ == board@),
                forall|k: u64|
                    old(self).cache@.contains_key(k) ==> self.cache@.contains_key(k),
                forall|k: u64|
                    old(self).cache@.contains_key(k) && (#[trigger] old(self).cache@[k])
                        .forced_win is Some ==> self.cache@[k] == old(self).cache@[k],
                vm == valid_moves_spec(board@),
                enemy_moves@ == vm,
                forall|k: int| 0 <= k < vm.len() ==> (#[trigger] vm[k] < 7
                    && crate::board::col_height(board@, vm[k] as int) < 6),
                forall|m: usize| m < 7 && crate::board::col_height(board@, m as int) < 6
                    ==> vm.contains(m),
                i <= vm.len(),
                forall|k: int| 0 <= k < i ==> #[trigger] branch_ok(board@, p, vm[k] as int, bound),
            decreases vm.len() - i,
        {
            let enemy_col = enemy_moves[i];
            proof {
                lemma_balance_preserved(board@, enemy_col as int);
            }
            let enemy_board = board.place(enemy_col, opp);
            if enemy_board.has_line(opp) {
                proof {
                    lemma_refuted(board@, p, enemy_col as int);
                }
                let entry = SearchForWinCacheEntry {
                    board: board.duplicate(),
                    depth_searched_at: 0,
                    forced_win: Some(false),
                };
                self.cache.insert(key, entry);
                return Some(false);
            }
            proof {
                lemma_valid_moves(enemy_board@);
            }
            let responses = enemy_board.valid_moves();
            let ghost vm2 = valid_moves_spec(enemy_board@);
            let mut j: usize = 0;
            let mut found = false;
            let mut unknown_seen = false;
            let ghost mut witness: nat = 0;
            while j < responses.len() && !found
                invariant
                    self.wf(),
                    self.piece == p,
                    p == old(self).piece,
                    self.depth == old(self).depth,
                    board.wf(),
                    board@ == place_spec(prior@, move_to_test as int, p),
                    enemy_board.wf(),
                    balanced(enemy_board@),
                    p != Piece::Empty,
                    opp == p.flip(),
                    next_player_spec(enemy_board@) == p,
                    enemy_board@ == place_spec(board@, enemy_col as int, opp),
                    !has_four(enemy_board@, opp),
                    depth >= 1,
                    key == key_spec(board@) as u64,
                    old(self).cache@.contains_key(key) ==> (old(self).cache@[key].forced_win
                        is None && old(self).cache@[key].depth_searched_at < depth && old(
                        self,
                    ).cache@[key].board@ == board@),
                    forall|k: u64|
                        old(self).cache@.contains_key(k) ==> self.cache@.contains_key(k),
                    forall|k: u64|
                        old(self).cache@.contains_key(k) && (#[trigger] old(self).cache@[k])
                            .forced_win is Some ==> self.cache@[k] == old(self).cache@[k],
                    vm2 == valid_moves_spec(enemy_board@),
                    responses@ == vm2,
                    forall|k: int| 0 <= k < vm2.len() ==> (#[trigger] vm2[k] < 7
                        && crate::board::col_height(enemy_board@, vm2[k] as int) < 6),
                    forall|m: usize| m < 7 && crate::board::col_height(enemy_board@, m as int) < 6
                        ==> vm2.contains(m),
                    j <= vm2.len(),
                    !found ==> forall|k: int|
                        0 <= k < j ==> !forces_win(
                            #[trigger] place_spec(enemy_board@, vm2[k] as int, p),
                            p,
                            (depth - 1) as nat,
                        ),
                    !found && !unknown_seen ==> forall|k: int, n: nat|
                        0 <= k < j ==> !#[trigger] forces_win(
                            place_spec(enemy_board@, vm2[k] as int, p),
                            p,
                            n,
                        ),
                    found ==> exists|m2: int|
                        #[trigger] is_move(enemy_board@, m2) && forces_win(
                            place_spec(enemy_board@, m2, p),
                            p,
                            witness,
                        ),
                decreases vm2.len() - j,
            {
                let response_col = responses[j];
                let res = self.has_guaranteed_win(&enemy_board, depth - 1, response_col);
                match res {
                    None => {
                        unknown_seen = true;
                        proof {
                            assert(!forces_win(
                                place_spec(enemy_board@, vm2[j as int] as int, p),
                                p,
                                (depth - 1) as nat,
                            ));
                        }
                    },
                    Some(true) => {
                        found = true;
                        proof {
                            witness = choose|n: nat|
                                forces_win(place_spec(enemy_board@, response_col as int, p), p, n);
                            assert(is_move(enemy_board@, vm2[j as int] as int));
                            assert(forces_win(
                                place_spec(enemy_board@, vm2[j as int] as int, p),
                                p,
                                witness,
                            ));
                        }
                    },
                    Some(false) => {
                        proof {
                            assert forall|n: nat| !forces_win(
                                place_spec(enemy_board@, vm2[j as int] as int, p),
                                p,
                                n,
                            ) by {}
                        }
                    },
                }
                j += 1;
            }
            if !found {
                if unknown_seen {
                    // No response wins within the horizon, and at least one
                    // was left unknown: the position is unknown at this depth.
                    proof {
                        assert forall|m2: int| #[trigger] is_move(enemy_board@, m2) implies
                        !forces_win(place_spec(enemy_board@, m2, p), p, (depth - 1) as nat) by {
                            assert(vm2.contains(m2 as usize));
                            let k2 = vm2.index_of(m2 as usize);
                            assert(vm2[k2] == m2 as usize);
                        }
                        if forces_win(board@, p, depth as nat) {
                            assert(is_move(board@, vm[i as int] as int));
                            assert(survives_reply(board@, p, vm[i as int] as int, depth as nat));
                            let m2 = choose|m2: int|
                                #[trigger] is_move(enemy_board@, m2) && forces_win(
                                    place_spec(enemy_board@, m2, p),
                                    p,
                                    (depth - 1) as nat,
                                );
                            assert(false);
                        }
                    }
                    let entry = SearchForWinCacheEntry {
                        board: board.duplicate(),
                        depth_searched_at: depth,
                        forced_win: None,
                    };
                    self.cache.insert(key, entry);
                    return None;
                }
                proof {
                    assert forall|m2: int, n: nat| is_move(enemy_board@, m2) implies !#[trigger]
                    forces_win(place_spec(enemy_board@, m2, p), p, n) by {
                        assert(vm2.contains(m2 as usize));
                        let k2 = vm2.index_of(m2 as usize);
                        assert(vm2[k2] == m2 as usize);
                    }
                    lemma_refuted(board@, p, enemy_col as int);
                }
                let entry = SearchForWinCacheEntry {
                    board: board.duplicate(),
                    depth_searched_at: 0,
                    forced_win: Some(false),
                };
                self.cache.insert(key, entry);
                return Some(false);
            }
            proof {
                let ghost new_bound: nat = if witness > bound {
                    witness
                } else {
                    bound
                };
                assert(branch_ok(board@, p, enemy_col as int, witness));
                assert forall|k: int| 0 <= k < i + 1 implies #[trigger] branch_ok(
                    board@,
                    p,
                    vm[k] as int,
                    new_bound,
                ) by {
                    if k < i {
                        lemma_branch_mono(board@, p, vm[k] as int, bound, new_bound);
                    } else {
                        lemma_branch_mono(board@, p, vm[k] as int, witness, new_bound);
                    }
                }
                bound = new_bound;
            }
            i += 1;
        }
        proof {
            assert forall|m: int| #[trigger] is_move(board@, m) implies survives_reply(
                board@,
                p,
                m,
                bound + 1,
            ) by {
                assert(vm.contains(m as usize));
                let k = vm.index_of(m as usize);
                assert(vm[k] == m as usize);
                assert(branch_ok(board@, p, m, bound));
            }
            assert(forces_win(board@, p, bound + 1));
        }
        let entry = SearchForWinCacheEntry {
            board: board.duplicate(),
            depth_searched_at: 0,
            forced_win: Some(true),
        };
        self.cache.insert(key, entry);
        proof {
            assert(self.cache@[key].board@ == board@);
            assert(forces_win(self.cache@[key].board@, p, bound + 1));
            assert(self.wf());
        }
        Some(true)
    }

    /// The first option whose move this search proves to force a win. A
    /// `None` is a real decline: no option forces a win within this
    /// strategy's depth.
    #[verifier::rlimit(30)]
    pub fn decide(&mut self, board: &Board, options: &Vec<usize>) -> (r: Option<usize>)
        requires
            old(self).wf(),
            board.wf(),
            balanced(board@),
            next_player_spec(board@) == old(self).piece,
            options_ok(board@, options@),
        ensures
            final(self).wf(),
            final(self).piece == old(self).piece,
            final(self).depth == old(self).depth,
            decide_ok(board@, old(self).piece, options@, r),
            r is None ==> no_forced_option(
                board@,
                old(self).piece,
                old(self).depth as nat,
                options@,
            ),
            r matches Some(c) ==> picked_in_order(
                board@,
                old(self).piece,
                old(self).depth as nat,
                options@,
                c,
            ),
    {
        let ghost p = self.piece;
        let mut i: usize = 0;
        while i < options.len()
            invariant
                self.wf(),
                self.piece == p,
                self.depth == old(self).depth,
                p == old(self).piece,
                board.wf(),
                balanced(board@),
                next_player_spec(board@) == p,
                options_ok(board@, options@),
                i <= options@.len(),
                forall|k: int|
                    0 <= k < i ==> !#[trigger] forces_win(
                        place_spec(board@, options@[k] as int, p),
                        p,
                        old(self).depth as nat,
                    ),
            decreases options@.len() - i,
        {
            let col = options[i];
            let d = self.depth;
            let res = self.has_guaranteed_win(board, d, col);
            match res {
                Some(win) => {
                    if win {
                        proof {
                            assert(res == Some(true));
                            assert(options@[i as int] == col);
                            assert(options@.contains(col));
                            assert(exists|n: nat|
                                forces_win(place_spec(board@, col as int, p), p, n));
                            assert(decide_ok(board@, old(self).piece, options@, Some(col)));
                            assert forall|t: int|
                                0 <= t < options@.take(i as int).len() implies !forces_win(
                                #[trigger] place_spec(
                                    board@,
                                    options@.take(i as int)[t] as int,
                                    p,
                                ),
                                p,
                                old(self).depth as nat,
                            ) by {
                                assert(options@.take(i as int)[t] == options@[t]);
                            }
                            assert(no_forced_option(
                                board@,
                                p,
                                old(self).depth as nat,
                                options@.take(i as int),
                            ));
                            assert(picked_in_order(
                                board@,
                                old(self).piece,
                                old(self).depth as nat,
                                options@,
                                col,
                            ));
                        }
                        return Some(col);
                    }
                    proof {
                        assert(res == Some(false));
                        assert(!forces_win(
                            place_spec(board@, options@[i as int] as int, p),
                            p,
                            old(self).depth as nat,
                        ));
                    }
                },
                None => {
                    proof {
                        assert(!forces_win(
                            place_spec(board@, options@[i as int] as int, p),
                            p,
                            old(self).depth as nat,
                        ));
                    }
                },
            }
            i += 1;
        }
        None
    }
}

} // verus!
