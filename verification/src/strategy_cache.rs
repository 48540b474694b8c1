use vstd::prelude::*;

use std::collections::HashMap;

use crate::board::{key_spec, valid_moves_spec, Board};
use crate::strategy::{eval_spec, is_move, no_winner, options_ok, same_strategy, StrategyStack};

verus! {

broadcast use vstd::std_specs::hash::group_hash_axioms;

/// Counters describing how a cache has been used.
#[derive(Debug, Clone, Copy, PartialEq, Eq, Structural)]
pub struct StrategyCacheStats {
    pub hits: u64,
    pub misses: u64,
    pub entries: usize,
}

/// One memoized stack decision: the board it was made on and the candidate
/// set the stack returned for it.
pub struct StrategyCacheEntry {
    pub board: Board,
    pub options: Vec<usize>,
}

/// A stored decision is well formed: a non-empty set of legal moves of the
/// stored board.
pub open spec fn cached_decision_ok(e: StrategyCacheEntry) -> bool {
    &&& e.board.wf()
    &&& e.options@.len() > 0
    &&& options_ok(e.board@, e.options@)
}

/// A strategy stack wrapped in a memo table: the stack's whole candidate
/// set is remembered per exact board, so a repeated position is answered
/// from the table, bit for bit the same set.
pub struct StrategyCache {
    pub stack: StrategyStack,
    pub cache: HashMap<u64, StrategyCacheEntry>,
    pub hits: u64,
    pub misses: u64,
}

impl StrategyCache {
    /// The stack is well formed and every stored decision is well formed.
    pub open spec fn wf(self) -> bool {
        &&& self.stack.wf()
        &&& forall|k: u64|
            self.cache@.contains_key(k) ==> cached_decision_ok(#[trigger] self.cache@[k])
    }

    pub fn new(stack: StrategyStack) -> (s: Self)
        requires
            stack.wf(),
        ensures
            s.wf(),
            s.stack == stack,
            s.cache@ == Map::<u64, StrategyCacheEntry>::empty(),
            s.hits == 0,
            s.misses == 0,
    {
        StrategyCache { stack, cache: HashMap::new(), hits: 0, misses: 0 }
    }

    /// How often the table answered, how often the stack had to run, and
    /// how many boards the table holds.
    pub fn cache_stats(&self) -> (stats: StrategyCacheStats)
        ensures
            stats.hits == self.hits,
            stats.misses == self.misses,
            stats.entries == self.cache@.len(),
    {
        StrategyCacheStats { hits: self.hits, misses: self.misses, entries: self.cache.len() }
    }

    /// Play a move: answer from the memo table when this exact board was
    /// seen before — leaving the table and the stack untouched — and
    /// otherwise run the stack once and remember its whole candidate set.
    /// The move is drawn at random from the remembered set, so repeated
    /// queries of the identical board draw from the identical set.
    pub fn play(&mut self, board: &Board) -> (r: Option<usize>)
        requires
            old(self).wf(),
            old(self).stack.fits(board@),
            board.wf(),
            no_winner(board@),
            valid_moves_spec(board@).len() > 0,
        ensures
            final(self).wf(),
            r is Some,
            r matches Some(c) ==> is_move(board@, c as int),
            final(self).stack.strategies@.len() == old(self).stack.strategies@.len(),
            forall|k: int|
                0 <= k < old(self).stack.strategies@.len() ==> same_strategy(
                    #[trigger] old(self).stack.strategies@[k],
                    final(self).stack.strategies@[k],
                ),
            final(self).cache@.contains_key(key_spec(board@) as u64),
            final(self).cache@[key_spec(board@) as u64].board@ == board@,
            r matches Some(c) ==> final(self).cache@[key_spec(board@) as u64].options@.contains(c),
            (old(self).cache@.contains_key(key_spec(board@) as u64) && old(self).cache@[key_spec(
                board@,
            ) as u64].board@ == board@) ==> (final(self).cache@ == old(self).cache@
                && final(self).stack == old(self).stack && final(self).misses == old(self).misses
                && (old(self).hits < u64::MAX ==> final(self).hits == old(self).hits + 1)),
            !(old(self).cache@.contains_key(key_spec(board@) as u64) && old(self).cache@[key_spec(
                board@,
            ) as u64].board@ == board@) ==> (final(self).hits == old(self).hits
                && (old(self).misses < u64::MAX ==> final(self).misses == old(self).misses + 1)),
            !(old(self).cache@.contains_key(key_spec(board@) as u64) && old(self).cache@[key_spec(
                board@,
            ) as u64].board@ == board@) ==> final(self).cache@ == old(self).cache@.insert(
                key_spec(board@) as u64,
                final(self).cache@[key_spec(board@) as u64],
            ),
            (!(old(self).cache@.contains_key(key_spec(board@) as u64) && old(self).cache@[key_spec(
                board@,
            ) as u64].board@ == board@) && old(self).stack.deterministic()) ==> (final(
                self).cache@[key_spec(board@) as u64].options@ == eval_spec(
                board@,
                old(self).stack.strategies@,
            ) && (r matches Some(c) ==> eval_spec(board@, old(self).stack.strategies@).contains(
                c,
            ))),
    {
        let key = board.cache_key();
        let mut cached: Option<Vec<usize>> = None;
        match self.cache.get(&key) {
            Some(entry) => {
                if entry.board.same_as(board) {
                    cached = Some(copy_columns(&entry.options));
                    proof {
                        assert(self.cache@.contains_key(key));
                        assert(self.cache@[key] == *entry);
                    }
                }
            },
            None => {},
        }
        match cached {
            Some(opts) => {
                self.hits = self.hits.wrapping_add(1);
                proof {
                    assert(cached_decision_ok(self.cache@[key]));
                    assert(self.cache@[key].board@ == board@);
                    assert(opts@ == self.cache@[key].options@);
                }
                let idx = crate::strategy::pick_index(opts.len());
                let c = opts[idx];
                proof {
                    assert(self.cache@[key].options@[idx as int] == c);
                    assert(self.cache@[key].options@.contains(c));
                    assert(options_ok(board@, self.cache@[key].options@));
                }
                Some(c)
            },
            None => {
                self.misses = self.misses.wrapping_add(1);
                let result = self.stack.evaluate_options(board);
                let idx = crate::strategy::pick_index(result.len());
                let c = result[idx];
                proof {
                    assert(result@[idx as int] == c);
                    assert(result@.contains(c));
                }
                let entry = StrategyCacheEntry { board: board.duplicate(), options: result };
                self.cache.insert(key, entry);
                Some(c)
            },
        }
    }
}

/// An exact copy of a column list.
fn copy_columns(v: &Vec<usize>) -> (r: Vec<usize>)
    ensures
        r@ == v@,
{
    let mut r: Vec<usize> = Vec::new();
    let mut i: usize = 0;
    while i < v.len()
        invariant
            i <= v@.len(),
            r@ =~= v@.subrange(0, i as int),
        decreases v@.len() - i,
    {
        r.push(v[i]);
        i += 1;
    }
    proof {
        assert(r@ =~= v@);
    }
    r
}

} // verus!
