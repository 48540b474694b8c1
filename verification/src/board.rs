use vstd::prelude::*;

verus! {

/// Number of rows of the playing grid.
pub const ROWS: usize = 6;

/// Number of columns of the playing grid.
pub const COLUMNS: usize = 7;

/// A cell of the grid: empty, or occupied by one of the two players.
/// Red always moves first.
#[derive(Debug, Clone, Copy, PartialEq, Eq, Hash, Structural)]
pub enum Piece {
    Empty,
    Red,
    Blue,
}

impl Piece {
    /// The other player's piece; `Empty` maps to itself so that the spec is total.
    pub open spec fn flip(self) -> Piece {
        match self {
            Piece::Empty => Piece::Empty,
            Piece::Red => Piece::Blue,
            Piece::Blue => Piece::Red,
        }
    }

    /// The piece of the player playing against `self`.
    pub fn opponent(&self) -> (r: Piece)
        requires
            *self != Piece::Empty,
        ensures
            r == self.flip(),
            r != Piece::Empty,
    {
        match self {
            Piece::Red => Piece::Blue,
            Piece::Blue => Piece::Red,
            Piece::Empty => vstd::pervasive::unreached(),
        }
    }

    /// A printable name for a player's piece.
    pub fn name(&self) -> (r: &'static str)
        requires
            *self != Piece::Empty,
        ensures
            *self == Piece::Red ==> r@ == "Red"@,
            *self == Piece::Blue ==> r@ == "Blue"@,
    {
        match self {
            Piece::Red => "Red",
            Piece::Blue => "Blue",
            Piece::Empty => vstd::pervasive::unreached(),
        }
    }
}

/// The cell of grid `g` at column `c` (0-based, left to right) and row `r`
/// (0-based, bottom to top). Grids are stored column-major.
pub open spec fn cell(g: Seq<Piece>, c: int, r: int) -> Piece {
    g[c * 6 + r]
}

/// A well-formed grid: 7 columns of 6 cells, and in every column the occupied
/// cells are contiguous from the bottom (gravity).
pub open spec fn grid_ok(g: Seq<Piece>) -> bool {
    &&& g.len() == 42
    &&& forall|c: int, r1: int, r2: int|
        #![trigger cell(g, c, r1), cell(g, c, r2)]
        0 <= c < 7 && 0 <= r1 <= r2 < 6 && cell(g, c, r1) == Piece::Empty ==> cell(g, c, r2)
            == Piece::Empty
}

/// Number of consecutive occupied cells of column `c` from row `r` upward.
pub open spec fn stack_above(g: Seq<Piece>, c: int, r: int) -> nat
    decreases 6 - r,
{
    if r < 0 || r >= 6 {
        0
    } else if cell(g, c, r) == Piece::Empty {
        0
    } else {
        1 + stack_above(g, c, r + 1)
    }
}

/// Height of column `c`: how many of its cells are occupied.
pub open spec fn col_height(g: Seq<Piece>, c: int) -> nat {
    stack_above(g, c, 0)
}

proof fn lemma_stack_above(g: Seq<Piece>, c: int, r: int)
    requires
        grid_ok(g),
        0 <= c < 7,
        0 <= r <= 6,
    ensures
        stack_above(g, c, r) <= 6 - r,
        forall|j: int| r <= j < r + stack_above(g, c, r) ==> #[trigger] cell(g, c, j)
            != Piece::Empty,
        forall|j: int| r + stack_above(g, c, r) <= j < 6 ==> #[trigger] cell(g, c, j)
            == Piece::Empty,
    decreases 6 - r,
{
    if r < 6 {
        lemma_stack_above(g, c, r + 1);
    }
}

/// In a well-formed grid, a column's cells below its height are occupied and
/// the cells from its height upward are empty.
pub proof fn lemma_height(g: Seq<Piece>, c: int)
    requires
        grid_ok(g),
        0 <= c < 7,
    ensures
        col_height(g, c) <= 6,
        forall|r: int| 0 <= r < col_height(g, c) ==> #[trigger] cell(g, c, r) != Piece::Empty,
        forall|r: int| col_height(g, c) <= r < 6 ==> #[trigger] cell(g, c, r) == Piece::Empty,
{
    lemma_stack_above(g, c, 0);
}

/// The grid after dropping `p` into column `c`: the lowest empty cell of the
/// column receives the piece.
pub open spec fn place_spec(g: Seq<Piece>, c: int, p: Piece) -> Seq<Piece> {
    g.update(c * 6 + col_height(g, c), p)
}

/// Cell-level description of `place_spec`: exactly one cell changes, the grid
/// stays well-formed, and the column's height grows by one.
pub proof fn lemma_place(g: Seq<Piece>, c: int, p: Piece)
    requires
        grid_ok(g),
        0 <= c < 7,
        col_height(g, c) < 6,
        p != Piece::Empty,
    ensures
        place_spec(g, c, p).len() == 42,
        forall|c2: int, r2: int|
            0 <= c2 < 7 && 0 <= r2 < 6 ==> #[trigger] cell(place_spec(g, c, p), c2, r2) == (if c2
                == c && r2 == col_height(g, c) {
                p
            } else {
                cell(g, c2, r2)
            }),
        grid_ok(place_spec(g, c, p)),
        col_height(place_spec(g, c, p), c) == col_height(g, c) + 1,
        forall|c2: int|
            0 <= c2 < 7 && c2 != c ==> #[trigger] col_height(place_spec(g, c, p), c2) == col_height(
                g,
                c2,
            ),
{
    lemma_height(g, c);
    let h = col_height(g, c) as int;
    let g2 = place_spec(g, c, p);
    lemma_update_cells(g, c, h, p);
    assert(grid_ok(g2)) by {
        assert forall|c2: int, r1: int, r2: int|
            0 <= c2 < 7 && 0 <= r1 <= r2 < 6 && #[trigger] cell(g2, c2, r1)
                == Piece::Empty implies #[trigger] cell(g2, c2, r2) == Piece::Empty by {
            assert(!(c2 == c && r1 == h));
            assert(cell(g, c2, r1) == Piece::Empty);
            assert(cell(g, c2, r2) == Piece::Empty);
            if c2 == c && r2 == h {
                assert(cell(g, c, r1) == Piece::Empty && r1 < h);
                assert(false);
            }
        }
    }
    assert forall|c2: int| 0 <= c2 < 7 implies #[trigger] col_height(g2, c2) == (if c2 == c {
        col_height(g, c2) + 1
    } else {
        col_height(g, c2)
    }) by {
        lemma_height(g2, c2);
        lemma_height(g, c2);
        let e2 = col_height(g2, c2) as int;
        let e: int = if c2 == c {
            col_height(g, c2) as int + 1
        } else {
            col_height(g, c2) as int
        };
        if e2 < e {
            assert(cell(g2, c2, e2) == Piece::Empty);
            assert(cell(g2, c2, e2) != Piece::Empty);
        }
        if e2 > e {
            assert(cell(g2, c2, e) != Piece::Empty);
            assert(cell(g2, c2, e) == Piece::Empty);
        }
    }
}

/// Updating the cell at `(c, h)` changes no other cell.
pub proof fn lemma_update_cells(g: Seq<Piece>, c: int, h: int, p: Piece)
    requires
        g.len() == 42,
        0 <= c < 7,
        0 <= h < 6,
    ensures
        forall|c2: int, r2: int|
            0 <= c2 < 7 && 0 <= r2 < 6 ==> #[trigger] cell(g.update(c * 6 + h, p), c2, r2) == (if c2
                == c && r2 == h {
                p
            } else {
                cell(g, c2, r2)
            }),
{
    assert forall|c2: int, r2: int| 0 <= c2 < 7 && 0 <= r2 < 6 implies #[trigger] cell(
        g.update(c * 6 + h, p),
        c2,
        r2,
    ) == (if c2 == c && r2 == h {
        p
    } else {
        cell(g, c2, r2)
    }) by {
        if c2 * 6 + r2 == c * 6 + h {
            assert((c2 - c) * 6 == h - r2);
            assert(c2 == c && r2 == h);
        }
    }
}

/// The empty grid.
pub open spec fn empty_grid() -> Seq<Piece> {
    Seq::new(42, |i: int| Piece::Empty)
}

/// The views of a vector of rows.
pub open spec fn rows_views(rows: Seq<Vec<Piece>>) -> Seq<Seq<Piece>> {
    Seq::new(rows.len(), |i: int| rows[i]@)
}

/// A flat grid read off six rows given top to bottom, before gravity is
/// applied.
pub open spec fn rows_grid(rows: Seq<Seq<Piece>>) -> Seq<Piece> {
    Seq::new(42, |i: int| rows[5 - (i % 6)][i / 6])
}

/// Reading `rows_grid` by column and row looks up the matching row entry.
pub proof fn lemma_rows_grid_cell(rows: Seq<Seq<Piece>>, c: int, r: int)
    requires
        0 <= c < 7,
        0 <= r < 6,
    ensures
        cell(rows_grid(rows), c, r) == rows[5 - r][c],
{
    crate::codec::lemma_flat_index(c, r);
}

/// Two grids with the same cells in a column stack to the same height.
pub proof fn lemma_stack_congruent(g1: Seq<Piece>, g2: Seq<Piece>, c: int, r: int)
    requires
        forall|j: int| 0 <= j < 6 ==> #[trigger] cell(g1, c, j) == cell(g2, c, j),
        0 <= r <= 6,
    ensures
        stack_above(g1, c, r) == stack_above(g2, c, r),
    decreases 6 - r,
{
    if r < 6 {
        lemma_stack_congruent(g1, g2, c, r + 1);
    }
}

/// How many of the lowest `r` cells of column `c` hold `p`.
pub open spec fn col_count(g: Seq<Piece>, c: int, p: Piece, r: int) -> nat
    decreases r,
{
    if r <= 0 {
        0
    } else {
        col_count(g, c, p, r - 1) + (if cell(g, c, r - 1) == p {
            1nat
        } else {
            0nat
        })
    }
}

/// How many cells of the first `c` columns hold `p`.
pub open spec fn piece_count_upto(g: Seq<Piece>, p: Piece, c: int) -> nat
    decreases c,
{
    if c <= 0 {
        0
    } else {
        piece_count_upto(g, p, c - 1) + col_count(g, c - 1, p, 6)
    }
}

/// How many cells of the grid hold `p`.
pub open spec fn piece_count(g: Seq<Piece>, p: Piece) -> nat {
    piece_count_upto(g, p, 7)
}

/// The balance invariant of legal play: Red moves first, so Red has placed
/// as many pieces as Blue or exactly one more.
pub open spec fn balanced(g: Seq<Piece>) -> bool {
    piece_count(g, Piece::Red) == piece_count(g, Piece::Blue) || piece_count(g, Piece::Red)
        == piece_count(g, Piece::Blue) + 1
}

/// Whose turn it is, derived from the piece counts.
pub open spec fn next_player_spec(g: Seq<Piece>) -> Piece {
    if piece_count(g, Piece::Red) == piece_count(g, Piece::Blue) {
        Piece::Red
    } else {
        Piece::Blue
    }
}

/// Total number of pieces on the grid.
pub open spec fn num_pieces(g: Seq<Piece>) -> nat {
    piece_count(g, Piece::Red) + piece_count(g, Piece::Blue)
}

proof fn lemma_col_count_split(g: Seq<Piece>, c: int, r: int)
    requires
        grid_ok(g),
        0 <= c < 7,
        0 <= r <= 6,
    ensures
        col_count(g, c, Piece::Red, r) + col_count(g, c, Piece::Blue, r) == (if r
            <= col_height(g, c) {
            r
        } else {
            col_height(g, c) as int
        }),
    decreases r,
{
    lemma_height(g, c);
    if r > 0 {
        lemma_col_count_split(g, c, r - 1);
    }
}

proof fn lemma_col_count_congruent(g1: Seq<Piece>, g2: Seq<Piece>, c: int, p: Piece, r: int)
    requires
        forall|j: int| 0 <= j < 6 ==> #[trigger] cell(g1, c, j) == cell(g2, c, j),
        0 <= r <= 6,
    ensures
        col_count(g1, c, p, r) == col_count(g2, c, p, r),
    decreases r,
{
    if r > 0 {
        lemma_col_count_congruent(g1, g2, c, p, r - 1);
    }
}

proof fn lemma_col_count_update(g: Seq<Piece>, c: int, h: int, p: Piece, q: Piece, r: int)
    requires
        grid_ok(g),
        0 <= c < 7,
        h == col_height(g, c) < 6,
        p != Piece::Empty,
        q != Piece::Empty,
    ensures
        0 <= r <= 6 ==> col_count(place_spec(g, c, p), c, q, r) == col_count(g, c, q, r) + (if r > h
            && q == p {
            1int
        } else {
            0int
        }),
    decreases r,
{
    lemma_place(g, c, p);
    lemma_height(g, c);
    if 0 < r <= 6 {
        lemma_col_count_update(g, c, h, p, q, r - 1);
    }
}

proof fn lemma_piece_count_upto_place(g: Seq<Piece>, c: int, p: Piece, q: Piece, k: int)
    requires
        grid_ok(g),
        0 <= c < 7,
        col_height(g, c) < 6,
        p != Piece::Empty,
        q != Piece::Empty,
        0 <= k <= 7,
    ensures
        piece_count_upto(place_spec(g, c, p), q, k) == piece_count_upto(g, q, k) + (if c < k && q
            == p {
            1int
        } else {
            0int
        }),
    decreases k,
{
    if k > 0 {
        lemma_piece_count_upto_place(g, c, p, q, k - 1);
        if k - 1 == c {
            lemma_col_count_update(g, c, col_height(g, c) as int, p, q, 6);
        } else {
            lemma_place(g, c, p);
            assert forall|j: int| 0 <= j < 6 implies #[trigger] cell(place_spec(g, c, p), k - 1, j)
                == cell(g, k - 1, j) by {}
            lemma_col_count_congruent(place_spec(g, c, p), g, k - 1, q, 6);
        }
    }
}

/// Dropping a piece raises that player's count by one and leaves the other
/// player's count unchanged.
pub proof fn lemma_place_counts(g: Seq<Piece>, c: int, p: Piece)
    requires
        grid_ok(g),
        0 <= c < 7,
        col_height(g, c) < 6,
        p != Piece::Empty,
    ensures
        piece_count(place_spec(g, c, p), p) == piece_count(g, p) + 1,
        piece_count(place_spec(g, c, p), p.flip()) == piece_count(g, p.flip()),
        num_pieces(place_spec(g, c, p)) == num_pieces(g) + 1,
{
    lemma_piece_count_upto_place(g, c, p, Piece::Red, 7);
    lemma_piece_count_upto_place(g, c, p, Piece::Blue, 7);
}

/// The empty grid holds no pieces at all.
pub proof fn lemma_empty_counts()
    ensures
        piece_count(empty_grid(), Piece::Red) == 0,
        piece_count(empty_grid(), Piece::Blue) == 0,
        balanced(empty_grid()),
        next_player_spec(empty_grid()) == Piece::Red,
        grid_ok(empty_grid()),
{
    assert forall|p: Piece, k: int| p != Piece::Empty && 0 <= k <= 7 implies #[trigger]
        piece_count_upto(empty_grid(), p, k) == 0 by {
        lemma_empty_count_upto(p, k);
    }
}

proof fn lemma_empty_count_upto(p: Piece, k: int)
    requires
        p != Piece::Empty,
        0 <= k <= 7,
    ensures
        piece_count_upto(empty_grid(), p, k) == 0,
    decreases k,
{
    if k > 0 {
        lemma_empty_count_upto(p, k - 1);
        lemma_empty_col_count(p, k - 1, 6);
    }
}

proof fn lemma_empty_col_count(p: Piece, c: int, r: int)
    requires
        p != Piece::Empty,
        0 <= c < 7,
        0 <= r <= 6,
    ensures
        col_count(empty_grid(), c, p, r) == 0,
    decreases r,
{
    if r > 0 {
        lemma_empty_col_count(p, c, r - 1);
    }
}

proof fn lemma_pieces_upto_bound(g: Seq<Piece>, k: int)
    requires
        grid_ok(g),
        0 <= k <= 7,
    ensures
        piece_count_upto(g, Piece::Red, k) + piece_count_upto(g, Piece::Blue, k) <= 6 * k,
    decreases k,
{
    if k > 0 {
        lemma_pieces_upto_bound(g, k - 1);
        lemma_col_count_split(g, k - 1, 6);
        lemma_height(g, k - 1);
    }
}

/// A grid never holds more than 42 pieces.
pub proof fn lemma_total_pieces_bound(g: Seq<Piece>)
    requires
        grid_ok(g),
    ensures
        num_pieces(g) <= 42,
{
    lemma_pieces_upto_bound(g, 7);
}

/// Balance is an invariant of legal play: if the player to move places a
/// piece in any open column, the piece counts still differ by zero or one.
pub proof fn lemma_balance_preserved(g: Seq<Piece>, c: int)
    requires
        grid_ok(g),
        balanced(g),
        0 <= c < 7,
        col_height(g, c) < 6,
    ensures
        balanced(place_spec(g, c, next_player_spec(g))),
        next_player_spec(place_spec(g, c, next_player_spec(g))) == next_player_spec(g).flip(),
{
    lemma_place_counts(g, c, next_player_spec(g));
}

/// The columns still open for a move, in ascending order, among the first
/// `c` columns.
pub open spec fn vm_upto(g: Seq<Piece>, c: int) -> Seq<usize>
    decreases c,
{
    if c <= 0 {
        Seq::empty()
    } else {
        vm_upto(g, c - 1) + (if col_height(g, c - 1) < 6 {
            seq![(c - 1) as usize]
        } else {
            Seq::empty()
        })
    }
}

/// The columns still open for a move, in ascending order.
pub open spec fn valid_moves_spec(g: Seq<Piece>) -> Seq<usize> {
    vm_upto(g, 7)
}

/// Strictly increasing left to right; such a sequence holds no duplicates.
pub open spec fn ascending(s: Seq<usize>) -> bool {
    forall|i: int, j: int| 0 <= i < j < s.len() ==> s[i] < s[j]
}

/// Grids reached from the empty grid by `n` legal moves of alternating
/// play: each step drops the player to move into an open column.
pub open spec fn reachable_in(g: Seq<Piece>, n: nat) -> bool
    decreases n,
{
    if n == 0 {
        g == empty_grid()
    } else {
        exists|g2: Seq<Piece>, m: int|
            0 <= m < 7 && col_height(g2, m) < 6 && reachable_in(g2, (n - 1) as nat)
                && g == #[trigger] place_spec(g2, m, next_player_spec(g2))
    }
}

/// Grids reached from the empty grid by legal alternating play.
pub open spec fn reachable(g: Seq<Piece>) -> bool {
    reachable_in(g, num_pieces(g))
}

proof fn lemma_reachable_in_balanced(g: Seq<Piece>, n: nat)
    requires
        reachable_in(g, n),
    ensures
        grid_ok(g),
        balanced(g),
    decreases n,
{
    if n == 0 {
        lemma_empty_counts();
    } else {
        let (g2, m) = choose|g2: Seq<Piece>, m: int|
            0 <= m < 7 && col_height(g2, m) < 6 && reachable_in(g2, (n - 1) as nat)
                && g == #[trigger] place_spec(g2, m, next_player_spec(g2));
        lemma_reachable_in_balanced(g2, (n - 1) as nat);
        lemma_balance_preserved(g2, m);
        lemma_place(g2, m, next_player_spec(g2));
    }
}

/// Every board reached by legal alternating play keeps the balance
/// invariant: red has placed as many pieces as blue, or exactly one more.
pub proof fn lemma_reachable_balanced(g: Seq<Piece>)
    requires
        reachable(g),
    ensures
        grid_ok(g),
        balanced(g),
{
    lemma_reachable_in_balanced(g, num_pieces(g));
}

proof fn lemma_vm_upto(g: Seq<Piece>, c: int)
    requires
        0 <= c <= 7,
    ensures
        forall|i: int| 0 <= i < vm_upto(g, c).len() ==> (#[trigger] vm_upto(g, c)[i] < c
            && col_height(g, vm_upto(g, c)[i] as int) < 6),
        forall|i: int, j: int| 0 <= i < j < vm_upto(g, c).len() ==> vm_upto(g, c)[i] < vm_upto(
            g,
            c,
        )[j],
        forall|m: usize| m < c && col_height(g, m as int) < 6 ==> vm_upto(g, c).contains(m),
    decreases c,
{
    if c > 0 {
        lemma_vm_upto(g, c - 1);
        assert forall|i: int| 0 <= i < vm_upto(g, c).len() implies (#[trigger] vm_upto(g, c)[i] < c
            && col_height(g, vm_upto(g, c)[i] as int) < 6) by {
            if i < vm_upto(g, c - 1).len() {
                assert(vm_upto(g, c)[i] == vm_upto(g, c - 1)[i]);
            }
        }
        assert forall|i: int, j: int| 0 <= i < j < vm_upto(g, c).len() implies vm_upto(g, c)[i]
            < vm_upto(g, c)[j] by {
            if j < vm_upto(g, c - 1).len() {
                assert(vm_upto(g, c)[i] == vm_upto(g, c - 1)[i]);
                assert(vm_upto(g, c)[j] == vm_upto(g, c - 1)[j]);
            } else {
                assert(vm_upto(g, c)[i] == vm_upto(g, c - 1)[i]);
                assert(vm_upto(g, c)[j] == c - 1);
            }
        }
        assert forall|m: usize| m < c && col_height(g, m as int) < 6 implies vm_upto(
            g,
            c,
        ).contains(m) by {
            if m < c - 1 {
                assert(vm_upto(g, c - 1).contains(m));
                let i = vm_upto(g, c - 1).index_of(m);
                assert(0 <= i < vm_upto(g, c - 1).len() && vm_upto(g, c - 1)[i] == m);
                assert(vm_upto(g, c)[i] == m);
            } else {
                assert(col_height(g, c - 1) < 6);
                assert(vm_upto(g, c)[vm_upto(g, c).len() - 1] == m);
            }
        }
    }
}

/// What `valid_moves_spec` holds: exactly the columns whose height is below
/// six, each listed once, in ascending order.
pub proof fn lemma_valid_moves(g: Seq<Piece>)
    ensures
        forall|i: int| 0 <= i < valid_moves_spec(g).len() ==> (#[trigger] valid_moves_spec(g)[i] < 7
            && col_height(g, valid_moves_spec(g)[i] as int) < 6),
        forall|i: int, j: int| 0 <= i < j < valid_moves_spec(g).len() ==> valid_moves_spec(g)[i]
            < valid_moves_spec(g)[j],
        forall|m: usize| m < 7 && col_height(g, m as int) < 6 ==> valid_moves_spec(g).contains(m),
{
    lemma_vm_upto(g, 7);
}

/// The four window directions: rightward, upward, and the two diagonals.
pub open spec fn dir_ok(dc: int, dr: int) -> bool {
    ||| (dc == 1 && dr == 0)
    ||| (dc == 0 && dr == 1)
    ||| (dc == 1 && dr == 1)
    ||| (dc == 1 && dr == -1)
}

/// A window of four cells starting at `(c, r)` and stepping by `(dc, dr)`
/// lies entirely on the grid.
pub open spec fn window_ok(c: int, r: int, dc: int, dr: int) -> bool {
    &&& dir_ok(dc, dr)
    &&& 0 <= c && c + 3 * dc < 7
    &&& 0 <= r < 6
    &&& 0 <= r + 3 * dr < 6
}

/// All four cells of the window hold `p`.
pub open spec fn four_at(g: Seq<Piece>, p: Piece, c: int, r: int, dc: int, dr: int) -> bool {
    &&& cell(g, c, r) == p
    &&& cell(g, c + dc, r + dr) == p
    &&& cell(g, c + 2 * dc, r + 2 * dr) == p
    &&& cell(g, c + 3 * dc, r + 3 * dr) == p
}

/// Player `p` has four in a row somewhere on the grid.
pub open spec fn has_four(g: Seq<Piece>, p: Piece) -> bool {
    p != Piece::Empty && exists|c: int, r: int, dc: int, dr: int|
        window_ok(c, r, dc, dr) && #[trigger] four_at(g, p, c, r, dc, dr)
}

/// Every column is full.
pub open spec fn full_grid(g: Seq<Piece>) -> bool {
    forall|c: int| 0 <= c < 7 ==> col_height(g, c) == 6
}

/// The game is over: someone has four in a row, or no move is left.
pub open spec fn terminal_spec(g: Seq<Piece>) -> bool {
    has_four(g, Piece::Red) || has_four(g, Piece::Blue) || full_grid(g)
}

/// Dropping a piece never gives the *other* player a new four in a row:
/// only the cell of the placed piece changes.
pub proof fn lemma_place_no_new_four(g: Seq<Piece>, c: int, p: Piece, q: Piece)
    requires
        grid_ok(g),
        0 <= c < 7,
        col_height(g, c) < 6,
        p != Piece::Empty,
        q != Piece::Empty,
        q != p,
        !has_four(g, q),
    ensures
        !has_four(place_spec(g, c, p), q),
{
    lemma_place(g, c, p);
    let g2 = place_spec(g, c, p);
    if has_four(g2, q) {
        let (c2, r2, dc, dr) = choose|c2: int, r2: int, dc: int, dr: int|
            window_ok(c2, r2, dc, dr) && #[trigger] four_at(g2, q, c2, r2, dc, dr);
        assert(cell(g, c2, r2) == q);
        assert(cell(g, c2 + dc, r2 + dr) == q);
        assert(cell(g, c2 + 2 * dc, r2 + 2 * dr) == q);
        assert(cell(g, c2 + 3 * dc, r2 + 3 * dr) == q);
        assert(four_at(g, q, c2, r2, dc, dr));
        assert(false);
    }
}

/// The winning moves for `p` among the first `k` columns: open columns where
/// dropping `p` completes four in a row.
pub open spec fn wm_upto(g: Seq<Piece>, p: Piece, k: int) -> Seq<usize>
    decreases k,
{
    if k <= 0 {
        Seq::empty()
    } else {
        wm_upto(g, p, k - 1) + (if col_height(g, k - 1) < 6 && has_four(
            place_spec(g, k - 1, p),
            p,
        ) {
            seq![(k - 1) as usize]
        } else {
            Seq::empty()
        })
    }
}

/// The columns in which dropping `p` wins at once, in ascending order.
pub open spec fn winning_moves_spec(g: Seq<Piece>, p: Piece) -> Seq<usize> {
    wm_upto(g, p, 7)
}

proof fn lemma_wm_upto(g: Seq<Piece>, p: Piece, k: int)
    requires
        0 <= k <= 7,
    ensures
        forall|i: int| 0 <= i < wm_upto(g, p, k).len() ==> (#[trigger] wm_upto(g, p, k)[i] < k
            && col_height(g, wm_upto(g, p, k)[i] as int) < 6 && has_four(
            place_spec(g, wm_upto(g, p, k)[i] as int, p),
            p,
        )),
        forall|i: int, j: int| 0 <= i < j < wm_upto(g, p, k).len() ==> wm_upto(g, p, k)[i]
            < wm_upto(g, p, k)[j],
        forall|m: usize|
            m < k && col_height(g, m as int) < 6 && has_four(place_spec(g, m as int, p), p)
                ==> wm_upto(g, p, k).contains(m),
    decreases k,
{
    if k > 0 {
        lemma_wm_upto(g, p, k - 1);
        assert forall|i: int| 0 <= i < wm_upto(g, p, k).len() implies (#[trigger] wm_upto(
            g,
            p,
            k,
        )[i] < k && col_height(g, wm_upto(g, p, k)[i] as int) < 6 && has_four(
            place_spec(g, wm_upto(g, p, k)[i] as int, p),
            p,
        )) by {
            if i < wm_upto(g, p, k - 1).len() {
                assert(wm_upto(g, p, k)[i] == wm_upto(g, p, k - 1)[i]);
            }
        }
        assert forall|i: int, j: int| 0 <= i < j < wm_upto(g, p, k).len() implies wm_upto(
            g,
            p,
            k,
        )[i] < wm_upto(g, p, k)[j] by {
            assert(wm_upto(g, p, k)[i] == wm_upto(g, p, k - 1)[i]);
            if j < wm_upto(g, p, k - 1).len() {
                assert(wm_upto(g, p, k)[j] == wm_upto(g, p, k - 1)[j]);
            } else {
                assert(wm_upto(g, p, k)[j] == k - 1);
            }
        }
        assert forall|m: usize|
            m < k && col_height(g, m as int) < 6 && has_four(
                place_spec(g, m as int, p),
                p,
            ) implies wm_upto(g, p, k).contains(m) by {
            if m < k - 1 {
                assert(wm_upto(g, p, k - 1).contains(m));
                let i = wm_upto(g, p, k - 1).index_of(m);
                assert(0 <= i < wm_upto(g, p, k - 1).len() && wm_upto(g, p, k - 1)[i] == m);
                assert(wm_upto(g, p, k)[i] == m);
            } else {
                assert(wm_upto(g, p, k)[wm_upto(g, p, k).len() - 1] == m);
            }
        }
    }
}

/// What `winning_moves_spec` holds: exactly the open columns where dropping
/// `p` completes four in a row, each listed once, in ascending order.
pub proof fn lemma_winning_moves(g: Seq<Piece>, p: Piece)
    ensures
        forall|i: int| 0 <= i < winning_moves_spec(g, p).len() ==> (#[trigger] winning_moves_spec(
            g,
            p,
        )[i] < 7 && col_height(g, winning_moves_spec(g, p)[i] as int) < 6 && has_four(
            place_spec(g, winning_moves_spec(g, p)[i] as int, p),
            p,
        )),
        forall|i: int, j: int| 0 <= i < j < winning_moves_spec(g, p).len() ==> winning_moves_spec(
            g,
            p,
        )[i] < winning_moves_spec(g, p)[j],
        forall|m: usize|
            m < 7 && col_height(g, m as int) < 6 && has_four(place_spec(g, m as int, p), p)
                ==> winning_moves_spec(g, p).contains(m),
{
    lemma_wm_upto(g, p, 7);
}

/// Exactly three of the four cells hold `p` and the remaining one is empty:
/// one more piece would complete four in a row.
pub open spec fn opportunity4(a: Piece, b: Piece, c: Piece, d: Piece, p: Piece) -> bool {
    ||| (a == Piece::Empty && b == p && c == p && d == p)
    ||| (a == p && b == Piece::Empty && c == p && d == p)
    ||| (a == p && b == p && c == Piece::Empty && d == p)
    ||| (a == p && b == p && c == p && d == Piece::Empty)
}

/// The window anchored at `(c, r)` with step `(dc, dr)` is a winning
/// opportunity for `p`.
pub open spec fn window_opportunity(
    g: Seq<Piece>,
    p: Piece,
    c: int,
    r: int,
    dc: int,
    dr: int,
) -> bool {
    opportunity4(
        cell(g, c, r),
        cell(g, c + dc, r + dr),
        cell(g, c + 2 * dc, r + 2 * dr),
        cell(g, c + 3 * dc, r + 3 * dr),
        p,
    )
}

/// Opportunities for `p` among windows anchored at `(0..cmax, r)`.
pub open spec fn opp_in_row(g: Seq<Piece>, p: Piece, r: int, cmax: int, dc: int, dr: int) -> nat
    decreases cmax,
{
    if cmax <= 0 {
        0
    } else {
        opp_in_row(g, p, r, cmax - 1, dc, dr) + (if window_opportunity(g, p, cmax - 1, r, dc, dr) {
            1nat
        } else {
            0nat
        })
    }
}

/// Opportunities for `p` among windows anchored at `(0..cmax, r0..r0+rmax)`.
pub open spec fn opp_in_rect(
    g: Seq<Piece>,
    p: Piece,
    rmax: int,
    r0: int,
    cmax: int,
    dc: int,
    dr: int,
) -> nat
    decreases rmax,
{
    if rmax <= 0 {
        0
    } else {
        opp_in_rect(g, p, rmax - 1, r0, cmax, dc, dr) + opp_in_row(
            g,
            p,
            r0 + rmax - 1,
            cmax,
            dc,
            dr,
        )
    }
}

/// How many windows, over all four directions, are winning opportunities
/// for `p`.
pub open spec fn opportunity_count(g: Seq<Piece>, p: Piece) -> nat {
    opp_in_rect(g, p, 6, 0, 4, 1, 0) + opp_in_rect(g, p, 3, 0, 7, 0, 1) + opp_in_rect(
        g,
        p,
        3,
        0,
        4,
        1,
        1,
    ) + opp_in_rect(g, p, 3, 3, 4, 1, -1)
}

/// Two to the power `r`.
pub open spec fn two_pow(r: int) -> nat
    decreases r,
{
    if r <= 0 {
        1
    } else {
        2 * two_pow(r - 1)
    }
}

/// Five hundred twelve to the power `c`.
pub open spec fn p512(c: int) -> nat
    decreases c,
{
    if c <= 0 {
        1
    } else {
        512 * p512(c - 1)
    }
}

/// The blue cells of column `c` below row `r`, packed as bits of a number:
/// bit `j` is set when the cell at row `j` holds blue.
pub open spec fn col_bits(g: Seq<Piece>, c: int, r: int) -> nat
    decreases r,
{
    if r <= 0 {
        0
    } else {
        col_bits(g, c, r - 1) + (if cell(g, c, r - 1) == Piece::Blue {
            two_pow(r - 1)
        } else {
            0
        })
    }
}

/// A column packed as a number below 512: its height plus eight times its
/// blue-cell bits.
pub open spec fn col_code(g: Seq<Piece>, c: int) -> nat {
    col_height(g, c) + 8 * col_bits(g, c, 6)
}

/// The first `c` column codes packed in base 512, leftmost column most
/// significant.
pub open spec fn key_upto(g: Seq<Piece>, c: int) -> nat
    decreases c,
{
    if c <= 0 {
        0
    } else {
        key_upto(g, c - 1) * 512 + col_code(g, c - 1)
    }
}

/// The whole grid packed into one number, used as a cache key. Equal grids
/// always give equal keys.
pub open spec fn key_spec(g: Seq<Piece>) -> nat {
    key_upto(g, 7)
}

proof fn lemma_two_pow_small()
    ensures
        two_pow(6) == 64,
{
    assert(two_pow(0) == 1);
    assert(two_pow(1) == 2);
    assert(two_pow(2) == 4);
    assert(two_pow(3) == 8);
    assert(two_pow(4) == 16);
    assert(two_pow(5) == 32);
    assert(two_pow(6) == 64);
}

proof fn lemma_two_pow_pos(r: int)
    ensures
        two_pow(r) >= 1,
    decreases r,
{
    if r > 0 {
        lemma_two_pow_pos(r - 1);
    }
}

proof fn lemma_two_pow_mono(r: int)
    requires
        0 <= r <= 6,
    ensures
        two_pow(r) <= 64,
    decreases 6 - r,
{
    lemma_two_pow_small();
    if r < 6 {
        lemma_two_pow_pos(r);
        assert(two_pow(r + 1) == 2 * two_pow(r));
        lemma_two_pow_mono(r + 1);
    }
}

proof fn lemma_p512_pos(c: int)
    ensures
        p512(c) >= 1,
    decreases c,
{
    if c > 0 {
        lemma_p512_pos(c - 1);
    }
}

proof fn lemma_p512_mono(c: int)
    requires
        0 <= c <= 6,
    ensures
        p512(c) <= p512(6),
    decreases 6 - c,
{
    if c < 6 {
        lemma_p512_pos(c);
        assert(p512(c + 1) == 512 * p512(c));
        lemma_p512_mono(c + 1);
    }
}

proof fn lemma_col_bits_bound(g: Seq<Piece>, c: int, r: int)
    ensures
        col_bits(g, c, r) < two_pow(r),
        two_pow(r) >= 1,
    decreases r,
{
    if r > 0 {
        lemma_col_bits_bound(g, c, r - 1);
    }
}

proof fn lemma_key_upto_bound(g: Seq<Piece>, c: int)
    requires
        grid_ok(g),
        0 <= c <= 7,
    ensures
        key_upto(g, c) < p512(c),
    decreases c,
{
    if c > 0 {
        lemma_key_upto_bound(g, c - 1);
        lemma_col_bits_bound(g, c - 1, 6);
        lemma_height(g, c - 1);
        lemma_two_pow_small();
        assert(col_code(g, c - 1) < 512);
        assert(key_upto(g, c - 1) * 512 + 511 < p512(c - 1) * 512) by (nonlinear_arith)
            requires
                key_upto(g, c - 1) < p512(c - 1),
        ;
    }
}

proof fn lemma_p512_small()
    ensures
        p512(7) == 0x8000000000000000,
        forall|c: int| 0 <= c <= 7 ==> #[trigger] p512(c) <= 0x8000000000000000,
{
    assert(p512(0) == 1);
    assert(p512(1) == 512);
    assert(p512(2) == 0x40000);
    assert(p512(3) == 0x8000000);
    assert(p512(4) == 0x1000000000);
    assert(p512(5) == 0x200000000000);
    assert(p512(6) == 0x40000000000000);
    assert(p512(7) == 0x8000000000000000);
}

/// A grid's key fits a machine word.
pub proof fn lemma_key_bounds(g: Seq<Piece>)
    requires
        grid_ok(g),
    ensures
        key_spec(g) < 0x8000000000000000,
{
    lemma_key_upto_bound(g, 7);
    lemma_p512_small();
}

/// A column's packed code is a base-512 digit.
proof fn lemma_col_code_bound(g: Seq<Piece>, c: int)
    requires
        grid_ok(g),
        0 <= c < 7,
    ensures
        col_code(g, c) < 512,
{
    lemma_col_bits_bound(g, c, 6);
    lemma_height(g, c);
    lemma_two_pow_small();
}

proof fn lemma_base512_digit(a1: nat, r1: nat, a2: nat, r2: nat)
    requires
        a1 * 512 + r1 == a2 * 512 + r2,
        r1 < 512,
        r2 < 512,
    ensures
        a1 == a2,
        r1 == r2,
{
    assert(a1 == a2 && r1 == r2) by (nonlinear_arith)
        requires
            a1 * 512 + r1 == a2 * 512 + r2,
            r1 < 512,
            r2 < 512,
    ;
}

proof fn lemma_key_upto_inj(g1: Seq<Piece>, g2: Seq<Piece>, c: int)
    requires
        grid_ok(g1),
        grid_ok(g2),
        0 <= c <= 7,
        key_upto(g1, c) == key_upto(g2, c),
    ensures
        forall|c2: int| 0 <= c2 < c ==> #[trigger] col_code(g1, c2) == col_code(g2, c2),
    decreases c,
{
    if c > 0 {
        lemma_col_code_bound(g1, c - 1);
        lemma_col_code_bound(g2, c - 1);
        lemma_base512_digit(
            key_upto(g1, c - 1),
            col_code(g1, c - 1),
            key_upto(g2, c - 1),
            col_code(g2, c - 1),
        );
        lemma_key_upto_inj(g1, g2, c - 1);
    }
}

proof fn lemma_col_code_parts(g1: Seq<Piece>, g2: Seq<Piece>, c: int)
    requires
        grid_ok(g1),
        grid_ok(g2),
        0 <= c < 7,
        col_code(g1, c) == col_code(g2, c),
    ensures
        col_height(g1, c) == col_height(g2, c),
        col_bits(g1, c, 6) == col_bits(g2, c, 6),
{
    lemma_height(g1, c);
    lemma_height(g2, c);
    let h1 = col_height(g1, c) as nat;
    let h2 = col_height(g2, c) as nat;
    let b1 = col_bits(g1, c, 6);
    let b2 = col_bits(g2, c, 6);
    assert(h1 == h2 && b1 == b2) by (nonlinear_arith)
        requires
            h1 + 8 * b1 == h2 + 8 * b2,
            h1 <= 6,
            h2 <= 6,
    ;
}

proof fn lemma_col_bits_inj(g1: Seq<Piece>, g2: Seq<Piece>, c: int, r: int)
    requires
        col_bits(g1, c, r) == col_bits(g2, c, r),
    ensures
        forall|j: int|
            0 <= j < r ==> ((#[trigger] cell(g1, c, j) == Piece::Blue) == (cell(g2, c, j)
                == Piece::Blue)),
    decreases r,
{
    if r > 0 {
        lemma_col_bits_bound(g1, c, r - 1);
        lemma_col_bits_bound(g2, c, r - 1);
        assert(col_bits(g1, c, r - 1) == col_bits(g2, c, r - 1));
        lemma_col_bits_inj(g1, g2, c, r - 1);
    }
}

/// The cache key determines the grid: well-formed grids with equal keys are
/// equal, so distinct positions never share a key.
pub proof fn lemma_key_spec_injective(g1: Seq<Piece>, g2: Seq<Piece>)
    requires
        grid_ok(g1),
        grid_ok(g2),
        key_spec(g1) == key_spec(g2),
    ensures
        g1 == g2,
{
    lemma_key_upto_inj(g1, g2, 7);
    assert forall|c: int, r: int| 0 <= c < 7 && 0 <= r < 6 implies #[trigger] cell(g1, c, r)
        == cell(g2, c, r) by {
        lemma_col_code_parts(g1, g2, c);
        lemma_col_bits_inj(g1, g2, c, 6);
        lemma_height(g1, c);
        lemma_height(g2, c);
        if r < col_height(g1, c) {
            assert((cell(g1, c, r) == Piece::Blue) == (cell(g2, c, r) == Piece::Blue));
            assert(cell(g1, c, r) != Piece::Empty);
            assert(cell(g2, c, r) != Piece::Empty);
        }
    }
    assert forall|i: int| 0 <= i < 42 implies g1[i] == g2[i] by {
        vstd::arithmetic::div_mod::lemma_fundamental_div_mod(i, 6);
        vstd::arithmetic::div_mod::lemma_mod_bound(i, 6);
        let c = i / 6;
        let r = i % 6;
        assert(c * 6 + r == i);
        assert(0 <= c < 7);
        assert(cell(g1, c, r) == cell(g2, c, r));
    }
    assert(g1 =~= g2);
}

/// Whether exactly three of the four cells hold `p` and the remaining one
/// is empty.
fn opportunity_check(a: Piece, b: Piece, c: Piece, d: Piece, p: Piece) -> (res: bool)
    ensures
        res == opportunity4(a, b, c, d, p),
{
    (a == Piece::Empty && b == p && c == p && d == p) || (a == p && b == Piece::Empty && c == p && d
        == p) || (a == p && b == p && c == Piece::Empty && d == p) || (a == p && b == p && c == p
        && d == Piece::Empty)
}

/// A 6-row by 7-column grid of pieces in which gravity holds: every
/// occupied cell rests on the bottom row or on another occupied cell.
#[derive(Debug, Clone, PartialEq, Eq, Hash)]
pub struct Board {
    cells: Vec<Piece>,
}

impl View for Board {
    type V = Seq<Piece>;

    closed spec fn view(&self) -> Seq<Piece> {
        self.cells@
    }
}

impl Board {
    /// Well-formedness: the stored cells form a well-formed grid.
    pub open spec fn wf(self) -> bool {
        grid_ok(self@)
    }

    /// An empty board.
    pub fn new() -> (b: Board)
        ensures
            b.wf(),
            b@ == empty_grid(),
    {
        let mut cells: Vec<Piece> = Vec::new();
        let mut i: usize = 0;
        while i < 42
            invariant
                i <= 42,
                cells@.len() == i,
                forall|j: int| 0 <= j < i ==> cells@[j] == Piece::Empty,
            decreases 42 - i,
        {
            cells.push(Piece::Empty);
            i += 1;
        }
        let b = Board { cells };
        proof {
            assert(b@ =~= empty_grid());
        }
        b
    }

    /// An exact copy of this board.
    pub fn duplicate(&self) -> (b: Board)
        ensures
            b@ == self@,
    {
        let mut cells: Vec<Piece> = Vec::new();
        let mut i: usize = 0;
        while i < self.cells.len()
            invariant
                i <= self.cells.len(),
                cells@ =~= self.cells@.subrange(0, i as int),
            decreases self.cells.len() - i,
        {
            cells.push(self.cells[i]);
            i += 1;
        }
        let b = Board { cells };
        proof {
            assert(b@ =~= self@);
        }
        b
    }

    /// How many pieces column `column` holds.
    pub fn column_height(&self, column: usize) -> (h: usize)
        requires
            self.wf(),
            column < 7,
        ensures
            h == col_height(self@, column as int),
            h <= 6,
    {
        proof {
            lemma_height(self@, column as int);
        }
        let mut h: usize = 0;
        while h < 6 && self.cells[column * 6 + h] != Piece::Empty
            invariant
                self.wf(),
                column < 7,
                h <= 6,
                forall|j: int| 0 <= j < h ==> #[trigger] cell(self@, column as int, j)
                    != Piece::Empty,
            decreases 6 - h,
        {
            h += 1;
        }
        proof {
            lemma_height(self@, column as int);
            let ch = col_height(self@, column as int) as int;
            if (h as int) < ch {
                assert(cell(self@, column as int, h as int) != Piece::Empty);
                assert(h < 6);
                assert(false);
            }
            if (h as int) > ch {
                assert(cell(self@, column as int, ch) != Piece::Empty);
                assert(cell(self@, column as int, ch) == Piece::Empty);
            }
        }
        h
    }

    /// The piece at the given column and row (row 0 is the bottom).
    pub fn get_checked(&self, column: usize, row: usize) -> (p: Piece)
        requires
            self.wf(),
            column < 7,
            row < 6,
        ensures
            p == cell(self@, column as int, row as int),
    {
        self.cells[column * 6 + row]
    }

    /// Drop `piece` into `column`, mutating this board. The piece comes to
    /// rest at the lowest empty cell of the column.
    pub fn with_place(&mut self, column: usize, piece: Piece)
        requires
            old(self).wf(),
            column < 7,
            piece != Piece::Empty,
            col_height(old(self)@, column as int) < 6,
        ensures
            final(self).wf(),
            final(self)@ == place_spec(old(self)@, column as int, piece),
            cell(final(self)@, column as int, col_height(old(self)@, column as int) as int)
                == piece,
            col_height(final(self)@, column as int) == col_height(old(self)@, column as int) + 1,
    {
        proof {
            lemma_place(old(self)@, column as int, piece);
        }
        let h = self.column_height(column);
        self.cells.set(column * 6 + h, piece);
    }

    /// The columns that can still receive a piece, in ascending order.
    pub fn valid_moves(&self) -> (moves: Vec<usize>)
        requires
            self.wf(),
        ensures
            moves@ == valid_moves_spec(self@),
    {
        let mut moves: Vec<usize> = Vec::new();
        let mut c: usize = 0;
        while c < 7
            invariant
                self.wf(),
                c <= 7,
                moves@ == vm_upto(self@, c as int),
            decreases 7 - c,
        {
            if self.column_height(c) < 6 {
                moves.push(c);
            }
            proof {
                if col_height(self@, c as int) < 6 {
                    assert(moves@ =~= vm_upto(self@, c as int + 1));
                } else {
                    assert(moves@ =~= vm_upto(self@, c as int + 1));
                }
            }
            c += 1;
        }
        moves
    }

    /// How many red and blue pieces the board holds, as a pair.
    fn count_pieces(&self) -> (counts: (usize, usize))
        requires
            self.wf(),
        ensures
            counts.0 == piece_count(self@, Piece::Red),
            counts.1 == piece_count(self@, Piece::Blue),
    {
        let mut red: usize = 0;
        let mut blue: usize = 0;
        let mut c: usize = 0;
        while c < 7
            invariant
                self.wf(),
                c <= 7,
                red == piece_count_upto(self@, Piece::Red, c as int),
                blue == piece_count_upto(self@, Piece::Blue, c as int),
                red + blue <= 6 * c,
            decreases 7 - c,
        {
            let mut r: usize = 0;
            while r < 6
                invariant
                    self.wf(),
                    c < 7,
                    r <= 6,
                    red == piece_count_upto(self@, Piece::Red, c as int) + col_count(
                        self@,
                        c as int,
                        Piece::Red,
                        r as int,
                    ),
                    blue == piece_count_upto(self@, Piece::Blue, c as int) + col_count(
                        self@,
                        c as int,
                        Piece::Blue,
                        r as int,
                    ),
                    red + blue <= 6 * c + r,
                decreases 6 - r,
            {
                let p = self.get_checked(c, r);
                if p == Piece::Red {
                    red += 1;
                } else if p == Piece::Blue {
                    blue += 1;
                }
                r += 1;
            }
            c += 1;
        }
        (red, blue)
    }

    /// The player whose turn it is, derived from the piece counts.
    pub fn next_player(&self) -> (p: Piece)
        requires
            self.wf(),
            balanced(self@),
        ensures
            p == next_player_spec(self@),
            p != Piece::Empty,
    {
        let (red, blue) = self.count_pieces();
        if red == blue {
            Piece::Red
        } else {
            Piece::Blue
        }
    }

    /// Total number of pieces that have been played on this board.
    pub fn num_pieces_played(&self) -> (n: usize)
        requires
            self.wf(),
        ensures
            n == num_pieces(self@),
            n <= 42,
    {
        let (red, blue) = self.count_pieces();
        proof {
            lemma_total_pieces_bound(self@);
        }
        red + blue
    }

    /// The board that results from dropping `piece` into `column`, leaving
    /// this board unchanged.
    pub fn place(&self, column: usize, piece: Piece) -> (b: Board)
        requires
            self.wf(),
            column < 7,
            piece != Piece::Empty,
            col_height(self@, column as int) < 6,
        ensures
            b.wf(),
            b@ == place_spec(self@, column as int, piece),
            cell(b@, column as int, col_height(self@, column as int) as int) == piece,
            col_height(b@, column as int) == col_height(self@, column as int) + 1,
    {
        let mut b = self.duplicate();
        b.with_place(column, piece);
        b
    }

    /// The compact text form of the board: a `!` marker, then the six rows
    /// from top to bottom separated by `/`, each row's trailing blanks
    /// trimmed. `from` reads this form back.
    pub fn short_string(&self) -> (s: String)
        requires
            self.wf(),
        ensures
            s@ == crate::codec::encode_grid(self@),
    {
        let ghost lines = crate::codec::encode_lines(self@);
        let mut s = String::new();
        s.append("!");
        proof {
            reveal_strlit("!");
            assert(s@ =~= seq!['!'] + crate::codec::joined(lines.take(0)));
        }
        let mut li: usize = 0;
        while li < 6
            invariant
                self.wf(),
                li <= 6,
                lines == crate::codec::encode_lines(self@),
                s@ == seq!['!'] + crate::codec::joined(lines.take(li as int)),
            decreases 6 - li,
        {
            if li > 0 {
                s.append("/");
                proof {
                    reveal_strlit("/");
                }
            }
            let row = 5 - li;
            let mut len: usize = 7;
            while len > 0 && self.get_checked(len - 1, row) == Piece::Empty
                invariant
                    self.wf(),
                    row < 6,
                    len <= 7,
                    forall|j: int| len <= j < 7 ==> cell(self@, j, row as int) == Piece::Empty,
                decreases len,
            {
                len -= 1;
            }
            proof {
                assert forall|j: int|
                    len <= j < crate::codec::raw_row(self@, row as int).len() implies
                    crate::codec::raw_row(self@, row as int)[j] == ' ' by {
                    assert(cell(self@, j, row as int) == Piece::Empty);
                }
                if len > 0 {
                    assert(cell(self@, len - 1, row as int) != Piece::Empty);
                }
                crate::codec::lemma_trim_row_exact(
                    crate::codec::raw_row(self@, row as int),
                    len as int,
                );
            }
            let ghost base = s@;
            let mut c: usize = 0;
            while c < len
                invariant
                    self.wf(),
                    row < 6,
                    len <= 7,
                    c <= len,
                    s@ == base + crate::codec::raw_row(self@, row as int).take(c as int),
                decreases len - c,
            {
                match self.get_checked(c, row) {
                    Piece::Empty => s.append(" "),
                    Piece::Red => s.append("R"),
                    Piece::Blue => s.append("B"),
                }
                proof {
                    reveal_strlit(" ");
                    reveal_strlit("R");
                    reveal_strlit("B");
                    assert(s@ =~= base + crate::codec::raw_row(self@, row as int).take(
                        c as int + 1,
                    ));
                }
                c += 1;
            }
            proof {
                assert(s@ == base + crate::codec::trim_row(
                    crate::codec::raw_row(self@, row as int),
                ));
                assert(lines[li as int] == crate::codec::trim_row(
                    crate::codec::raw_row(self@, row as int),
                ));
                if li == 0 {
                    assert(crate::codec::joined(lines.take(1)) == lines[0]);
                    assert(s@ =~= seq!['!'] + crate::codec::joined(lines.take(1)));
                } else {
                    assert(lines.take(li as int + 1) =~~= lines.take(li as int).push(
                        lines[li as int],
                    ));
                    crate::codec::lemma_joined_snoc(lines.take(li as int), lines[li as int]);
                    assert(s@ =~= seq!['!'] + crate::codec::joined(lines.take(li as int + 1)));
                }
            }
            li += 1;
        }
        proof {
            assert(lines.take(6) =~~= lines);
        }
        s
    }

    /// Read a board back from its compact text form. The string must be a
    /// valid encoding: the `!` marker, six `/`-separated lines of at most
    /// seven cell characters. In every column, pieces floating above a gap
    /// are dropped, so the result obeys gravity.
    pub fn from(text: &str) -> (b: Board)
        requires
            crate::codec::valid_encoding(text@),
        ensures
            b.wf(),
            b@ == crate::codec::parse_grid(text@),
    {
        let ghost lines = crate::codec::split_slashes(text@.skip(1));
        let n = text.unicode_len();
        let mut pre: Vec<Piece> = Vec::new();
        let mut i: usize = 0;
        while i < 42
            invariant
                i <= 42,
                pre@.len() == i,
                forall|j: int| 0 <= j < i ==> pre@[j] == Piece::Empty,
            decreases 42 - i,
        {
            pre.push(Piece::Empty);
            i += 1;
        }
        let mut idx: usize = 1;
        let mut li: usize = 0;
        while li < 6
            invariant
                crate::codec::valid_encoding(text@),
                lines == crate::codec::split_slashes(text@.skip(1)),
                n == text@.len(),
                li <= 6,
                1 <= idx <= n,
                li < 6 ==> crate::codec::split_slashes(text@.skip(idx as int)) == lines.skip(
                    li as int,
                ),
                li == 6 ==> idx == n,
                pre@.len() == 42,
                forall|c2: int, r2: int|
                    0 <= c2 < 7 && 6 - li <= r2 < 6 ==> #[trigger] cell(pre@, c2, r2)
                        == crate::codec::pre_cell(lines, c2, r2),
                forall|c2: int, r2: int|
                    0 <= c2 < 7 && 0 <= r2 < 6 - li ==> #[trigger] cell(pre@, c2, r2)
                        == Piece::Empty,
            decreases 6 - li,
        {
            let ghost t = text@.skip(idx as int);
            proof {
                crate::codec::lemma_split_first(t);
                assert(crate::codec::split_slashes(t)[0] == lines.skip(li as int)[0]);
                assert(lines.skip(li as int)[0] == lines[li as int]);
            }
            let ghost l0 = crate::codec::split_slashes(t)[0].len() as int;
            let start = idx;
            while idx < n && text.get_char(idx) != '/'
                invariant
                    n == text@.len(),
                    start <= idx <= n,
                    forall|j: int| start <= j < idx ==> text@[j] != '/',
                decreases n - idx,
            {
                idx += 1;
            }
            proof {
                assert(t == text@.skip(start as int));
                assert forall|j: int| 0 <= j < t.len() implies t[j] == text@[start + j] by {}
                if idx - start < l0 {
                    assert(idx < n);
                    assert(text@[idx as int] == t[idx - start]);
                    assert(t[idx - start] != '/');
                    assert(false);
                }
                if idx - start > l0 {
                    assert(l0 < t.len());
                    assert(t[l0] == '/');
                    assert(text@[start + l0] != '/');
                    assert(false);
                }
                assert(idx - start == l0);
                assert(lines[li as int] =~= text@.subrange(start as int, idx as int));
                assert(lines[li as int].len() <= 7);
            }
            let linelen = idx - start;
            let mut c: usize = 0;
            while c < linelen
                invariant
                    crate::codec::valid_encoding(text@),
                    n == text@.len(),
                    start + linelen <= n,
                    li < 6,
                    linelen <= 7,
                    c <= linelen,
                    lines[li as int] == text@.subrange(start as int, (start + linelen) as int),
                    pre@.len() == 42,
                    forall|c2: int, r2: int|
                        0 <= c2 < 7 && 6 - li <= r2 < 6 ==> #[trigger] cell(pre@, c2, r2)
                            == crate::codec::pre_cell(lines, c2, r2),
                    forall|c2: int, r2: int|
                        0 <= c2 < 7 && 0 <= r2 < 6 - li && !(r2 == 5 - li && c2 < c)
                            ==> #[trigger] cell(pre@, c2, r2) == Piece::Empty,
                    forall|c2: int|
                        0 <= c2 < c ==> #[trigger] cell(pre@, c2, 5 - li as int)
                            == crate::codec::pre_cell(lines, c2, 5 - li as int),
                decreases linelen - c,
            {
                let ch = text.get_char(start + c);
                let p = if ch == 'R' {
                    Piece::Red
                } else if ch == 'B' {
                    Piece::Blue
                } else {
                    Piece::Empty
                };
                proof {
                    assert(lines[li as int][c as int] == ch);
                    assert(crate::codec::pre_cell(lines, c as int, 5 - li as int)
                        == crate::codec::piece_of(ch));
                    lemma_update_cells(pre@, c as int, 5 - li as int, p);
                }
                pre.set(c * 6 + (5 - li), p);
                c += 1;
            }
            proof {
                assert forall|c2: int|
                    c <= c2 < 7 implies #[trigger] crate::codec::pre_cell(lines, c2, 5 - li as int)
                    == Piece::Empty by {
                    assert(c2 >= lines[li as int].len());
                }
                crate::codec::lemma_split_first(t);
                if l0 < t.len() {
                    assert(text@[idx as int] == '/');
                    if li == 5 {
                        crate::codec::lemma_split_nonempty(t.skip(l0 + 1));
                        assert(lines.skip(5).len() == 1);
                        assert(crate::codec::split_slashes(t).skip(1).len() == 0);
                        assert(false);
                    }
                    assert(crate::codec::split_slashes(t).skip(1) =~~= lines.skip(li as int).skip(
                        1,
                    ));
                    assert(lines.skip(li as int).skip(1) =~~= lines.skip(li as int + 1));
                    assert(t.skip(l0 + 1) =~= text@.skip(idx as int + 1));
                } else {
                    assert(crate::codec::split_slashes(t).len() == 1);
                    assert(lines.skip(li as int).len() == 1);
                    assert(li == 5);
                    assert(idx == n);
                }
            }
            if idx < n {
                idx += 1;
            }
            li += 1;
        }
        let ghost pg = crate::codec::pre_grid(lines);
        proof {
            assert forall|i2: int| 0 <= i2 < 42 implies pre@[i2] == pg[i2] by {
                vstd::arithmetic::div_mod::lemma_fundamental_div_mod(i2, 6);
                vstd::arithmetic::div_mod::lemma_mod_bound(i2, 6);
                let c2 = i2 / 6;
                let r2 = i2 % 6;
                assert(c2 * 6 + r2 == i2);
                assert(0 <= c2 < 7);
                assert(cell(pre@, c2, r2) == crate::codec::pre_cell(lines, c2, r2));
            }
            assert(pre@ =~= pg);
        }
        let b = Board::settled(&pre);
        proof {
            assert forall|i2: int| 0 <= i2 < 42 implies b@[i2] == crate::codec::parse_lines(
                lines,
            )[i2] by {
                vstd::arithmetic::div_mod::lemma_fundamental_div_mod(i2, 6);
                vstd::arithmetic::div_mod::lemma_mod_bound(i2, 6);
                let c2 = i2 / 6;
                let r2 = i2 % 6;
                assert(c2 * 6 + r2 == i2);
                assert(0 <= c2 < 7);
                assert(cell(b@, c2, r2) == (if r2 < stack_above(pg, c2, 0) {
                    cell(pg, c2, r2)
                } else {
                    Piece::Empty
                }));
            }
            assert(b@ =~= crate::codec::parse_lines(lines));
        }
        b
    }

    /// The board whose columns keep only the contiguous bottom run of the
    /// given 42 cells: anything floating above a gap is dropped.
    fn settled(pre: &Vec<Piece>) -> (b: Board)
        requires
            pre@.len() == 42,
        ensures
            b.wf(),
            b@.len() == 42,
            forall|c2: int, r2: int|
                0 <= c2 < 7 && 0 <= r2 < 6 ==> #[trigger] cell(b@, c2, r2) == (if r2 < stack_above(
                    pre@,
                    c2,
                    0,
                ) {
                    cell(pre@, c2, r2)
                } else {
                    Piece::Empty
                }),
    {
        let ghost pg = pre@;
        let mut cells: Vec<Piece> = Vec::new();
        let mut i: usize = 0;
        while i < 42
            invariant
                i <= 42,
                cells@.len() == i,
                forall|j: int| 0 <= j < i ==> cells@[j] == Piece::Empty,
            decreases 42 - i,
        {
            cells.push(Piece::Empty);
            i += 1;
        }
        let mut col: usize = 0;
        while col < 7
            invariant
                pre@ == pg,
                pre@.len() == 42,
                cells@.len() == 42,
                col <= 7,
                forall|c2: int, r2: int|
                    0 <= c2 < col && 0 <= r2 < 6 ==> #[trigger] cell(cells@, c2, r2) == (if r2
                        < stack_above(pg, c2, 0) {
                        cell(pg, c2, r2)
                    } else {
                        Piece::Empty
                    }),
                forall|c2: int, r2: int|
                    col <= c2 < 7 && 0 <= r2 < 6 ==> #[trigger] cell(cells@, c2, r2)
                        == Piece::Empty,
            decreases 7 - col,
        {
            let mut h: usize = 0;
            while h < 6 && pre[col * 6 + h] != Piece::Empty
                invariant
                    pre@.len() == 42,
                    col < 7,
                    h <= 6,
                    forall|j: int| 0 <= j < h ==> #[trigger] cell(pre@, col as int, j)
                        != Piece::Empty,
                decreases 6 - h,
            {
                h += 1;
            }
            proof {
                if h < 6 {
                    assert(cell(pre@, col as int, h as int) == Piece::Empty);
                }
                crate::codec::lemma_stack_exact(pre@, col as int, h as int);
            }
            let mut r: usize = 0;
            while r < h
                invariant
                    pre@ == pg,
                    pre@.len() == 42,
                    cells@.len() == 42,
                    col < 7,
                    h <= 6,
                    r <= h,
                    h == stack_above(pg, col as int, 0),
                    forall|j: int| 0 <= j < h ==> #[trigger] cell(pre@, col as int, j)
                        != Piece::Empty,
                    forall|c2: int, r2: int|
                        0 <= c2 < col && 0 <= r2 < 6 ==> #[trigger] cell(cells@, c2, r2) == (if r2
                            < stack_above(pg, c2, 0) {
                            cell(pg, c2, r2)
                        } else {
                            Piece::Empty
                        }),
                    forall|r2: int|
                        0 <= r2 < r ==> #[trigger] cell(cells@, col as int, r2) == cell(
                            pg,
                            col as int,
                            r2,
                        ),
                    forall|r2: int|
                        r <= r2 < 6 ==> #[trigger] cell(cells@, col as int, r2) == Piece::Empty,
                    forall|c2: int, r2: int|
                        col < c2 < 7 && 0 <= r2 < 6 ==> #[trigger] cell(cells@, c2, r2)
                            == Piece::Empty,
                decreases h - r,
            {
                proof {
                    lemma_update_cells(cells@, col as int, r as int, cell(pg, col as int, r as int));
                }
                let piece = pre[col * 6 + r];
                cells.set(col * 6 + r, piece);
                r += 1;
            }
            col += 1;
        }
        let b = Board { cells };
        proof {
            assert(grid_ok(b@)) by {
                assert forall|c2: int, r1: int, r2: int|
                    0 <= c2 < 7 && 0 <= r1 <= r2 < 6 && #[trigger] cell(b@, c2, r1)
                        == Piece::Empty implies #[trigger] cell(b@, c2, r2) == Piece::Empty by {
                    if r1 < stack_above(pg, c2, 0) {
                        crate::codec::lemma_stack_exact_props(pg, c2);
                    }
                }
            }
        }
        b
    }

    /// The rows of the board from the top row down, each left to right.
    pub fn to_array(&self) -> (rows: Vec<Vec<Piece>>)
        requires
            self.wf(),
        ensures
            rows@.len() == 6,
            forall|i: int| 0 <= i < 6 ==> (#[trigger] rows@[i])@.len() == 7,
            forall|i: int, c2: int|
                0 <= i < 6 && 0 <= c2 < 7 ==> #[trigger] rows@[i]@[c2] == cell(self@, c2, 5 - i),
    {
        let mut rows: Vec<Vec<Piece>> = Vec::new();
        let mut i: usize = 0;
        while i < 6
            invariant
                self.wf(),
                i <= 6,
                rows@.len() == i,
                forall|j: int| 0 <= j < i ==> (#[trigger] rows@[j])@.len() == 7,
                forall|j: int, c2: int|
                    0 <= j < i && 0 <= c2 < 7 ==> #[trigger] rows@[j]@[c2] == cell(
                        self@,
                        c2,
                        5 - j,
                    ),
            decreases 6 - i,
        {
            let mut row: Vec<Piece> = Vec::new();
            let mut c: usize = 0;
            while c < 7
                invariant
                    self.wf(),
                    i < 6,
                    c <= 7,
                    row@.len() == c,
                    forall|c2: int| 0 <= c2 < c ==> #[trigger] row@[c2] == cell(
                        self@,
                        c2,
                        5 - i as int,
                    ),
                decreases 7 - c,
            {
                row.push(self.get_checked(c, 5 - i));
                c += 1;
            }
            rows.push(row);
            i += 1;
        }
        rows
    }

    /// A board built from six rows given top to bottom, each of seven
    /// cells. In every column the pieces above the first gap are dropped,
    /// so the result obeys gravity.
    pub fn from_array(rows: Vec<Vec<Piece>>) -> (b: Board)
        requires
            rows@.len() == 6,
            forall|i: int| 0 <= i < 6 ==> (#[trigger] rows@[i])@.len() == 7,
        ensures
            b.wf(),
            forall|c2: int, r2: int|
                0 <= c2 < 7 && 0 <= r2 < 6 ==> #[trigger] cell(b@, c2, r2) == (if r2 < stack_above(
                    rows_grid(rows_views(rows@)),
                    c2,
                    0,
                ) {
                    cell(rows_grid(rows_views(rows@)), c2, r2)
                } else {
                    Piece::Empty
                }),
    {
        let ghost rg = rows_grid(rows_views(rows@));
        let mut pre: Vec<Piece> = Vec::new();
        let mut i: usize = 0;
        while i < 42
            invariant
                i <= 42,
                pre@.len() == i,
                forall|j: int| 0 <= j < i ==> pre@[j] == Piece::Empty,
            decreases 42 - i,
        {
            pre.push(Piece::Empty);
            i += 1;
        }
        let mut c: usize = 0;
        while c < 7
            invariant
                rows@.len() == 6,
                forall|j: int| 0 <= j < 6 ==> (#[trigger] rows@[j])@.len() == 7,
                c <= 7,
                pre@.len() == 42,
                forall|c2: int, r2: int|
                    0 <= c2 < c && 0 <= r2 < 6 ==> #[trigger] cell(pre@, c2, r2) == cell(
                        rows_grid(rows_views(rows@)),
                        c2,
                        r2,
                    ),
                forall|c2: int, r2: int|
                    c <= c2 < 7 && 0 <= r2 < 6 ==> #[trigger] cell(pre@, c2, r2) == Piece::Empty,
            decreases 7 - c,
        {
            let mut r: usize = 0;
            while r < 6
                invariant
                    rows@.len() == 6,
                    forall|j: int| 0 <= j < 6 ==> (#[trigger] rows@[j])@.len() == 7,
                    c < 7,
                    r <= 6,
                    pre@.len() == 42,
                    forall|c2: int, r2: int|
                        0 <= c2 < c && 0 <= r2 < 6 ==> #[trigger] cell(pre@, c2, r2) == cell(
                            rows_grid(rows_views(rows@)),
                            c2,
                            r2,
                        ),
                    forall|r2: int|
                        0 <= r2 < r ==> #[trigger] cell(pre@, c as int, r2) == cell(
                            rows_grid(rows_views(rows@)),
                            c as int,
                            r2,
                        ),
                    forall|r2: int|
                        r <= r2 < 6 ==> #[trigger] cell(pre@, c as int, r2) == Piece::Empty,
                    forall|c2: int, r2: int|
                        c < c2 < 7 && 0 <= r2 < 6 ==> #[trigger] cell(pre@, c2, r2)
                            == Piece::Empty,
                decreases 6 - r,
            {
                let p = rows[5 - r][c];
                proof {
                    lemma_update_cells(pre@, c as int, r as int, p);
                    assert(cell(rows_grid(rows_views(rows@)), c as int, r as int) == rows_views(
                        rows@,
                    )[5 - r as int][c as int]) by {
                        lemma_rows_grid_cell(rows_views(rows@), c as int, r as int);
                    }
                    assert(rows_views(rows@)[5 - r as int][c as int] == rows@[5 - r as int]@[c as int]);
                }
                pre.set(c * 6 + r, p);
                r += 1;
            }
            c += 1;
        }
        let b = Board::settled(&pre);
        proof {
            assert forall|c2: int, r2: int| 0 <= c2 < 7 && 0 <= r2 < 6 implies #[trigger] cell(
                pre@,
                c2,
                r2,
            ) == cell(rg, c2, r2) by {}
            assert forall|c2: int| 0 <= c2 < 7 implies stack_above(pre@, c2, 0) == stack_above(
                rg,
                c2,
                0,
            ) by {
                lemma_stack_congruent(pre@, rg, c2, 0);
            }
        }
        b
    }

    fn has_line_horiz(&self, p: Piece) -> (found: bool)
        requires
            self.wf(),
        ensures
            found == exists|c: int, r: int|
                0 <= c < 4 && 0 <= r < 6 && #[trigger] four_at(self@, p, c, r, 1, 0),
    {
        let mut c: usize = 0;
        while c < 4
            invariant
                self.wf(),
                c <= 4,
                forall|c2: int, r2: int|
                    0 <= c2 < c && 0 <= r2 < 6 ==> !#[trigger] four_at(self@, p, c2, r2, 1, 0),
            decreases 4 - c,
        {
            let mut r: usize = 0;
            while r < 6
                invariant
                    self.wf(),
                    c < 4,
                    r <= 6,
                    forall|c2: int, r2: int|
                        0 <= c2 < c && 0 <= r2 < 6 ==> !#[trigger] four_at(self@, p, c2, r2, 1, 0),
                    forall|r2: int|
                        0 <= r2 < r ==> !#[trigger] four_at(self@, p, c as int, r2, 1, 0),
                decreases 6 - r,
            {
                if self.get_checked(c, r) == p && self.get_checked(c + 1, r) == p
                    && self.get_checked(c + 2, r) == p && self.get_checked(c + 3, r) == p {
                    proof {
                        assert(four_at(self@, p, c as int, r as int, 1, 0));
                    }
                    return true;
                }
                r += 1;
            }
            c += 1;
        }
        false
    }

    fn has_line_vert(&self, p: Piece) -> (found: bool)
        requires
            self.wf(),
        ensures
            found == exists|c: int, r: int|
                0 <= c < 7 && 0 <= r < 3 && #[trigger] four_at(self@, p, c, r, 0, 1),
    {
        let mut c: usize = 0;
        while c < 7
            invariant
                self.wf(),
                c <= 7,
                forall|c2: int, r2: int|
                    0 <= c2 < c && 0 <= r2 < 3 ==> !#[trigger] four_at(self@, p, c2, r2, 0, 1),
            decreases 7 - c,
        {
            let mut r: usize = 0;
            while r < 3
                invariant
                    self.wf(),
                    c < 7,
                    r <= 3,
                    forall|c2: int, r2: int|
                        0 <= c2 < c && 0 <= r2 < 3 ==> !#[trigger] four_at(self@, p, c2, r2, 0, 1),
                    forall|r2: int|
                        0 <= r2 < r ==> !#[trigger] four_at(self@, p, c as int, r2, 0, 1),
                decreases 3 - r,
            {
                if self.get_checked(c, r) == p && self.get_checked(c, r + 1) == p
                    && self.get_checked(c, r + 2) == p && self.get_checked(c, r + 3) == p {
                    proof {
                        assert(four_at(self@, p, c as int, r as int, 0, 1));
                    }
                    return true;
                }
                r += 1;
            }
            c += 1;
        }
        false
    }

    fn has_line_diag_up(&self, p: Piece) -> (found: bool)
        requires
            self.wf(),
        ensures
            found == exists|c: int, r: int|
                0 <= c < 4 && 0 <= r < 3 && #[trigger] four_at(self@, p, c, r, 1, 1),
    {
        let mut c: usize = 0;
        while c < 4
            invariant
                self.wf(),
                c <= 4,
                forall|c2: int, r2: int|
                    0 <= c2 < c && 0 <= r2 < 3 ==> !#[trigger] four_at(self@, p, c2, r2, 1, 1),
            decreases 4 - c,
        {
            let mut r: usize = 0;
            while r < 3
                invariant
                    self.wf(),
                    c < 4,
                    r <= 3,
                    forall|c2: int, r2: int|
                        0 <= c2 < c && 0 <= r2 < 3 ==> !#[trigger] four_at(self@, p, c2, r2, 1, 1),
                    forall|r2: int|
                        0 <= r2 < r ==> !#[trigger] four_at(self@, p, c as int, r2, 1, 1),
                decreases 3 - r,
            {
                if self.get_checked(c, r) == p && self.get_checked(c + 1, r + 1) == p
                    && self.get_checked(c + 2, r + 2) == p && self.get_checked(c + 3, r + 3) == p {
                    proof {
                        assert(four_at(self@, p, c as int, r as int, 1, 1));
                    }
                    return true;
                }
                r += 1;
            }
            c += 1;
        }
        false
    }

    fn has_line_diag_down(&self, p: Piece) -> (found: bool)
        requires
            self.wf(),
        ensures
            found == exists|c: int, r: int|
                0 <= c < 4 && 3 <= r < 6 && #[trigger] four_at(self@, p, c, r, 1, -1),
    {
        let mut c: usize = 0;
        while c < 4
            invariant
                self.wf(),
                c <= 4,
                forall|c2: int, r2: int|
                    0 <= c2 < c && 3 <= r2 < 6 ==> !#[trigger] four_at(self@, p, c2, r2, 1, -1),
            decreases 4 - c,
        {
            let mut rb: usize = 0;
            while rb < 3
                invariant
                    self.wf(),
                    c < 4,
                    rb <= 3,
                    forall|c2: int, r2: int|
                        0 <= c2 < c && 3 <= r2 < 6 ==> !#[trigger] four_at(self@, p, c2, r2, 1, -1),
                    forall|r2: int|
                        3 <= r2 < 3 + rb ==> !#[trigger] four_at(self@, p, c as int, r2, 1, -1),
                decreases 3 - rb,
            {
                if self.get_checked(c, rb + 3) == p && self.get_checked(c + 1, rb + 2) == p
                    && self.get_checked(c + 2, rb + 1) == p && self.get_checked(c + 3, rb) == p {
                    proof {
                        assert(four_at(self@, p, c as int, rb + 3, 1, -1));
                    }
                    return true;
                }
                rb += 1;
            }
            c += 1;
        }
        false
    }

    /// Whether `p` has four in a row anywhere on the board.
    pub fn has_line(&self, p: Piece) -> (found: bool)
        requires
            self.wf(),
            p != Piece::Empty,
        ensures
            found == has_four(self@, p),
    {
        let h = self.has_line_horiz(p);
        let v = self.has_line_vert(p);
        let du = self.has_line_diag_up(p);
        let dd = self.has_line_diag_down(p);
        let found = h || v || du || dd;
        proof {
            if found {
                if h {
                    let (c, r) = choose|c: int, r: int|
                        0 <= c < 4 && 0 <= r < 6 && #[trigger] four_at(self@, p, c, r, 1, 0);
                    assert(window_ok(c, r, 1, 0));
                } else if v {
                    let (c, r) = choose|c: int, r: int|
                        0 <= c < 7 && 0 <= r < 3 && #[trigger] four_at(self@, p, c, r, 0, 1);
                    assert(window_ok(c, r, 0, 1));
                } else if du {
                    let (c, r) = choose|c: int, r: int|
                        0 <= c < 4 && 0 <= r < 3 && #[trigger] four_at(self@, p, c, r, 1, 1);
                    assert(window_ok(c, r, 1, 1));
                } else {
                    let (c, r) = choose|c: int, r: int|
                        0 <= c < 4 && 3 <= r < 6 && #[trigger] four_at(self@, p, c, r, 1, -1);
                    assert(window_ok(c, r, 1, -1));
                }
                assert(has_four(self@, p));
            } else {
                if has_four(self@, p) {
                    let (c, r, dc, dr) = choose|c: int, r: int, dc: int, dr: int|
                        window_ok(c, r, dc, dr) && #[trigger] four_at(self@, p, c, r, dc, dr);
                    assert(false);
                }
            }
        }
        found
    }

    /// The winner, if any player has four in a row. When only one player has
    /// a line the result names that player.
    pub fn has_winner(&self) -> (w: Option<Piece>)
        requires
            self.wf(),
        ensures
            w is None <==> (!has_four(self@, Piece::Red) && !has_four(self@, Piece::Blue)),
            w matches Some(p) ==> has_four(self@, p) && p != Piece::Empty,
    {
        if self.has_line(Piece::Red) {
            Some(Piece::Red)
        } else if self.has_line(Piece::Blue) {
            Some(Piece::Blue)
        } else {
            None
        }
    }

    /// The game is over: someone has won, or the board is full.
    pub fn is_terminal(&self) -> (t: bool)
        requires
            self.wf(),
        ensures
            t == terminal_spec(self@),
    {
        proof {
            lemma_valid_moves(self@);
        }
        match self.has_winner() {
            Some(_) => true,
            None => {
                let moves = self.valid_moves();
                proof {
                    if valid_moves_spec(self@).len() == 0 {
                        assert forall|c: int| 0 <= c < 7 implies col_height(self@, c) == 6 by {
                            lemma_height(self@, c);
                            if col_height(self@, c) < 6 {
                                assert(valid_moves_spec(self@).contains(c as usize));
                            }
                        }
                    } else {
                        let m = valid_moves_spec(self@)[0];
                        assert(col_height(self@, m as int) < 6);
                    }
                }
                moves.len() == 0
            },
        }
    }

    /// The columns in which dropping `piece` completes four in a row, in
    /// ascending order. Asking this of a board that already has a winner is
    /// a caller error.
    pub fn winning_moves(&self, piece: Piece) -> (moves: Vec<usize>)
        requires
            self.wf(),
            piece != Piece::Empty,
            !has_four(self@, Piece::Red),
            !has_four(self@, Piece::Blue),
        ensures
            moves@ == winning_moves_spec(self@, piece),
    {
        let mut moves: Vec<usize> = Vec::new();
        let mut c: usize = 0;
        while c < 7
            invariant
                self.wf(),
                piece != Piece::Empty,
                c <= 7,
                moves@ == wm_upto(self@, piece, c as int),
            decreases 7 - c,
        {
            if self.column_height(c) < 6 {
                let nb = self.place(c, piece);
                if nb.has_line(piece) {
                    moves.push(c);
                }
            }
            proof {
                assert(moves@ =~= wm_upto(self@, piece, c as int + 1));
            }
            c += 1;
        }
        moves
    }

    fn count_opp_horiz(&self, p: Piece) -> (n: usize)
        requires
            self.wf(),
        ensures
            n == opp_in_rect(self@, p, 6, 0, 4, 1, 0),
            n <= 24,
    {
        let mut n: usize = 0;
        let mut r: usize = 0;
        while r < 6
            invariant
                self.wf(),
                r <= 6,
                n == opp_in_rect(self@, p, r as int, 0, 4, 1, 0),
                n <= 4 * r,
            decreases 6 - r,
        {
            let mut c: usize = 0;
            while c < 4
                invariant
                    self.wf(),
                    r < 6,
                    c <= 4,
                    n == opp_in_rect(self@, p, r as int, 0, 4, 1, 0) + opp_in_row(
                        self@,
                        p,
                        r as int,
                        c as int,
                        1,
                        0,
                    ),
                    n <= 4 * r + c,
                decreases 4 - c,
            {
                if opportunity_check(
                    self.get_checked(c, r),
                    self.get_checked(c + 1, r),
                    self.get_checked(c + 2, r),
                    self.get_checked(c + 3, r),
                    p,
                ) {
                    n += 1;
                }
                c += 1;
            }
            r += 1;
        }
        n
    }

    fn count_opp_vert(&self, p: Piece) -> (n: usize)
        requires
            self.wf(),
        ensures
            n == opp_in_rect(self@, p, 3, 0, 7, 0, 1),
            n <= 21,
    {
        let mut n: usize = 0;
        let mut r: usize = 0;
        while r < 3
            invariant
                self.wf(),
                r <= 3,
                n == opp_in_rect(self@, p, r as int, 0, 7, 0, 1),
                n <= 7 * r,
            decreases 3 - r,
        {
            let mut c: usize = 0;
            while c < 7
                invariant
                    self.wf(),
                    r < 3,
                    c <= 7,
                    n == opp_in_rect(self@, p, r as int, 0, 7, 0, 1) + opp_in_row(
                        self@,
                        p,
                        r as int,
                        c as int,
                        0,
                        1,
                    ),
                    n <= 7 * r + c,
                decreases 7 - c,
            {
                if opportunity_check(
                    self.get_checked(c, r),
                    self.get_checked(c, r + 1),
                    self.get_checked(c, r + 2),
                    self.get_checked(c, r + 3),
                    p,
                ) {
                    n += 1;
                }
                c += 1;
            }
            r += 1;
        }
        n
    }

    fn count_opp_diag_up(&self, p: Piece) -> (n: usize)
        requires
            self.wf(),
        ensures
            n == opp_in_rect(self@, p, 3, 0, 4, 1, 1),
            n <= 12,
    {
        let mut n: usize = 0;
        let mut r: usize = 0;
        while r < 3
            invariant
                self.wf(),
                r <= 3,
                n == opp_in_rect(self@, p, r as int, 0, 4, 1, 1),
                n <= 4 * r,
            decreases 3 - r,
        {
            let mut c: usize = 0;
            while c < 4
                invariant
                    self.wf(),
                    r < 3,
                    c <= 4,
                    n == opp_in_rect(self@, p, r as int, 0, 4, 1, 1) + opp_in_row(
                        self@,
                        p,
                        r as int,
                        c as int,
                        1,
                        1,
                    ),
                    n <= 4 * r + c,
                decreases 4 - c,
            {
                if opportunity_check(
                    self.get_checked(c, r),
                    self.get_checked(c + 1, r + 1),
                    self.get_checked(c + 2, r + 2),
                    self.get_checked(c + 3, r + 3),
                    p,
                ) {
                    n += 1;
                }
                c += 1;
            }
            r += 1;
        }
        n
    }

    fn count_opp_diag_down(&self, p: Piece) -> (n: usize)
        requires
            self.wf(),
        ensures
            n == opp_in_rect(self@, p, 3, 3, 4, 1, -1),
            n <= 12,
    {
        let mut n: usize = 0;
        let mut rb: usize = 0;
        while rb < 3
            invariant
                self.wf(),
                rb <= 3,
                n == opp_in_rect(self@, p, rb as int, 3, 4, 1, -1),
                n <= 4 * rb,
            decreases 3 - rb,
        {
            let mut c: usize = 0;
            while c < 4
                invariant
                    self.wf(),
                    rb < 3,
                    c <= 4,
                    n == opp_in_rect(self@, p, rb as int, 3, 4, 1, -1) + opp_in_row(
                        self@,
                        p,
                        rb + 3,
                        c as int,
                        1,
                        -1,
                    ),
                    n <= 4 * rb + c,
                decreases 4 - c,
            {
                if opportunity_check(
                    self.get_checked(c, rb + 3),
                    self.get_checked(c + 1, rb + 2),
                    self.get_checked(c + 2, rb + 1),
                    self.get_checked(c + 3, rb),
                    p,
                ) {
                    n += 1;
                }
                c += 1;
            }
            rb += 1;
        }
        n
    }

    /// How many windows hold exactly three pieces of `piece` and one empty
    /// cell — open-ended threats, counted over all four directions. Asking
    /// this of a board that already has a winner is a caller error.
    pub fn count_winning_opportunities(&self, piece: Piece) -> (n: usize)
        requires
            self.wf(),
            piece != Piece::Empty,
            !has_four(self@, Piece::Red),
            !has_four(self@, Piece::Blue),
        ensures
            n == opportunity_count(self@, piece),
            n <= 69,
    {
        let h = self.count_opp_horiz(piece);
        let v = self.count_opp_vert(piece);
        let du = self.count_opp_diag_up(piece);
        let dd = self.count_opp_diag_down(piece);
        h + v + du + dd
    }

    /// Every board reachable by dropping `piece` into an open column, in
    /// column order.
    pub fn all_future_boards(&self, piece: Piece) -> (boards: Vec<Board>)
        requires
            self.wf(),
            piece != Piece::Empty,
        ensures
            boards@.len() == valid_moves_spec(self@).len(),
            forall|i: int|
                0 <= i < boards@.len() ==> (#[trigger] boards@[i]).wf() && boards@[i]@ == place_spec(
                    self@,
                    valid_moves_spec(self@)[i] as int,
                    piece,
                ),
    {
        proof {
            lemma_valid_moves(self@);
        }
        let moves = self.valid_moves();
        let mut boards: Vec<Board> = Vec::new();
        let mut i: usize = 0;
        while i < moves.len()
            invariant
                self.wf(),
                piece != Piece::Empty,
                moves@ == valid_moves_spec(self@),
                forall|j: int| 0 <= j < moves@.len() ==> (#[trigger] moves@[j] < 7 && col_height(
                    self@,
                    moves@[j] as int,
                ) < 6),
                i <= moves@.len(),
                boards@.len() == i,
                forall|j: int|
                    0 <= j < i ==> (#[trigger] boards@[j]).wf() && boards@[j]@ == place_spec(
                        self@,
                        moves@[j] as int,
                        piece,
                    ),
            decreases moves@.len() - i,
        {
            let col = moves[i];
            boards.push(self.place(col, piece));
            i += 1;
        }
        boards
    }

    /// The board packed into one integer, for keying caches. Equal boards
    /// always give equal keys.
    pub fn cache_key(&self) -> (k: u64)
        requires
            self.wf(),
        ensures
            k == key_spec(self@),
    {
        proof {
            lemma_p512_small();
        }
        let mut key: u64 = 0;
        let mut c: usize = 0;
        while c < 7
            invariant
                self.wf(),
                c <= 7,
                key == key_upto(self@, c as int),
            decreases 7 - c,
        {
            proof {
                lemma_key_upto_bound(self@, c as int);
                lemma_p512_small();
                lemma_p512_mono(c as int);
            }
            let h = self.column_height(c);
            let mut bits: u64 = 0;
            let mut pw: u64 = 1;
            let mut r: usize = 0;
            while r < 6
                invariant
                    self.wf(),
                    c < 7,
                    r <= 6,
                    bits == col_bits(self@, c as int, r as int),
                    pw == two_pow(r as int),
                    bits < two_pow(r as int),
                    pw <= 64,
                decreases 6 - r,
            {
                proof {
                    lemma_col_bits_bound(self@, c as int, r as int);
                    lemma_two_pow_small();
                    lemma_two_pow_mono(r as int + 1);
                }
                if self.get_checked(c, r) == Piece::Blue {
                    bits += pw;
                }
                pw *= 2;
                r += 1;
            }
            proof {
                lemma_two_pow_small();
                lemma_height(self@, c as int);
            }
            let code: u64 = (h as u64) + 8 * bits;
            proof {
                assert(key_upto(self@, c as int) < p512(6));
                assert((key as nat) * 512 + (code as nat) < 0x8000000000000000) by (nonlinear_arith)
                    requires
                        key as nat == key_upto(self@, c as int),
                        key_upto(self@, c as int) < p512(6),
                        p512(6) == 0x40000000000000,
                        code < 512,
                ;
            }
            key = key * 512 + code;
            c += 1;
        }
        key
    }

    /// Whether this board holds exactly the same grid as `other`.
    pub fn same_as(&self, other: &Board) -> (r: bool)
        requires
            self.wf(),
            other.wf(),
        ensures
            r == (self@ == other@),
    {
        let mut i: usize = 0;
        while i < 42
            invariant
                self.wf(),
                other.wf(),
                i <= 42,
                forall|j: int| 0 <= j < i ==> self@[j] == other@[j],
            decreases 42 - i,
        {
            if self.get_cell_flat(i) != other.get_cell_flat(i) {
                return false;
            }
            i += 1;
        }
        proof {
            assert(self@ =~= other@);
        }
        true
    }

    /// The cell at flat index `i` of the column-major grid.
    fn get_cell_flat(&self, i: usize) -> (p: Piece)
        requires
            self.wf(),
            i < 42,
        ensures
            p == self@[i as int],
    {
        self.cells[i]
    }

    /// Every board reachable by the player to move, in column order.
    pub fn next_states(&self) -> (boards: Vec<Board>)
        requires
            self.wf(),
            balanced(self@),
        ensures
            boards@.len() == valid_moves_spec(self@).len(),
            forall|i: int|
                0 <= i < boards@.len() ==> (#[trigger] boards@[i]).wf() && boards@[i]@ == place_spec(
                    self@,
                    valid_moves_spec(self@)[i] as int,
                    next_player_spec(self@),
                ),
    {
        let p = self.next_player();
        self.all_future_boards(p)
    }
}

} // verus!
