use vstd::prelude::*;

use crate::board::{cell, col_height, grid_ok, lemma_height, stack_above, Piece};

verus! {

/// The character that stands for a cell in the text form.
pub open spec fn char_of(p: Piece) -> char {
    match p {
        Piece::Empty => ' ',
        Piece::Red => 'R',
        Piece::Blue => 'B',
    }
}

/// The cell a character stands for; unknown characters read as empty.
pub open spec fn piece_of(ch: char) -> Piece {
    if ch == 'R' {
        Piece::Red
    } else if ch == 'B' {
        Piece::Blue
    } else {
        Piece::Empty
    }
}

/// The characters the text form may use inside a line.
pub open spec fn valid_char(ch: char) -> bool {
    ch == 'R' || ch == 'B' || ch == ' '
}

/// Row `r` of the grid written out in full: seven characters, left to right.
pub open spec fn raw_row(g: Seq<Piece>, r: int) -> Seq<char> {
    Seq::new(7, |c: int| char_of(cell(g, c, r)))
}

/// A line with its trailing spaces removed.
pub open spec fn trim_row(s: Seq<char>) -> Seq<char>
    decreases s.len(),
{
    if s.len() == 0 {
        s
    } else if s.last() == ' ' {
        trim_row(s.drop_last())
    } else {
        s
    }
}

/// The six lines of the text form, top row first, each trimmed.
pub open spec fn encode_lines(g: Seq<Piece>) -> Seq<Seq<char>> {
    Seq::new(6, |i: int| trim_row(raw_row(g, 5 - i)))
}

/// Lines joined with `/` between them.
pub open spec fn joined(lines: Seq<Seq<char>>) -> Seq<char>
    decreases lines.len(),
{
    if lines.len() == 0 {
        Seq::empty()
    } else if lines.len() == 1 {
        lines[0]
    } else {
        lines[0] + seq!['/'] + joined(lines.drop_first())
    }
}

/// The complete text form of a grid: a `!` marker, then the six lines.
pub open spec fn encode_grid(g: Seq<Piece>) -> Seq<char> {
    seq!['!'] + joined(encode_lines(g))
}

/// The text split at every `/`.
pub open spec fn split_slashes(s: Seq<char>) -> Seq<Seq<char>>
    decreases s.len(),
{
    if s.len() == 0 {
        seq![Seq::empty()]
    } else if s[0] == '/' {
        seq![Seq::<char>::empty()] + split_slashes(s.drop_first())
    } else {
        let rest = split_slashes(s.drop_first());
        seq![seq![s[0]] + rest[0]] + rest.skip(1)
    }
}

/// A string is a valid board encoding: the marker, six lines split by `/`,
/// each at most seven characters, all of them cell characters.
pub open spec fn valid_encoding(s: Seq<char>) -> bool {
    &&& s.len() >= 1
    &&& s[0] == '!'
    &&& {
        let lines = split_slashes(s.skip(1));
        &&& lines.len() == 6
        &&& forall|i: int| 0 <= i < 6 ==> (#[trigger] lines[i]).len() <= 7
        &&& forall|i: int, j: int|
            0 <= i < 6 && 0 <= j < lines[i].len() ==> valid_char(#[trigger] lines[i][j])
    }
}

/// The cell at `(c, r)` read straight off the split lines, before gravity
/// is applied: characters past a line's end read as empty.
pub open spec fn pre_cell(lines: Seq<Seq<char>>, c: int, r: int) -> Piece {
    if c < lines[5 - r].len() {
        piece_of(lines[5 - r][c])
    } else {
        Piece::Empty
    }
}

/// The raw parsed grid, before gravity is applied.
pub open spec fn pre_grid(lines: Seq<Seq<char>>) -> Seq<Piece> {
    Seq::new(42, |i: int| pre_cell(lines, i / 6, i % 6))
}

/// The parsed grid: each column keeps its contiguous bottom run of pieces
/// and anything floating above a gap is dropped.
pub open spec fn parse_lines(lines: Seq<Seq<char>>) -> Seq<Piece> {
    Seq::new(
        42,
        |i: int|
            if (i % 6) < stack_above(pre_grid(lines), i / 6, 0) {
                pre_cell(lines, i / 6, i % 6)
            } else {
                Piece::Empty
            },
    )
}

/// The grid a valid encoding stands for.
pub open spec fn parse_grid(s: Seq<char>) -> Seq<Piece> {
    parse_lines(split_slashes(s.skip(1)))
}

/// Flat index arithmetic: `c * 6 + r` decomposes back into `c` and `r`.
pub proof fn lemma_flat_index(c: int, r: int)
    requires
        0 <= c,
        0 <= r < 6,
    ensures
        (c * 6 + r) / 6 == c,
        (c * 6 + r) % 6 == r,
{
    assert((c * 6 + r) / 6 == c && (c * 6 + r) % 6 == r) by (nonlinear_arith)
        requires
            0 <= c,
            0 <= r < 6,
    ;
}

/// `trim_row` keeps a prefix: what it keeps is unchanged, what it drops is
/// spaces.
pub proof fn lemma_trim_row(s: Seq<char>)
    ensures
        trim_row(s).len() <= s.len(),
        trim_row(s) == s.take(trim_row(s).len() as int),
        forall|j: int| trim_row(s).len() <= j < s.len() ==> s[j] == ' ',
        trim_row(s).len() > 0 ==> s[trim_row(s).len() - 1] != ' ',
    decreases s.len(),
{
    if s.len() == 0 {
        assert(trim_row(s) =~= s.take(trim_row(s).len() as int));
    } else if s.last() == ' ' {
        lemma_trim_row(s.drop_last());
        assert(s.drop_last() =~= s.take(s.len() - 1));
        assert(trim_row(s) == trim_row(s.drop_last()));
        assert(trim_row(s) =~= s.take(trim_row(s).len() as int));
        assert forall|j: int| trim_row(s).len() <= j < s.len() implies s[j] == ' ' by {
            if j < s.len() - 1 {
                assert(s.drop_last()[j] == ' ');
            }
        }
    } else {
        assert(trim_row(s) =~= s.take(trim_row(s).len() as int));
    }
}

/// A sequence that ends in `k` spaces after a prefix that does not end in a
/// space trims to exactly that prefix.
pub proof fn lemma_trim_row_exact(s: Seq<char>, l: int)
    requires
        0 <= l <= s.len(),
        forall|j: int| l <= j < s.len() ==> s[j] == ' ',
        l > 0 ==> s[l - 1] != ' ',
    ensures
        trim_row(s) == s.take(l),
    decreases s.len(),
{
    if s.len() == 0 {
        assert(trim_row(s) =~= s.take(l));
    } else if l == s.len() {
        assert(s.last() != ' ');
        assert(trim_row(s) =~= s.take(l));
    } else {
        assert(s.last() == ' ');
        assert forall|j: int| l <= j < s.drop_last().len() implies s.drop_last()[j] == ' ' by {}
        if l > 0 {
            assert(s.drop_last()[l - 1] == s[l - 1]);
        }
        lemma_trim_row_exact(s.drop_last(), l);
        assert(s.drop_last().take(l) =~= s.take(l));
    }
}

/// Splitting a slash-free sequence yields that one line.
pub proof fn lemma_split_whole(s: Seq<char>)
    requires
        forall|j: int| 0 <= j < s.len() ==> s[j] != '/',
    ensures
        split_slashes(s) == seq![s],
    decreases s.len(),
{
    if s.len() == 0 {
        assert(split_slashes(s) =~~= seq![s]);
    } else {
        assert(forall|j: int| 0 <= j < s.drop_first().len() ==> #[trigger] s.drop_first()[j]
            != '/');
        lemma_split_whole(s.drop_first());
        assert(seq![s[0]] + s.drop_first() =~= s);
        assert(split_slashes(s) =~~= seq![s]);
    }
}

/// Splitting `a / b` with `a` slash-free peels off `a` as the first line.
pub proof fn lemma_split_step(a: Seq<char>, b: Seq<char>)
    requires
        forall|j: int| 0 <= j < a.len() ==> a[j] != '/',
    ensures
        split_slashes(a + seq!['/'] + b) == seq![a] + split_slashes(b),
    decreases a.len(),
{
    let s = a + seq!['/'] + b;
    if a.len() == 0 {
        assert(s[0] == '/');
        assert(s.drop_first() =~= b);
        assert(split_slashes(s) =~~= seq![a] + split_slashes(b));
    } else {
        assert(s[0] == a[0]);
        assert(s[0] != '/');
        assert(s.drop_first() =~= a.drop_first() + seq!['/'] + b);
        assert(forall|j: int| 0 <= j < a.drop_first().len() ==> #[trigger] a.drop_first()[j]
            != '/');
        lemma_split_step(a.drop_first(), b);
        let rest = split_slashes(s.drop_first());
        assert(rest == seq![a.drop_first()] + split_slashes(b));
        assert(rest[0] == a.drop_first());
        assert(seq![s[0]] + rest[0] =~= a);
        assert(rest.skip(1) =~~= split_slashes(b));
        assert(split_slashes(s) =~~= seq![a] + split_slashes(b));
    }
}

/// Splitting always yields at least one line.
pub proof fn lemma_split_nonempty(s: Seq<char>)
    ensures
        split_slashes(s).len() >= 1,
{
}

/// The cells counted by `stack_above` from the bottom are all occupied.
pub proof fn lemma_stack_exact_props(g: Seq<Piece>, c: int)
    ensures
        stack_above(g, c, 0) <= 6,
        forall|j: int| 0 <= j < stack_above(g, c, 0) ==> #[trigger] cell(g, c, j) != Piece::Empty,
{
    lemma_stack_props_from(g, c, 0);
}

proof fn lemma_stack_props_from(g: Seq<Piece>, c: int, r: int)
    requires
        0 <= r <= 6,
    ensures
        stack_above(g, c, r) <= 6 - r,
        forall|j: int| r <= j < r + stack_above(g, c, r) ==> #[trigger] cell(g, c, j)
            != Piece::Empty,
    decreases 6 - r,
{
    if r < 6 {
        lemma_stack_props_from(g, c, r + 1);
    }
}

/// The first line of a split is the longest slash-free prefix, and the rest
/// of the split resumes after the slash that ends it.
pub proof fn lemma_split_first(t: Seq<char>)
    ensures
        split_slashes(t)[0].len() <= t.len(),
        split_slashes(t)[0] == t.take(split_slashes(t)[0].len() as int),
        forall|j: int| 0 <= j < split_slashes(t)[0].len() ==> t[j] != '/',
        split_slashes(t)[0].len() < t.len() ==> (t[split_slashes(t)[0].len() as int] == '/'
            && split_slashes(t).skip(1) == split_slashes(
            t.skip(split_slashes(t)[0].len() as int + 1),
        )),
        split_slashes(t)[0].len() == t.len() ==> split_slashes(t).len() == 1,
    decreases t.len(),
{
    if t.len() == 0 {
        assert(split_slashes(t)[0] =~= t.take(0));
    } else if t[0] == '/' {
        assert(split_slashes(t)[0] =~= t.take(0));
        assert(t.drop_first() =~= t.skip(1));
        assert(split_slashes(t).skip(1) =~~= split_slashes(t.skip(1)));
    } else {
        lemma_split_first(t.drop_first());
        let rest = split_slashes(t.drop_first());
        let l0 = rest[0].len() as int;
        assert(split_slashes(t)[0] == seq![t[0]] + rest[0]);
        assert(split_slashes(t)[0].len() == l0 + 1);
        assert forall|j: int| 0 <= j < l0 + 1 implies t[j] != '/' by {
            if j > 0 {
                assert(t.drop_first()[j - 1] != '/');
            }
        }
        assert(split_slashes(t)[0] =~= t.take(l0 + 1));
        if l0 + 1 < t.len() {
            assert(t.drop_first()[l0] == t[l0 + 1]);
            assert(t.drop_first().skip(l0 + 1) =~= t.skip(l0 + 2));
            assert(split_slashes(t).skip(1) =~~= rest.skip(1));
        }
    }
}

/// Joining after appending a line appends `/` and the line.
pub proof fn lemma_joined_snoc(lines: Seq<Seq<char>>, x: Seq<char>)
    requires
        lines.len() >= 1,
    ensures
        joined(lines.push(x)) == joined(lines) + seq!['/'] + x,
    decreases lines.len(),
{
    if lines.len() == 1 {
        assert(lines.push(x).drop_first() =~~= seq![x]);
        assert(lines.push(x)[0] == lines[0]);
        assert(joined(seq![x]) == x);
        assert(joined(lines.push(x)) == lines[0] + seq!['/'] + x);
    } else {
        assert(lines.push(x).drop_first() =~~= lines.drop_first().push(x));
        lemma_joined_snoc(lines.drop_first(), x);
        assert(joined(lines.push(x)) == lines[0] + seq!['/'] + (joined(lines.drop_first())
            + seq!['/'] + x));
        assert(lines[0] + seq!['/'] + (joined(lines.drop_first()) + seq!['/'] + x) =~= (lines[0]
            + seq!['/'] + joined(lines.drop_first())) + seq!['/'] + x);
    }
}

/// Splitting undoes joining, as long as no line holds a `/`.
pub proof fn lemma_split_joined(lines: Seq<Seq<char>>)
    requires
        lines.len() >= 1,
        forall|i: int, j: int|
            0 <= i < lines.len() && 0 <= j < lines[i].len() ==> #[trigger] lines[i][j] != '/',
    ensures
        split_slashes(joined(lines)) == lines,
    decreases lines.len(),
{
    if lines.len() == 1 {
        lemma_split_whole(lines[0]);
        assert(split_slashes(joined(lines)) =~~= lines);
    } else {
        lemma_split_joined(lines.drop_first());
        assert(joined(lines) == lines[0] + seq!['/'] + joined(lines.drop_first()));
        lemma_split_step(lines[0], joined(lines.drop_first()));
        assert(split_slashes(joined(lines)) == seq![lines[0]] + lines.drop_first());
        assert(seq![lines[0]] + lines.drop_first() =~~= lines);
    }
}

/// Counting occupied cells upward needs no gravity assumption: it equals
/// the position of the first empty cell.
pub proof fn lemma_stack_exact(g: Seq<Piece>, c: int, h: int)
    requires
        0 <= h <= 6,
        forall|j: int| 0 <= j < h ==> #[trigger] cell(g, c, j) != Piece::Empty,
        h < 6 ==> cell(g, c, h) == Piece::Empty,
    ensures
        stack_above(g, c, 0) == h,
{
    lemma_stack_exact_from(g, c, h, 0);
}

proof fn lemma_stack_exact_from(g: Seq<Piece>, c: int, h: int, r: int)
    requires
        0 <= r <= h <= 6,
        forall|j: int| 0 <= j < h ==> #[trigger] cell(g, c, j) != Piece::Empty,
        h < 6 ==> cell(g, c, h) == Piece::Empty,
    ensures
        stack_above(g, c, r) == h - r,
    decreases 6 - r,
{
    if r < h {
        lemma_stack_exact_from(g, c, h, r + 1);
    }
}

/// The lines of a well-formed grid's text form read back as the grid's own
/// cells.
proof fn lemma_encode_lines_cells(g: Seq<Piece>)
    requires
        grid_ok(g),
    ensures
        forall|i: int| 0 <= i < 6 ==> (#[trigger] encode_lines(g)[i]).len() <= 7,
        forall|i: int, j: int|
            0 <= i < 6 && 0 <= j < encode_lines(g)[i].len() ==> valid_char(
                #[trigger] encode_lines(g)[i][j],
            ) && encode_lines(g)[i][j] != '/',
        forall|c: int, r: int|
            0 <= c < 7 && 0 <= r < 6 ==> #[trigger] pre_cell(encode_lines(g), c, r) == cell(
                g,
                c,
                r,
            ),
{
    let lines = encode_lines(g);
    assert forall|i: int| 0 <= i < 6 implies (#[trigger] lines[i]).len() <= 7 by {
        lemma_trim_row(raw_row(g, 5 - i));
    }
    assert forall|i: int, j: int| 0 <= i < 6 && 0 <= j < lines[i].len() implies valid_char(
        #[trigger] lines[i][j],
    ) && lines[i][j] != '/' by {
        lemma_trim_row(raw_row(g, 5 - i));
        assert(lines[i][j] == raw_row(g, 5 - i)[j]);
        assert(lines[i][j] == char_of(cell(g, j, 5 - i)));
    }
    assert forall|c: int, r: int| 0 <= c < 7 && 0 <= r < 6 implies #[trigger] pre_cell(lines, c, r)
        == cell(g, c, r) by {
        let i = 5 - r;
        lemma_trim_row(raw_row(g, r));
        assert(lines[i] == trim_row(raw_row(g, r)));
        if c < lines[i].len() {
            assert(lines[i][c] == raw_row(g, r)[c]);
            assert(lines[i][c] == char_of(cell(g, c, r)));
        } else {
            assert(raw_row(g, r)[c] == ' ');
            assert(char_of(cell(g, c, r)) == ' ');
        }
    }
}

/// The text form of a well-formed grid is a valid encoding and parses back
/// to exactly that grid: `decode` undoes `encode`.
pub proof fn lemma_round_trip(g: Seq<Piece>)
    requires
        grid_ok(g),
    ensures
        valid_encoding(encode_grid(g)),
        parse_grid(encode_grid(g)) == g,
{
    let lines = encode_lines(g);
    let s = encode_grid(g);
    lemma_encode_lines_cells(g);
    lemma_split_joined(lines);
    assert(s.skip(1) =~= joined(lines));
    assert(split_slashes(s.skip(1)) == lines);
    assert(valid_encoding(s));
    assert forall|i: int| 0 <= i < 42 implies #[trigger] pre_grid(lines)[i] == g[i] by {
        vstd::arithmetic::div_mod::lemma_fundamental_div_mod(i, 6);
        let c = i / 6;
        let r = i % 6;
        vstd::arithmetic::div_mod::lemma_mod_bound(i, 6);
        assert(0 <= r < 6);
        assert(c * 6 + r == i);
        assert(0 <= c < 7);
        assert(pre_cell(lines, c, r) == cell(g, c, r));
    }
    assert(pre_grid(lines) =~= g);
    assert forall|i: int| 0 <= i < 42 implies #[trigger] parse_lines(lines)[i] == g[i] by {
        vstd::arithmetic::div_mod::lemma_fundamental_div_mod(i, 6);
        let c = i / 6;
        let r = i % 6;
        vstd::arithmetic::div_mod::lemma_mod_bound(i, 6);
        assert(0 <= r < 6);
        assert(c * 6 + r == i);
        assert(0 <= c < 7);
        lemma_height(g, c);
        assert(stack_above(pre_grid(lines), c, 0) == col_height(g, c));
        if r < col_height(g, c) {
            assert(parse_lines(lines)[i] == pre_cell(lines, c, r));
        } else {
            assert(cell(g, c, r) == Piece::Empty);
        }
    }
    assert(parse_lines(lines) =~= g);
}

} // verus!
