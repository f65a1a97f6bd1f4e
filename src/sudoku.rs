//! Solves sudoku boards by depth-first backtracking.
use vstd::prelude::*;

use crate::text::string_from_chars;

verus! {

/// The errors that solving a board can report.
#[derive(Debug)]
pub enum Error {
    /// The input is not 81 ASCII digits; the string says why.
    InvalidBoard(String),
    /// The board is well formed but no completion obeys the rules.
    Unsolvable,
}

/// A 9x9 board, row-major; 0 marks an empty cell.
pub struct Board {
    grid: Vec<u8>,
}

/// An ASCII digit `'0'`..=`'9'`.
pub open spec fn is_digit(c: char) -> bool {
    48 <= (c as u32) <= 57
}

/// Every character of `s` is an ASCII digit.
pub open spec fn all_digits(s: Seq<char>) -> bool {
    forall|i: int| 0 <= i < s.len() ==> is_digit(#[trigger] s[i])
}

/// A string that names a board: 81 ASCII digits.
pub open spec fn is_board_text(s: Seq<char>) -> bool {
    s.len() == 81 && all_digits(s)
}

/// The value of the digit `c`.
pub open spec fn digit_value(c: char) -> u8 {
    ((c as u32) - 48) as u8
}

/// The grid that the text `s` names.
pub open spec fn parse_grid(s: Seq<char>) -> Seq<u8> {
    Seq::new(s.len(), |i: int| digit_value(s[i]))
}

/// The character that writes the digit `d`.
pub open spec fn digit_char(d: u8) -> char {
    ((d + 48) as u8) as char
}

/// The text of a grid: one digit per cell.
pub open spec fn grid_text(g: Seq<u8>) -> Seq<char> {
    Seq::new(g.len(), |i: int| digit_char(g[i]))
}

/// A grid of 81 cells, each 0..=9.
pub open spec fn grid_wf(g: Seq<u8>) -> bool {
    g.len() == 81 && forall|i: int| 0 <= i < 81 ==> #[trigger] g[i] <= 9
}

/// The cell in row `r`, column `c`, other than the cell itself, shares a row,
/// column or 3x3 box with the cell `p`.
pub open spec fn is_peer(p: int, r: int, c: int) -> bool {
    0 <= r < 9 && 0 <= c < 9 && (r != p / 9 || c != p % 9) && (r == p / 9 || c == p % 9 || (r
        / 3 == (p / 9) / 3 && c / 3 == (p % 9) / 3))
}

/// The value in row `r`, column `c`.
pub open spec fn cell(g: Seq<u8>, r: int, c: int) -> u8 {
    g[r * 9 + c]
}

/// No peer of cell `p` holds `n`.
pub open spec fn valid_at(g: Seq<u8>, p: int, n: u8) -> bool {
    forall|r: int, c: int| #[trigger] is_peer(p, r, c) ==> cell(g, r, c) != n
}

/// Every cell holds 1..=9 and no peer of it holds the same value.
pub open spec fn is_solved(g: Seq<u8>) -> bool {
    g.len() == 81 && forall|p: int|
        0 <= p < 81 ==> 1 <= #[trigger] g[p] <= 9 && valid_at(g, p, g[p])
}

/// `h` keeps every filled cell of `g`.
pub open spec fn extends(g: Seq<u8>, h: Seq<u8>) -> bool {
    h.len() == g.len() && forall|i: int| 0 <= i < g.len() && #[trigger] g[i] != 0 ==> h[i] == g[i]
}

/// Some solved grid keeps every filled cell of `g`.
pub open spec fn has_completion(g: Seq<u8>) -> bool {
    exists|h: Seq<u8>| extends(g, h) && is_solved(h)
}

/// Why the text `s` names no board.
pub open spec fn invalid_reason(s: Seq<char>) -> Seq<char> {
    if s.len() != 81 {
        "string must be exactly 81 characters"@
    } else {
        "string must contain only digits (zero for empty)"@
    }
}

/// `a` comes before `b` in row-major order: they agree up to some cell,
/// where `a` holds the smaller value.
pub open spec fn lex_before(a: Seq<u8>, b: Seq<u8>) -> bool {
    exists|k: int|
        0 <= k < a.len() && k < b.len() && #[trigger] a[k] < #[trigger] b[k] && forall|j: int|
            0 <= j < k ==> a[j] == b[j]
}

/// `g` is a solved grid that keeps every filled cell of `base`, and no other
/// such grid comes before it in row-major order.
pub open spec fn is_first_completion(base: Seq<u8>, g: Seq<u8>) -> bool {
    &&& extends(base, g)
    &&& is_solved(g)
    &&& forall|h: Seq<u8>| extends(base, h) && is_solved(h) ==> !lex_before(h, g)
}

proof fn lemma_not_before(h: Seq<u8>, f: Seq<u8>, p: int)
    requires
        0 <= p < h.len(),
        p < f.len(),
        forall|j: int| 0 <= j < p ==> h[j] == f[j],
        f[p] < h[p],
    ensures
        !lex_before(h, f),
{
    if lex_before(h, f) {
        let k = choose|k: int|
            0 <= k < h.len() && k < f.len() && #[trigger] h[k] < #[trigger] f[k] && forall|j: int|
                0 <= j < k ==> h[j] == f[j];
        if k < p {
            assert(h[k] == f[k]);
        } else if k > p {
            assert(h[p] == f[p]);
        }
    }
}

proof fn lemma_cell_index(r: int, c: int)
    requires
        0 <= r < 9,
        0 <= c < 9,
    ensures
        0 <= r * 9 + c < 81,
        (r * 9 + c) / 9 == r,
        (r * 9 + c) % 9 == c,
{
    assert(0 <= r * 9 + c < 81) by (nonlinear_arith)
        requires
            0 <= r < 9,
            0 <= c < 9,
    ;
    vstd::arithmetic::div_mod::lemma_fundamental_div_mod_converse(r * 9 + c, 9, r, c);
}

/// A peer cell that holds `n` keeps it in any completion, which then breaks
/// the rules at `p` if it also puts `n` there.
proof fn lemma_conflict_kept(g: Seq<u8>, h: Seq<u8>, p: int, n: u8)
    requires
        0 <= p < 81,
        1 <= n,
        !valid_at(g, p, n),
        extends(g, h),
        g.len() == 81,
        h[p] == n,
    ensures
        !is_solved(h),
{
    let (r, c) = choose|r: int, c: int| #[trigger] is_peer(p, r, c) && cell(g, r, c) == n;
    lemma_cell_index(r, c);
    assert(g[r * 9 + c] != 0);
    assert(h[r * 9 + c] == n);
    assert(!valid_at(h, p, h[p]));
}

/// A complete board that obeys the rules is its own completion and the only
/// grid that keeps all its cells: solving it succeeds and leaves it unchanged.
pub proof fn lemma_solved_board_is_fixed(g: Seq<u8>)
    requires
        is_solved(g),
    ensures
        has_completion(g),
        forall|h: Seq<u8>| extends(g, h) ==> h == g,
{
    assert(extends(g, g));
    assert forall|h: Seq<u8>| extends(g, h) implies h == g by {
        assert forall|i: int| 0 <= i < 81 implies h[i] == g[i] by {
            assert(1 <= g[i]);
        }
        assert(h =~= g);
    }
}

/// A solved board's text names a board that solving returns unchanged: it is
/// its own first completion, and writing its grid gives back the text.
pub proof fn lemma_solved_text_is_fixed(s: Seq<char>)
    requires
        is_board_text(s),
        is_solved(parse_grid(s)),
    ensures
        grid_text(parse_grid(s)) == s,
        is_first_completion(parse_grid(s), parse_grid(s)),
        forall|h: Seq<u8>| is_first_completion(parse_grid(s), h) ==> h == parse_grid(s),
{
    let g = parse_grid(s);
    lemma_solved_board_is_fixed(g);
    assert forall|i: int| 0 <= i < 81 implies #[trigger] grid_text(g)[i] == s[i] by {
        assert(is_digit(s[i]));
        let c = s[i];
        let b = ((digit_value(c) + 48) as u8);
        assert(b as u32 == c as u32);
        vstd::utf8::char_u32_cast(c, c as u32);
        assert((b as char) as u32 == b as u32);
        vstd::utf8::char_u32_cast(b as char, b as u32);
        assert(digit_char(digit_value(c)) == c);
    }
    assert(grid_text(g) =~= s);
    assert forall|h: Seq<u8>| extends(g, h) && is_solved(h) implies !lex_before(h, g) by {
        assert(h == g);
    }
}

impl Error {
    /// A line that describes the error.
    pub fn message(&self) -> (r: String)
        ensures
            self matches Error::InvalidBoard(s) ==> r@ == "Invalid board: "@ + s@,
            self is Unsolvable ==> r@ == "board is not solvable"@,
    {
        match self {
            Error::InvalidBoard(s) => String::from_str("Invalid board: ").concat(s.as_str()),
            Error::Unsolvable => String::from_str("board is not solvable"),
        }
    }
}

impl Board {
    pub closed spec fn view(&self) -> Seq<u8> {
        self.grid@
    }

    /// The board's invariant: 81 cells of 0..=9.
    pub open spec fn wf(&self) -> bool {
        grid_wf(self@)
    }

    /// Reads a board from 81 ASCII digits, `'0'` marking an empty cell.
    pub fn new(s: &str) -> (r: Result<Board, Error>)
        ensures
            is_board_text(s@) <==> r is Ok,
            r matches Ok(b) ==> b.wf() && b@ == parse_grid(s@),
            r matches Err(e) ==> e is InvalidBoard,
            s@.len() != 81 ==> (r matches Err(Error::InvalidBoard(m)) && m@
                == "string must be exactly 81 characters"@),
            s@.len() == 81 && !all_digits(s@) ==> (r matches Err(Error::InvalidBoard(m)) && m@
                == "string must contain only digits (zero for empty)"@),
    {
        if s.unicode_len() != 81 {
            return Err(Error::InvalidBoard(String::from_str("string must be exactly 81 characters")));
        } else if !only_digits(s) {
            return Err(
                Error::InvalidBoard(String::from_str("string must contain only digits (zero for empty)")),
            );
        }
        let mut grid: Vec<u8> = Vec::new();
        let mut i: usize = 0;
        while i < 81
            invariant
                i <= 81,
                s@.len() == 81,
                all_digits(s@),
                grid@ =~= parse_grid(s@).subrange(0, i as int),
            decreases 81 - i,
        {
            let c = s.get_char(i);
            assert(is_digit(s@[i as int]));
            grid.push(((c as u32) - 48) as u8);
            i += 1;
        }
        assert(grid@ =~= parse_grid(s@));
        Ok(Board { grid })
    }

    /// Whether `n` at cell `p` clashes with no other cell of its row,
    /// column or box.
    pub fn valid(&self, p: usize, n: u8) -> (r: bool)
        requires
            self.wf(),
            p < 81,
        ensures
            r == valid_at(self@, p as int, n),
    {
        let x = p % 9;
        let y = p / 9;
        let mut i: usize = 0;
        while i < 9
            invariant
                self.wf(),
                p < 81,
                x == p % 9,
                y == p / 9,
                i <= 9,
                forall|j: int| 0 <= j < i && j != x ==> #[trigger] cell(self@, y as int, j) != n,
                forall|j: int| 0 <= j < i && j != y ==> #[trigger] cell(self@, j, x as int) != n,
            decreases 9 - i,
        {
            proof {
                lemma_cell_index(y as int, i as int);
                lemma_cell_index(i as int, x as int);
            }
            if i != x && self.grid[y * 9 + i] == n {
                assert(is_peer(p as int, y as int, i as int));
                return false;
            }
            if i != y && self.grid[i * 9 + x] == n {
                assert(is_peer(p as int, i as int, x as int));
                return false;
            }
            i += 1;
        }
        let x0 = (x / 3) * 3;
        let y0 = (y / 3) * 3;
        let mut dx: usize = 0;
        while dx < 3
            invariant
                self.wf(),
                p < 81,
                x == p % 9,
                y == p / 9,
                x0 == (x / 3) * 3,
                y0 == (y / 3) * 3,
                dx <= 3,
                forall|j: int| 0 <= j < 9 && j != x ==> #[trigger] cell(self@, y as int, j) != n,
                forall|j: int| 0 <= j < 9 && j != y ==> #[trigger] cell(self@, j, x as int) != n,
                forall|a: int, b: int|
                    0 <= a < dx && 0 <= b < 3 && (y0 + b != y || x0 + a != x) ==> #[trigger] cell(
                        self@,
                        y0 + b,
                        x0 + a,
                    ) != n,
            decreases 3 - dx,
        {
            let mut dy: usize = 0;
            while dy < 3
                invariant
                    self.wf(),
                    p < 81,
                    x == p % 9,
                    y == p / 9,
                    x0 == (x / 3) * 3,
                    y0 == (y / 3) * 3,
                    dx < 3,
                    dy <= 3,
                    forall|a: int, b: int|
                        0 <= a < dx && 0 <= b < 3 && (y0 + b != y || x0 + a != x) ==> #[trigger] cell(
                            self@,
                            y0 + b,
                            x0 + a,
                        ) != n,
                    forall|b: int|
                        0 <= b < dy && (y0 + b != y || x0 + dx != x) ==> #[trigger] cell(
                            self@,
                            y0 + b,
                            x0 + dx,
                        ) != n,
                decreases 3 - dy,
            {
                proof {
                    lemma_cell_index((y0 + dy) as int, (x0 + dx) as int);
                }
                if (y0 + dy) == y && (x0 + dx) == x {
                    dy += 1;
                    continue;
                }
                if self.grid[(y0 + dy) * 9 + x0 + dx] == n {
                    assert(is_peer(p as int, (y0 + dy) as int, (x0 + dx) as int));
                    return false;
                }
                dy += 1;
            }
            dx += 1;
        }
        assert forall|r: int, c: int| #[trigger] is_peer(p as int, r, c) implies cell(self@, r, c) != n by {
            if r == y {
            } else if c == x {
            } else {
                assert(0 <= c - x0 < 3);
                assert(0 <= r - y0 < 3);
                assert(cell(self@, y0 + (r - y0), x0 + (c - x0)) != n);
            }
        }
        true
    }

    /// Whether every cell is filled and obeys the rules.
    pub fn solved(&self) -> (r: bool)
        requires
            self.wf(),
        ensures
            r == is_solved(self@),
    {
        let mut p: usize = 0;
        while p < 81
            invariant
                self.wf(),
                p <= 81,
                forall|q: int| 0 <= q < p ==> 1 <= #[trigger] self@[q] <= 9 && valid_at(self@, q, self@[q]),
            decreases 81 - p,
        {
            let n = self.grid[p];
            if n == 0 || !self.valid(p, n) {
                return false;
            }
            p += 1;
        }
        true
    }

    /// Solves the board in place. On success the board is solved and keeps
    /// every cell that was filled; on failure it is unchanged and no such
    /// completion exists.
    pub fn solve(&mut self) -> (r: bool)
        requires
            old(self).wf(),
        ensures
            final(self).wf(),
            r ==> is_first_completion(old(self)@, final(self)@),
            !r ==> final(self)@ == old(self)@ && !has_completion(old(self)@),
    {
        let p = self.next_unsolved(0);
        self.solve_helper(p)
    }

    /// The first empty cell at or after `p`, or 81 where there is none.
    pub fn next_unsolved(&self, p: usize) -> (r: usize)
        requires
            self.wf(),
            p <= 81,
        ensures
            p <= r <= 81,
            r < 81 ==> self@[r as int] == 0,
            forall|i: int| p <= i < r ==> self@[i] != 0,
    {
        let mut i: usize = p;
        while i < 81
            invariant
                self.wf(),
                p <= i <= 81,
                forall|j: int| p <= j < i ==> self@[j] != 0,
            decreases 81 - i,
        {
            if self.grid[i] == 0 {
                return i;
            }
            i += 1;
        }
        81
    }

    /// Backtracks from the empty cell `p` (81: none is left), trying 1..=9 in
    /// ascending order.
    pub fn solve_helper(&mut self, p: usize) -> (r: bool)
        requires
            old(self).wf(),
            p <= 81,
            p < 81 ==> old(self)@[p as int] == 0,
            forall|i: int| 0 <= i < p ==> old(self)@[i] != 0,
        ensures
            final(self).wf(),
            r ==> is_first_completion(old(self)@, final(self)@),
            !r ==> final(self)@ == old(self)@ && !has_completion(old(self)@),
        decreases 81 - p,
    {
        let ghost g0 = self@;
        if p == 81 {
            let r = self.solved();
            proof {
                assert forall|h: Seq<u8>| extends(g0, h) implies h == g0 by {
                    assert(h =~= g0);
                }
                if r {
                    assert(extends(g0, g0));
                    assert forall|h: Seq<u8>| extends(g0, h) && is_solved(h) implies !lex_before(h, g0) by {
                        assert(h == g0);
                    }
                }
            }
            return r;
        }
        let mut n: u8 = 1;
        while n < 10
            invariant
                self.wf(),
                p < 81,
                1 <= n <= 10,
                g0 == old(self)@,
                grid_wf(g0),
                g0[p as int] == 0,
                forall|i: int| 0 <= i < p ==> g0[i] != 0,
                self@[p as int] < n,
                self@ == g0.update(p as int, self@[p as int]),
                forall|h: Seq<u8>|
                    extends(g0, h) && 1 <= #[trigger] h[p as int] < n ==> !is_solved(h),
            decreases 10 - n,
        {
            let ghost cur = self@;
            if self.valid(p, n) {
                self.grid.set(p, n);
                let ghost g1 = self@;
                assert(g1 =~= g0.update(p as int, n));
                let q = self.next_unsolved(p + 1);
                assert forall|i: int| 0 <= i < q implies self@[i] != 0 by {
                    if i < p {
                        assert(self@[i] == g0[i]);
                    }
                }
                if self.solve_helper(q) {
                    proof {
                        assert forall|i: int| 0 <= i < 81 && #[trigger] g0[i] != 0 implies self@[i] == g0[i] by {
                            assert(g1[i] == g0[i]);
                        }
                        let f = self@;
                        assert(g1[p as int] == n);
                        assert(f[p as int] == n);
                        assert forall|h: Seq<u8>| extends(g0, h) && is_solved(h) implies !lex_before(h, f) by {
                            if h[p as int] == n {
                                assert(extends(g1, h));
                            } else if h[p as int] > n {
                                assert forall|j: int| 0 <= j < p implies h[j] == f[j] by {
                                    assert(g0[j] != 0);
                                }
                                lemma_not_before(h, f, p as int);
                            } else {
                                assert(1 <= h[p as int]);
                            }
                        }
                    }
                    return true;
                }
                proof {
                    assert forall|h: Seq<u8>|
                        extends(g0, h) && 1 <= #[trigger] h[p as int] < n + 1 implies !is_solved(h) by {
                        if h[p as int] == n {
                            let g1 = g0.update(p as int, n);
                            assert(extends(g1, h));
                        }
                    }
                }
            } else {
                proof {
                    assert forall|h: Seq<u8>|
                        extends(g0, h) && 1 <= #[trigger] h[p as int] < n + 1 implies !is_solved(h) by {
                        if h[p as int] == n {
                            assert forall|r: int, c: int| #[trigger] is_peer(p as int, r, c) && cell(cur, r, c) == n
                                implies cell(g0, r, c) == n by {
                                lemma_cell_index(r, c);
                                lemma_cell_index(p as int / 9, p as int % 9);
                            }
                            assert(!valid_at(g0, p as int, n));
                            lemma_conflict_kept(g0, h, p as int, n);
                        }
                    }
                }
            }
            n += 1;
        }
        self.grid.set(p, 0);
        proof {
            assert(self@ =~= g0);
            assert forall|h: Seq<u8>| extends(g0, h) implies !is_solved(h) by {
                if is_solved(h) {
                    assert(1 <= h[p as int] <= 9);
                }
            }
        }
        false
    }

    /// The board as 81 digits, row-major.
    pub fn to_string(&self) -> (r: String)
        requires
            self.wf(),
        ensures
            r@ == grid_text(self@),
    {
        let mut v: Vec<char> = Vec::new();
        let mut i: usize = 0;
        while i < 81
            invariant
                self.wf(),
                i <= 81,
                v@ =~= grid_text(self@).subrange(0, i as int),
            decreases 81 - i,
        {
            let d = self.grid[i];
            v.push((d + 48) as char);
            i += 1;
        }
        assert(v@ =~= grid_text(self@));
        string_from_chars(&v)
    }
}

/// Relies on regex: `^[0-9]*$` compiles, and `is_match` holds exactly of the
/// strings made of ASCII digits alone.
#[verifier::external_body]
fn only_digits(s: &str) -> (r: bool)
    ensures
        r == all_digits(s@),
{
    match regex::Regex::new(r"^[0-9]*$") {
        Ok(re) => re.is_match(s),
        Err(_) => false,
    }
}

/// Solves a board given as 81 ASCII digits and returns the solved board as
/// 81 digits.
pub fn solve(board: &str) -> (r: Result<String, Error>)
    ensures
        r matches Err(Error::InvalidBoard(_)) <==> !is_board_text(board@),
        r matches Err(Error::Unsolvable) <==> is_board_text(board@) && !has_completion(
            parse_grid(board@),
        ),
        r matches Err(Error::InvalidBoard(m)) ==> m@ == invalid_reason(board@),
        r matches Ok(s) ==> exists|h: Seq<u8>|
            #![trigger grid_text(h)]
            s@ == grid_text(h) && is_first_completion(parse_grid(board@), h),
{
    let mut b = match Board::new(board) {
        Ok(b) => b,
        Err(e) => return Err(e),
    };
    if !b.solve() {
        return Err(Error::Unsolvable);
    }
    let s = b.to_string();
    assert(s@ == grid_text(b@));
    Ok(s)
}

} // verus!
