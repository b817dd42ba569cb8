//! Cells, players, locations and moves: the geometric vocabulary of the
//! board. The grid carries a one-cell sentinel ring of `Color::Invalid`
//! around the playable interior, so a location's four neighbours can always
//! be read without a bounds check.

use vstd::prelude::*;

verus! {

/// Contents of one cell of the padded grid.
#[derive(Debug, Clone, Copy, PartialEq, Eq, Structural)]
pub enum Color {
    White,
    Black,
    Empty,
    Invalid,
}

/// One of the two sides of a game.
#[derive(Debug, Clone, Copy, PartialEq, Eq, Structural)]
pub enum Player {
    White,
    Black,
}

/// A location on the padded grid. Row and column index the full grid,
/// sentinel ring included; the playable interior starts at (1, 1).
#[derive(Debug, Clone, Copy, PartialEq, Eq, Structural)]
pub struct Loc {
    pub row: usize,
    pub col: usize,
}

/// A player together with the location they played (possibly the pass
/// sentinel).
#[derive(Debug, Clone, Copy, PartialEq, Eq, Structural)]
pub struct Move {
    pub player: Player,
    pub loc: Loc,
}

impl Color {
    /// One-character ASCII rendering of a cell, used by the board printer.
    pub fn to_string(&self) -> (r: String)
        ensures
            *self == Color::Empty ==> r@ == "."@,
            *self == Color::White ==> r@ == "#"@,
            *self == Color::Black ==> r@ == "O"@,
            *self == Color::Invalid ==> r@ == "/"@,
    {
        match self {
            Color::Empty => String::from_str("."),
            Color::White => String::from_str("#"),
            Color::Black => String::from_str("O"),
            Color::Invalid => String::from_str("/"),
        }
    }
}

/// ASCII-lowercased version of a character.
pub open spec fn lower_char(c: char) -> char {
    if 'A' <= c && c <= 'Z' {
        ((c as u8) + 32) as char
    } else {
        c
    }
}

/// ASCII-lowercased version of a character sequence.
pub open spec fn lower_chars(s: Seq<char>) -> Seq<char> {
    s.map_values(|c: char| lower_char(c))
}

impl Player {
    /// Parses a player name, case-insensitively in ASCII; anything that is
    /// not "black" is read as White, matching the wire protocol's default.
    pub fn from_string(s: &str) -> (r: Player)
        ensures
            r == (if lower_chars(s@) == "black"@ {
                Player::Black
            } else {
                Player::White
            }),
    {
        proof {
            reveal_strlit("black");
        }
        let n: usize = s.unicode_len();
        if n != 5 {
            proof {
                assert(lower_chars(s@).len() == s@.len());
            }
            return Player::White;
        }
        let mut i: usize = 0;
        let pat = "black";
        while i < 5
            invariant
                0 <= i <= 5,
                s@.len() == 5,
                pat@ == "black"@,
                pat@.len() == 5,
                forall|j: int| 0 <= j < i ==> lower_char(s@[j]) == pat@[j],
            decreases 5 - i,
        {
            let c = s.get_char(i);
            let lc: char = if 'A' <= c && c <= 'Z' {
                (((c as u8) + 32) as char)
            } else {
                c
            };
            assert(lc == lower_char(s@[i as int]));
            if lc != pat.get_char(i) {
                proof {
                    assert(lower_chars(s@)[i as int] != "black"@[i as int]);
                }
                return Player::White;
            }
            i += 1;
        }
        proof {
            assert(lower_chars(s@) =~= "black"@);
        }
        Player::Black
    }

    /// The colour of this player's stones.
    pub fn to_color(&self) -> (r: Color)
        ensures
            r == (match *self {
                Player::Black => Color::Black,
                Player::White => Color::White,
            }),
    {
        match self {
            Player::Black => Color::Black,
            Player::White => Color::White,
        }
    }

    /// The other side of the game; never the player itself.
    pub fn opponent(self) -> (r: Player)
        ensures
            r == (match self {
                Player::Black => Player::White,
                Player::White => Player::Black,
            }),
            r != self,
    {
        match self {
            Player::Black => Player::White,
            Player::White => Player::Black,
        }
    }

    /// The lowercase wire name of the player.
    pub fn to_string(self) -> (r: String)
        ensures
            self == Player::Black ==> r@ == "black"@,
            self == Player::White ==> r@ == "white"@,
    {
        match self {
            Player::Black => String::from_str("black"),
            Player::White => String::from_str("white"),
        }
    }
}

/// Reserved coordinates of the pass sentinel; never a cell of any board,
/// because board dimensions are capped below this value.
pub const PASS_COORD: usize = 99;

/// ASCII whitespace accepted around the coordinates.
pub open spec fn is_ws(c: char) -> bool {
    c == ' ' || c == '\t' || c == '\n' || c == '\r'
}

/// A decimal digit.
pub open spec fn is_digit(c: char) -> bool {
    '0' <= c && c <= '9'
}

/// The value of one decimal digit.
pub open spec fn digit_of(c: char) -> int {
    c as int - '0' as int
}

/// The sequence with leading whitespace removed.
pub open spec fn strip_front(s: Seq<char>) -> Seq<char>
    decreases s.len(),
{
    if s.len() > 0 && is_ws(s.first()) {
        strip_front(s.drop_first())
    } else {
        s
    }
}

/// The sequence with trailing whitespace removed.
pub open spec fn strip_back(s: Seq<char>) -> Seq<char>
    decreases s.len(),
{
    if s.len() > 0 && is_ws(s.last()) {
        strip_back(s.drop_last())
    } else {
        s
    }
}

/// A non-empty run of decimal digits.
pub open spec fn all_digits(s: Seq<char>) -> bool {
    s.len() > 0 && forall|i: int| 0 <= i < s.len() ==> is_digit(#[trigger] s[i])
}

/// The value of a run of decimal digits.
pub open spec fn digits_val(s: Seq<char>) -> int
    decreases s.len(),
{
    if s.len() == 0 {
        0
    } else {
        digits_val(s.drop_last()) * 10 + digit_of(s.last())
    }
}

/// The number a coordinate field denotes: its digits after trimming
/// whitespace on both sides, provided they are digits alone and the value
/// fits the machine.
pub open spec fn parse_coord(s: Seq<char>) -> Option<usize> {
    let t = strip_back(strip_front(s));
    if all_digits(t) && digits_val(t) <= usize::MAX {
        Some(digits_val(t) as usize)
    } else {
        None
    }
}

/// Number of commas in a sequence.
pub open spec fn comma_count(s: Seq<char>) -> int
    decreases s.len(),
{
    if s.len() == 0 {
        0int
    } else {
        comma_count(s.drop_last()) + if s.last() == ',' {
            1int
        } else {
            0int
        }
    }
}

/// The location a string denotes: exactly one comma, and a machine-sized
/// decimal number (whitespace-trimmed) on each side of it.
pub open spec fn parse_loc(s: Seq<char>) -> Option<Loc> {
    if comma_count(s) != 1 {
        None
    } else {
        let i = choose|i: int| 0 <= i < s.len() && s[i] == ',';
        match (parse_coord(s.take(i)), parse_coord(s.skip(i + 1))) {
            (Some(row), Some(col)) => Some(Loc { row, col }),
            _ => None,
        }
    }
}

/// Digit values are non-negative on digit runs.
proof fn lemma_digits_val_nonneg(s: Seq<char>)
    requires
        forall|i: int| 0 <= i < s.len() ==> is_digit(#[trigger] s[i]),
    ensures
        digits_val(s) >= 0,
    decreases s.len(),
{
    if s.len() > 0 {
        lemma_digits_val_nonneg(s.drop_last());
    }
}

/// A digit run's value dominates each of its prefixes' values.
proof fn lemma_digits_val_mono(s: Seq<char>, k: int)
    requires
        forall|i: int| 0 <= i < s.len() ==> is_digit(#[trigger] s[i]),
        0 <= k <= s.len(),
    ensures
        digits_val(s) >= digits_val(s.take(k)),
    decreases s.len() - k,
{
    if k < s.len() {
        lemma_digits_val_mono(s, k + 1);
        assert(s.take(k + 1).drop_last() =~= s.take(k));
        assert(s.take(k + 1).last() == s[k]);
        lemma_digits_val_nonneg(s.take(k));
        assert(digits_val(s.take(k + 1)) == digits_val(s.take(k)) * 10 + digit_of(s[k]));
        assert(digits_val(s.take(k)) * 10 >= digits_val(s.take(k))) by (nonlinear_arith)
            requires digits_val(s.take(k)) >= 0;
    } else {
        assert(s.take(k) =~= s);
    }
}

/// A comma in the sequence makes the count positive.
proof fn lemma_comma_pos(s: Seq<char>, i: int)
    requires
        0 <= i < s.len(),
        s[i] == ',',
    ensures
        comma_count(s) >= 1,
    decreases s.len(),
{
    lemma_comma_nonneg(s);
    if i < s.len() - 1 {
        assert(s.drop_last()[i] == s[i]);
        lemma_comma_pos(s.drop_last(), i);
    } else {
        lemma_comma_nonneg(s.drop_last());
    }
}

proof fn lemma_comma_nonneg(s: Seq<char>)
    ensures
        comma_count(s) >= 0,
    decreases s.len(),
{
    if s.len() > 0 {
        lemma_comma_nonneg(s.drop_last());
    }
}

/// With a single comma counted, the comma's position is unique.
proof fn lemma_comma_unique(s: Seq<char>, i: int, j: int)
    requires
        comma_count(s) == 1,
        0 <= i < s.len(),
        0 <= j < s.len(),
        s[i] == ',',
        s[j] == ',',
    ensures
        i == j,
    decreases s.len(),
{
    if i != j {
        let a = if i < j { i } else { j };
        let b = if i < j { j } else { i };
        if b == s.len() - 1 {
            assert(s.drop_last()[a] == s[a]);
            lemma_comma_pos(s.drop_last(), a);
        } else {
            assert(s.drop_last()[a] == s[a]);
            assert(s.drop_last()[b] == s[b]);
            if comma_count(s.drop_last()) == 1 {
                lemma_comma_unique(s.drop_last(), a, b);
            } else {
                lemma_comma_pos(s.drop_last(), a);
            }
        }
    }
}

/// Whether the character at a position is accepted whitespace.
fn ws_at(s: &str, i: usize) -> (r: bool)
    requires
        i < s@.len(),
    ensures
        r == is_ws(s@[i as int]),
{
    let c = s.get_char(i);
    c == ' ' || c == '\t' || c == '\n' || c == '\r'
}

/// Parses the whitespace-trimmed decimal run between two character
/// positions.
fn parse_part(s: &str, from: usize, to: usize) -> (r: Option<usize>)
    requires
        from <= to <= s@.len(),
    ensures
        r == parse_coord(s@.subrange(from as int, to as int)),
{
    let ghost s0 = s@.subrange(from as int, to as int);
    let mut f = from;
    let mut t = to;
    while f < t && ws_at(s, f)
        invariant
            from <= f <= t <= to <= s@.len(),
            s0 == s@.subrange(from as int, to as int),
            strip_front(s0) == strip_front(s@.subrange(f as int, t as int)),
        decreases t - f,
    {
        proof {
            assert(s@.subrange(f as int, t as int).drop_first() =~= s@.subrange(
                f as int + 1,
                t as int,
            ));
        }
        f += 1;
    }
    proof {
        assert(strip_front(s0) == s@.subrange(f as int, t as int));
    }
    let ghost s1 = s@.subrange(f as int, t as int);
    while t > f && ws_at(s, t - 1)
        invariant
            from <= f <= t <= to <= s@.len(),
            s1 == strip_front(s0),
            strip_back(s1) == strip_back(s@.subrange(f as int, t as int)),
        decreases t,
    {
        proof {
            assert(s@.subrange(f as int, t as int).drop_last() =~= s@.subrange(
                f as int,
                t as int - 1,
            ));
        }
        t -= 1;
    }
    let ghost trimmed = strip_back(strip_front(s0));
    proof {
        assert(trimmed == s@.subrange(f as int, t as int));
    }
    if f == t {
        proof {
            assert(trimmed.len() == 0);
            assert(!all_digits(trimmed));
        }
        return None;
    }
    let mut acc: usize = 0;
    let mut i = f;
    while i < t
        invariant
            from <= f <= i <= t <= to <= s@.len(),
            f < t,
            s0 == s@.subrange(from as int, to as int),
            trimmed == strip_back(strip_front(s0)),
            trimmed == s@.subrange(f as int, t as int),
            forall|k: int| 0 <= k < i - f ==> is_digit(#[trigger] trimmed[k]),
            acc as int == digits_val(trimmed.take(i - f)),
        decreases t - i,
    {
        let c = s.get_char(i);
        if !('0' <= c && c <= '9') {
            proof {
                assert(trimmed[i - f] == c);
                assert(!is_digit(trimmed[i - f]));
            }
            return None;
        }
        let d: usize = (c as u32 as usize) - 48;
        proof {
            assert(d == digit_of(c));
            assert(d < 10);
        }
        if acc > (usize::MAX - d) / 10 {
            proof {
                assert(acc as int * 10 + d > usize::MAX as int) by (nonlinear_arith)
                    requires
                        acc as int > (usize::MAX as int - d) / 10,
                        0 <= d < 10,
                ;
                assert(trimmed.take(i - f + 1).drop_last() =~= trimmed.take(i - f));
                assert(trimmed.take(i - f + 1).last() == trimmed[i - f]);
                assert(trimmed[i - f] == c);
                assert(digits_val(trimmed.take(i - f + 1)) == acc as int * 10 + d);
                if all_digits(trimmed) {
                    lemma_digits_val_mono(trimmed, i - f + 1);
                    assert(digits_val(trimmed) > usize::MAX as int);
                }
            }
            return None;
        }
        proof {
            assert(acc as int * 10 + d <= usize::MAX as int) by (nonlinear_arith)
                requires
                    acc as int <= (usize::MAX as int - d) / 10,
                    0 <= d < 10,
            ;
            assert(trimmed.take(i - f + 1).drop_last() =~= trimmed.take(i - f));
            assert(trimmed.take(i - f + 1).last() == trimmed[i - f]);
            assert(trimmed[i - f] == c);
        }
        acc = acc * 10 + d;
        i += 1;
    }
    proof {
        assert(trimmed.take(t - f) =~= trimmed);
        assert(all_digits(trimmed));
    }
    Some(acc)
}

impl Loc {
    /// The cell one row up. The caller keeps off the top edge.
    pub fn up(&self) -> (r: Loc)
        requires
            self.row >= 1,
        ensures
            r == (Loc { row: (self.row - 1) as usize, col: self.col }),
    {
        Loc { row: self.row - 1, col: self.col }
    }

    /// The cell one row down.
    pub fn down(&self) -> (r: Loc)
        requires
            self.row < usize::MAX,
        ensures
            r == (Loc { row: (self.row + 1) as usize, col: self.col }),
    {
        Loc { row: self.row + 1, col: self.col }
    }

    /// The cell one column to the left. The caller keeps off the left edge.
    pub fn left(&self) -> (r: Loc)
        requires
            self.col >= 1,
        ensures
            r == (Loc { row: self.row, col: (self.col - 1) as usize }),
    {
        Loc { row: self.row, col: self.col - 1 }
    }

    /// The cell one column to the right.
    pub fn right(&self) -> (r: Loc)
        requires
            self.col < usize::MAX,
        ensures
            r == (Loc { row: self.row, col: (self.col + 1) as usize }),
    {
        Loc { row: self.row, col: self.col + 1 }
    }

    /// Parses "row, col": exactly one comma with a machine-sized decimal
    /// number, optionally whitespace-padded, on each side.
    pub fn from_string(s: &str) -> (r: Option<Loc>)
        ensures
            r == parse_loc(s@),
    {
        let n = s.unicode_len();
        let mut commas: usize = 0;
        let mut first: usize = 0;
        let mut i: usize = 0;
        while i < n
            invariant
                i <= n,
                n == s@.len(),
                commas as int == comma_count(s@.take(i as int)),
                commas > 0 ==> first < i && s@[first as int] == ',',
                commas <= i,
            decreases n - i,
        {
            proof {
                assert(s@.take(i as int + 1).drop_last() =~= s@.take(i as int));
                assert(s@.take(i as int + 1).last() == s@[i as int]);
            }
            if s.get_char(i) == ',' {
                if commas == 0 {
                    first = i;
                }
                commas += 1;
            }
            i += 1;
        }
        proof {
            assert(s@.take(n as int) =~= s@);
        }
        if commas != 1 {
            return None;
        }
        proof {
            let ci = choose|ci: int| 0 <= ci < s@.len() && s@[ci] == ',';
            assert(s@[first as int] == ',');
            lemma_comma_unique(s@, ci, first as int);
            assert(s@.subrange(0, first as int) =~= s@.take(first as int));
            assert(s@.subrange(first as int + 1, n as int) =~= s@.skip(first as int + 1));
        }
        let row = parse_part(s, 0, first);
        let col = parse_part(s, first + 1, n);
        match (row, col) {
            (Some(a), Some(b)) => Some(Loc { row: a, col: b }),
            _ => None,
        }
    }

    /// True when the location lies in the playable interior of a padded
    /// grid with the given (rows, cols) dimensions.
    pub fn is_on_board(&self, board_size: (usize, usize)) -> (r: bool)
        requires
            board_size.0 >= 1,
            board_size.1 >= 1,
        ensures
            r == (0 < self.row < board_size.0 - 1 && 0 < self.col < board_size.1 - 1),
    {
        let upper_edge_check = self.row > 0;
        let lower_edge_check = self.row < board_size.0 - 1;
        let left_edge_check = self.col > 0;
        let right_edge_check = self.col < board_size.1 - 1;
        upper_edge_check && lower_edge_check && left_edge_check && right_edge_check
    }

    /// Every location of a rows × cols grid, in row-major order.
    pub fn get_all(board_size: (usize, usize)) -> (r: Vec<Loc>)
        requires
            board_size.0 * board_size.1 <= usize::MAX,
        ensures
            r@.len() == board_size.0 * board_size.1,
            forall|i: int| 0 <= i < r@.len() ==> r@[i] == (Loc {
                row: (i / board_size.1 as int) as usize,
                col: (i % board_size.1 as int) as usize,
            }),
    {
        let (rows, cols) = board_size;
        let mut all_loc: Vec<Loc> = Vec::new();
        let mut row: usize = 0;
        while row < rows
            invariant
                row <= rows,
                rows * cols <= usize::MAX,
                all_loc@.len() == row * cols,
                forall|i: int| 0 <= i < all_loc@.len() ==> all_loc@[i] == (Loc {
                    row: (i / cols as int) as usize,
                    col: (i % cols as int) as usize,
                }),
            decreases rows - row,
        {
            let mut col: usize = 0;
            proof {
                assert(row * cols + cols <= rows * cols) by (nonlinear_arith)
                    requires row < rows, 0 <= cols;
            }
            while col < cols
                invariant
                    col <= cols,
                    row < rows,
                    rows * cols <= usize::MAX,
                    row * cols + cols <= rows * cols,
                    all_loc@.len() == row * cols + col,
                    forall|i: int| 0 <= i < all_loc@.len() ==> all_loc@[i] == (Loc {
                        row: (i / cols as int) as usize,
                        col: (i % cols as int) as usize,
                    }),
                decreases cols - col,
            {
                all_loc.push(Loc { row, col });
                proof {
                    let i = all_loc@.len() - 1;
                    assert(i == row * cols + col);
                    assert(i / cols as int == row as int && i % cols as int == col as int)
                        by (nonlinear_arith)
                        requires i == row * cols + col, 0 <= col < cols, 0 <= row;
                }
                col += 1;
            }
            proof {
                assert((row + 1) * cols == row * cols + cols) by (nonlinear_arith);
            }
            row += 1;
        }
        all_loc
    }

    /// The pass sentinel: a move at this location places no stone.
    pub fn pass() -> (r: Loc)
        ensures
            r == (Loc { row: PASS_COORD, col: PASS_COORD }),
    {
        Loc { row: PASS_COORD, col: PASS_COORD }
    }

    /// True exactly for the pass sentinel.
    pub fn is_pass(&self) -> (r: bool)
        ensures
            r == (self.row == PASS_COORD && self.col == PASS_COORD),
    {
        self.row == PASS_COORD && self.col == PASS_COORD
    }
}

} // verus!
