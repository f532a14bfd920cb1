//! The game board: the two players, the rules of the game stated over a
//! grid of columns, and the packed bit board that implements them.
use vstd::prelude::*;

use crate::bits::{
    byte_height, col_byte, has_bit, is_stack_byte, lemma_bit_or_and, lemma_byte_bounds,
    lemma_col_bit, lemma_col_byte_or_and, lemma_col_byte_set, lemma_col_byte_zero,
    lemma_falling_mask, lemma_full_word, lemma_height_stack_byte, lemma_horizontal_mask,
    lemma_rising_mask, lemma_stack_bit, lemma_stack_byte_height, lemma_vertical_mask, stack_byte,
};

verus! {

/// Number of columns of the board.
pub const COLS: usize = 7;

/// Number of rows of the board.
pub const ROWS: usize = 6;

/// One of the two players.
#[derive(Debug, Clone, Copy, PartialEq, Eq, Hash, Structural)]
pub enum Side {
    A,
    B,
}

impl Side {
    /// The opponent.
    pub open spec fn other(self) -> Side {
        match self {
            Side::A => Side::B,
            Side::B => Side::A,
        }
    }

    pub fn flip(self) -> (r: Side)
        ensures
            r == self.other(),
    {
        match self {
            Side::A => Side::B,
            Side::B => Side::A,
        }
    }
}

// The rules, stated over a grid: one sequence per column, bottom disc first.

/// A grid that a board can hold: seven columns of at most six discs.
pub open spec fn valid_grid(g: Seq<Seq<Side>>) -> bool {
    g.len() == COLS && forall|c: int| 0 <= c < COLS ==> #[trigger] g[c].len() <= ROWS
}

/// What lies at column `c`, row `r` (row 0 at the bottom), if anything.
pub open spec fn cell(g: Seq<Seq<Side>>, c: int, r: int) -> Option<Side> {
    if 0 <= c < g.len() && 0 <= r < g[c].len() {
        Some(g[c][r])
    } else {
        None
    }
}

/// Four discs of `s` in a row, from `(c, r)` in steps of `(dc, dr)`.
pub open spec fn four_from(g: Seq<Seq<Side>>, s: Side, c: int, r: int, dc: int, dr: int) -> bool {
    &&& cell(g, c, r) == Some(s)
    &&& cell(g, c + dc, r + dr) == Some(s)
    &&& cell(g, c + 2 * dc, r + 2 * dr) == Some(s)
    &&& cell(g, c + 3 * dc, r + 3 * dr) == Some(s)
}

/// A line of `s` in which `(c, r)` is the `k`-th cell: vertical,
/// horizontal, rising or falling.
pub open spec fn line_at(g: Seq<Seq<Side>>, s: Side, c: int, r: int, k: int) -> bool {
    ||| four_from(g, s, c, r - k, 0, 1)
    ||| four_from(g, s, c - k, r, 1, 0)
    ||| four_from(g, s, c - k, r - k, 1, 1)
    ||| four_from(g, s, c - k, r + k, 1, -1)
}

/// Some line of four discs of `s` passes through `(c, r)`.
pub open spec fn line_through(g: Seq<Seq<Side>>, s: Side, c: int, r: int) -> bool {
    ||| line_at(g, s, c, r, 0)
    ||| line_at(g, s, c, r, 1)
    ||| line_at(g, s, c, r, 2)
    ||| line_at(g, s, c, r, 3)
}

/// The top disc of column `c` lies in a line of its own side.
pub open spec fn top_in_line(g: Seq<Seq<Side>>, c: int) -> bool {
    g[c].len() > 0 && line_through(g, g[c].last(), c, g[c].len() - 1)
}

/// The owner of the top disc of the last of the first `n` columns whose
/// top disc lies in a line.
pub open spec fn winner_among(g: Seq<Seq<Side>>, n: int) -> Option<Side>
    decreases n,
{
    if n <= 0 {
        None
    } else if top_in_line(g, n - 1) {
        Some(g[n - 1].last())
    } else {
        winner_among(g, n - 1)
    }
}

/// The winner of a grid, found from the top disc of each column.
pub open spec fn winner(g: Seq<Seq<Side>>) -> Option<Side> {
    winner_among(g, COLS as int)
}

/// Number of discs in the first `n` columns.
pub open spec fn discs_among(g: Seq<Seq<Side>>, n: int) -> int
    decreases n,
{
    if n <= 0 {
        0
    } else {
        discs_among(g, n - 1) + g[n - 1].len()
    }
}

/// Number of discs on the grid.
pub open spec fn disc_count(g: Seq<Seq<Side>>) -> int {
    discs_among(g, COLS as int)
}

/// The side to move: `A` after an even number of discs.
pub open spec fn side_to_move(g: Seq<Seq<Side>>) -> Side {
    if disc_count(g) % 2 == 0 {
        Side::A
    } else {
        Side::B
    }
}

/// Every column holds six discs.
pub open spec fn grid_full(g: Seq<Seq<Side>>) -> bool {
    forall|c: int| 0 <= c < COLS ==> #[trigger] g[c].len() == ROWS
}

/// A disc may be dropped into column `c`.
pub open spec fn open_column(g: Seq<Seq<Side>>, c: int) -> bool {
    0 <= c < COLS && g[c].len() < ROWS
}

/// The grid after `s` drops a disc into column `c`.
pub open spec fn drop_disc(g: Seq<Seq<Side>>, c: int, s: Side) -> Seq<Seq<Side>> {
    g.update(c, g[c].push(s))
}

/// The empty grid.
pub open spec fn empty_grid() -> Seq<Seq<Side>> {
    Seq::new(COLS as nat, |c: int| Seq::<Side>::empty())
}

/// The move of `s` into column `c` completes a line.
pub open spec fn winning_move(g: Seq<Seq<Side>>, s: Side, c: int) -> bool {
    open_column(g, c) && line_through(drop_disc(g, c, s), s, c, g[c].len() as int)
}

/// `c` is the first column whose move completes a line for `s`.
pub open spec fn first_winning_move(g: Seq<Seq<Side>>, s: Side, c: int) -> bool {
    winning_move(g, s, c) && forall|d: int| 0 <= d < c ==> !#[trigger] winning_move(g, s, d)
}

// The same rules over the bits of one side.

/// Cell `(c, r)` is on the board and its bit is set in `x`.
pub open spec fn holds(x: u64, c: int, r: int) -> bool {
    0 <= c < COLS && 0 <= r < ROWS && has_bit(x, (8 * c + r) as u64)
}

pub open spec fn four_set(x: u64, c: int, r: int, dc: int, dr: int) -> bool {
    &&& holds(x, c, r)
    &&& holds(x, c + dc, r + dr)
    &&& holds(x, c + 2 * dc, r + 2 * dr)
    &&& holds(x, c + 3 * dc, r + 3 * dr)
}

/// A line of `x` in which `(c, r)` is the `k`-th cell.
pub open spec fn line_set_at(x: u64, c: int, r: int, k: int) -> bool {
    ||| four_set(x, c, r - k, 0, 1)
    ||| four_set(x, c - k, r, 1, 0)
    ||| four_set(x, c - k, r - k, 1, 1)
    ||| four_set(x, c - k, r + k, 1, -1)
}

/// Some line of four cells of `x` on the board passes through `(c, r)`.
pub open spec fn wins_at(x: u64, c: int, r: int) -> bool {
    ||| line_set_at(x, c, r, 0)
    ||| line_set_at(x, c, r, 1)
    ||| line_set_at(x, c, r, 2)
    ||| line_set_at(x, c, r, 3)
}

/// Tests the mask of the line of four cells from `(c0, r0)` in one
/// direction against the bits `x` of one side.
fn horizontal_line(x: u64, c0: u64, r0: u64) -> (r: bool)
    requires
        c0 <= 3,
        r0 < 6,
    ensures
        r == four_set(x, c0 as int, r0 as int, 1, 0),
{
    let q = 8 * c0 + r0;
    proof {
        lemma_horizontal_mask(x, q);
    }
    x & (0x01010101u64 << q) == 0x01010101u64 << q
}

fn rising_line(x: u64, c0: u64, r0: u64) -> (r: bool)
    requires
        c0 <= 3,
        r0 <= 2,
    ensures
        r == four_set(x, c0 as int, r0 as int, 1, 1),
{
    let q = 8 * c0 + r0;
    proof {
        lemma_rising_mask(x, q);
    }
    x & (0x08040201u64 << q) == 0x08040201u64 << q
}

fn falling_line(x: u64, c0: u64, r0: u64) -> (r: bool)
    requires
        c0 <= 3,
        3 <= r0 < 6,
    ensures
        r == four_set(x, c0 as int, r0 as int, 1, -1),
{
    let q = 8 * c0 + r0 - 3;
    proof {
        lemma_falling_mask(x, q);
    }
    x & (0x01020408u64 << q) == 0x01020408u64 << q
}

fn vertical_line(x: u64, c0: u64, r0: u64) -> (r: bool)
    requires
        c0 < 7,
        r0 <= 2,
    ensures
        r == four_set(x, c0 as int, r0 as int, 0, 1),
{
    let q = 8 * c0 + r0;
    proof {
        lemma_vertical_mask(x, q);
    }
    x & (0xfu64 << q) == 0xfu64 << q
}

/// Tests every line mask through `(col, row)` against the bits `x` of one
/// side: each vertical, horizontal, rising and falling line that passes
/// there and fits on the board.
pub fn is_win(x: u64, col: usize, row: usize) -> (r: bool)
    requires
        col < COLS,
        row < ROWS,
    ensures
        r == wins_at(x, col as int, row as int),
{
    let c = col as u64;
    let rw = row as u64;
    let mut k: u64 = 0;
    while k < 4
        invariant
            k <= 4,
            c < 7,
            rw < 6,
            c == col,
            rw == row,
            forall|j: int| 0 <= j < k ==> !line_set_at(x, c as int, rw as int, j),
        decreases 4 - k,
    {
        if k <= rw && rw - k <= 2 && vertical_line(x, c, rw - k) {
            return true;
        }
        let fits = k <= c && c - k <= 3;
        if fits && horizontal_line(x, c - k, rw) {
            return true;
        }
        if fits && k <= rw && rw - k <= 2 && rising_line(x, c - k, rw - k) {
            return true;
        }
        if fits && rw + k >= 3 && rw + k <= 5 && falling_line(x, c - k, rw + k) {
            return true;
        }
        k += 1;
    }
    false
}

/// The packed board: one bit set per disc, in the word of its side. Cell
/// `(c, r)` is bit `8 * c + r`; each column fills its byte from the bottom.
#[derive(Debug, Clone, Copy, PartialEq, Eq, Hash, Structural)]
pub struct BitBoard {
    a: u64,
    b: u64,
}

impl BitBoard {
    /// The bits of side `s`.
    pub closed spec fn bits(self, s: Side) -> u64 {
        match s {
            Side::A => self.a,
            Side::B => self.b,
        }
    }

    /// The cells that hold a disc.
    pub closed spec fn occupied(self) -> u64 {
        self.a | self.b
    }

    /// Number of discs in column `c`.
    pub closed spec fn height(self, c: int) -> nat {
        byte_height(col_byte(self.occupied(), c as u64)) as nat
    }

    /// The two sides never share a cell, each column is filled from the
    /// bottom with at most six discs, and nothing lies beyond column six.
    pub closed spec fn wf(self) -> bool {
        &&& self.a & self.b == 0
        &&& self.occupied() >> 56u64 == 0
        &&& forall|c: u64| c < 7 ==> is_stack_byte(#[trigger] col_byte(self.occupied(), c))
    }

    /// The grid of discs, column by column, bottom first.
    pub closed spec fn view(self) -> Seq<Seq<Side>> {
        Seq::new(
            COLS as nat,
            |c: int|
                Seq::new(
                    self.height(c),
                    |r: int|
                        if has_bit(self.a, (8 * c + r) as u64) {
                            Side::A
                        } else {
                            Side::B
                        },
                ),
        )
    }

    /// Column `c` is filled from the bottom: its bits are the rows below its
    /// height.
    proof fn lemma_column(self, c: u64)
        requires
            self.wf(),
            c < 7,
        ensures
            col_byte(self.occupied(), c) == stack_byte(byte_height(col_byte(self.occupied(), c))),
            byte_height(col_byte(self.occupied(), c)) <= 6,
            self.height(c as int) <= 6,
    {
        lemma_stack_byte_height(col_byte(self.occupied(), c));
    }

    /// The bits of a side are the cells of the grid that hold its discs.
    proof fn lemma_cell(self, c: u64, r: u64)
        requires
            self.wf(),
            c < 7,
            r < 8,
        ensures
            has_bit(self.a, (8 * c + r) as u64) == (r < self.height(c as int) && self@[c as int][r as int]
                == Side::A),
            has_bit(self.b, (8 * c + r) as u64) == (r < self.height(c as int) && self@[c as int][r as int]
                == Side::B),
            has_bit(self.occupied(), (8 * c + r) as u64) == (r < self.height(c as int)),
    {
        let p = (8 * c + r) as u64;
        let h = byte_height(col_byte(self.occupied(), c));
        self.lemma_column(c);
        lemma_col_bit(self.occupied(), c, r);
        lemma_stack_bit(h, r);
        lemma_bit_or_and(self.a, self.b, p);
    }

    /// The same, for every cell and over `holds`.
    proof fn lemma_holds(self)
        requires
            self.wf(),
        ensures
            forall|s: Side, c: int, r: int| #[trigger]
                holds(self.bits(s), c, r) == (cell(self@, c, r) == Some(s)),
            valid_grid(self@),
    {
        assert forall|c: int| 0 <= c < COLS implies #[trigger] self@[c].len() <= ROWS by {
            self.lemma_column(c as u64);
        }
        assert forall|s: Side, c: int, r: int| #[trigger]
            holds(self.bits(s), c, r) == (cell(self@, c, r) == Some(s)) by {
            if 0 <= c < 7 && 0 <= r < 6 {
                self.lemma_cell(c as u64, r as u64);
            } else if 0 <= c < 7 && r >= 6 {
                self.lemma_column(c as u64);
            }
        }
    }

    /// The mask test of a side's bits is the rule of the grid.
    proof fn lemma_wins_at(self, s: Side, c: int, r: int)
        requires
            self.wf(),
        ensures
            wins_at(self.bits(s), c, r) == line_through(self@, s, c, r),
    {
        self.lemma_holds();
    }

    /// The bits of side `s`.
    fn bits_of(&self, s: Side) -> (r: u64)
        ensures
            r == self.bits(s),
    {
        match s {
            Side::A => self.a,
            Side::B => self.b,
        }
    }

    /// A well-formed board holds a grid of seven columns of at most six discs.
    pub proof fn lemma_grid_valid(self)
        requires
            self.wf(),
        ensures
            valid_grid(self@),
    {
        self.lemma_holds();
    }

    pub fn new() -> (r: BitBoard)
        ensures
            r.wf(),
            r@ == empty_grid(),
    {
        let r = BitBoard { a: 0, b: 0 };
        proof {
            assert(0u64 & 0u64 == 0) by (bit_vector);
            assert(0u64 | 0u64 == 0) by (bit_vector);
            assert(0u64 >> 56u64 == 0) by (bit_vector);
            assert forall|c: u64| c < 7 implies is_stack_byte(#[trigger] col_byte(r.occupied(), c)) by {
                lemma_col_byte_zero(c);
            }
            assert forall|c: int| 0 <= c < COLS implies #[trigger] r@[c] =~= empty_grid()[c] by {
                lemma_col_byte_zero(c as u64);
            }
            assert(r@ =~= empty_grid());
        }
        r
    }

    /// The byte of column `col` in the occupied cells.
    fn col_val(&self, col: usize) -> (r: u64)
        requires
            col < COLS,
        ensures
            r == col_byte(self.occupied(), col as u64),
    {
        let occ = self.a | self.b;
        (occ >> (col as u64 * 8)) & 0xff
    }

    /// Both words of the board in one number, first side in the high half.
    pub closed spec fn key_of(self) -> u128 {
        ((self.a as u128) << 64u128) | (self.b as u128)
    }

    /// The board after `put(col, side)`: the column's next cell set in the
    /// word of `side`.
    pub closed spec fn after_put(self, col: int, side: Side) -> BitBoard {
        let v = ((col_byte(self.occupied(), col as u64) + 1) as u64) << ((col as u64 * 8) as u64);
        match side {
            Side::A => BitBoard { a: (self.a + v) as u64, b: self.b },
            Side::B => BitBoard { a: self.a, b: (self.b + v) as u64 },
        }
    }

    /// Both words of the board in one number, first side in the high half.
    pub(crate) fn key(&self) -> (r: u128)
        ensures
            r == self.key_of(),
    {
        ((self.a as u128) << 64u128) | (self.b as u128)
    }

    /// Number of discs in column `col`.
    fn col_height(&self, col: usize) -> (r: u64)
        requires
            self.wf(),
            col < COLS,
        ensures
            r == self@[col as int].len(),
            r <= 6,
    {
        let v = self.col_val(col);
        proof {
            self.lemma_column(col as u64);
        }
        if v == 0 {
            0
        } else if v == 1 {
            1
        } else if v == 3 {
            2
        } else if v == 7 {
            3
        } else if v == 15 {
            4
        } else if v == 31 {
            5
        } else {
            6
        }
    }

    /// Whose turn it is, from the parity of the number of discs.
    pub fn calc_next(&self) -> (r: Side)
        requires
            self.wf(),
        ensures
            r == side_to_move(self@),
    {
        let mut n: u64 = 0;
        let mut col: usize = 0;
        while col < COLS
            invariant
                self.wf(),
                col <= COLS,
                n == discs_among(self@, col as int),
                n <= 6 * col,
            decreases COLS - col,
        {
            n = n + self.col_height(col);
            col += 1;
        }
        if n % 2 == 0 {
            Side::A
        } else {
            Side::B
        }
    }

    /// A disc can be dropped into column `col`.
    pub fn can_put(&self, col: usize) -> (r: bool)
        requires
            self.wf(),
        ensures
            r == open_column(self@, col as int),
    {
        if col >= COLS {
            return false;
        }
        proof {
            self.lemma_column(col as u64);
        }
        self.col_val(col) < 0x3f
    }

    /// The columns that can take a disc, in increasing order.
    pub fn list_can_put(&self) -> (r: Vec<usize>)
        requires
            self.wf(),
        ensures
            r.len() <= COLS,
            forall|i: int, j: int| 0 <= i < j < r.len() ==> r[i] < r[j],
            forall|i: int| 0 <= i < r.len() ==> open_column(self@, #[trigger] r[i] as int),
            forall|c: int| open_column(self@, c) ==> r@.contains(c as usize),
    {
        let mut r: Vec<usize> = Vec::new();
        let mut col: usize = 0;
        while col < COLS
            invariant
                self.wf(),
                col <= COLS,
                r.len() <= col,
                forall|i: int, j: int| 0 <= i < j < r.len() ==> r[i] < r[j],
                forall|i: int| 0 <= i < r.len() ==> r[i] < col && open_column(self@, #[trigger] r[i] as int),
                forall|c: int| 0 <= c < col && open_column(self@, c) ==> r@.contains(c as usize),
            decreases COLS - col,
        {
            if self.can_put(col) {
                let ghost prev = r@;
                r.push(col);
                proof {
                    assert(r@ == prev.push(col));
                    assert(r@[r.len() - 1] == col);
                    assert forall|cc: int| 0 <= cc <= col && open_column(self@, cc) implies r@.contains(
                        cc as usize,
                    ) by {
                        if cc < col {
                            let i = choose|i: int| 0 <= i < prev.len() && prev[i] == cc as usize;
                            assert(r@[i] == cc as usize);
                        }
                    }
                }
            }
            col += 1;
        }
        r
    }

    /// Drops a disc of `side` into column `col` and tells whether it
    /// completes a line of four through its cell.
    pub fn put(&mut self, col: usize, side: Side) -> (won: bool)
        requires
            old(self).wf(),
            open_column(old(self)@, col as int),
        ensures
            final(self).wf(),
            *final(self) == old(self).after_put(col as int, side),
            final(self)@ == drop_disc(old(self)@, col as int, side),
            won == line_through(final(self)@, side, col as int, old(self)@[col as int].len() as int),
    {
        let ghost before = *self;
        let o = self.col_val(col);
        let row = self.col_height(col);
        let c = col as u64;
        let ghost p = (8 * c + row) as u64;
        let ghost occ = before.occupied();
        let ghost x = before.bits(side);
        let ghost y = before.bits(side.other());
        proof {
            before.lemma_column(c);
            lemma_height_stack_byte(row);
            crate::bits::lemma_next_cell(row, c);
            before.lemma_cell(c, row);
            lemma_bit_or_and(before.a, before.b, p);
            lemma_byte_bounds(before.a, before.b, 0);
            lemma_byte_bounds(before.b, before.a, 0);
            crate::bits::lemma_or_swap(before.a, before.b, 1u64 << p);
            crate::bits::lemma_or_swap(before.b, before.a, 1u64 << p);
            crate::bits::lemma_set_keeps(x, y, p);
            crate::bits::lemma_or_swap(occ, 0, p);
            crate::bits::lemma_set_keeps(occ, 0, p);
        }
        let v = (o + 1) << (c * 8);
        match side {
            Side::A => {
                proof {
                    crate::bits::lemma_add_bit(self.a, p, p);
                }
                self.a = self.a + v;
            },
            Side::B => {
                proof {
                    crate::bits::lemma_add_bit(self.b, p, p);
                }
                self.b = self.b + v;
            },
        }
        let after = *self;
        proof {
            assert(after.bits(side) == x | (1u64 << p));
            assert(after.bits(side.other()) == y);
            assert(after.occupied() == occ | (1u64 << p));
            crate::bits::lemma_or_swap(y, x | (1u64 << p), 0);
            assert(after.a & after.b == 0);
            assert forall|cc: u64| cc < 7 implies #[trigger] col_byte(after.occupied(), cc)
                == if cc == c {
                stack_byte((row + 1) as u64)
            } else {
                col_byte(occ, cc)
            } by {
                lemma_col_byte_set(occ, c, row, cc);
                crate::bits::lemma_stack_grow(row);
            }
            lemma_height_stack_byte((row + 1) as u64);
            assert(after.wf());
            let want = drop_disc(before@, col as int, side);
            assert forall|cc: int| 0 <= cc < COLS implies #[trigger] after@[cc] =~= want[cc] by {
                assert(col_byte(after.occupied(), cc as u64) == if cc == c {
                    stack_byte((row + 1) as u64)
                } else {
                    col_byte(occ, cc as u64)
                });
                assert forall|r: int| 0 <= r < after@[cc].len() implies after@[cc][r] == want[cc][r] by {
                    let q = (8 * cc + r) as u64;
                    if side == Side::A {
                        crate::bits::lemma_add_bit(before.a, p, q);
                    }
                    if cc != c || r < row {
                        before.lemma_column(cc as u64);
                        before.lemma_cell(cc as u64, r as u64);
                    }
                }
            }
            assert(after@ =~= want);
        }
        let won = is_win(self.bits_of(side), col, row as usize);
        proof {
            after.lemma_wins_at(side, col as int, row as int);
        }
        won
    }

    /// Every column holds six discs.
    pub fn is_full(&self) -> (r: bool)
        requires
            self.wf(),
        ensures
            r == grid_full(self@),
    {
        let occ = self.a | self.b;
        proof {
            lemma_byte_bounds(occ, 0, 0);
            lemma_full_word(occ);
            assert forall|c: u64| c < 7 implies (#[trigger] col_byte(occ, c) == 63) == (self@[c as int].len()
                == 6) by {
                self.lemma_column(c);
            }
            assert(grid_full(self@) == forall|c: u64| c < 7 ==> #[trigger] col_byte(occ, c) == 63) by {
                if forall|c: u64| c < 7 ==> #[trigger] col_byte(occ, c) == 63 {
                    assert forall|c: int| 0 <= c < COLS implies #[trigger] self@[c].len() == ROWS by {
                        assert(col_byte(occ, c as u64) == 63);
                    }
                }
            }
        }
        occ == 0x3f3f3f3f3f3f3f
    }

    /// The winner, read from the top disc of each column: the side of the
    /// top disc of the last column whose top disc lies in a line.
    pub fn calc_winner(&self) -> (r: Option<Side>)
        requires
            self.wf(),
        ensures
            r == winner(self@),
    {
        let mut w: Option<Side> = None;
        let mut col: usize = 0;
        while col < COLS
            invariant
                self.wf(),
                col <= COLS,
                w == winner_among(self@, col as int),
            decreases COLS - col,
        {
            let count = self.col_height(col);
            if count > 0 {
                let c = col as u64;
                let a = (self.a >> (c * 8)) & 0xff;
                let b = (self.b >> (c * 8)) & 0xff;
                let row = (count - 1) as usize;
                proof {
                    lemma_col_byte_or_and(self.a, self.b, c);
                    lemma_col_byte_zero(c);
                    self.lemma_column(c);
                    crate::bits::lemma_top_owner(a, b, count);
                    lemma_col_bit(self.a, c, (count - 1) as u64);
                    lemma_col_bit(self.b, c, (count - 1) as u64);
                    self.lemma_cell(c, (count - 1) as u64);
                    self.lemma_wins_at(Side::A, col as int, row as int);
                    self.lemma_wins_at(Side::B, col as int, row as int);
                }
                if a > b {
                    if is_win(self.a, col, row) {
                        w = Some(Side::A);
                    }
                } else if a < b {
                    if is_win(self.b, col, row) {
                        w = Some(Side::B);
                    }
                }
            }
            col += 1;
        }
        w
    }

    /// The winner if there is one, else a draw on a full board, else a game
    /// in progress.
    pub fn outcome(&self) -> (r: Outcome)
        requires
            self.wf(),
        ensures
            r == outcome_of(self@),
    {
        match self.calc_winner() {
            Some(s) => Outcome::Won(s),
            None => if self.is_full() {
                Outcome::Draw
            } else {
                Outcome::InProgress
            },
        }
    }

    /// Reads the board in the column-by-column form.
    pub fn to_board(&self) -> (r: Board)
        requires
            self.wf(),
        ensures
            r@ == self@,
    {
        let mut cols: Vec<Vec<Side>> = Vec::new();
        let mut c: usize = 0;
        while c < COLS
            invariant
                self.wf(),
                c <= COLS,
                cols.len() == c,
                forall|i: int| 0 <= i < c ==> (#[trigger] cols@[i])@ == self@[i],
            decreases COLS - c,
        {
            let h = self.col_height(c);
            let mut col: Vec<Side> = Vec::new();
            let mut r: u64 = 0;
            while r < h
                invariant
                    self.wf(),
                    c < COLS,
                    h == self@[c as int].len(),
                    h <= 6,
                    r <= h,
                    col@ == self@[c as int].subrange(0, r as int),
                decreases h - r,
            {
                proof {
                    lemma_col_bit(self.a, c as u64, r);
                    self.lemma_cell(c as u64, r);
                }
                if (self.a >> (c as u64 * 8 + r)) & 1 == 1 {
                    col.push(Side::A);
                } else {
                    col.push(Side::B);
                }
                assert(col@ =~= self@[c as int].subrange(0, r + 1));
                r += 1;
            }
            assert(col@ =~= self@[c as int]);
            cols.push(col);
            c += 1;
        }
        proof {
            self.lemma_holds();
        }
        let r = Board { cols };
        assert(r@ =~= self@);
        r
    }

    /// Builds the packed board of a column-by-column board.
    pub fn from_board(board: &Board) -> (r: BitBoard)
        ensures
            r.wf(),
            r@ == board@,
    {
        proof {
            use_type_invariant(board);
        }
        let mut r = BitBoard::new();
        let mut x: usize = 0;
        while x < COLS
            invariant
                r.wf(),
                x <= COLS,
                valid_grid(board@),
                board.cols.len() == COLS,
                r@.len() == COLS,
                forall|i: int| 0 <= i < x ==> #[trigger] r@[i] == board@[i],
                forall|i: int| x <= i < COLS ==> #[trigger] r@[i] == Seq::<Side>::empty(),
            decreases COLS - x,
        {
            let col = &board.cols[x];
            let mut y: usize = 0;
            while y < col.len()
                invariant
                    r.wf(),
                    x < COLS,
                    valid_grid(board@),
                    board.cols.len() == COLS,
                    col@ == board@[x as int],
                    y <= col.len(),
                    r@.len() == COLS,
                    forall|i: int| 0 <= i < x ==> #[trigger] r@[i] == board@[i],
                    forall|i: int| x < i < COLS ==> #[trigger] r@[i] == Seq::<Side>::empty(),
                    r@[x as int] == col@.subrange(0, y as int),
                decreases col.len() - y,
            {
                let _ = r.put(x, col[y]);
                assert(r@[x as int] =~= col@.subrange(0, y + 1));
                y += 1;
            }
            assert(r@[x as int] =~= board@[x as int]);
            x += 1;
        }
        proof {
            r.lemma_holds();
            assert(r@ =~= board@);
        }
        r
    }
}

impl From<Board> for BitBoard {
    fn from(board: Board) -> (r: BitBoard) {
        let r = BitBoard::from_board(&board);
        proof {
            let c = choose|b: BitBoard| b.wf() && b@ == board@;
            lemma_grid_determines_board(r, c);
        }
        r
    }
}

impl vstd::std_specs::convert::FromSpecImpl<Board> for BitBoard {
    open spec fn obeys_from_spec() -> bool {
        true
    }

    /// The well-formed packed board with the grid of `board`; there is
    /// exactly one.
    open spec fn from_spec(board: Board) -> BitBoard {
        choose|b: BitBoard| b.wf() && b@ == board@
    }
}

/// How a game stands.
#[derive(Debug, Clone, Copy, PartialEq, Eq, Structural)]
pub enum Outcome {
    /// A side has a line through the top disc of a column.
    Won(Side),
    /// The board is full with no such line.
    Draw,
    /// Neither.
    InProgress,
}

/// How the game on grid `g` stands.
pub open spec fn outcome_of(g: Seq<Seq<Side>>) -> Outcome {
    match winner(g) {
        Some(s) => Outcome::Won(s),
        None => if grid_full(g) {
            Outcome::Draw
        } else {
            Outcome::InProgress
        },
    }
}

/// A board in column-by-column form: seven columns of at most six discs,
/// bottom disc first.
pub struct Board {
    cols: Vec<Vec<Side>>,
}

/// Why a column-by-column board was refused.
#[derive(Debug, Clone, Copy, PartialEq, Eq, Structural)]
pub enum BoardError {
    /// Not seven columns.
    ColumnCount,
    /// A column with more than six discs.
    ColumnTooTall,
}

/// The grid of a list of columns.
pub open spec fn grid_of(cols: Seq<Vec<Side>>) -> Seq<Seq<Side>> {
    Seq::new(cols.len(), |i: int| cols[i]@)
}

impl Board {
    pub closed spec fn view(self) -> Seq<Seq<Side>> {
        grid_of(self.cols@)
    }

    #[verifier::type_invariant]
    closed spec fn inv(self) -> bool {
        valid_grid(self@)
    }

    /// Takes the columns of a board, refusing a wrong number of columns or
    /// a column that holds more than six discs.
    pub fn new(cols: Vec<Vec<Side>>) -> (r: Result<Board, BoardError>)
        ensures
            match r {
                Ok(b) => b@ == grid_of(cols@) && valid_grid(b@),
                Err(BoardError::ColumnCount) => cols.len() != COLS,
                Err(BoardError::ColumnTooTall) => cols.len() == COLS && exists|i: int|
                    0 <= i < COLS && #[trigger] cols@[i].len() > ROWS,
            },
            r is Ok <==> valid_grid(grid_of(cols@)),
    {
        if cols.len() != COLS {
            return Err(BoardError::ColumnCount);
        }
        let mut i: usize = 0;
        while i < COLS
            invariant
                cols.len() == COLS,
                i <= COLS,
                forall|j: int| 0 <= j < i ==> #[trigger] cols@[j].len() <= ROWS,
            decreases COLS - i,
        {
            if cols[i].len() > ROWS {
                assert(cols@[i as int].len() > ROWS);
                assert(grid_of(cols@)[i as int].len() > ROWS);
                return Err(BoardError::ColumnTooTall);
            }
            i += 1;
        }
        assert forall|c: int| 0 <= c < COLS implies #[trigger] grid_of(cols@)[c].len() <= ROWS by {
            assert(cols@[c].len() <= ROWS);
        }
        Ok(Board { cols })
    }

    /// The columns, bottom disc first.
    pub fn columns(&self) -> (r: Vec<Vec<Side>>)
        ensures
            grid_of(r@) == self@,
    {
        let mut r: Vec<Vec<Side>> = Vec::new();
        let mut i: usize = 0;
        while i < self.cols.len()
            invariant
                i <= self.cols.len(),
                r.len() == i,
                forall|j: int| 0 <= j < i ==> (#[trigger] r@[j])@ == self.cols@[j]@,
            decreases self.cols.len() - i,
        {
            let src = &self.cols[i];
            let mut col: Vec<Side> = Vec::new();
            let mut k: usize = 0;
            while k < src.len()
                invariant
                    k <= src.len(),
                    col@ == src@.subrange(0, k as int),
                decreases src.len() - k,
            {
                col.push(src[k]);
                assert(col@ =~= src@.subrange(0, k + 1));
                k += 1;
            }
            assert(col@ =~= src@);
            r.push(col);
            i += 1;
        }
        assert(grid_of(r@) =~= self@);
        r
    }
}


// Laws of the board.

proof fn lemma_discs_drop(g: Seq<Seq<Side>>, c: int, s: Side, n: int)
    requires
        0 <= c < g.len(),
        n <= g.len(),
    ensures
        discs_among(drop_disc(g, c, s), n) == discs_among(g, n) + if c < n {
            1int
        } else {
            0int
        },
    decreases n,
{
    if n > 0 {
        lemma_discs_drop(g, c, s, n - 1);
    }
}

proof fn lemma_discs_bound(g: Seq<Seq<Side>>, n: int)
    requires
        valid_grid(g),
        0 <= n <= COLS,
    ensures
        0 <= discs_among(g, n) <= 6 * n,
        discs_among(g, n) == 6 * n <==> forall|c: int| 0 <= c < n ==> #[trigger] g[c].len() == ROWS,
    decreases n,
{
    if n > 0 {
        lemma_discs_bound(g, n - 1);
        assert(g[n - 1].len() <= ROWS);
    }
}

/// A board holds between 0 and 42 discs.
pub proof fn lemma_count_bound(g: Seq<Seq<Side>>)
    requires
        valid_grid(g),
    ensures
        0 <= disc_count(g) <= 42,
{
    lemma_discs_bound(g, COLS as int);
}

/// After each legal move the side to move changes.
pub proof fn lemma_turn_alternates(g: Seq<Seq<Side>>, c: int, s: Side)
    requires
        valid_grid(g),
        open_column(g, c),
    ensures
        disc_count(drop_disc(g, c, s)) == disc_count(g) + 1,
        side_to_move(drop_disc(g, c, s)) == side_to_move(g).other(),
{
    lemma_discs_drop(g, c, s, COLS as int);
}

/// A board is full exactly when it holds 42 discs; a legal move is only made
/// on a board that is not full, and fills it only when it held 41. So
/// filling a board move by move turns it full once, at the last move.
pub proof fn lemma_fills_once(g: Seq<Seq<Side>>, c: int, s: Side)
    requires
        valid_grid(g),
        open_column(g, c),
    ensures
        grid_full(g) <==> disc_count(g) == 42,
        0 <= disc_count(g) < 42,
        !grid_full(g),
        valid_grid(drop_disc(g, c, s)),
        grid_full(drop_disc(g, c, s)) <==> disc_count(g) == 41,
{
    let g2 = drop_disc(g, c, s);
    lemma_discs_drop(g, c, s, COLS as int);
    lemma_discs_bound(g, COLS as int);
    assert forall|i: int| 0 <= i < COLS implies #[trigger] g2[i].len() <= ROWS by {
        assert(g[i].len() <= ROWS);
    }
    lemma_discs_bound(g2, COLS as int);
}

proof fn lemma_no_winner_no_line(g: Seq<Seq<Side>>, n: int, j: int)
    requires
        winner_among(g, n) == None::<Side>,
        0 <= j < n,
    ensures
        !top_in_line(g, j),
    decreases n,
{
    if j < n - 1 {
        lemma_no_winner_no_line(g, n - 1, j);
    }
}

proof fn lemma_winner_of_drop(g2: Seq<Seq<Side>>, s: Side, c: int, n: int)
    requires
        forall|j: int| 0 <= j < n && #[trigger] top_in_line(g2, j) ==> g2[j].last() == s,
        top_in_line(g2, c),
        0 <= c < n,
    ensures
        winner_among(g2, n) == Some(s),
    decreases n,
{
    if c < n - 1 && !top_in_line(g2, n - 1) {
        lemma_winner_of_drop(g2, s, c, n - 1);
    }
}

/// When a move on a board without a winner completes a line through the
/// new disc, the winner read from the whole board is the side that moved.
pub proof fn lemma_win_is_winner(g: Seq<Seq<Side>>, c: int, s: Side)
    requires
        valid_grid(g),
        open_column(g, c),
        winner(g) == None::<Side>,
        line_through(drop_disc(g, c, s), s, c, g[c].len() as int),
    ensures
        winner(drop_disc(g, c, s)) == Some(s),
{
    let g2 = drop_disc(g, c, s);
    assert(g2[c].last() == s);
    assert forall|x: int, y: int| #[trigger] cell(g2, x, y) != Some(s) implies cell(g, x, y) == cell(
        g2,
        x,
        y,
    ) by {
        if x == c && 0 <= y < g[c].len() {
            assert(g2[c][y] == g[c][y]);
        }
    }
    assert forall|j: int| 0 <= j < COLS && #[trigger] top_in_line(g2, j) implies g2[j].last()
        == s by {
        if j != c {
            assert(g2[j] == g[j]);
            if g2[j].last() != s {
                assert(top_in_line(g, j));
                lemma_no_winner_no_line(g, COLS as int, j);
            }
        }
    }
    lemma_winner_of_drop(g2, s, c, COLS as int);
}

/// Four in a row from `(x0, y0)` in one of the four directions lies in the
/// line at offset `m` through its `m`-th cell.
proof fn lemma_four_through(g: Seq<Seq<Side>>, s: Side, x0: int, y0: int, dc: int, dr: int, m: int)
    requires
        (dc == 0 && dr == 1) || (dc == 1 && dr == 0) || (dc == 1 && dr == 1) || (dc == 1 && dr == -1),
        0 <= m < 4,
        four_from(g, s, x0, y0, dc, dr),
    ensures
        line_at(g, s, x0 + m * dc, y0 + m * dr, m),
{
    let x = x0 + m * dc;
    let y = y0 + m * dr;
    if dc == 0 {
        assert(x == x0 && y - m == y0);
    } else if dr == 0 {
        assert(x - m == x0 && y == y0);
    } else if dr == 1 {
        assert(x - m == x0 && y - m == y0);
    } else {
        assert(x - m == x0 && y + m == y0);
    }
}

/// Four in a row of `t` on `g2`, where `g2` differs from `g` only at
/// `(c, h)` which holds `s`, is four in a row on `g` too, unless `g2` has a
/// line of `s` through `(c, h)`.
proof fn lemma_four_kept(
    g: Seq<Seq<Side>>,
    g2: Seq<Seq<Side>>,
    s: Side,
    c: int,
    h: int,
    t: Side,
    x0: int,
    y0: int,
    dc: int,
    dr: int,
)
    requires
        forall|u: int, v: int| !(u == c && v == h) ==> #[trigger] cell(g2, u, v) == cell(g, u, v),
        cell(g2, c, h) == Some(s),
        (dc == 0 && dr == 1) || (dc == 1 && dr == 0) || (dc == 1 && dr == 1) || (dc == 1 && dr == -1),
        four_from(g2, t, x0, y0, dc, dr),
        !(t == s && line_through(g2, s, c, h)),
    ensures
        four_from(g, t, x0, y0, dc, dr),
{
    if t == s {
        if x0 == c && y0 == h {
            lemma_four_through(g2, s, x0, y0, dc, dr, 0);
        }
        if x0 + dc == c && y0 + dr == h {
            lemma_four_through(g2, s, x0, y0, dc, dr, 1);
        }
        if x0 + 2 * dc == c && y0 + 2 * dr == h {
            lemma_four_through(g2, s, x0, y0, dc, dr, 2);
        }
        if x0 + 3 * dc == c && y0 + 3 * dr == h {
            lemma_four_through(g2, s, x0, y0, dc, dr, 3);
        }
    }
    assert(!(x0 == c && y0 == h));
    assert(!(x0 + dc == c && y0 + dr == h));
    assert(!(x0 + 2 * dc == c && y0 + 2 * dr == h));
    assert(!(x0 + 3 * dc == c && y0 + 3 * dr == h));
}

/// A line of `t` through `(x, y)` on `g2`, where `g2` differs from `g`
/// only at `(c, h)`, is a line on `g` too, unless it is a line of `s`
/// through `(c, h)`.
proof fn lemma_line_kept(g: Seq<Seq<Side>>, g2: Seq<Seq<Side>>, s: Side, c: int, h: int, t: Side, x: int, y: int)
    requires
        forall|u: int, v: int| !(u == c && v == h) ==> #[trigger] cell(g2, u, v) == cell(g, u, v),
        line_through(g2, t, x, y),
        !(t == s && line_through(g2, s, c, h)),
        cell(g2, c, h) == Some(s),
    ensures
        line_through(g, t, x, y),
{
    let k: int = if line_at(g2, t, x, y, 0) {
        0
    } else if line_at(g2, t, x, y, 1) {
        1
    } else if line_at(g2, t, x, y, 2) {
        2
    } else {
        3
    };
    if four_from(g2, t, x, y - k, 0, 1) {
        lemma_four_kept(g, g2, s, c, h, t, x, y - k, 0, 1);
    } else if four_from(g2, t, x - k, y, 1, 0) {
        lemma_four_kept(g, g2, s, c, h, t, x - k, y, 1, 0);
    } else if four_from(g2, t, x - k, y - k, 1, 1) {
        lemma_four_kept(g, g2, s, c, h, t, x - k, y - k, 1, 1);
    } else {
        lemma_four_kept(g, g2, s, c, h, t, x - k, y + k, 1, -1);
    }
}

/// No end without a winner: when a move on a board without a winner does
/// not complete a line through the new disc, the board still has no
/// winner.
pub proof fn lemma_no_win_no_winner(g: Seq<Seq<Side>>, c: int, s: Side)
    requires
        valid_grid(g),
        open_column(g, c),
        winner(g) == None::<Side>,
        !line_through(drop_disc(g, c, s), s, c, g[c].len() as int),
    ensures
        winner(drop_disc(g, c, s)) == None::<Side>,
{
    let g2 = drop_disc(g, c, s);
    let h = g[c].len() as int;
    assert forall|u: int, v: int| !(u == c && v == h) implies #[trigger] cell(g2, u, v) == cell(g, u, v) by {
        if u == c && 0 <= v < g[c].len() {
            assert(g2[c][v] == g[c][v]);
        }
    }
    assert(cell(g2, c, h) == Some(s));
    assert forall|j: int| 0 <= j < COLS implies !#[trigger] top_in_line(g2, j) by {
        if j != c && top_in_line(g2, j) {
            assert(g2[j] == g[j]);
            lemma_line_kept(g, g2, s, c, h, g2[j].last(), j, g2[j].len() - 1);
            assert(top_in_line(g, j));
            lemma_no_winner_no_line(g, COLS as int, j);
        }
    }
    lemma_no_top_no_winner(g2, COLS as int);
}

proof fn lemma_no_top_no_winner(g: Seq<Seq<Side>>, n: int)
    requires
        n <= COLS,
        forall|j: int| 0 <= j < COLS ==> !#[trigger] top_in_line(g, j),
    ensures
        winner_among(g, n) == None::<Side>,
    decreases n,
{
    if n > 0 {
        lemma_no_top_no_winner(g, n - 1);
    }
}

/// On a board without a winner, the winner read from the whole board after
/// a move is the side that moved exactly when that move completes a line
/// through the new disc, and there is none otherwise: the flag returned by
/// `put` agrees with `calc_winner`.
pub proof fn lemma_put_agrees_with_winner(g: Seq<Seq<Side>>, c: int, s: Side)
    requires
        valid_grid(g),
        open_column(g, c),
        winner(g) == None::<Side>,
    ensures
        winner(drop_disc(g, c, s)) == if line_through(drop_disc(g, c, s), s, c, g[c].len() as int) {
            Some(s)
        } else {
            None
        },
{
    if line_through(drop_disc(g, c, s), s, c, g[c].len() as int) {
        lemma_win_is_winner(g, c, s);
    } else {
        lemma_no_win_no_winner(g, c, s);
    }
}

/// A well-formed packed board is determined by its grid, so turning it
/// into the column-by-column form and back gives the same packed board.
pub proof fn lemma_grid_determines_board(x: BitBoard, y: BitBoard)
    requires
        x.wf(),
        y.wf(),
        x@ == y@,
    ensures
        x == y,
{
    assert forall|c: u64| c < 7 implies col_byte(x.a, c) == col_byte(y.a, c) && col_byte(x.b, c)
        == col_byte(y.b, c) by {
        x.lemma_column(c);
        y.lemma_column(c);
        assert(x.height(c as int) == x@[c as int].len());
        assert(y.height(c as int) == y@[c as int].len());
        assert forall|r: u64| r < 8 implies has_bit(col_byte(x.a, c), r) == has_bit(
            col_byte(y.a, c),
            r,
        ) && has_bit(col_byte(x.b, c), r) == has_bit(col_byte(y.b, c), r) by {
            x.lemma_cell(c, r);
            y.lemma_cell(c, r);
            lemma_col_bit(x.a, c, r);
            lemma_col_bit(y.a, c, r);
            lemma_col_bit(x.b, c, r);
            lemma_col_bit(y.b, c, r);
        }
        lemma_byte_bounds(x.a, 0, c);
        lemma_byte_bounds(y.a, 0, c);
        lemma_byte_bounds(x.b, 0, c);
        lemma_byte_bounds(y.b, 0, c);
        crate::bits::lemma_bytes_by_bits(col_byte(x.a, c), col_byte(y.a, c));
        crate::bits::lemma_bytes_by_bits(col_byte(x.b, c), col_byte(y.b, c));
    }
    lemma_byte_bounds(x.a, x.b, 0);
    lemma_byte_bounds(y.a, y.b, 0);
    crate::bits::lemma_or_swap(x.a, x.b, 0);
    crate::bits::lemma_or_swap(y.a, y.b, 0);
    lemma_byte_bounds(x.b, x.a, 0);
    lemma_byte_bounds(y.b, y.a, 0);
    crate::bits::lemma_words_by_columns(x.a, y.a);
    crate::bits::lemma_words_by_columns(x.b, y.b);
}

} // verus!
