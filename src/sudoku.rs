//! A 9x9 Sudoku board and a digit-by-digit backtracking solver.
use vstd::prelude::*;
use vstd::string::*;
use crate::ring::{lemma_nxt, nxt};

verus! {

/// One square of a 9x9 Sudoku board.
#[derive(Clone, Copy, Debug)]
pub struct Cell {
    row: u8,
    col: u8,
    sqr: u8,
    value: u8,
    tried: [bool; 9],
    poss: [bool; 9],
    og: bool,
}

/// What a `Cell` holds. Rows, columns and boxes count from 1; value 0 is an
/// empty square; `tried[k]` and `poss[k]` are about the digit `k + 1`; `og`
/// marks a square given with the puzzle.
pub struct CellView {
    pub row: int,
    pub col: int,
    pub sqr: int,
    pub value: int,
    pub tried: Seq<bool>,
    pub poss: Seq<bool>,
    pub og: bool,
}

impl View for Cell {
    type V = CellView;

    closed spec fn view(&self) -> CellView {
        CellView {
            row: self.row as int,
            col: self.col as int,
            sqr: self.sqr as int,
            value: self.value as int,
            tried: self.tried@,
            poss: self.poss@,
            og: self.og,
        }
    }
}

pub open spec fn nine(b: bool) -> Seq<bool> {
    Seq::new(9, |k: int| b)
}

/// Some cell of `ns` holds `v`.
pub open spec fn taken(ns: Seq<Cell>, v: int) -> bool {
    exists|i: int| 0 <= i < ns.len() && (#[trigger] ns[i])@.value == v
}

/// Digits that are possible and not tried yet.
pub open spec fn open_digits(c: CellView) -> spec_fn(int) -> bool {
    |k: int| !c.tried[k] && c.poss[k]
}

impl Cell {
    /// A square at `row`, `col` (from 1) in box `sqr`, holding `value` (0 if
    /// empty); `og` marks a given square.
    pub fn new(value: u8, row: u8, col: u8, sqr: u8, og: bool) -> (c: Cell)
        ensures
            c@ == (CellView {
                row: row as int,
                col: col as int,
                sqr: sqr as int,
                value: value as int,
                tried: nine(false),
                poss: nine(true),
                og,
            }),
    {
        let c = Cell {
            row,
            col,
            sqr,
            og,
            value,
            tried: [false, false, false, false, false, false, false, false, false],
            poss: [true, true, true, true, true, true, true, true, true],
        };
        assert(c.tried@ =~= nine(false));
        assert(c.poss@ =~= nine(true));
        c
    }

    /// The square was not given with the puzzle.
    pub fn can_set(&self) -> (r: bool)
        ensures
            r == !self@.og,
    {
        !self.og
    }

    /// Rules out every digit that one of `neighbours` holds.
    pub fn set_possibilities(&mut self, neighbours: &Vec<Cell>)
        requires
            forall|i: int| 0 <= i < neighbours@.len() ==> (#[trigger] neighbours@[i])@.value <= 9,
        ensures
            final(self)@ == (CellView {
                poss: Seq::new(9, |k: int| old(self)@.poss[k] && !taken(neighbours@, k + 1)),
                ..old(self)@
            }),
    {
        let ghost start = self@;
        let mut i: usize = 0;
        proof {
            assert(start.poss.len() == 9);
            assert(self@.poss =~= Seq::new(
                9,
                |k: int| start.poss[k] && !taken(neighbours@.subrange(0, 0), k + 1),
            ));
        }
        while i < neighbours.len()
            invariant
                i <= neighbours@.len(),
                forall|j: int| 0 <= j < neighbours@.len() ==> (#[trigger] neighbours@[j])@.value <= 9,
                self@ == (CellView {
                    poss: Seq::new(
                        9,
                        |k: int| start.poss[k] && !taken(neighbours@.subrange(0, i as int), k + 1),
                    ),
                    ..start
                }),
            decreases neighbours@.len() - i,
        {
            let n = neighbours[i];
            let ghost before = self@;
            if n.is_set() {
                self.poss[(n.value - 1) as usize] = false;
            }
            proof {
                let pre = neighbours@.subrange(0, i as int);
                let post = neighbours@.subrange(0, i + 1);
                assert forall|k: int| 0 <= k < 9 implies #[trigger] self@.poss[k] == (start.poss[k]
                    && !taken(post, k + 1)) by {
                    if taken(post, k + 1) {
                        let j = choose|j: int| 0 <= j < post.len() && (#[trigger] post[j])@.value == k + 1;
                        if j < i {
                            assert(pre[j] == post[j]);
                        }
                    }
                    if taken(pre, k + 1) {
                        let j = choose|j: int| 0 <= j < pre.len() && (#[trigger] pre[j])@.value == k + 1;
                        assert(post[j] == pre[j]);
                    }
                    if n@.value == k + 1 {
                        assert(post[i as int] == n);
                    }
                }
                assert(self@.poss =~= Seq::new(9, |k: int| start.poss[k] && !taken(post, k + 1)));
            }
            i = i + 1;
        }
        proof {
            assert(neighbours@.subrange(0, i as int) =~= neighbours@);
            assert(self@.poss =~= Seq::new(9, |k: int| start.poss[k] && !taken(neighbours@, k + 1)));
        }
    }

    /// Moves to the first digit that is possible and not tried yet, marking it
    /// tried; empties the square when there is none.
    pub fn set_value(&mut self)
        ensures
            nxt(9, open_digits(old(self)@), 0) == -1 ==> final(self)@ == (CellView { value: 0, ..old(self)@ }),
            nxt(9, open_digits(old(self)@), 0) != -1 ==> final(self)@ == (CellView {
                value: nxt(9, open_digits(old(self)@), 0) + 1,
                tried: old(self)@.tried.update(nxt(9, open_digits(old(self)@), 0), true),
                ..old(self)@
            }),
    {
        let ghost start = self@;
        let ghost p = open_digits(start);
        let mut idx: usize = 0;
        while idx < 9
            invariant
                idx <= 9,
                self@ == start,
                old(self)@ == start,
                p == open_digits(start),
                forall|j: int| 0 <= j < idx ==> !#[trigger] p(j),
            decreases 9 - idx,
        {
            if !self.tried[idx] && self.poss[idx] {
                self.tried[idx] = true;
                self.value = (idx + 1) as u8;
                proof {
                    crate::ring::lemma_nxt_is(9, p, 0, idx as int);
                    assert(nxt(9, open_digits(start), 0) == idx);
                    assert(self@.tried =~= start.tried.update(idx as int, true));
                    assert(self@.value == idx + 1);
                    assert(self@ == (CellView {
                        value: idx + 1,
                        tried: start.tried.update(idx as int, true),
                        ..start
                    }));
                }
                return;
            }
            idx = idx + 1;
        }
        proof {
            crate::ring::lemma_nxt_is(9, p, 0, -1);
        }
        self.value = 0;
    }

    /// The square holds a digit.
    pub fn is_set(&self) -> (r: bool)
        ensures
            r == (self@.value > 0),
    {
        self.value > 0
    }

    /// Empties a square that was not given: nothing tried, every digit possible.
    pub fn reset(&mut self)
        requires
            !old(self)@.og,
        ensures
            final(self)@ == (CellView { value: 0, tried: nine(false), poss: nine(true), ..old(self)@ }),
    {
        self.tried = [false, false, false, false, false, false, false, false, false];
        self.poss = [true, true, true, true, true, true, true, true, true];
        self.value = 0;
        assert(self.tried@ =~= nine(false));
        assert(self.poss@ =~= nine(true));
    }
}

/// Box number (from 1) of the square at `col`, `row` (from 1).
pub open spec fn sqr_of(col: int, row: int) -> int {
    (col - 1) / 3 + 3 * ((row - 1) / 3) + 1
}

/// `b` shares a row, a column or a box with `a`, and is another square.
pub open spec fn sees(a: CellView, b: CellView) -> bool {
    &&& !(a.row == b.row && a.col == b.col)
    &&& (a.row == b.row || a.col == b.col || a.sqr == b.sqr)
}

/// Square `i` of a board read from `s`.
pub open spec fn given(s: Seq<char>, i: int) -> CellView {
    CellView {
        row: i / 9 + 1,
        col: i % 9 + 1,
        sqr: sqr_of(i % 9 + 1, i / 9 + 1),
        value: s[i] as int - '0' as int,
        tried: nine(false),
        poss: nine(true),
        og: s[i] != '0',
    }
}

pub open spec fn is_digit(ch: char) -> bool {
    '0' <= ch && ch <= '9'
}

/// 81 squares in row-major order, each with its own coordinates, a digit or
/// 0, and a digit if it was given.
pub open spec fn placed(cells: Seq<Cell>) -> bool {
    &&& cells.len() == 81
    &&& forall|i: int|
        0 <= i < 81 ==> {
            &&& (#[trigger] cells[i])@.row == i / 9 + 1
            &&& cells[i]@.col == i % 9 + 1
            &&& cells[i]@.sqr == sqr_of(i % 9 + 1, i / 9 + 1)
            &&& 0 <= cells[i]@.value <= 9
            &&& cells[i]@.og ==> cells[i]@.value >= 1
        }
}

/// Two filled squares that see each other hold different digits, unless both
/// were given.
pub open spec fn agrees(cells: Seq<Cell>) -> bool {
    forall|i: int, j: int|
        0 <= i < 81 && 0 <= j < 81 && i != j && sees((#[trigger] cells[i])@, (#[trigger] cells[j])@)
            && cells[i]@.value != 0 && cells[j]@.value != 0 && !(cells[i]@.og && cells[j]@.og) ==> cells[i]@.value
            != cells[j]@.value
}

/// Cells of `cells[..n]` that see `c`, in order.
pub open spec fn seen_by(cells: Seq<Cell>, c: CellView, n: int) -> Seq<Cell>
    decreases n,
{
    if n <= 0 {
        Seq::empty()
    } else {
        seen_by(cells, c, n - 1) + if sees(c, cells[n - 1]@) {
            seq![cells[n - 1]]
        } else {
            Seq::empty()
        }
    }
}

/// The character of a digit.
pub open spec fn digit_char(v: int) -> char {
    if v == 0 {
        '0'
    } else if v == 1 {
        '1'
    } else if v == 2 {
        '2'
    } else if v == 3 {
        '3'
    } else if v == 4 {
        '4'
    } else if v == 5 {
        '5'
    } else if v == 6 {
        '6'
    } else if v == 7 {
        '7'
    } else if v == 8 {
        '8'
    } else {
        '9'
    }
}

/// How one square is printed: its digit, a bar after the third and sixth
/// columns, and at the end of a row a newline, with a rule after the third and
/// sixth rows.
pub open spec fn cell_text(c: CellView) -> Seq<char> {
    seq![digit_char(c.value)] + (if c.col == 3 || c.col == 6 {
        seq!['|']
    } else {
        Seq::empty()
    }) + (if c.col == 9 {
        seq!['\n'] + if c.row == 3 || c.row == 6 {
            seq!['-', '-', '-', '+', '-', '-', '-', '+', '-', '-', '-', '\n']
        } else {
            Seq::empty()
        }
    } else {
        Seq::empty()
    })
}

/// The text of the first `n` squares, after a leading newline.
pub open spec fn board_text(cells: Seq<Cell>, n: int) -> Seq<char>
    decreases n,
{
    if n <= 0 {
        seq!['\n']
    } else {
        board_text(cells, n - 1) + cell_text(cells[n - 1]@)
    }
}

/// A 9x9 Sudoku board, with the position and direction of the solver.
pub struct Board {
    cells: Vec<Cell>,
    idx: usize,
    direction: i32,
}

/// What a `Board` holds.
pub struct BoardView {
    pub cells: Seq<Cell>,
    pub idx: int,
    pub direction: int,
}

impl View for Board {
    type V = BoardView;

    closed spec fn view(&self) -> BoardView {
        BoardView { cells: self.cells@, idx: self.idx as int, direction: self.direction as int }
    }
}

impl BoardView {
    /// A state the solver can work from: every square before `idx` is filled.
    pub open spec fn ready(self) -> bool {
        &&& placed(self.cells)
        &&& agrees(self.cells)
        &&& 0 <= self.idx <= 81
        &&& (self.direction == 1 || self.direction == -1)
        &&& forall|i: int| 0 <= i < self.idx ==> (#[trigger] self.cells[i])@.value != 0
    }

    /// Every square is filled, and no square that was not given clashes with
    /// a square it sees.
    pub open spec fn solved(self) -> bool {
        &&& placed(self.cells)
        &&& agrees(self.cells)
        &&& forall|i: int| 0 <= i < 81 ==> (#[trigger] self.cells[i])@.value >= 1
    }
}

/// `b` is `a` after one step of the solver at square `a.idx`. A given square
/// is stepped over in the current direction (not before the first square,
/// where the direction turns forward). Any other square first rules out the
/// digits of the squares it sees; it then takes its first digit that is
/// possible and not tried yet, and the solver moves forward; with none left,
/// the square is emptied and reset, and the solver moves back.
pub open spec fn stepped(a: BoardView, b: BoardView) -> bool {
    let x = a.idx;
    let c0 = a.cells[x]@;
    if c0.og {
        let i = if x + a.direction < 0 {
            0
        } else {
            x + a.direction
        };
        &&& b.cells == a.cells
        &&& b.idx == i
        &&& b.direction == if i == 0 {
            1
        } else {
            a.direction
        }
    } else {
        let c1 = CellView {
            poss: Seq::new(9, |k: int| c0.poss[k] && !taken(seen_by(a.cells, c0, 81), k + 1)),
            ..c0
        };
        let k = nxt(9, open_digits(c1), 0);
        &&& b.cells.len() == a.cells.len()
        &&& forall|i: int| 0 <= i < a.cells.len() && i != x ==> #[trigger] b.cells[i] == a.cells[i]
        &&& if k != -1 {
            &&& b.cells[x]@ == (CellView { value: k + 1, tried: c1.tried.update(k, true), ..c1 })
            &&& b.idx == x + 1
            &&& b.direction == 1
        } else {
            let i = if x == 0 {
                0
            } else {
                x - 1
            };
            &&& b.cells[x]@ == (CellView { value: 0, tried: nine(false), poss: nine(true), ..c0 })
            &&& b.idx == i
            &&& b.direction == if i == 0 {
                1
            } else {
                -1
            }
        }
    }
}

/// `trace` is a run of the solver from `a` to `b`: one step at a time, each
/// taken before the last square was passed, stopping there or after ten
/// million steps.
pub open spec fn solver_run(trace: Seq<BoardView>, a: BoardView, b: BoardView) -> bool {
    &&& 1 <= trace.len() <= 10000001
    &&& trace[0] == a
    &&& trace.last() == b
    &&& forall|i: int|
        0 <= i < trace.len() - 1 ==> (#[trigger] trace[i]).idx <= 80 && stepped(trace[i], trace[i + 1])
    &&& b.idx <= 80 ==> trace.len() == 10000001
}

/// `b` has the squares of `a` in place, and the same given digits.
pub open spec fn same_givens(a: BoardView, b: BoardView) -> bool {
    forall|i: int|
        0 <= i < 81 ==> {
            &&& (#[trigger] b.cells[i])@.og == a.cells[i]@.og
            &&& b.cells[i]@.row == a.cells[i]@.row
            &&& b.cells[i]@.col == a.cells[i]@.col
            &&& b.cells[i]@.sqr == a.cells[i]@.sqr
            &&& a.cells[i]@.og ==> b.cells[i]@.value == a.cells[i]@.value
        }
}

pub proof fn lemma_seen_by(cells: Seq<Cell>, c: CellView, n: int, v: int)
    requires
        0 <= n <= cells.len(),
    ensures
        taken(seen_by(cells, c, n), v) <==> exists|j: int|
            0 <= j < n && sees(c, (#[trigger] cells[j])@) && cells[j]@.value == v,
        forall|i: int|
            0 <= i < seen_by(cells, c, n).len() ==> exists|j: int|
                0 <= j < n && #[trigger] seen_by(cells, c, n)[i] == cells[j],
    decreases n,
{
    if n > 0 {
        lemma_seen_by(cells, c, n - 1, v);
        let pre = seen_by(cells, c, n - 1);
        let all = seen_by(cells, c, n);
        if taken(all, v) {
            let i = choose|i: int| 0 <= i < all.len() && (#[trigger] all[i])@.value == v;
            if i < pre.len() {
                assert(pre[i] == all[i]);
                assert(taken(pre, v));
            }
        }
        if exists|j: int| 0 <= j < n && sees(c, (#[trigger] cells[j])@) && cells[j]@.value == v {
            let j = choose|j: int| 0 <= j < n && sees(c, (#[trigger] cells[j])@) && cells[j]@.value == v;
            if j < n - 1 {
                assert(taken(pre, v));
                let i = choose|i: int| 0 <= i < pre.len() && (#[trigger] pre[i])@.value == v;
                assert(all[i] == pre[i]);
            } else {
                assert(all[pre.len() as int] == cells[j]);
            }
        }
        assert forall|i: int| 0 <= i < all.len() implies exists|j: int| 0 <= j < n && #[trigger] all[i] == cells[j] by {
            if i < pre.len() {
                assert(all[i] == pre[i]);
                let j = choose|j: int| 0 <= j < n - 1 && #[trigger] pre[i] == cells[j];
            } else {
                assert(all[i] == cells[n - 1]);
            }
        }
    }
}

/// The one-character text of digit `v`.
fn digit_str(v: u8) -> (s: &'static str)
    requires
        v <= 9,
    ensures
        s@ == seq![digit_char(v as int)],
{
    proof {
        reveal_strlit("0");
        reveal_strlit("1");
        reveal_strlit("2");
        reveal_strlit("3");
        reveal_strlit("4");
        reveal_strlit("5");
        reveal_strlit("6");
        reveal_strlit("7");
        reveal_strlit("8");
        reveal_strlit("9");
    }
    if v == 0 {
        "0"
    } else if v == 1 {
        "1"
    } else if v == 2 {
        "2"
    } else if v == 3 {
        "3"
    } else if v == 4 {
        "4"
    } else if v == 5 {
        "5"
    } else if v == 6 {
        "6"
    } else if v == 7 {
        "7"
    } else if v == 8 {
        "8"
    } else {
        "9"
    }
}

fn sqr_idx(col: u8, row: u8) -> (s: u8)
    requires
        1 <= col <= 9,
        1 <= row <= 9,
    ensures
        s as int == sqr_of(col as int, row as int),
{
    (col - 1) / 3 + 3 * ((row - 1) / 3) + 1
}

impl Board {
    /// The board as text: nine lines of digits, with bars between boxes and
    /// rules after the third and sixth lines.
    pub fn string(&self) -> (s: String)
        requires
            placed(self@.cells),
        ensures
            s@ == board_text(self@.cells, 81),
    {
        let mut s = String::new();
        s.append("\n");
        proof {
            reveal_strlit("\n");
            reveal_strlit("|");
            reveal_strlit("---+---+---\n");
            assert(s@ =~= board_text(self@.cells, 0));
        }
        let mut i: usize = 0;
        while i < self.cells.len()
            invariant
                placed(self@.cells),
                i <= 81,
                s@ == board_text(self@.cells, i as int),
            decreases 81 - i,
        {
            let cell = self.cells[i];
            let ghost before = s@;
            s.append(digit_str(cell.value));
            if cell.col == 3 || cell.col == 6 {
                s.append("|");
            }
            if cell.col == 9 {
                s.append("\n");
                if cell.row == 3 || cell.row == 6 {
                    s.append("---+---+---\n");
                }
            }
            proof {
                reveal_strlit("\n");
                reveal_strlit("|");
                reveal_strlit("---+---+---\n");
                assert(cell == self@.cells[i as int]);
                assert(s@ =~= before + cell_text(cell@));
            }
            i = i + 1;
        }
        s
    }

    /// The squares that share a row, a column or a box with `cell`, other than
    /// `cell` itself.
    pub fn neighbours(&self, cell: &Cell) -> (r: Vec<Cell>)
        ensures
            r@ == seen_by(self@.cells, cell@, self@.cells.len() as int),
    {
        let mut r: Vec<Cell> = Vec::new();
        let mut i: usize = 0;
        while i < self.cells.len()
            invariant
                i <= self@.cells.len(),
                r@ == seen_by(self@.cells, cell@, i as int),
            decreases self@.cells.len() - i,
        {
            let friend = self.cells[i];
            proof {
                assert(friend == self@.cells[i as int]);
            }
            if cell.row == friend.row && cell.col == friend.col {
                assert(r@ =~= seen_by(self@.cells, cell@, i + 1));
            } else if cell.row == friend.row || cell.col == friend.col || cell.sqr == friend.sqr {
                r.push(friend);
                assert(r@ =~= seen_by(self@.cells, cell@, i + 1));
            } else {
                assert(r@ =~= seen_by(self@.cells, cell@, i + 1));
            }
            i = i + 1;
        }
        r
    }

    /// The solver has moved past the last square.
    pub fn is_completed(&self) -> (r: bool)
        ensures
            r == (self@.idx > 80),
    {
        self.idx > 80
    }
}

impl Board {
    /// Reads a board from the first 81 characters of `board_string`, row by
    /// row; `0` is an empty square, any other digit a given one.
    pub fn new(board_string: &String) -> (b: Board)
        requires
            board_string@.len() >= 81,
            forall|i: int| 0 <= i < board_string@.len() ==> is_digit(#[trigger] board_string@[i]),
        ensures
            b@.ready(),
            b@.idx == 0,
            b@.direction == 1,
            forall|i: int| 0 <= i < 81 ==> (#[trigger] b@.cells[i])@ == given(board_string@, i),
    {
        let ghost text = board_string@;
        let mut idx: usize = 0;
        let mut cells: Vec<Cell> = Vec::new();
        let mut row: u8 = 1;
        while row < 10
            invariant
                1 <= row <= 10,
                idx == (row - 1) * 9,
                cells@.len() == idx,
                text == board_string@,
                text.len() >= 81,
                forall|i: int| 0 <= i < text.len() ==> is_digit(#[trigger] text[i]),
                forall|k: int| 0 <= k < idx ==> (#[trigger] cells@[k])@ == given(text, k),
            decreases 10 - row,
        {
            let mut col: u8 = 1;
            while col < 10
                invariant
                    1 <= row <= 9,
                    1 <= col <= 10,
                    idx == (row - 1) * 9 + (col - 1),
                    cells@.len() == idx,
                    text == board_string@,
                    text.len() >= 81,
                    forall|i: int| 0 <= i < text.len() ==> is_digit(#[trigger] text[i]),
                    forall|k: int| 0 <= k < idx ==> (#[trigger] cells@[k])@ == given(text, k),
                decreases 10 - col,
            {
                let ch = board_string.as_str().get_char(idx);
                assert(is_digit(text[idx as int]));
                let value = ((ch as u32) - ('0' as u32)) as u8;
                let og = value != 0;
                let c = Cell::new(value, row, col, sqr_idx(col, row), og);
                proof {
                    assert(idx as int / 9 + 1 == row);
                    assert(idx as int % 9 + 1 == col);
                    assert(c@ == given(text, idx as int));
                }
                cells.push(c);
                idx = idx + 1;
                col = col + 1;
            }
            row = row + 1;
        }
        let b = Board { cells, idx: 0, direction: 1 };
        proof {
            assert forall|i: int| 0 <= i < 81 implies {
                &&& (#[trigger] b@.cells[i])@.row == i / 9 + 1
                &&& b@.cells[i]@.col == i % 9 + 1
                &&& b@.cells[i]@.sqr == sqr_of(i % 9 + 1, i / 9 + 1)
                &&& 0 <= b@.cells[i]@.value <= 9
                &&& b@.cells[i]@.og ==> b@.cells[i]@.value >= 1
            } by {
                assert(b@.cells[i]@ == given(text, i));
                assert(is_digit(text[i]));
            }
            assert forall|i: int, j: int|
                0 <= i < 81 && 0 <= j < 81 && i != j && sees((#[trigger] b@.cells[i])@, (#[trigger] b@.cells[j])@)
                    && b@.cells[i]@.value != 0 && b@.cells[j]@.value != 0 && !(b@.cells[i]@.og && b@.cells[j]@.og)
                    implies b@.cells[i]@.value != b@.cells[j]@.value by {
                assert(b@.cells[i]@ == given(text, i));
                assert(b@.cells[j]@ == given(text, j));
            }
        }
        b
    }

    /// One step of the solver. A given square is stepped over in the current
    /// direction. Any other square takes its next digit that no square it sees
    /// holds, and the solver moves forward; when it has none left, it is
    /// emptied and the solver moves back.
    fn next_generation(&mut self)
        requires
            old(self)@.ready(),
            old(self)@.idx <= 80,
        ensures
            final(self)@.ready(),
            same_givens(old(self)@, final(self)@),
            stepped(old(self)@, final(self)@),
    {
        let ghost start = self@;
        let mut cell = self.cells[self.idx];
        proof {
            assert(cell == start.cells[start.idx]);
        }
        if !cell.can_set() {
            let next: i32 = self.idx as i32 + self.direction;
            let idx: usize = if next < 0 {
                0
            } else {
                next as usize
            };
            let direction: i32 = if idx == 0 {
                1
            } else {
                self.direction
            };
            self.idx = idx;
            self.direction = direction;
            return;
        }
        let neighbours = self.neighbours(&cell);
        proof {
            assert forall|i: int| 0 <= i < neighbours@.len() implies (#[trigger] neighbours@[i])@.value <= 9 by {
                lemma_seen_by(start.cells, cell@, 81, 0);
                let j = choose|j: int| 0 <= j < 81 && #[trigger] seen_by(start.cells, cell@, 81)[i] == start.cells[j];
                assert(start.cells[j]@.value <= 9);
            }
        }
        let ghost c0 = cell@;
        cell.set_possibilities(&neighbours);
        let ghost c1 = cell@;
        cell.set_value();
        if cell.is_set() {
            let ghost k = nxt(9, open_digits(c1), 0);
            proof {
                assert(k != -1);
                lemma_nxt(9, open_digits(c1), 0);
                assert(c1.poss[k]);
                assert(!taken(neighbours@, k + 1));
                assert(cell@.value == k + 1);
            }
            self.cells.set(self.idx, cell);
            proof {
                let b = self@;
                let x = start.idx;
                assert forall|j: int| 0 <= j < 81 && j != x && sees(b.cells[x]@, (#[trigger] b.cells[j])@)
                    && b.cells[j]@.value != 0 implies b.cells[j]@.value != k + 1 by {
                    assert(b.cells[j] == start.cells[j]);
                    lemma_seen_by(start.cells, c0, 81, k + 1);
                    assert(sees(c0, start.cells[j]@));
                }
                assert forall|i: int, j: int|
                    0 <= i < 81 && 0 <= j < 81 && i != j && sees((#[trigger] b.cells[i])@, (#[trigger] b.cells[j])@)
                        && b.cells[i]@.value != 0 && b.cells[j]@.value != 0 && !(b.cells[i]@.og && b.cells[j]@.og)
                        implies b.cells[i]@.value != b.cells[j]@.value by {
                    if i == x {
                    } else if j == x {
                        assert(sees(b.cells[j]@, b.cells[i]@));
                    } else {
                        assert(b.cells[i] == start.cells[i] && b.cells[j] == start.cells[j]);
                    }
                }
                assert forall|i: int| 0 <= i < 81 implies #[trigger] b.cells[i]@.og == start.cells[i]@.og by {
                    if i != x {
                        assert(b.cells[i] == start.cells[i]);
                    }
                }
                assert(placed(b.cells)) by {
                    assert forall|i: int| 0 <= i < 81 implies {
                        &&& (#[trigger] b.cells[i])@.row == i / 9 + 1
                        &&& b.cells[i]@.col == i % 9 + 1
                        &&& b.cells[i]@.sqr == sqr_of(i % 9 + 1, i / 9 + 1)
                        &&& 0 <= b.cells[i]@.value <= 9
                        &&& b.cells[i]@.og ==> b.cells[i]@.value >= 1
                    } by {
                        assert(start.cells[i]@.row == i / 9 + 1);
                        if i != x {
                            assert(b.cells[i] == start.cells[i]);
                        }
                    }
                }
            }
            self.idx = self.idx + 1;
            self.direction = 1;
            proof {
                assert forall|i: int| 0 <= i < self@.idx implies (#[trigger] self@.cells[i])@.value != 0 by {
                    if i != start.idx {
                        assert(self@.cells[i] == start.cells[i]);
                    }
                }
            }
        } else {
            cell.reset();
            self.cells.set(self.idx, cell);
            let idx: usize = if self.idx == 0 {
                0
            } else {
                self.idx - 1
            };
            let direction: i32 = if idx == 0 {
                1
            } else {
                -1
            };
            self.idx = idx;
            self.direction = direction;
            proof {
                let b = self@;
                let x = start.idx;
                assert forall|i: int, j: int|
                    0 <= i < 81 && 0 <= j < 81 && i != j && sees((#[trigger] b.cells[i])@, (#[trigger] b.cells[j])@)
                        && b.cells[i]@.value != 0 && b.cells[j]@.value != 0 && !(b.cells[i]@.og && b.cells[j]@.og)
                        implies b.cells[i]@.value != b.cells[j]@.value by {
                    assert(b.cells[i] == start.cells[i] && b.cells[j] == start.cells[j]);
                }
                assert(placed(b.cells)) by {
                    assert forall|i: int| 0 <= i < 81 implies {
                        &&& (#[trigger] b.cells[i])@.row == i / 9 + 1
                        &&& b.cells[i]@.col == i % 9 + 1
                        &&& b.cells[i]@.sqr == sqr_of(i % 9 + 1, i / 9 + 1)
                        &&& 0 <= b.cells[i]@.value <= 9
                        &&& b.cells[i]@.og ==> b.cells[i]@.value >= 1
                    } by {
                        assert(start.cells[i]@.row == i / 9 + 1);
                        if i != x {
                            assert(b.cells[i] == start.cells[i]);
                        }
                    }
                }
                assert forall|i: int| 0 <= i < b.idx implies (#[trigger] b.cells[i])@.value != 0 by {
                    assert(b.cells[i] == start.cells[i]);
                }
                assert forall|i: int| 0 <= i < 81 implies #[trigger] b.cells[i]@.og == start.cells[i]@.og by {
                    if i != x {
                        assert(b.cells[i] == start.cells[i]);
                    }
                }
            }
        }
    }
}

/// Solves `board` by trying digits square by square and backing up on dead
/// ends, for at most ten million steps. Returns whether the solver got past
/// the last square; the board is then filled, and no square that was not
/// given clashes with a square it sees.
pub fn backtrack(board: &mut Board) -> (done: bool)
    requires
        old(board)@.ready(),
    ensures
        final(board)@.ready(),
        same_givens(old(board)@, final(board)@),
        done == (final(board)@.idx > 80),
        done ==> final(board)@.solved(),
        exists|trace: Seq<BoardView>| solver_run(trace, old(board)@, final(board)@),
{
    let ghost start = board@;
    let ghost mut trace: Seq<BoardView> = seq![start];
    let mut step: u64 = 0;
    while step < 10000000
        invariant
            old(board)@ == start,
            board@.ready(),
            same_givens(start, board@),
            trace.len() == step + 1,
            step <= 10000000,
            trace[0] == start,
            trace.last() == board@,
            forall|i: int|
                0 <= i < trace.len() - 1 ==> (#[trigger] trace[i]).idx <= 80 && stepped(trace[i], trace[i + 1]),
        decreases 10000000 - step,
    {
        if board.is_completed() {
            assert(solver_run(trace, start, board@));
            return true;
        }
        let ghost before = board@;
        board.next_generation();
        proof {
            let t2 = trace.push(board@);
            assert forall|i: int| 0 <= i < t2.len() - 1 implies (#[trigger] t2[i]).idx <= 80 && stepped(
                t2[i],
                t2[i + 1],
            ) by {
                if i < trace.len() - 1 {
                    assert(t2[i] == trace[i] && t2[i + 1] == trace[i + 1]);
                } else {
                    assert(t2[i] == before);
                }
            }
            trace = t2;
        }
        proof {
            assert forall|i: int| 0 <= i < 81 implies {
                &&& (#[trigger] board@.cells[i])@.og == start.cells[i]@.og
                &&& board@.cells[i]@.row == start.cells[i]@.row
                &&& board@.cells[i]@.col == start.cells[i]@.col
                &&& board@.cells[i]@.sqr == start.cells[i]@.sqr
                &&& start.cells[i]@.og ==> board@.cells[i]@.value == start.cells[i]@.value
            } by {
                assert(before.cells[i]@.og == start.cells[i]@.og);
            }
        }
        step = step + 1;
    }
    assert(solver_run(trace, start, board@));
    board.is_completed()
}

} // verus!
