//! The board: making an empty one, deciding whether the last stone made
//! five in a row, and whether every cell is taken.
use vstd::prelude::*;
use crate::types::{Board, SymbolXO, board_view, square};

verus! {

/// The coordinate `s` steps from `c` in direction `d` (one of -1, 0, 1).
pub open spec fn at(c: int, d: int, s: int) -> int {
    if d == 1 {
        c + s
    } else if d == -1 {
        c - s
    } else {
        c
    }
}

/// The cell `s` steps from (`x`, `y`) along (`dx`, `dy`) lies on the board
/// and holds `v`.
pub open spec fn cell_matches(
    b: Seq<Seq<i8>>,
    x: int,
    y: int,
    dx: int,
    dy: int,
    v: i8,
    s: int,
) -> bool {
    let cx = at(x, dx, s);
    let cy = at(y, dy, s);
    &&& 0 <= cx < b.len()
    &&& 0 <= cy < b.len()
    &&& b[cy][cx] == v
}

/// How many cells in a row, from step `i` on along (`dx`, `dy`), hold `v`.
pub open spec fn run_from(
    b: Seq<Seq<i8>>,
    x: int,
    y: int,
    dx: int,
    dy: int,
    v: i8,
    i: nat,
) -> nat
    decreases b.len() + 1 - i,
{
    if i > b.len() {
        0
    } else if cell_matches(b, x, y, dx, dy, v, i as int) {
        1 + run_from(b, x, y, dx, dy, v, i + 1)
    } else {
        0
    }
}

/// The length of the line of equal stones through (`x`, `y`) along (`dx`, `dy`).
pub open spec fn line_count(b: Seq<Seq<i8>>, x: int, y: int, dx: int, dy: int) -> nat {
    let v = b[y][x];
    1 + run_from(b, x, y, dx, dy, v, 1) + run_from(b, x, y, -dx, -dy, v, 1)
}

/// Five consecutive cells along (`dx`, `dy`), one of them (`x`, `y`), hold
/// the stone that (`x`, `y`) holds.
pub open spec fn five_in_row(b: Seq<Seq<i8>>, x: int, y: int, dx: int, dy: int) -> bool {
    exists|k: int| 0 <= k <= 4 && #[trigger] window_matches(b, x, y, dx, dy, k)
}

/// The five cells along (`dx`, `dy`) from `k` steps behind (`x`, `y`) to
/// `4 - k` steps ahead of it all hold the stone that (`x`, `y`) holds.
pub open spec fn window_matches(b: Seq<Seq<i8>>, x: int, y: int, dx: int, dy: int, k: int) -> bool {
    forall|j: int| 0 <= j < 5 ==> #[trigger] cell_matches(b, x, y, dx, dy, b[y][x], j - k)
}

/// The mark whose stones have the value `v` (1 is X, anything else O).
pub open spec fn mark_of(v: i8) -> SymbolXO {
    if v == 1 {
        SymbolXO::X
    } else {
        SymbolXO::O
    }
}

/// The mark that has five in a row through (`x`, `y`), horizontally,
/// vertically or along either diagonal, if the cell holds a stone.
pub open spec fn winner_at(b: Seq<Seq<i8>>, x: int, y: int) -> Option<SymbolXO> {
    if b[y][x] == 0 {
        None
    } else if five_in_row(b, x, y, 1, 0) || five_in_row(b, x, y, 0, 1) || five_in_row(
        b,
        x,
        y,
        1,
        1,
    ) || five_in_row(b, x, y, 1, -1) {
        Some(mark_of(b[y][x]))
    } else {
        None
    }
}

/// Every cell of the `size` by `size` square at the top left of the board
/// holds a stone.
pub open spec fn board_full(b: Seq<Seq<i8>>, size: int) -> bool {
    forall|y: int, x: int| 0 <= y < size && 0 <= x < size ==> #[trigger] b[y][x] != 0
}

/// The board has at least `size` rows, and each of its first `size` rows
/// has at least `size` cells.
pub open spec fn covers(b: Seq<Seq<i8>>, size: int) -> bool {
    &&& size <= b.len()
    &&& forall|y: int| 0 <= y < size ==> (#[trigger] b[y]).len() >= size
}

/// A `size` by `size` board of empty cells.
pub open spec fn empty_board(size: nat) -> Seq<Seq<i8>> {
    Seq::new(size, |i: int| Seq::new(size, |j: int| 0i8))
}

/// Makes an empty board of `size` rows of `size` cells.
pub fn new_board(size: usize) -> (board: Board)
    ensures
        board_view(board@) == empty_board(size as nat),
{
    let mut board: Board = Vec::new();
    let mut i: usize = 0;
    while i < size
        invariant
            i <= size,
            board@.len() == i,
            board_view(board@) == empty_board(size as nat).take(i as int),
        decreases size - i,
    {
        let mut row: Vec<i8> = Vec::new();
        let mut j: usize = 0;
        while j < size
            invariant
                j <= size,
                row@.len() == j,
                forall|k: int| 0 <= k < j ==> row@[k] == 0i8,
            decreases size - j,
        {
            row.push(0);
            j = j + 1;
        }
        let ghost prev = board@;
        board.push(row);
        i = i + 1;
        proof {
            assert(board@[i - 1]@ =~= empty_board(size as nat)[i - 1]);
            assert forall|k: int| 0 <= k < i - 1 implies board_view(board@)[k] == empty_board(
                size as nat,
            )[k] by {
                assert(board@[k] == prev[k]);
                assert(board_view(prev)[k] == empty_board(size as nat).take((i - 1) as int)[k]);
            }
            assert(board_view(board@) =~= empty_board(size as nat).take(i as int));
        }
    }
    assert(empty_board(size as nat).take(size as int) =~= empty_board(size as nat));
    board
}

/// The run from step `i` has at least `m` cells exactly when the cells at
/// steps `i` to `i + m - 1` all match.
proof fn lemma_run_at_least(
    b: Seq<Seq<i8>>,
    x: int,
    y: int,
    dx: int,
    dy: int,
    v: i8,
    i: nat,
    m: nat,
)
    requires
        0 <= x < b.len(),
        0 <= y < b.len(),
        -1 <= dx <= 1,
        -1 <= dy <= 1,
        dx != 0 || dy != 0,
        i >= 1,
    ensures
        (run_from(b, x, y, dx, dy, v, i) >= m) == (forall|s: int|
            i <= s < i + m ==> #[trigger] cell_matches(b, x, y, dx, dy, v, s)),
    decreases m,
{
    if m > 0 {
        lemma_run_at_least(b, x, y, dx, dy, v, i + 1, (m - 1) as nat);
        if i > b.len() {
            assert(!cell_matches(b, x, y, dx, dy, v, i as int));
        }
        if (forall|s: int| i + 1 <= s < i + 1 + (m - 1) ==> #[trigger] cell_matches(b, x, y, dx, dy, v, s))
            && cell_matches(b, x, y, dx, dy, v, i as int) {
            assert forall|s: int| i <= s < i + m implies #[trigger] cell_matches(b, x, y, dx, dy, v, s) by {
                if s != i {
                    assert(i + 1 <= s < i + 1 + (m - 1));
                }
            }
        }
        if (forall|s: int| i <= s < i + m ==> #[trigger] cell_matches(b, x, y, dx, dy, v, s)) {
            assert(cell_matches(b, x, y, dx, dy, v, i as int));
            assert forall|s: int| i + 1 <= s < i + 1 + (m - 1) implies #[trigger] cell_matches(b, x, y, dx, dy, v, s) by {
                assert(i <= s < i + m);
            }
        }
    }
}

/// Counting equal stones forward and backward from (`x`, `y`) finds at
/// least five exactly when five in a row pass through (`x`, `y`).
pub proof fn lemma_count_decides_five(b: Seq<Seq<i8>>, x: int, y: int, dx: int, dy: int)
    requires
        0 <= x < b.len(),
        0 <= y < b.len(),
        square(b),
        -1 <= dx <= 1,
        -1 <= dy <= 1,
        dx != 0 || dy != 0,
    ensures
        (line_count(b, x, y, dx, dy) >= 5) == five_in_row(b, x, y, dx, dy),
{
    let v = b[y][x];
    let r1 = run_from(b, x, y, dx, dy, v, 1);
    let r2 = run_from(b, x, y, -dx, -dy, v, 1);
    assert forall|s: int| #[trigger] cell_matches(b, x, y, dx, dy, v, -s) == cell_matches(b, x, y, -dx, -dy, v, s) by {}
    assert(cell_matches(b, x, y, dx, dy, v, 0));
    if r1 + r2 >= 4 {
        let k: int = if r2 >= 4 { 4 } else { r2 as int };
        lemma_run_at_least(b, x, y, -dx, -dy, v, 1, k as nat);
        lemma_run_at_least(b, x, y, dx, dy, v, 1, (4 - k) as nat);
        assert forall|j: int| 0 <= j < 5 implies #[trigger] cell_matches(b, x, y, dx, dy, v, j - k) by {
            let s = j - k;
            if s < 0 {
                assert(cell_matches(b, x, y, -dx, -dy, v, -s));
                assert(cell_matches(b, x, y, dx, dy, v, -(-s)) == cell_matches(b, x, y, -dx, -dy, v, -s));
            } else if s > 0 {
                assert(1 <= s < 1 + (4 - k));
            }
        }
        assert(window_matches(b, x, y, dx, dy, k));
        assert(five_in_row(b, x, y, dx, dy));
    }
    if five_in_row(b, x, y, dx, dy) {
        let k = choose|k: int| 0 <= k <= 4 && #[trigger] window_matches(b, x, y, dx, dy, k);
        assert forall|s: int| 1 <= s < 1 + k implies #[trigger] cell_matches(b, x, y, -dx, -dy, v, s) by {
            assert(cell_matches(b, x, y, dx, dy, v, (k - s) - k));
            assert(cell_matches(b, x, y, dx, dy, v, -s) == cell_matches(b, x, y, -dx, -dy, v, s));
        }
        assert forall|s: int| 1 <= s < 1 + (4 - k) implies #[trigger] cell_matches(b, x, y, dx, dy, v, s) by {
            assert(cell_matches(b, x, y, dx, dy, v, (s + k) - k));
        }
        lemma_run_at_least(b, x, y, -dx, -dy, v, 1, k as nat);
        lemma_run_at_least(b, x, y, dx, dy, v, 1, (4 - k) as nat);
    }
}

/// The first coordinate of the `k`-th direction checked: along a row,
/// along a column, along the falling and along the rising diagonal.
pub open spec fn dir_x(k: int) -> int {
    if k == 1 {
        0
    } else {
        1
    }
}

pub open spec fn dir_y(k: int) -> int {
    if k == 0 {
        0
    } else if k == 3 {
        -1
    } else {
        1
    }
}

fn direction(k: usize) -> (d: (i8, i8))
    requires
        k < 4,
    ensures
        d.0 == dir_x(k as int),
        d.1 == dir_y(k as int),
{
    if k == 0 {
        (1, 0)
    } else if k == 1 {
        (0, 1)
    } else if k == 2 {
        (1, 1)
    } else {
        (1, -1)
    }
}

/// The coordinate `s` steps from `c` in direction `d`, if it is below `n`.
fn step(c: usize, d: i8, s: usize, n: usize) -> (res: Option<usize>)
    requires
        -1 <= d <= 1,
    ensures
        match res {
            Some(v) => 0 <= at(c as int, d as int, s as int) < n && v == at(
                c as int,
                d as int,
                s as int,
            ),
            None => !(0 <= at(c as int, d as int, s as int) < n),
        },
{
    if d == 1 {
        if s < n && c < n - s {
            Some(c + s)
        } else {
            None
        }
    } else if d == -1 {
        if s <= c && c - s < n {
            Some(c - s)
        } else {
            None
        }
    } else if c < n {
        Some(c)
    } else {
        None
    }
}

/// Counts the cells holding `v` in a row after (`x`, `y`) along (`dx`, `dy`).
fn count_run(board: &Board, x: usize, y: usize, dx: i8, dy: i8, v: i8) -> (res: u32)
    requires
        square(board_view(board@)),
        x < board.len(),
        y < board.len(),
        board.len() <= i32::MAX,
        -1 <= dx <= 1,
        -1 <= dy <= 1,
        dx != 0 || dy != 0,
    ensures
        res == run_from(board_view(board@), x as int, y as int, dx as int, dy as int, v, 1),
        res <= board.len(),
{
    let ghost b = board_view(board@);
    let n = board.len();
    let mut count: u32 = 0;
    let mut i: usize = 1;
    loop
        invariant
            b == board_view(board@),
            square(b),
            n == board.len(),
            n <= i32::MAX,
            x < n,
            y < n,
            -1 <= dx <= 1,
            -1 <= dy <= 1,
            dx != 0 || dy != 0,
            1 <= i <= n + 1,
            count == i - 1,
            forall|s: int|
                1 <= s < i ==> #[trigger] cell_matches(
                    b,
                    x as int,
                    y as int,
                    dx as int,
                    dy as int,
                    v,
                    s,
                ),
        decreases n + 1 - i,
    {
        let cx = step(x, dx, i, n);
        let cy = step(y, dy, i, n);
        let matched = match (cx, cy) {
            (Some(a), Some(c)) => {
                assert(b[c as int] == board@[c as int]@);
                board[c][a] == v
            },
            _ => false,
        };
        if !matched {
            proof {
                assert(!cell_matches(b, x as int, y as int, dx as int, dy as int, v, i as int));
                lemma_run_at_least(b, x as int, y as int, dx as int, dy as int, v, 1, (i - 1) as nat);
                lemma_run_at_least(b, x as int, y as int, dx as int, dy as int, v, 1, i as nat);
            }
            return count;
        }
        assert(cell_matches(b, x as int, y as int, dx as int, dy as int, v, i as int));
        count = count + 1;
        i = i + 1;
    }
}

/// Whether the stone at (`x`, `y`) completes five in a row, and for which mark.
pub fn check_winner(board: &Board, x: usize, y: usize) -> (res: Option<SymbolXO>)
    requires
        square(board_view(board@)),
        x < board.len(),
        y < board.len(),
        board.len() <= i32::MAX,
    ensures
        res == winner_at(board_view(board@), x as int, y as int),
{
    let ghost b = board_view(board@);
    assert(b[y as int] == board@[y as int]@);
    let val = board[y][x];
    if val == 0 {
        return None;
    }
    let mut k: usize = 0;
    while k < 4
        invariant
            b == board_view(board@),
            square(b),
            x < board.len(),
            y < board.len(),
            board.len() <= i32::MAX,
            val == b[y as int][x as int],
            val != 0,
            k <= 4,
            forall|j: int| 0 <= j < k ==> !#[trigger] five_in_row(b, x as int, y as int, dir_x(j), dir_y(j)),
        decreases 4 - k,
    {
        let (dx, dy) = direction(k);
        let forward = count_run(board, x, y, dx, dy, val);
        let backward = count_run(board, x, y, -dx, -dy, val);
        proof {
            lemma_count_decides_five(b, x as int, y as int, dx as int, dy as int);
        }
        if 1 + forward + backward >= 5 {
            let mark = if val == 1 {
                SymbolXO::X
            } else {
                SymbolXO::O
            };
            assert(five_in_row(b, x as int, y as int, dir_x(k as int), dir_y(k as int)));
            proof {
                if k == 0 {
                    assert(five_in_row(b, x as int, y as int, 1, 0));
                } else if k == 1 {
                    assert(five_in_row(b, x as int, y as int, 0, 1));
                } else if k == 2 {
                    assert(five_in_row(b, x as int, y as int, 1, 1));
                } else {
                    assert(five_in_row(b, x as int, y as int, 1, -1));
                }
            }
            assert(winner_at(b, x as int, y as int) == Some(mark_of(val)));
            return Some(mark);
        }
        k = k + 1;
    }
    assert(!five_in_row(b, x as int, y as int, dir_x(0), dir_y(0)));
    assert(!five_in_row(b, x as int, y as int, dir_x(1), dir_y(1)));
    assert(!five_in_row(b, x as int, y as int, dir_x(2), dir_y(2)));
    assert(!five_in_row(b, x as int, y as int, dir_x(3), dir_y(3)));
    None
}

/// Whether every cell of the `size` by `size` square at the top left of
/// the board holds a stone.
pub fn is_board_full(board: &Board, size: usize) -> (res: bool)
    requires
        covers(board_view(board@), size as int),
    ensures
        res == board_full(board_view(board@), size as int),
{
    let ghost b = board_view(board@);
    let mut y: usize = 0;
    while y < size
        invariant
            b == board_view(board@),
            covers(b, size as int),
            y <= size,
            forall|r: int, c: int| 0 <= r < y && 0 <= c < size ==> #[trigger] b[r][c] != 0,
        decreases size - y,
    {
        assert(b[y as int] == board@[y as int]@);
        let mut x: usize = 0;
        while x < size
            invariant
                b == board_view(board@),
                covers(b, size as int),
                y < size,
                x <= size,
                b[y as int] == board@[y as int]@,
                forall|r: int, c: int| 0 <= r < y && 0 <= c < size ==> #[trigger] b[r][c] != 0,
                forall|c: int| 0 <= c < x ==> #[trigger] b[y as int][c] != 0,
            decreases size - x,
        {
            if board[y][x] == 0 {
                assert(b[y as int][x as int] == 0);
                return false;
            }
            x = x + 1;
        }
        y = y + 1;
    }
    true
}

} // verus!
