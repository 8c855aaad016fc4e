//! The cell evaluator: for one empty target cell, scores the best
//! attacking and defending line through it and flags forcing threats.
//!
//! For each of the eight unit directions whose immediate neighbor is
//! occupied, that neighbor's stone fixes the friendly color of the
//! direction.  The cell is then scanned outward both ways along the
//! direction's axis; every friendly stone met is worth `STONE_POINTS`,
//! and each of the two passes that ends at the board edge or at an
//! opposing stone counts one penalty.  The direction's total is the sum
//! of the two passes divided by one plus the penalties, and the
//! direction is forcing when a single pass alone reached
//! `FORCING_SCORE`.  The cell's attack and defense are the largest
//! totals over the eight directions in each category; its forcing flag
//! is set when any direction was forcing.

use vstd::prelude::*;

use crate::FORCING_SCORE;
use crate::STONE_POINTS;
use crate::board::Board;
use crate::board::Stone;
use crate::board::on_board;
use crate::line::chain_len;
use crate::line::lemma_chain_pair_bound;
use crate::line::lemma_open_end_stop;
use crate::line::lemma_stop_not_on_reverse_ray;
use crate::line::lemma_update_at_stop_extends;
use crate::line::lemma_walk_update_off_ray;
use crate::line::open_end;
use crate::line::stop_x;
use crate::line::stop_y;
use crate::line::unit_dir;
use crate::line::walk_chain;

verus! {

/// Heuristic result for one empty cell.
#[derive(Clone, Copy, PartialEq, Eq, Structural, Debug)]
pub struct CellScore {
    pub attack: u8,
    pub defense: u8,
    pub forcing: bool,
}

impl Default for CellScore {
    /// The zero value: no candidate line at all.
    fn default() -> (r: CellScore)
        ensures
            r.attack == 0,
            r.defense == 0,
            !r.forcing,
    {
        CellScore { attack: 0, defense: 0, forcing: false }
    }
}

/// The stone on the immediate neighbor of `(x, y)` in direction
/// `(dx, dy)`, if that neighbor is on the board and occupied.  An
/// occupied neighbor makes the direction a candidate and fixes its
/// friendly color.
pub open spec fn dir_candidate(
    b: Seq<Seq<Option<Stone>>>,
    n: int,
    x: int,
    y: int,
    dx: int,
    dy: int,
) -> Option<Stone> {
    if on_board(n, x + dx, y + dy) {
        b[y + dy][x + dx]
    } else {
        None
    }
}

/// Penalty of one outward pass: one when the walk over friendly stones
/// ended at the board edge or at an opposing stone, zero when it ended
/// at an empty cell.
pub open spec fn pass_penalty(
    b: Seq<Seq<Option<Stone>>>,
    n: int,
    x: int,
    y: int,
    dx: int,
    dy: int,
    s: Stone,
) -> nat {
    if open_end(b, n, x, y, dx, dy, s) {
        0
    } else {
        1
    }
}

/// Undivided score of the direction's axis for friendly color `s`: both
/// outward passes summed, `STONE_POINTS` per friendly stone.
pub open spec fn dir_raw_score(
    b: Seq<Seq<Option<Stone>>>,
    n: int,
    x: int,
    y: int,
    dx: int,
    dy: int,
    s: Stone,
) -> nat {
    (STONE_POINTS as nat) * (chain_len(b, n, x, y, dx, dy, s) + chain_len(
        b,
        n,
        x,
        y,
        -dx,
        -dy,
        s,
    ))
}

/// Penalties of the direction's two outward passes together.
pub open spec fn dir_penalty(
    b: Seq<Seq<Option<Stone>>>,
    n: int,
    x: int,
    y: int,
    dx: int,
    dy: int,
    s: Stone,
) -> nat {
    pass_penalty(b, n, x, y, dx, dy, s) + pass_penalty(b, n, x, y, -dx, -dy, s)
}

/// The direction's final score for friendly color `s`: the raw score
/// discounted by integer division through one plus the penalties.
pub open spec fn dir_value(
    b: Seq<Seq<Option<Stone>>>,
    n: int,
    x: int,
    y: int,
    dx: int,
    dy: int,
    s: Stone,
) -> nat {
    dir_raw_score(b, n, x, y, dx, dy, s) / (1 + dir_penalty(b, n, x, y, dx, dy, s))
}

/// Whether a single outward pass of the direction reached
/// `FORCING_SCORE` on its own.
pub open spec fn dir_forcing_for(
    b: Seq<Seq<Option<Stone>>>,
    n: int,
    x: int,
    y: int,
    dx: int,
    dy: int,
    s: Stone,
) -> bool {
    (STONE_POINTS as nat) * chain_len(b, n, x, y, dx, dy, s) >= FORCING_SCORE || (
    STONE_POINTS as nat) * chain_len(b, n, x, y, -dx, -dy, s) >= FORCING_SCORE
}

/// Attack contribution of one direction: its value when the direction
/// is a candidate with an attacker neighbor, zero otherwise.
pub open spec fn dir_attack(
    b: Seq<Seq<Option<Stone>>>,
    n: int,
    x: int,
    y: int,
    dx: int,
    dy: int,
) -> nat {
    if dir_candidate(b, n, x, y, dx, dy) == Some(Stone::AttackerStone) {
        dir_value(b, n, x, y, dx, dy, Stone::AttackerStone)
    } else {
        0
    }
}

/// Defense contribution of one direction: its value when the direction
/// is a candidate with a defender neighbor, zero otherwise.
pub open spec fn dir_defense(
    b: Seq<Seq<Option<Stone>>>,
    n: int,
    x: int,
    y: int,
    dx: int,
    dy: int,
) -> nat {
    if dir_candidate(b, n, x, y, dx, dy) == Some(Stone::DefenderStone) {
        dir_value(b, n, x, y, dx, dy, Stone::DefenderStone)
    } else {
        0
    }
}

/// Whether one direction is a candidate and forcing.
pub open spec fn dir_forcing(
    b: Seq<Seq<Option<Stone>>>,
    n: int,
    x: int,
    y: int,
    dx: int,
    dy: int,
) -> bool {
    match dir_candidate(b, n, x, y, dx, dy) {
        Some(s) => dir_forcing_for(b, n, x, y, dx, dy, s),
        None => false,
    }
}

/// The larger of two naturals.
pub open spec fn max2(a: nat, b: nat) -> nat {
    if a >= b {
        a
    } else {
        b
    }
}

/// Best attack value over the eight directions around `(x, y)`.
pub open spec fn cell_attack(b: Seq<Seq<Option<Stone>>>, n: int, x: int, y: int) -> nat {
    max2(
        max2(
            max2(dir_attack(b, n, x, y, -1, -1), dir_attack(b, n, x, y, 0, -1)),
            max2(dir_attack(b, n, x, y, 1, -1), dir_attack(b, n, x, y, -1, 0)),
        ),
        max2(
            max2(dir_attack(b, n, x, y, 1, 0), dir_attack(b, n, x, y, -1, 1)),
            max2(dir_attack(b, n, x, y, 0, 1), dir_attack(b, n, x, y, 1, 1)),
        ),
    )
}

/// Best defense value over the eight directions around `(x, y)`.
pub open spec fn cell_defense(b: Seq<Seq<Option<Stone>>>, n: int, x: int, y: int) -> nat {
    max2(
        max2(
            max2(dir_defense(b, n, x, y, -1, -1), dir_defense(b, n, x, y, 0, -1)),
            max2(dir_defense(b, n, x, y, 1, -1), dir_defense(b, n, x, y, -1, 0)),
        ),
        max2(
            max2(dir_defense(b, n, x, y, 1, 0), dir_defense(b, n, x, y, -1, 1)),
            max2(dir_defense(b, n, x, y, 0, 1), dir_defense(b, n, x, y, 1, 1)),
        ),
    )
}

/// Whether any of the eight directions around `(x, y)` is forcing.
pub open spec fn cell_forcing(b: Seq<Seq<Option<Stone>>>, n: int, x: int, y: int) -> bool {
    dir_forcing(b, n, x, y, -1, -1) || dir_forcing(b, n, x, y, 0, -1) || dir_forcing(
        b,
        n,
        x,
        y,
        1,
        -1,
    ) || dir_forcing(b, n, x, y, -1, 0) || dir_forcing(b, n, x, y, 1, 0) || dir_forcing(
        b,
        n,
        x,
        y,
        -1,
        1,
    ) || dir_forcing(b, n, x, y, 0, 1) || dir_forcing(b, n, x, y, 1, 1)
}

/// What one `CellScore` must hold for the cell at `(x, y)`: the
/// evaluator's result on an empty cell, the zero value on an occupied
/// one.
pub open spec fn score_at_ok(
    c: CellScore,
    b: Seq<Seq<Option<Stone>>>,
    n: int,
    x: int,
    y: int,
) -> bool {
    if b[y][x] is None {
        c.attack == cell_attack(b, n, x, y) && c.defense == cell_defense(b, n, x, y) && c.forcing
            == cell_forcing(b, n, x, y)
    } else {
        c.attack == 0 && c.defense == 0 && !c.forcing
    }
}

/// Evaluates one direction around `(x, y)`: its attack and defense
/// contributions and whether it is forcing.
fn eval_direction(board: &Board, x: usize, y: usize, dx: i8, dy: i8) -> (r: (u8, u8, bool))
    requires
        board.wf(),
        x < board.n,
        y < board.n,
        unit_dir(dx as int, dy as int),
    ensures
        r.0 == dir_attack(board@, board.n as int, x as int, y as int, dx as int, dy as int),
        r.1 == dir_defense(board@, board.n as int, x as int, y as int, dx as int, dy as int),
        r.2 == dir_forcing(board@, board.n as int, x as int, y as int, dx as int, dy as int),
{
    let ghost b = board@;
    let ghost n_ = board.n as int;
    let n = board.n;
    let nx: i32 = x as i32 + dx as i32;
    let ny: i32 = y as i32 + dy as i32;
    if !(0 <= nx && nx < n as i32 && 0 <= ny && ny < n as i32) {
        return (0, 0, false);
    }
    let s = match board.get(nx as usize, ny as usize) {
        Some(s) => s,
        None => {
            return (0, 0, false);
        },
    };
    let (c1, blocked1) = walk_chain(board, x, y, dx, dy, s);
    let (c2, blocked2) = walk_chain(board, x, y, -dx, -dy, s);
    proof {
        lemma_chain_pair_bound(b, n_, x as int, y as int, dx as int, dy as int, s);
    }
    let raw: usize = STONE_POINTS * (c1 + c2);
    let pen: usize = (if blocked1 {
        1
    } else {
        0
    }) + (if blocked2 {
        1
    } else {
        0
    });
    let v: usize = raw / (1 + pen);
    proof {
        vstd::arithmetic::div_mod::lemma_div_nonincreasing(raw as int, 1 + pen as int);
        assert(v == dir_value(b, n_, x as int, y as int, dx as int, dy as int, s));
    }
    let forcing = STONE_POINTS * c1 >= FORCING_SCORE || STONE_POINTS * c2 >= FORCING_SCORE;
    match s {
        Stone::AttackerStone => (v as u8, 0, forcing),
        Stone::DefenderStone => (0, v as u8, forcing),
    }
}

/// The larger of two scores.
fn max_u8(a: u8, b: u8) -> (r: u8)
    ensures
        r as nat == max2(a as nat, b as nat),
{
    if a >= b {
        a
    } else {
        b
    }
}

/// Produces the `CellScore` of the empty target cell `(x, y)`.
pub fn evaluate_cell(board: &Board, x: usize, y: usize) -> (r: CellScore)
    requires
        board.wf(),
        x < board.n,
        y < board.n,
        board@[y as int][x as int] is None,
    ensures
        r.attack == cell_attack(board@, board.n as int, x as int, y as int),
        r.defense == cell_defense(board@, board.n as int, x as int, y as int),
        r.forcing == cell_forcing(board@, board.n as int, x as int, y as int),
{
    let d1 = eval_direction(board, x, y, -1, -1);
    let d2 = eval_direction(board, x, y, 0, -1);
    let d3 = eval_direction(board, x, y, 1, -1);
    let d4 = eval_direction(board, x, y, -1, 0);
    let d5 = eval_direction(board, x, y, 1, 0);
    let d6 = eval_direction(board, x, y, -1, 1);
    let d7 = eval_direction(board, x, y, 0, 1);
    let d8 = eval_direction(board, x, y, 1, 1);
    let attack = max_u8(
        max_u8(max_u8(d1.0, d2.0), max_u8(d3.0, d4.0)),
        max_u8(max_u8(d5.0, d6.0), max_u8(d7.0, d8.0)),
    );
    let defense = max_u8(
        max_u8(max_u8(d1.1, d2.1), max_u8(d3.1, d4.1)),
        max_u8(max_u8(d5.1, d6.1), max_u8(d7.1, d8.1)),
    );
    let forcing = d1.2 || d2.2 || d3.2 || d4.2 || d5.2 || d6.2 || d7.2 || d8.2;
    CellScore { attack, defense, forcing }
}

/// What a full score grid must hold: one matching `CellScore` for
/// every cell of the board.
pub open spec fn score_grid_matches(
    g: Seq<Vec<CellScore>>,
    b: Seq<Seq<Option<Stone>>>,
    n: int,
) -> bool {
    g.len() == n && (forall|y: int| 0 <= y < n ==> (#[trigger] g[y])@.len() == n) && (forall|
        x: int,
        y: int,
    |
        on_board(n, x, y) ==> score_at_ok(#[trigger] g[y]@[x], b, n, x, y))
}

/// Scores every cell of the board: the evaluator's result for empty
/// cells, the zero value for occupied ones.
pub fn score_grid(board: &Board) -> (g: Vec<Vec<CellScore>>)
    requires
        board.wf(),
    ensures
        score_grid_matches(g@, board@, board.n as int),
{
    let n = board.n;
    let mut g: Vec<Vec<CellScore>> = Vec::new();
    let mut y: usize = 0;
    while y < n
        invariant
            board.wf(),
            n == board.n,
            y <= n,
            g@.len() == y,
            forall|j: int| 0 <= j < y ==> (#[trigger] g@[j])@.len() == n,
            forall|x: int, j: int|
                0 <= x < n && 0 <= j < y ==> score_at_ok(
                    #[trigger] g@[j]@[x],
                    board@,
                    n as int,
                    x,
                    j,
                ),
        decreases n - y,
    {
        let mut row: Vec<CellScore> = Vec::new();
        let mut x: usize = 0;
        while x < n
            invariant
                board.wf(),
                n == board.n,
                y < n,
                x <= n,
                row@.len() == x,
                forall|i: int|
                    0 <= i < x ==> score_at_ok(#[trigger] row@[i], board@, n as int, i, y as int),
            decreases n - x,
        {
            let c = if board.is_empty(x, y) {
                evaluate_cell(board, x, y)
            } else {
                CellScore::default()
            };
            row.push(c);
            x += 1;
        }
        g.push(row);
        y += 1;
    }
    g
}

/// Monotonicity of an open attacking line: given a direction of
/// `(x, y)` that is already an attack candidate, placing one more
/// attacker stone on the open cell where the outward walk stops — so
/// the line grows by one without closing that end, and the extended
/// line's end is itself still open — strictly increases the
/// direction's attack value, the penalty division notwithstanding.
pub proof fn lemma_extending_open_line_gains(
    b: Seq<Seq<Option<Stone>>>,
    b2: Seq<Seq<Option<Stone>>>,
    n: int,
    x: int,
    y: int,
    dx: int,
    dy: int,
)
    requires
        unit_dir(dx, dy),
        dir_candidate(b, n, x, y, dx, dy) == Some(Stone::AttackerStone),
        on_board(
            n,
            stop_x(b, n, x, y, dx, dy, Stone::AttackerStone),
            stop_y(b, n, x, y, dx, dy, Stone::AttackerStone),
        ),
        b[stop_y(b, n, x, y, dx, dy, Stone::AttackerStone)][stop_x(
            b,
            n,
            x,
            y,
            dx,
            dy,
            Stone::AttackerStone,
        )] is None,
        b2[stop_y(b, n, x, y, dx, dy, Stone::AttackerStone)][stop_x(
            b,
            n,
            x,
            y,
            dx,
            dy,
            Stone::AttackerStone,
        )] == Some(Stone::AttackerStone),
        forall|i: int, j: int|
            on_board(n, i, j) && !(i == stop_x(b, n, x, y, dx, dy, Stone::AttackerStone) && j
                == stop_y(b, n, x, y, dx, dy, Stone::AttackerStone)) ==> b2[j][i] == #[trigger] b[j][i],
        open_end(b2, n, x, y, dx, dy, Stone::AttackerStone),
    ensures
        dir_attack(b2, n, x, y, dx, dy) > dir_attack(b, n, x, y, dx, dy),
{
    let att = Stone::AttackerStone;
    let sx = stop_x(b, n, x, y, dx, dy, att);
    let sy = stop_y(b, n, x, y, dx, dy, att);
    lemma_stop_not_on_reverse_ray(b, n, x, y, dx, dy, att);
    lemma_walk_update_off_ray(b, b2, n, x, y, -dx, -dy, att, sx, sy);
    lemma_update_at_stop_extends(b, b2, n, x, y, dx, dy, att);
    lemma_open_end_stop(b, n, x, y, dx, dy, att);
    assert(open_end(b, n, x, y, dx, dy, att));
    assert(on_board(n, x + dx, y + dy) && b[y + dy][x + dx] == Some(att));
    assert(!(x + dx == sx && y + dy == sy));
    assert(b2[y + dy][x + dx] == Some(att));
    assert(dir_candidate(b2, n, x, y, dx, dy) == Some(att));
    let p = dir_penalty(b, n, x, y, dx, dy, att);
    assert(pass_penalty(b, n, x, y, dx, dy, att) == 0);
    assert(pass_penalty(b2, n, x, y, dx, dy, att) == 0);
    assert(pass_penalty(b2, n, x, y, -dx, -dy, att) == pass_penalty(b, n, x, y, -dx, -dy, att));
    assert(dir_penalty(b2, n, x, y, dx, dy, att) == p);
    let raw = dir_raw_score(b, n, x, y, dx, dy, att);
    let raw2 = dir_raw_score(b2, n, x, y, dx, dy, att);
    assert(raw2 >= raw + STONE_POINTS);
    let den = 1 + p as int;
    assert(1 <= den <= 3);
    vstd::arithmetic::div_mod::lemma_div_plus_one(raw as int, den);
    vstd::arithmetic::div_mod::lemma_div_is_ordered(den + raw as int, raw2 as int, den);
    assert(dir_value(b2, n, x, y, dx, dy, att) > dir_value(b, n, x, y, dx, dy, att));
}

/// An empty cell with no occupied neighbor has the zero `CellScore`:
/// no direction is a candidate, so nothing scores and nothing forces.
pub proof fn lemma_isolated_cell_scores_zero(b: Seq<Seq<Option<Stone>>>, n: int, x: int, y: int)
    requires
        forall|dx: int, dy: int|
            unit_dir(dx, dy) ==> #[trigger] dir_candidate(b, n, x, y, dx, dy) is None,
    ensures
        cell_attack(b, n, x, y) == 0,
        cell_defense(b, n, x, y) == 0,
        !cell_forcing(b, n, x, y),
{
    assert(dir_candidate(b, n, x, y, -1, -1) is None);
    assert(dir_candidate(b, n, x, y, 0, -1) is None);
    assert(dir_candidate(b, n, x, y, 1, -1) is None);
    assert(dir_candidate(b, n, x, y, -1, 0) is None);
    assert(dir_candidate(b, n, x, y, 1, 0) is None);
    assert(dir_candidate(b, n, x, y, -1, 1) is None);
    assert(dir_candidate(b, n, x, y, 0, 1) is None);
    assert(dir_candidate(b, n, x, y, 1, 1) is None);
}

} // verus!
