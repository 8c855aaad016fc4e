//! The move selector: scores every empty cell, then picks the cell to
//! play.  The first forcing cell in scan order wins outright; otherwise
//! the cells tied at the larger of the best attack and best defense
//! scores are collected and one of them is drawn by the tie-break.
//!
//! Cells are ranked in row-major scan order; a cell's flat index is
//! `y * n + x`.

use vstd::prelude::*;

use crate::board::Board;
use crate::board::Stone;
use crate::board::on_board;
use crate::evaluate::CellScore;
use crate::evaluate::score_at_ok;
use crate::evaluate::score_grid;
use crate::evaluate::score_grid_matches;
use crate::evaluate::cell_attack;
use crate::evaluate::cell_defense;
use crate::evaluate::cell_forcing;
use crate::evaluate::dir_candidate;
use crate::evaluate::dir_attack;
use crate::evaluate::dir_defense;
use crate::evaluate::dir_penalty;
use crate::evaluate::dir_raw_score;
use crate::evaluate::dir_value;
use crate::evaluate::max2;
use crate::line::chain_len;
use crate::line::unit_dir;
use crate::STONE_POINTS;

verus! {

/// Column of the cell with flat index `i`.
pub open spec fn flat_x(n: int, i: int) -> int {
    i % n
}

/// Row of the cell with flat index `i`.
pub open spec fn flat_y(n: int, i: int) -> int {
    i / n
}

/// Whether the cell with flat index `i` is empty.
pub open spec fn empty_at(b: Seq<Seq<Option<Stone>>>, n: int, i: int) -> bool {
    b[flat_y(n, i)][flat_x(n, i)] is None
}

/// The score the selector's scan sees for flat index `i`: the cell's
/// attack (or defense) when the cell is empty, zero when occupied.
pub open spec fn scan_score(b: Seq<Seq<Option<Stone>>>, n: int, i: int, attack: bool) -> nat {
    if !empty_at(b, n, i) {
        0
    } else if attack {
        cell_attack(b, n, flat_x(n, i), flat_y(n, i))
    } else {
        cell_defense(b, n, flat_x(n, i), flat_y(n, i))
    }
}

/// Whether the scan sees a forcing cell at flat index `i`.
pub open spec fn forcing_at(b: Seq<Seq<Option<Stone>>>, n: int, i: int) -> bool {
    empty_at(b, n, i) && cell_forcing(b, n, flat_x(n, i), flat_y(n, i))
}

/// The first forcing cell among flat indices below `k`, in scan order.
pub open spec fn first_forcing_upto(b: Seq<Seq<Option<Stone>>>, n: int, k: int) -> Option<int>
    decreases k,
{
    if k <= 0 {
        None
    } else {
        match first_forcing_upto(b, n, k - 1) {
            Some(i) => Some(i),
            None => if forcing_at(b, n, k - 1) {
                Some(k - 1)
            } else {
                None
            },
        }
    }
}

/// The first forcing cell of the whole board, in scan order.
pub open spec fn first_forcing(b: Seq<Seq<Option<Stone>>>, n: int) -> Option<int> {
    first_forcing_upto(b, n, n * n)
}

/// Largest scan score among flat indices below `k`.
pub open spec fn max_score_upto(b: Seq<Seq<Option<Stone>>>, n: int, k: int, attack: bool) -> nat
    decreases k,
{
    if k <= 0 {
        0
    } else {
        max2(max_score_upto(b, n, k - 1, attack), scan_score(b, n, k - 1, attack))
    }
}

/// Best attack score over the whole board.
pub open spec fn max_attack(b: Seq<Seq<Option<Stone>>>, n: int) -> nat {
    max_score_upto(b, n, n * n, true)
}

/// Best defense score over the whole board.
pub open spec fn max_defense(b: Seq<Seq<Option<Stone>>>, n: int) -> nat {
    max_score_upto(b, n, n * n, false)
}

/// The flat indices below `k` whose scan score equals `m`, in scan
/// order; empty when `m` is zero, since zero-scored cells never tie.
pub open spec fn tied_upto(
    b: Seq<Seq<Option<Stone>>>,
    n: int,
    k: int,
    attack: bool,
    m: nat,
) -> Seq<int>
    decreases k,
{
    if k <= 0 {
        Seq::empty()
    } else {
        let prev = tied_upto(b, n, k - 1, attack, m);
        if m > 0 && scan_score(b, n, k - 1, attack) == m {
            prev.push(k - 1)
        } else {
            prev
        }
    }
}

/// The candidate cells the selector draws from, as flat indices in
/// scan order: the first forcing cell alone if one exists, else the
/// cells tied at the best attack score when it is at least the best
/// defense score, else the cells tied at the best defense score.
pub open spec fn selection_pool(b: Seq<Seq<Option<Stone>>>, n: int) -> Seq<int> {
    match first_forcing(b, n) {
        Some(i) => seq![i],
        None => {
            let ma = max_attack(b, n);
            let md = max_defense(b, n);
            if ma >= md {
                tied_upto(b, n, n * n, true, ma)
            } else {
                tied_upto(b, n, n * n, false, md)
            }
        },
    }
}

/// The flat index the selector settles on when the tie-break draw is
/// `pick`: `pick` reduced into the pool, read off in scan order.
pub open spec fn chosen_index(b: Seq<Seq<Option<Stone>>>, n: int, pick: int) -> int {
    let pool = selection_pool(b, n);
    pool[pick % (pool.len() as int)]
}

/// Whether `(x, y)` is an empty cell with at least one occupied
/// neighbor — the cells the evaluator can score at all.
pub open spec fn candidate_cell(b: Seq<Seq<Option<Stone>>>, n: int, x: int, y: int) -> bool {
    on_board(n, x, y) && b[y][x] is None && (exists|dx: int, dy: int|
        unit_dir(dx, dy) && #[trigger] dir_candidate(b, n, x, y, dx, dy) is Some)
}

/// Whether the board has any candidate cell at all.  The selector
/// requires one: on a board without candidates every score is zero and
/// there is nothing to choose between.
pub open spec fn has_candidate_cell(b: Seq<Seq<Option<Stone>>>, n: int) -> bool {
    exists|x: int, y: int| #[trigger] candidate_cell(b, n, x, y)
}

/// A first forcing cell found below `k` lies below `k`, is forcing,
/// and nothing before it is.
proof fn lemma_first_forcing_some(b: Seq<Seq<Option<Stone>>>, n: int, k: int, i: int)
    requires
        first_forcing_upto(b, n, k) == Some(i),
    ensures
        0 <= i < k,
        forcing_at(b, n, i),
        forall|j: int| 0 <= j < i ==> !forcing_at(b, n, j),
    decreases k,
{
    if k > 0 {
        match first_forcing_upto(b, n, k - 1) {
            Some(i2) => {
                lemma_first_forcing_some(b, n, k - 1, i2);
            },
            None => {
                lemma_first_forcing_none(b, n, k - 1);
            },
        }
    }
}

/// When no forcing cell was found below `k`, none of those cells is
/// forcing.
proof fn lemma_first_forcing_none(b: Seq<Seq<Option<Stone>>>, n: int, k: int)
    requires
        first_forcing_upto(b, n, k) is None,
    ensures
        forall|j: int| 0 <= j < k ==> !forcing_at(b, n, j),
    decreases k,
{
    if k > 0 {
        lemma_first_forcing_none(b, n, k - 1);
    }
}

/// Once a first forcing cell is found, scanning further keeps it.
proof fn lemma_first_forcing_stable(b: Seq<Seq<Option<Stone>>>, n: int, k1: int, k2: int, i: int)
    requires
        first_forcing_upto(b, n, k1) == Some(i),
        k1 <= k2,
    ensures
        first_forcing_upto(b, n, k2) == Some(i),
    decreases k2 - k1,
{
    if k1 < k2 {
        lemma_first_forcing_stable(b, n, k1, k2 - 1, i);
    }
}

/// The running maximum dominates every scanned score.
proof fn lemma_max_upto_ge(b: Seq<Seq<Option<Stone>>>, n: int, k: int, attack: bool, i: int)
    requires
        0 <= i < k,
    ensures
        max_score_upto(b, n, k, attack) >= scan_score(b, n, i, attack),
    decreases k,
{
    if i < k - 1 {
        lemma_max_upto_ge(b, n, k - 1, attack, i);
    }
}

/// A positive running maximum is attained by some scanned cell.
proof fn lemma_max_upto_achieved(b: Seq<Seq<Option<Stone>>>, n: int, k: int, attack: bool)
    requires
        max_score_upto(b, n, k, attack) > 0,
    ensures
        exists|i: int|
            0 <= i < k && #[trigger] scan_score(b, n, i, attack) == max_score_upto(
                b,
                n,
                k,
                attack,
            ),
    decreases k,
{
    let m = max_score_upto(b, n, k, attack);
    if scan_score(b, n, k - 1, attack) == m {
        assert(0 <= k - 1 < k && scan_score(b, n, k - 1, attack) == m);
    } else {
        lemma_max_upto_achieved(b, n, k - 1, attack);
    }
}

/// Every collected tied cell was scanned, scored exactly `m`, and `m`
/// was positive.
proof fn lemma_tied_elements(b: Seq<Seq<Option<Stone>>>, n: int, k: int, attack: bool, m: nat)
    ensures
        forall|j: int|
            0 <= j < tied_upto(b, n, k, attack, m).len() ==> 0 <= #[trigger] tied_upto(
                b,
                n,
                k,
                attack,
                m,
            )[j] < k && scan_score(b, n, tied_upto(b, n, k, attack, m)[j], attack) == m && m > 0,
    decreases k,
{
    if k > 0 {
        lemma_tied_elements(b, n, k - 1, attack, m);
        let prev = tied_upto(b, n, k - 1, attack, m);
        let cur = tied_upto(b, n, k, attack, m);
        assert forall|j: int| 0 <= j < cur.len() implies 0 <= #[trigger] cur[j] < k && scan_score(
            b,
            n,
            cur[j],
            attack,
        ) == m && m > 0 by {
            if m > 0 && scan_score(b, n, k - 1, attack) == m {
                assert(cur == prev.push(k - 1));
                if j < prev.len() {
                    assert(cur[j] == prev[j]);
                } else {
                    assert(cur[j] == k - 1);
                }
            } else {
                assert(cur == prev);
            }
        }
    }
}

/// A scanned cell scoring a positive `m` puts at least one cell in the
/// tied list.
proof fn lemma_tied_nonempty(
    b: Seq<Seq<Option<Stone>>>,
    n: int,
    k: int,
    attack: bool,
    m: nat,
    i: int,
)
    requires
        0 <= i < k,
        scan_score(b, n, i, attack) == m,
        m > 0,
    ensures
        tied_upto(b, n, k, attack, m).len() > 0,
    decreases k,
{
    if i < k - 1 {
        lemma_tied_nonempty(b, n, k - 1, attack, m, i);
    }
}

/// No scanned cell ties a value above the running maximum.
proof fn lemma_tied_empty_above_max(
    b: Seq<Seq<Option<Stone>>>,
    n: int,
    k: int,
    attack: bool,
    m: nat,
)
    requires
        m > max_score_upto(b, n, k, attack),
    ensures
        tied_upto(b, n, k, attack, m).len() == 0,
    decreases k,
{
    if k > 0 {
        lemma_tied_empty_above_max(b, n, k - 1, attack, m);
    }
}

/// A candidate direction is worth at least one point even when both of
/// its ends are blocked: the neighbor that made it a candidate already
/// scores `STONE_POINTS`, and the division discounts by at most three.
proof fn lemma_candidate_dir_value(
    b: Seq<Seq<Option<Stone>>>,
    n: int,
    x: int,
    y: int,
    dx: int,
    dy: int,
    s: Stone,
)
    requires
        unit_dir(dx, dy),
        dir_candidate(b, n, x, y, dx, dy) == Some(s),
    ensures
        dir_value(b, n, x, y, dx, dy, s) >= 1,
{
    assert(chain_len(b, n, x, y, dx, dy, s) >= 1);
    let raw = dir_raw_score(b, n, x, y, dx, dy, s);
    let den = 1 + dir_penalty(b, n, x, y, dx, dy, s);
    assert(raw >= STONE_POINTS);
    assert(1 <= den <= 3);
    vstd::arithmetic::div_mod::lemma_div_is_ordered(STONE_POINTS as int, raw as int, den as int);
    if den == 1 {
        assert((STONE_POINTS as int) / (den as int) == 10);
    } else if den == 2 {
        assert((STONE_POINTS as int) / (den as int) == 5);
    } else {
        assert(den == 3);
        assert((STONE_POINTS as int) / (den as int) == 3);
    }
}

/// A candidate cell scores at least one point in attack or in defense.
#[verifier::rlimit(50)]
proof fn lemma_candidate_cell_positive(b: Seq<Seq<Option<Stone>>>, n: int, x: int, y: int)
    requires
        candidate_cell(b, n, x, y),
    ensures
        cell_attack(b, n, x, y) >= 1 || cell_defense(b, n, x, y) >= 1,
{
    let (dx, dy) = choose|dx: int, dy: int|
        unit_dir(dx, dy) && #[trigger] dir_candidate(b, n, x, y, dx, dy) is Some;
    let s = dir_candidate(b, n, x, y, dx, dy)->Some_0;
    lemma_candidate_dir_value(b, n, x, y, dx, dy, s);
    assert((dx == -1 && dy == -1) || (dx == 0 && dy == -1) || (dx == 1 && dy == -1) || (dx == -1
        && dy == 0) || (dx == 1 && dy == 0) || (dx == -1 && dy == 1) || (dx == 0 && dy == 1) || (dx
        == 1 && dy == 1));
    match s {
        Stone::AttackerStone => {
            assert(dir_attack(b, n, x, y, dx, dy) >= 1);
            assert(cell_attack(b, n, x, y) >= dir_attack(b, n, x, y, dx, dy));
        },
        Stone::DefenderStone => {
            assert(dir_defense(b, n, x, y, dx, dy) >= 1);
            assert(cell_defense(b, n, x, y) >= dir_defense(b, n, x, y, dx, dy));
        },
    }
}

/// On a board with a candidate cell, some scanned score is positive.
proof fn lemma_candidate_positive_max(b: Seq<Seq<Option<Stone>>>, n: int)
    requires
        1 <= n,
        has_candidate_cell(b, n),
    ensures
        max_attack(b, n) > 0 || max_defense(b, n) > 0,
{
    let (x, y) = choose|x: int, y: int| #[trigger] candidate_cell(b, n, x, y);
    lemma_candidate_cell_positive(b, n, x, y);
    let i = y * n + x;
    assert(0 <= i < n * n) by (nonlinear_arith)
        requires
            0 <= x < n,
            0 <= y < n,
            i == y * n + x,
    ;
    vstd::arithmetic::div_mod::lemma_fundamental_div_mod_converse(i, n, y, x);
    assert(flat_x(n, i) == x && flat_y(n, i) == y);
    assert(empty_at(b, n, i));
    if cell_attack(b, n, x, y) >= 1 {
        assert(scan_score(b, n, i, true) == cell_attack(b, n, x, y));
        lemma_max_upto_ge(b, n, n * n, true, i);
    } else {
        assert(scan_score(b, n, i, false) == cell_defense(b, n, x, y));
        lemma_max_upto_ge(b, n, n * n, false, i);
    }
}

/// On a board with a candidate cell the selection pool is never empty,
/// and every pool entry is an empty cell of the board.
proof fn lemma_selection_pool_valid(b: Seq<Seq<Option<Stone>>>, n: int)
    requires
        1 <= n,
        has_candidate_cell(b, n),
    ensures
        selection_pool(b, n).len() >= 1,
        forall|j: int|
            0 <= j < selection_pool(b, n).len() ==> 0 <= #[trigger] selection_pool(b, n)[j] < n * n
                && empty_at(b, n, selection_pool(b, n)[j]),
{
    let pool = selection_pool(b, n);
    match first_forcing(b, n) {
        Some(i) => {
            lemma_first_forcing_some(b, n, n * n, i);
            assert(pool =~= seq![i]);
            assert(pool[0] == i);
        },
        None => {
            lemma_candidate_positive_max(b, n);
            let ma = max_attack(b, n);
            let md = max_defense(b, n);
            let attack = ma >= md;
            let m = if attack {
                ma
            } else {
                md
            };
            assert(m > 0);
            lemma_max_upto_achieved(b, n, n * n, attack);
            let i = choose|i: int|
                0 <= i < n * n && #[trigger] scan_score(b, n, i, attack) == max_score_upto(
                    b,
                    n,
                    n * n,
                    attack,
                );
            lemma_tied_nonempty(b, n, n * n, attack, m, i);
            lemma_tied_elements(b, n, n * n, attack, m);
            assert forall|j: int| 0 <= j < pool.len() implies 0 <= #[trigger] pool[j] < n * n
                && empty_at(b, n, pool[j]) by {
                assert(scan_score(b, n, pool[j], attack) == m);
            }
        },
    }
}

/// The maxima the selector compares dominate the board: no empty cell
/// scores above them in its category.  Together with the selector's
/// own contract, the chosen cell scores at least as well as any cell.
pub proof fn lemma_maxima_dominate(b: Seq<Seq<Option<Stone>>>, n: int, x: int, y: int)
    requires
        1 <= n,
        on_board(n, x, y),
        b[y][x] is None,
    ensures
        cell_attack(b, n, x, y) <= max_attack(b, n),
        cell_defense(b, n, x, y) <= max_defense(b, n),
{
    let i = y * n + x;
    assert(0 <= i < n * n) by (nonlinear_arith)
        requires
            0 <= x < n,
            0 <= y < n,
            i == y * n + x,
    ;
    vstd::arithmetic::div_mod::lemma_fundamental_div_mod_converse(i, n, y, x);
    assert(scan_score(b, n, i, true) == cell_attack(b, n, x, y));
    assert(scan_score(b, n, i, false) == cell_defense(b, n, x, y));
    lemma_max_upto_ge(b, n, n * n, true, i);
    lemma_max_upto_ge(b, n, n * n, false, i);
}

/// Forcing precedence: when the board holds a forcing cell, the
/// selection pool is exactly the first forcing cell in scan order,
/// whatever the attack and defense maxima elsewhere say.
pub proof fn lemma_forcing_precedence(b: Seq<Seq<Option<Stone>>>, n: int, i: int)
    requires
        first_forcing(b, n) == Some(i),
    ensures
        selection_pool(b, n) == seq![i],
        forcing_at(b, n, i),
        forall|j: int| 0 <= j < i ==> !forcing_at(b, n, j),
{
    lemma_first_forcing_some(b, n, n * n, i);
    assert(selection_pool(b, n) =~= seq![i]);
}

/// When any cell of the board is forcing, the scan finds a first one.
pub proof fn lemma_forcing_cell_found(b: Seq<Seq<Option<Stone>>>, n: int, i: int)
    requires
        0 <= i < n * n,
        forcing_at(b, n, i),
    ensures
        first_forcing(b, n) is Some,
{
    if first_forcing(b, n) is None {
        lemma_first_forcing_none(b, n, n * n);
    }
}

/// Selection is a pure function of the snapshot and of the tie-break
/// draw: two selections made from the same snapshot with the same
/// draw land on the same cell.
pub proof fn lemma_selection_deterministic(
    b: Seq<Seq<Option<Stone>>>,
    n: int,
    pick: int,
    c1: (int, int),
    c2: (int, int),
)
    requires
        c1.0 == flat_x(n, chosen_index(b, n, pick)),
        c1.1 == flat_y(n, chosen_index(b, n, pick)),
        c2.0 == flat_x(n, chosen_index(b, n, pick)),
        c2.1 == flat_y(n, chosen_index(b, n, pick)),
    ensures
        c1 == c2,
{
}

/// An executable pool lists exactly the flat indices of `s`.
pub open spec fn pool_matches(v: Seq<usize>, s: Seq<int>) -> bool {
    v.len() == s.len() && (forall|j: int| 0 <= j < v.len() ==> (#[trigger] v[j]) as int == s[j])
}

/// Whether the immediate neighbor of `(x, y)` in direction `(dx, dy)`
/// is on the board and occupied.
fn neighbor_occupied(board: &Board, x: usize, y: usize, dx: i8, dy: i8) -> (r: bool)
    requires
        board.wf(),
        x < board.n,
        y < board.n,
    ensures
        r == (dir_candidate(board@, board.n as int, x as int, y as int, dx as int, dy as int)
            is Some),
{
    let n = board.n;
    let nx: i32 = x as i32 + dx as i32;
    let ny: i32 = y as i32 + dy as i32;
    if 0 <= nx && nx < n as i32 && 0 <= ny && ny < n as i32 {
        board.get(nx as usize, ny as usize).is_some()
    } else {
        false
    }
}

/// Whether the board holds at least one candidate cell: an empty cell
/// with an occupied neighbor.  The selector may only be called on a
/// board that has one.
pub fn has_candidate(board: &Board) -> (r: bool)
    requires
        board.wf(),
    ensures
        r == has_candidate_cell(board@, board.n as int),
{
    let ghost b = board@;
    let ghost n_ = board.n as int;
    let n = board.n;
    let mut y: usize = 0;
    while y < n
        invariant
            board.wf(),
            b == board@,
            n_ == board.n as int,
            n == board.n,
            y <= n,
            forall|i: int, j: int| 0 <= i < n_ && 0 <= j < y ==> !candidate_cell(b, n_, i, j),
        decreases n - y,
    {
        let mut x: usize = 0;
        while x < n
            invariant
                board.wf(),
                b == board@,
                n_ == board.n as int,
                n == board.n,
                y < n,
                x <= n,
                forall|i: int, j: int| 0 <= i < n_ && 0 <= j < y ==> !candidate_cell(b, n_, i, j),
                forall|i: int| 0 <= i < x ==> !candidate_cell(b, n_, i, y as int),
            decreases n - x,
        {
            if board.is_empty(x, y) {
                let occ = neighbor_occupied(board, x, y, -1, -1) || neighbor_occupied(
                    board,
                    x,
                    y,
                    0,
                    -1,
                ) || neighbor_occupied(board, x, y, 1, -1) || neighbor_occupied(board, x, y, -1, 0)
                    || neighbor_occupied(board, x, y, 1, 0) || neighbor_occupied(board, x, y, -1, 1)
                    || neighbor_occupied(board, x, y, 0, 1) || neighbor_occupied(board, x, y, 1, 1);
                if occ {
                    proof {
                        let xx = x as int;
                        let yy = y as int;
                        if dir_candidate(b, n_, xx, yy, -1, -1) is Some {
                            assert(unit_dir(-1, -1) && dir_candidate(b, n_, xx, yy, -1, -1)
                                is Some);
                        } else if dir_candidate(b, n_, xx, yy, 0, -1) is Some {
                            assert(unit_dir(0, -1) && dir_candidate(b, n_, xx, yy, 0, -1) is Some);
                        } else if dir_candidate(b, n_, xx, yy, 1, -1) is Some {
                            assert(unit_dir(1, -1) && dir_candidate(b, n_, xx, yy, 1, -1) is Some);
                        } else if dir_candidate(b, n_, xx, yy, -1, 0) is Some {
                            assert(unit_dir(-1, 0) && dir_candidate(b, n_, xx, yy, -1, 0) is Some);
                        } else if dir_candidate(b, n_, xx, yy, 1, 0) is Some {
                            assert(unit_dir(1, 0) && dir_candidate(b, n_, xx, yy, 1, 0) is Some);
                        } else if dir_candidate(b, n_, xx, yy, -1, 1) is Some {
                            assert(unit_dir(-1, 1) && dir_candidate(b, n_, xx, yy, -1, 1) is Some);
                        } else if dir_candidate(b, n_, xx, yy, 0, 1) is Some {
                            assert(unit_dir(0, 1) && dir_candidate(b, n_, xx, yy, 0, 1) is Some);
                        } else {
                            assert(dir_candidate(b, n_, xx, yy, 1, 1) is Some);
                            assert(unit_dir(1, 1) && dir_candidate(b, n_, xx, yy, 1, 1) is Some);
                        }
                        assert(candidate_cell(b, n_, xx, yy));
                    }
                    return true;
                }
                proof {
                    let xx = x as int;
                    let yy = y as int;
                    if candidate_cell(b, n_, xx, yy) {
                        let (dx, dy) = choose|dx: int, dy: int|
                            unit_dir(dx, dy) && #[trigger] dir_candidate(b, n_, xx, yy, dx, dy)
                                is Some;
                        assert((dx == -1 && dy == -1) || (dx == 0 && dy == -1) || (dx == 1 && dy
                            == -1) || (dx == -1 && dy == 0) || (dx == 1 && dy == 0) || (dx == -1
                            && dy == 1) || (dx == 0 && dy == 1) || (dx == 1 && dy == 1));
                        assert(false);
                    }
                }
            }
            x += 1;
        }
        y += 1;
    }
    proof {
        if has_candidate_cell(b, n_) {
            let (x0, y0) = choose|x0: int, y0: int| #[trigger] candidate_cell(b, n_, x0, y0);
            assert(!candidate_cell(b, n_, x0, y0));
            assert(false);
        }
    }
    false
}

/// Scans the scored grid in row-major order and collects the flat
/// indices the selector may draw from: the first forcing cell alone,
/// or the cells tied at the winning category's maximum.
fn collect_pool(board: &Board, grid: &Vec<Vec<CellScore>>) -> (pool: Vec<usize>)
    requires
        board.wf(),
        score_grid_matches(grid@, board@, board.n as int),
        has_candidate_cell(board@, board.n as int),
    ensures
        pool_matches(pool@, selection_pool(board@, board.n as int)),
        pool@.len() >= 1,
{
    let ghost b = board@;
    let ghost n_ = board.n as int;
    let n = board.n;
    proof {
        assert(1 <= n <= crate::MAX_SIDE);
        assert(n as int * n as int <= 26 * 26) by (nonlinear_arith)
            requires
                n as int <= 26,
                1 <= n as int,
        ;
    }
    let total = n * n;
    let mut ma: u8 = 0;
    let mut md: u8 = 0;
    let mut att_pool: Vec<usize> = Vec::new();
    let mut def_pool: Vec<usize> = Vec::new();
    let mut x: usize = 0;
    let mut y: usize = 0;
    let mut i: usize = 0;
    while i < total
        invariant
            board.wf(),
            b == board@,
            n_ == board.n as int,
            n == board.n,
            score_grid_matches(grid@, b, n_),
            total == n * n,
            total as int == n_ * n_,
            i <= total,
            x < n,
            y <= n,
            i as int == (y as int) * n_ + (x as int),
            first_forcing_upto(b, n_, i as int) is None,
            ma as nat == max_score_upto(b, n_, i as int, true),
            md as nat == max_score_upto(b, n_, i as int, false),
            pool_matches(att_pool@, tied_upto(b, n_, i as int, true, ma as nat)),
            pool_matches(def_pool@, tied_upto(b, n_, i as int, false, md as nat)),
        decreases total - i,
    {
        proof {
            assert((y as int) < n_) by (nonlinear_arith)
                requires
                    (i as int) == (y as int) * n_ + (x as int),
                    0 <= (x as int) < n_,
                    0 <= (y as int),
                    (i as int) < n_ * n_,
            ;
            vstd::arithmetic::div_mod::lemma_fundamental_div_mod_converse(
                i as int,
                n_,
                y as int,
                x as int,
            );
            assert(grid@[y as int]@.len() == n_);
        }
        let cell = grid[y][x];
        proof {
            assert(score_at_ok(cell, b, n_, x as int, y as int));
            assert(cell.attack as nat == scan_score(b, n_, i as int, true));
            assert(cell.defense as nat == scan_score(b, n_, i as int, false));
            assert(cell.forcing == forcing_at(b, n_, i as int));
        }
        if cell.forcing {
            proof {
                assert(first_forcing_upto(b, n_, i as int + 1) == Some(i as int));
                lemma_first_forcing_stable(b, n_, i as int + 1, n_ * n_, i as int);
                assert(selection_pool(b, n_) =~= seq![i as int]);
            }
            let mut p: Vec<usize> = Vec::new();
            p.push(i);
            return p;
        }
        let ghost old_att = tied_upto(b, n_, i as int, true, ma as nat);
        let ghost old_def = tied_upto(b, n_, i as int, false, md as nat);
        if cell.attack != 0 && cell.attack == ma {
            att_pool.push(i);
            proof {
                assert(tied_upto(b, n_, i as int + 1, true, ma as nat) == old_att.push(i as int));
            }
        } else if cell.attack > ma {
            proof {
                lemma_tied_empty_above_max(b, n_, i as int, true, cell.attack as nat);
            }
            att_pool = Vec::new();
            att_pool.push(i);
            ma = cell.attack;
            proof {
                assert(tied_upto(b, n_, i as int + 1, true, ma as nat) =~= Seq::<int>::empty().push(
                    i as int,
                ));
            }
        }
        if cell.defense != 0 && cell.defense == md {
            def_pool.push(i);
            proof {
                assert(tied_upto(b, n_, i as int + 1, false, md as nat) == old_def.push(i as int));
            }
        } else if cell.defense > md {
            proof {
                lemma_tied_empty_above_max(b, n_, i as int, false, cell.defense as nat);
            }
            def_pool = Vec::new();
            def_pool.push(i);
            md = cell.defense;
            proof {
                assert(tied_upto(b, n_, i as int + 1, false, md as nat)
                    =~= Seq::<int>::empty().push(i as int));
            }
        }
        i += 1;
        x += 1;
        if x == n {
            x = 0;
            y += 1;
            proof {
                assert((y as int) * n_ == (y as int - 1) * n_ + n_) by (nonlinear_arith);
            }
        }
    }
    proof {
        assert(i as int == n_ * n_);
        assert(first_forcing(b, n_) is None);
        lemma_selection_pool_valid(b, n_);
    }
    if ma >= md {
        att_pool
    } else {
        def_pool
    }
}

/// Relies on rand's `Rng::gen_range` over the range `0..n`: the drawn
/// value lies in the range.  The call panics only on an empty range,
/// which the precondition rules out.
#[verifier::external_body]
fn random_below(n: usize) -> (r: usize)
    requires
        1 <= n,
    ensures
        r < n,
{
    rand::Rng::gen_range(&mut rand::thread_rng(), 0..n)
}

/// Reads the chosen cell's coordinates out of the pool entry `idx`.
fn split_index(board: &Board, idx: usize) -> (r: (usize, usize))
    requires
        board.wf(),
        (idx as int) < (board.n as int) * (board.n as int),
    ensures
        r.0 as int == flat_x(board.n as int, idx as int),
        r.1 as int == flat_y(board.n as int, idx as int),
        r.0 < board.n,
        r.1 < board.n,
{
    let ghost n_ = board.n as int;
    proof {
        vstd::arithmetic::div_mod::lemma_div_is_ordered(idx as int, n_ * n_ - 1, n_);
        assert(n_ * n_ - 1 == (n_ - 1) * n_ + (n_ - 1)) by (nonlinear_arith);
        vstd::arithmetic::div_mod::lemma_fundamental_div_mod_converse(
            n_ * n_ - 1,
            n_,
            n_ - 1,
            n_ - 1,
        );
    }
    let x = idx % board.n;
    let y = idx / board.n;
    (x, y)
}

/// Scores the whole board and picks the move, with the tie-break draw
/// `pick` supplied by the caller: the same snapshot and the same draw
/// always select the same cell.  Returns the chosen coordinates and
/// the full per-cell score grid.
pub fn evaluate_and_choose_with(board: &Board, pick: usize) -> (r: ((usize, usize), Vec<
    Vec<CellScore>,
>))
    requires
        board.wf(),
        has_candidate_cell(board@, board.n as int),
    ensures
        score_grid_matches(r.1@, board@, board.n as int),
        r.0.0 as int == flat_x(board.n as int, chosen_index(board@, board.n as int, pick as int)),
        r.0.1 as int == flat_y(board.n as int, chosen_index(board@, board.n as int, pick as int)),
        r.0.0 < board.n,
        r.0.1 < board.n,
        board@[r.0.1 as int][r.0.0 as int] is None,
        first_forcing(board@, board.n as int) is None && max_attack(board@, board.n as int)
            >= max_defense(board@, board.n as int) ==> cell_attack(
            board@,
            board.n as int,
            r.0.0 as int,
            r.0.1 as int,
        ) == max_attack(board@, board.n as int),
        first_forcing(board@, board.n as int) is None && max_attack(board@, board.n as int)
            < max_defense(board@, board.n as int) ==> cell_defense(
            board@,
            board.n as int,
            r.0.0 as int,
            r.0.1 as int,
        ) == max_defense(board@, board.n as int),
{
    let ghost b = board@;
    let ghost n_ = board.n as int;
    let grid = score_grid(board);
    let pool = collect_pool(board, &grid);
    proof {
        lemma_selection_pool_valid(b, n_);
    }
    let j = pick % pool.len();
    let idx = pool[j];
    proof {
        assert(idx as int == chosen_index(b, n_, pick as int));
        assert(empty_at(b, n_, idx as int));
        if first_forcing(b, n_) is None {
            let attack = max_attack(b, n_) >= max_defense(b, n_);
            let m = if attack {
                max_attack(b, n_)
            } else {
                max_defense(b, n_)
            };
            lemma_tied_elements(b, n_, n_ * n_, attack, m);
            assert(scan_score(b, n_, idx as int, attack) == m);
        }
    }
    let (x, y) = split_index(board, idx);
    ((x, y), grid)
}

/// Scores the whole board and picks the move, drawing the tie-break
/// from the process's random source.  The chosen cell is always one of
/// the selection pool: the first forcing cell when one exists, else a
/// cell tied at the winning category's maximum; it is always an empty
/// cell of the snapshot.
pub fn evaluate_and_choose(board: &Board) -> (r: ((usize, usize), Vec<Vec<CellScore>>))
    requires
        board.wf(),
        has_candidate_cell(board@, board.n as int),
    ensures
        score_grid_matches(r.1@, board@, board.n as int),
        exists|j: int|
            0 <= j < selection_pool(board@, board.n as int).len() && r.0.0 as int == flat_x(
                board.n as int,
                #[trigger] selection_pool(board@, board.n as int)[j],
            ) && r.0.1 as int == flat_y(board.n as int, selection_pool(board@, board.n as int)[j]),
        r.0.0 < board.n,
        r.0.1 < board.n,
        board@[r.0.1 as int][r.0.0 as int] is None,
        first_forcing(board@, board.n as int) matches Some(i) ==> r.0.0 as int == flat_x(
            board.n as int,
            i,
        ) && r.0.1 as int == flat_y(board.n as int, i),
        first_forcing(board@, board.n as int) is None && max_attack(board@, board.n as int)
            >= max_defense(board@, board.n as int) ==> cell_attack(
            board@,
            board.n as int,
            r.0.0 as int,
            r.0.1 as int,
        ) == max_attack(board@, board.n as int),
        first_forcing(board@, board.n as int) is None && max_attack(board@, board.n as int)
            < max_defense(board@, board.n as int) ==> cell_defense(
            board@,
            board.n as int,
            r.0.0 as int,
            r.0.1 as int,
        ) == max_defense(board@, board.n as int),
{
    let ghost b = board@;
    let ghost n_ = board.n as int;
    let grid = score_grid(board);
    let pool = collect_pool(board, &grid);
    proof {
        lemma_selection_pool_valid(b, n_);
    }
    let j = random_below(pool.len());
    let idx = pool[j];
    proof {
        assert(idx as int == selection_pool(b, n_)[j as int]);
        assert(empty_at(b, n_, idx as int));
        if first_forcing(b, n_) is Some {
            lemma_forcing_precedence(b, n_, first_forcing(b, n_)->Some_0);
        } else {
            let attack = max_attack(b, n_) >= max_defense(b, n_);
            let m = if attack {
                max_attack(b, n_)
            } else {
                max_defense(b, n_)
            };
            lemma_tied_elements(b, n_, n_ * n_, attack, m);
            assert(scan_score(b, n_, idx as int, attack) == m);
        }
    }
    let (x, y) = split_index(board, idx);
    ((x, y), grid)
}

} // verus!
