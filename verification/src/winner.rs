//! The win detector: scans the board for a run of `WIN_RUN` consecutive
//! same-owner stones along any of the eight unit directions.

use vstd::prelude::*;

use crate::WIN_RUN;
use crate::board::Board;
use crate::board::Stone;
use crate::board::on_board;
use crate::line::chain_len;
use crate::line::unit_dir;
use crate::line::walk_chain;

verus! {

/// Outcome of a game, recomputed from the board after each placement.
#[derive(Clone, Copy, PartialEq, Eq, Structural, Debug)]
pub enum GameOutcome {
    InProgress,
    AttackerWon,
    DefenderWon,
}

/// Whether the stone at `(x, y)` starts a winning run of `s` stones in
/// direction `(dx, dy)`: the cell holds `s`, and at least `WIN_RUN - 1`
/// further `s` stones follow it in that direction.
pub open spec fn winning_run(
    b: Seq<Seq<Option<Stone>>>,
    n: int,
    x: int,
    y: int,
    dx: int,
    dy: int,
    s: Stone,
) -> bool {
    unit_dir(dx, dy) && on_board(n, x, y) && b[y][x] == Some(s) && chain_len(
        b,
        n,
        x,
        y,
        dx,
        dy,
        s,
    ) + 1 >= WIN_RUN
}

/// Whether `s` has `WIN_RUN` consecutive stones in a line anywhere on
/// the board.
pub open spec fn has_winning_run(b: Seq<Seq<Option<Stone>>>, n: int, s: Stone) -> bool {
    exists|x: int, y: int, dx: int, dy: int| winning_run(b, n, x, y, dx, dy, s)
}

/// No winning run of either stone starts at `(x, y)`.
pub open spec fn no_run_at(b: Seq<Seq<Option<Stone>>>, n: int, x: int, y: int) -> bool {
    forall|dx: int, dy: int, s: Stone| !winning_run(b, n, x, y, dx, dy, s)
}

/// Walking back from every stone of a chain reaches at least as far as
/// the walk came, plus whatever already lay behind the starting cell.
proof fn lemma_chain_reverse_accumulate(
    b: Seq<Seq<Option<Stone>>>,
    n: int,
    x: int,
    y: int,
    dx: int,
    dy: int,
    s: Stone,
    m: nat,
)
    requires
        unit_dir(dx, dy),
        on_board(n, x, y),
        b[y][x] == Some(s),
        chain_len(b, n, x, y, -dx, -dy, s) >= m,
    ensures
        exists|ex: int, ey: int|
            on_board(n, ex, ey) && b[ey][ex] == Some(s) && #[trigger] chain_len(
                b,
                n,
                ex,
                ey,
                -dx,
                -dy,
                s,
            ) >= m + chain_len(b, n, x, y, dx, dy, s),
    decreases chain_len(b, n, x, y, dx, dy, s),
{
    let c = chain_len(b, n, x, y, dx, dy, s);
    if c == 0 {
        assert(on_board(n, x, y) && b[y][x] == Some(s) && chain_len(b, n, x, y, -dx, -dy, s) >= m
            + chain_len(b, n, x, y, dx, dy, s));
    } else {
        let nx = x + dx;
        let ny = y + dy;
        assert(chain_len(b, n, nx, ny, -dx, -dy, s) == 1 + chain_len(b, n, x, y, -dx, -dy, s));
        lemma_chain_reverse_accumulate(b, n, nx, ny, dx, dy, s, m + 1);
    }
}

/// A winning run is visible from either of its ends: if one is found
/// walking in direction `(dx, dy)`, its far end starts a winning run
/// walking back in `(-dx, -dy)`.
pub proof fn lemma_winning_run_either_end(
    b: Seq<Seq<Option<Stone>>>,
    n: int,
    x: int,
    y: int,
    dx: int,
    dy: int,
    s: Stone,
)
    requires
        winning_run(b, n, x, y, dx, dy, s),
    ensures
        exists|ex: int, ey: int| #[trigger] winning_run(b, n, ex, ey, -dx, -dy, s),
{
    lemma_chain_reverse_accumulate(b, n, x, y, dx, dy, s, 0);
    let (ex, ey) = choose|ex: int, ey: int|
        on_board(n, ex, ey) && b[ey][ex] == Some(s) && chain_len(b, n, ex, ey, -dx, -dy, s) >= 0
            + chain_len(b, n, x, y, dx, dy, s);
    assert(winning_run(b, n, ex, ey, -dx, -dy, s));
}

/// Whether some winning run starts at `(x, y)`, and for which player.
fn run_from_cell(board: &Board, x: usize, y: usize) -> (r: Option<Stone>)
    requires
        board.wf(),
        x < board.n,
        y < board.n,
    ensures
        match r {
            Some(s) => exists|dx: int, dy: int|
                winning_run(board@, board.n as int, x as int, y as int, dx, dy, s),
            None => no_run_at(board@, board.n as int, x as int, y as int),
        },
{
    let ghost b = board@;
    let ghost n = board.n as int;
    let s = match board.get(x, y) {
        Some(s) => s,
        None => {
            return None;
        },
    };
    let c1 = walk_chain(board, x, y, -1, -1, s).0;
    if c1 >= WIN_RUN - 1 {
        proof {
            assert(winning_run(b, n, x as int, y as int, -1, -1, s));
        }
        return Some(s);
    }
    let c2 = walk_chain(board, x, y, 0, -1, s).0;
    if c2 >= WIN_RUN - 1 {
        proof {
            assert(winning_run(b, n, x as int, y as int, 0, -1, s));
        }
        return Some(s);
    }
    let c3 = walk_chain(board, x, y, 1, -1, s).0;
    if c3 >= WIN_RUN - 1 {
        proof {
            assert(winning_run(b, n, x as int, y as int, 1, -1, s));
        }
        return Some(s);
    }
    let c4 = walk_chain(board, x, y, -1, 0, s).0;
    if c4 >= WIN_RUN - 1 {
        proof {
            assert(winning_run(b, n, x as int, y as int, -1, 0, s));
        }
        return Some(s);
    }
    let c5 = walk_chain(board, x, y, 1, 0, s).0;
    if c5 >= WIN_RUN - 1 {
        proof {
            assert(winning_run(b, n, x as int, y as int, 1, 0, s));
        }
        return Some(s);
    }
    let c6 = walk_chain(board, x, y, -1, 1, s).0;
    if c6 >= WIN_RUN - 1 {
        proof {
            assert(winning_run(b, n, x as int, y as int, -1, 1, s));
        }
        return Some(s);
    }
    let c7 = walk_chain(board, x, y, 0, 1, s).0;
    if c7 >= WIN_RUN - 1 {
        proof {
            assert(winning_run(b, n, x as int, y as int, 0, 1, s));
        }
        return Some(s);
    }
    let c8 = walk_chain(board, x, y, 1, 1, s).0;
    if c8 >= WIN_RUN - 1 {
        proof {
            assert(winning_run(b, n, x as int, y as int, 1, 1, s));
        }
        return Some(s);
    }
    proof {
        assert forall|dx: int, dy: int, t: Stone|
            !winning_run(b, n, x as int, y as int, dx, dy, t) by {
            if winning_run(b, n, x as int, y as int, dx, dy, t) {
                assert(t == s);
                assert((dx == -1 && dy == -1) || (dx == 0 && dy == -1) || (dx == 1 && dy == -1)
                    || (dx == -1 && dy == 0) || (dx == 1 && dy == 0) || (dx == -1 && dy == 1) || (dx
                    == 0 && dy == 1) || (dx == 1 && dy == 1));
                assert(false);
            }
        }
    }
    None
}

/// Scans the whole board and reports whether either player has a
/// winning run.  When exactly one player has one, that player is the
/// winner; `InProgress` is returned exactly when neither has one.  A
/// board on which both players hold a winning run reports one of the
/// two winners, with no promise which.
pub fn check_winner(board: &Board) -> (r: GameOutcome)
    requires
        board.wf(),
    ensures
        r == GameOutcome::AttackerWon ==> has_winning_run(
            board@,
            board.n as int,
            Stone::AttackerStone,
        ),
        r == GameOutcome::DefenderWon ==> has_winning_run(
            board@,
            board.n as int,
            Stone::DefenderStone,
        ),
        (r == GameOutcome::InProgress) <==> (!has_winning_run(
            board@,
            board.n as int,
            Stone::AttackerStone,
        ) && !has_winning_run(board@, board.n as int, Stone::DefenderStone)),
{
    let ghost b = board@;
    let ghost n_ = board.n as int;
    let n = board.n;
    let mut y: usize = 0;
    while y < n
        invariant
            board.wf(),
            n == board.n,
            b == board@,
            n_ == board.n as int,
            y <= n,
            forall|i: int, j: int| 0 <= i < n_ && 0 <= j < y ==> #[trigger] no_run_at(b, n_, i, j),
        decreases n - y,
    {
        let mut x: usize = 0;
        while x < n
            invariant
                board.wf(),
                n == board.n,
                b == board@,
                n_ == board.n as int,
                y < n,
                x <= n,
                forall|i: int, j: int|
                    0 <= i < n_ && 0 <= j < y ==> #[trigger] no_run_at(b, n_, i, j),
                forall|i: int| 0 <= i < x ==> #[trigger] no_run_at(b, n_, i, y as int),
            decreases n - x,
        {
            match run_from_cell(board, x, y) {
                Some(s) => {
                    proof {
                        let (dx, dy) = choose|dx: int, dy: int|
                            winning_run(b, n_, x as int, y as int, dx, dy, s);
                        assert(winning_run(b, n_, x as int, y as int, dx, dy, s));
                    }
                    return match s {
                        Stone::AttackerStone => GameOutcome::AttackerWon,
                        Stone::DefenderStone => GameOutcome::DefenderWon,
                    };
                },
                None => {},
            }
            x += 1;
        }
        y += 1;
    }
    proof {
        if has_winning_run(b, n_, Stone::AttackerStone) {
            let (x0, y0, dx0, dy0) = choose|x0: int, y0: int, dx0: int, dy0: int|
                winning_run(b, n_, x0, y0, dx0, dy0, Stone::AttackerStone);
            assert(no_run_at(b, n_, x0, y0));
            assert(false);
        }
        if has_winning_run(b, n_, Stone::DefenderStone) {
            let (x0, y0, dx0, dy0) = choose|x0: int, y0: int, dx0: int, dy0: int|
                winning_run(b, n_, x0, y0, dx0, dy0, Stone::DefenderStone);
            assert(no_run_at(b, n_, x0, y0));
            assert(false);
        }
    }
    GameOutcome::InProgress
}

} // verus!
