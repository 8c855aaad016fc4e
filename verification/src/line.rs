//! Runs of stones along a line: the walk that both the win detector and
//! the cell evaluator make from a cell outward in one of the eight unit
//! directions, counting consecutive same-owner stones.

use vstd::prelude::*;

use crate::board::Board;
use crate::board::Stone;
use crate::board::on_board;

verus! {

/// Whether `(dx, dy)` is one of the eight unit directions.
pub open spec fn unit_dir(dx: int, dy: int) -> bool {
    -1 <= dx <= 1 && -1 <= dy <= 1 && !(dx == 0 && dy == 0)
}

/// How many steps a walk from `(x, y)` in direction `(dx, dy)` can make
/// before it must have left the board; drives termination of the
/// recursive walk specifications.
pub open spec fn ray_fuel(n: int, x: int, y: int, dx: int, dy: int) -> int {
    if dx > 0 {
        n - x
    } else if dx < 0 {
        x + 1
    } else if dy > 0 {
        n - y
    } else if dy < 0 {
        y + 1
    } else {
        0
    }
}

/// Number of consecutive cells holding `s` met when stepping from
/// `(x, y)` by `(dx, dy)`, the stepped-to cells starting at distance 1;
/// the count stops at the first cell that is off the board, empty, or
/// holds the other stone.
pub open spec fn chain_len(
    b: Seq<Seq<Option<Stone>>>,
    n: int,
    x: int,
    y: int,
    dx: int,
    dy: int,
    s: Stone,
) -> nat
    decreases ray_fuel(n, x, y, dx, dy),
{
    if !unit_dir(dx, dy) {
        0
    } else if !on_board(n, x + dx, y + dy) {
        0
    } else if b[y + dy][x + dx] == Some(s) {
        1 + chain_len(b, n, x + dx, y + dy, dx, dy, s)
    } else {
        0
    }
}

/// Whether the walk from `(x, y)` by `(dx, dy)` over consecutive `s`
/// stones ends at an empty cell (an open end), rather than at the board
/// edge or at a stone of the other player (a blocked end).
pub open spec fn open_end(
    b: Seq<Seq<Option<Stone>>>,
    n: int,
    x: int,
    y: int,
    dx: int,
    dy: int,
    s: Stone,
) -> bool
    decreases ray_fuel(n, x, y, dx, dy),
{
    if !unit_dir(dx, dy) {
        false
    } else if !on_board(n, x + dx, y + dy) {
        false
    } else if b[y + dy][x + dx] == Some(s) {
        open_end(b, n, x + dx, y + dy, dx, dy, s)
    } else {
        b[y + dy][x + dx] is None
    }
}

/// A chain can reach at most to the board edge.
pub proof fn lemma_chain_len_bound(
    b: Seq<Seq<Option<Stone>>>,
    n: int,
    x: int,
    y: int,
    dx: int,
    dy: int,
    s: Stone,
)
    requires
        on_board(n, x, y),
        unit_dir(dx, dy),
    ensures
        dx == 1 ==> chain_len(b, n, x, y, dx, dy, s) <= n - 1 - x,
        dx == -1 ==> chain_len(b, n, x, y, dx, dy, s) <= x,
        dy == 1 ==> chain_len(b, n, x, y, dx, dy, s) <= n - 1 - y,
        dy == -1 ==> chain_len(b, n, x, y, dx, dy, s) <= y,
        chain_len(b, n, x, y, dx, dy, s) <= n - 1,
    decreases ray_fuel(n, x, y, dx, dy),
{
    if on_board(n, x + dx, y + dy) && b[y + dy][x + dx] == Some(s) {
        lemma_chain_len_bound(b, n, x + dx, y + dy, dx, dy, s);
    }
}

/// The two opposite walks from one cell cover, between them, at most
/// the rest of the line through that cell.
pub proof fn lemma_chain_pair_bound(
    b: Seq<Seq<Option<Stone>>>,
    n: int,
    x: int,
    y: int,
    dx: int,
    dy: int,
    s: Stone,
)
    requires
        on_board(n, x, y),
        unit_dir(dx, dy),
    ensures
        chain_len(b, n, x, y, dx, dy, s) + chain_len(b, n, x, y, -dx, -dy, s) <= n - 1,
{
    lemma_chain_len_bound(b, n, x, y, dx, dy, s);
    lemma_chain_len_bound(b, n, x, y, -dx, -dy, s);
}

/// Column of the cell where the walk from `(x, y)` by `(dx, dy)` over
/// consecutive `s` stones stops: the first stepped-to cell that is off
/// the board, empty, or holds the other stone.
pub open spec fn stop_x(
    b: Seq<Seq<Option<Stone>>>,
    n: int,
    x: int,
    y: int,
    dx: int,
    dy: int,
    s: Stone,
) -> int
    decreases ray_fuel(n, x, y, dx, dy),
{
    if !unit_dir(dx, dy) {
        x
    } else if !on_board(n, x + dx, y + dy) {
        x + dx
    } else if b[y + dy][x + dx] == Some(s) {
        stop_x(b, n, x + dx, y + dy, dx, dy, s)
    } else {
        x + dx
    }
}

/// Row of the cell where the walk from `(x, y)` by `(dx, dy)` over
/// consecutive `s` stones stops.
pub open spec fn stop_y(
    b: Seq<Seq<Option<Stone>>>,
    n: int,
    x: int,
    y: int,
    dx: int,
    dy: int,
    s: Stone,
) -> int
    decreases ray_fuel(n, x, y, dx, dy),
{
    if !unit_dir(dx, dy) {
        y
    } else if !on_board(n, x + dx, y + dy) {
        y + dy
    } else if b[y + dy][x + dx] == Some(s) {
        stop_y(b, n, x + dx, y + dy, dx, dy, s)
    } else {
        y + dy
    }
}

/// Whether `(qx, qy)` is one of the cells a walk from `(x, y)` by
/// `(dx, dy)` can step onto while staying on the board.
pub open spec fn on_ray(n: int, x: int, y: int, dx: int, dy: int, qx: int, qy: int) -> bool
    decreases ray_fuel(n, x, y, dx, dy),
{
    if !unit_dir(dx, dy) {
        false
    } else if !on_board(n, x + dx, y + dy) {
        false
    } else if x + dx == qx && y + dy == qy {
        true
    } else {
        on_ray(n, x + dx, y + dy, dx, dy, qx, qy)
    }
}

/// Every cell of a ray lies strictly beyond the ray's origin along
/// each moving axis, and level with it along a still axis.
proof fn lemma_on_ray_sign(n: int, x: int, y: int, dx: int, dy: int, qx: int, qy: int)
    requires
        on_ray(n, x, y, dx, dy, qx, qy),
    ensures
        dx == 1 ==> qx > x,
        dx == -1 ==> qx < x,
        dx == 0 ==> qx == x,
        dy == 1 ==> qy > y,
        dy == -1 ==> qy < y,
        dy == 0 ==> qy == y,
    decreases ray_fuel(n, x, y, dx, dy),
{
    if !(x + dx == qx && y + dy == qy) {
        lemma_on_ray_sign(n, x + dx, y + dy, dx, dy, qx, qy);
    }
}

/// The stop cell of a walk lies strictly beyond the walk's origin
/// along each moving axis, and level with it along a still axis.
proof fn lemma_stop_sign(b: Seq<Seq<Option<Stone>>>, n: int, x: int, y: int, dx: int, dy: int, s: Stone)
    requires
        unit_dir(dx, dy),
    ensures
        dx == 1 ==> stop_x(b, n, x, y, dx, dy, s) > x,
        dx == -1 ==> stop_x(b, n, x, y, dx, dy, s) < x,
        dx == 0 ==> stop_x(b, n, x, y, dx, dy, s) == x,
        dy == 1 ==> stop_y(b, n, x, y, dx, dy, s) > y,
        dy == -1 ==> stop_y(b, n, x, y, dx, dy, s) < y,
        dy == 0 ==> stop_y(b, n, x, y, dx, dy, s) == y,
    decreases ray_fuel(n, x, y, dx, dy),
{
    if on_board(n, x + dx, y + dy) && b[y + dy][x + dx] == Some(s) {
        lemma_stop_sign(b, n, x + dx, y + dy, dx, dy, s);
    }
}

/// The stop cell of a walk never lies on the opposite walk's ray.
pub proof fn lemma_stop_not_on_reverse_ray(
    b: Seq<Seq<Option<Stone>>>,
    n: int,
    x: int,
    y: int,
    dx: int,
    dy: int,
    s: Stone,
)
    requires
        unit_dir(dx, dy),
    ensures
        !on_ray(n, x, y, -dx, -dy, stop_x(b, n, x, y, dx, dy, s), stop_y(b, n, x, y, dx, dy, s)),
{
    let sx = stop_x(b, n, x, y, dx, dy, s);
    let sy = stop_y(b, n, x, y, dx, dy, s);
    if on_ray(n, x, y, -dx, -dy, sx, sy) {
        lemma_on_ray_sign(n, x, y, -dx, -dy, sx, sy);
        lemma_stop_sign(b, n, x, y, dx, dy, s);
        assert(false);
    }
}

/// A walk is unchanged by rewriting one board cell its ray never
/// steps onto.
pub proof fn lemma_walk_update_off_ray(
    b: Seq<Seq<Option<Stone>>>,
    b2: Seq<Seq<Option<Stone>>>,
    n: int,
    x: int,
    y: int,
    dx: int,
    dy: int,
    s: Stone,
    qx: int,
    qy: int,
)
    requires
        forall|i: int, j: int|
            on_board(n, i, j) && !(i == qx && j == qy) ==> b2[j][i] == #[trigger] b[j][i],
        !on_ray(n, x, y, dx, dy, qx, qy),
    ensures
        chain_len(b2, n, x, y, dx, dy, s) == chain_len(b, n, x, y, dx, dy, s),
        open_end(b2, n, x, y, dx, dy, s) == open_end(b, n, x, y, dx, dy, s),
    decreases ray_fuel(n, x, y, dx, dy),
{
    if unit_dir(dx, dy) && on_board(n, x + dx, y + dy) {
        assert(!(x + dx == qx && y + dy == qy));
        assert(b2[y + dy][x + dx] == b[y + dy][x + dx]);
        if b[y + dy][x + dx] == Some(s) {
            lemma_walk_update_off_ray(b, b2, n, x + dx, y + dy, dx, dy, s, qx, qy);
        }
    }
}

/// A walk's end is open exactly when its stop cell is an empty cell of
/// the board.
pub proof fn lemma_open_end_stop(
    b: Seq<Seq<Option<Stone>>>,
    n: int,
    x: int,
    y: int,
    dx: int,
    dy: int,
    s: Stone,
)
    requires
        unit_dir(dx, dy),
    ensures
        open_end(b, n, x, y, dx, dy, s) == (on_board(
            n,
            stop_x(b, n, x, y, dx, dy, s),
            stop_y(b, n, x, y, dx, dy, s),
        ) && b[stop_y(b, n, x, y, dx, dy, s)][stop_x(b, n, x, y, dx, dy, s)] is None),
    decreases ray_fuel(n, x, y, dx, dy),
{
    if on_board(n, x + dx, y + dy) && b[y + dy][x + dx] == Some(s) {
        lemma_open_end_stop(b, n, x + dx, y + dy, dx, dy, s);
    }
}

/// Placing an `s` stone on the walk's open stop cell lengthens the
/// walk's chain by at least that one stone.
pub proof fn lemma_update_at_stop_extends(
    b: Seq<Seq<Option<Stone>>>,
    b2: Seq<Seq<Option<Stone>>>,
    n: int,
    x: int,
    y: int,
    dx: int,
    dy: int,
    s: Stone,
)
    requires
        unit_dir(dx, dy),
        on_board(n, stop_x(b, n, x, y, dx, dy, s), stop_y(b, n, x, y, dx, dy, s)),
        b[stop_y(b, n, x, y, dx, dy, s)][stop_x(b, n, x, y, dx, dy, s)] is None,
        b2[stop_y(b, n, x, y, dx, dy, s)][stop_x(b, n, x, y, dx, dy, s)] == Some(s),
        forall|i: int, j: int|
            on_board(n, i, j) && !(i == stop_x(b, n, x, y, dx, dy, s) && j == stop_y(
                b,
                n,
                x,
                y,
                dx,
                dy,
                s,
            )) ==> b2[j][i] == #[trigger] b[j][i],
    ensures
        chain_len(b2, n, x, y, dx, dy, s) >= chain_len(b, n, x, y, dx, dy, s) + 1,
    decreases ray_fuel(n, x, y, dx, dy),
{
    let sx = stop_x(b, n, x, y, dx, dy, s);
    let sy = stop_y(b, n, x, y, dx, dy, s);
    assert(on_board(n, x + dx, y + dy));
    if b[y + dy][x + dx] == Some(s) {
        assert(!(x + dx == sx && y + dy == sy));
        assert(b2[y + dy][x + dx] == Some(s));
        lemma_update_at_stop_extends(b, b2, n, x + dx, y + dy, dx, dy, s);
    } else {
        assert(sx == x + dx && sy == y + dy);
        assert(b2[y + dy][x + dx] == Some(s));
        assert(chain_len(b, n, x, y, dx, dy, s) == 0);
        assert(chain_len(b2, n, x, y, dx, dy, s) >= 1);
    }
}

/// Walks from `(x, y)` by `(dx, dy)` over consecutive `s` stones.
/// Returns how many it met, and whether the walk ended at the board
/// edge or an opposing stone rather than at an empty cell.
pub fn walk_chain(board: &Board, x: usize, y: usize, dx: i8, dy: i8, s: Stone) -> (r: (
    usize,
    bool,
))
    requires
        board.wf(),
        x < board.n,
        y < board.n,
        unit_dir(dx as int, dy as int),
    ensures
        r.0 == chain_len(board@, board.n as int, x as int, y as int, dx as int, dy as int, s),
        r.1 == !open_end(board@, board.n as int, x as int, y as int, dx as int, dy as int, s),
{
    let n = board.n;
    let mut cx: i32 = x as i32;
    let mut cy: i32 = y as i32;
    let mut len: usize = 0;
    loop
        invariant
            board.wf(),
            n == board.n,
            unit_dir(dx as int, dy as int),
            x < n,
            y < n,
            0 <= cx < n,
            0 <= cy < n,
            len <= n,
            chain_len(board@, n as int, x as int, y as int, dx as int, dy as int, s) == len
                + chain_len(board@, n as int, cx as int, cy as int, dx as int, dy as int, s),
            open_end(board@, n as int, x as int, y as int, dx as int, dy as int, s) == open_end(
                board@,
                n as int,
                cx as int,
                cy as int,
                dx as int,
                dy as int,
                s,
            ),
        decreases ray_fuel(n as int, cx as int, cy as int, dx as int, dy as int),
    {
        let nx: i32 = cx + dx as i32;
        let ny: i32 = cy + dy as i32;
        if 0 <= nx && nx < n as i32 && 0 <= ny && ny < n as i32 {
            match board.get(nx as usize, ny as usize) {
                Some(t) => {
                    if t == s {
                        proof {
                            lemma_chain_len_bound(
                                board@,
                                n as int,
                                x as int,
                                y as int,
                                dx as int,
                                dy as int,
                                s,
                            );
                        }
                        len = len + 1;
                        cx = nx;
                        cy = ny;
                    } else {
                        return (len, true);
                    }
                },
                None => {
                    return (len, false);
                },
            }
        } else {
            return (len, true);
        }
    }
}

} // verus!
