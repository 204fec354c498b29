//! The move advisor: a stateless one-ply policy that proposes a move for the
//! player to move.
//!
//! Three tiers, each scanning the board in row-major order (`y` outer, `x`
//! inner): first the cells where the player to move wins at once, then the
//! cells where the opponent would win at once if left free, and finally a
//! random empty cell. The advisor simulates moves on private copies of the
//! state and never mutates the authoritative instance.

use vstd::prelude::*;

use crate::game::{coord_in_range, Cell, Game, GameView};

verus! {

/// The cell visited at position `n` of the row-major scan: `x = n % 3` moves
/// fastest, `y = n / 3` slowest.
pub open spec fn scan_coord(n: int) -> (usize, usize) {
    (((n % 3) as usize), ((n / 3) as usize))
}

/// A mark by the player to move at `(x, y)` ends the game at once. (When the
/// game is already over, a simulated move changes nothing and the game stays
/// over, so every empty cell qualifies.)
pub open spec fn winning_move(g: GameView, x: usize, y: usize) -> bool {
    &&& x < 3 && y < 3
    &&& g.cell(x, y) == Cell::Empty
    &&& g.step(x, y).is_over()
}

/// Letting the opponent move at `(x, y)` would end the game at once;
/// occupying that cell first pre-empts the win.
pub open spec fn blocking_move(g: GameView, x: usize, y: usize) -> bool {
    &&& x < 3 && y < 3
    &&& g.cell(x, y) == Cell::Empty
    &&& (GameView { turn: g.turn.other(), ..g }).step(x, y).is_over()
}

/// Tier-one condition at scan position `n`.
pub open spec fn winning_move_at(g: GameView, n: int) -> bool {
    winning_move(g, scan_coord(n).0, scan_coord(n).1)
}

/// Tier-two condition at scan position `n`.
pub open spec fn blocking_move_at(g: GameView, n: int) -> bool {
    blocking_move(g, scan_coord(n).0, scan_coord(n).1)
}

/// The first winning move at or after scan position `n`, in scan order.
pub open spec fn first_winning_from(g: GameView, n: int) -> Option<(usize, usize)>
    decreases 9 - n,
{
    if n >= 9 {
        None
    } else if winning_move_at(g, n) {
        Some(scan_coord(n))
    } else {
        first_winning_from(g, n + 1)
    }
}

/// The first blocking move at or after scan position `n`, in scan order.
pub open spec fn first_blocking_from(g: GameView, n: int) -> Option<(usize, usize)>
    decreases 9 - n,
{
    if n >= 9 {
        None
    } else if blocking_move_at(g, n) {
        Some(scan_coord(n))
    } else {
        first_blocking_from(g, n + 1)
    }
}

/// Some board cell is empty.
pub open spec fn has_empty_cell(g: GameView) -> bool {
    exists|n: int| 0 <= n < 9 && g.cell_of(#[trigger] scan_coord(n)) == Cell::Empty
}

/// A scan that found nothing up to position `n1` finds the same first
/// winning move as one starting there.
proof fn lemma_first_winning_skip(g: GameView, n0: int, n1: int)
    requires
        0 <= n0 <= n1 <= 9,
        forall|m: int| n0 <= m < n1 ==> !winning_move_at(g, m),
    ensures
        first_winning_from(g, n0) == first_winning_from(g, n1),
    decreases n1 - n0,
{
    if n0 < n1 {
        lemma_first_winning_skip(g, n0 + 1, n1);
    }
}

/// A scan that found nothing up to position `n1` finds the same first
/// blocking move as one starting there.
proof fn lemma_first_blocking_skip(g: GameView, n0: int, n1: int)
    requires
        0 <= n0 <= n1 <= 9,
        forall|m: int| n0 <= m < n1 ==> !blocking_move_at(g, m),
    ensures
        first_blocking_from(g, n0) == first_blocking_from(g, n1),
    decreases n1 - n0,
{
    if n0 < n1 {
        lemma_first_blocking_skip(g, n0 + 1, n1);
    }
}

/// On a well-formed state the advisor always has a cell to propose: at most
/// six of the nine cells are occupied, so an empty one remains. Together with
/// the contract of [`get_next_move`], a well-formed state always yields a
/// proposal.
pub proof fn lemma_wf_has_empty_cell(g: GameView)
    requires
        g.wf(),
    ensures
        has_empty_cell(g),
{
    crate::game::lemma_board_never_full(g);
    let c = choose|c: (usize, usize)| coord_in_range(c) && g.cell_of(c) == Cell::Empty;
    let n = 3 * c.1 + c.0;
    assert(scan_coord(n) == c);
    assert(0 <= n < 9 && g.cell_of(scan_coord(n)) == Cell::Empty);
}

/// Relies on `rand::random_range` over `0..n`: for a non-empty range it
/// returns a value within the range (uniformly; it panics only on an empty
/// range, which the precondition rules out).
#[verifier::external_body]
fn random_below(n: usize) -> (r: usize)
    requires
        1 <= n,
    ensures
        r < n,
{
    rand::random_range(0..n)
}

/// Proposes a move for the player to move: the first cell, in row-major
/// order, where that player wins at once; failing that, the first cell where
/// the opponent left free would win at once; failing that, a random empty
/// cell; and no move at all exactly when the board has no empty cell.
pub fn get_next_move(game: &Game) -> (r: Option<(usize, usize)>)
    requires
        game@.wf(),
    ensures
        first_winning_from(game@, 0) is Some ==> r == first_winning_from(game@, 0),
        first_winning_from(game@, 0) is None && first_blocking_from(game@, 0) is Some ==> r
            == first_blocking_from(game@, 0),
        r matches Some(c) ==> coord_in_range(c) && game@.cell(c.0, c.1) == Cell::Empty,
        r is Some <==> has_empty_cell(game@),
{
    let ghost g = game@;

    // Tier one: the first cell where the player to move wins at once.
    let mut n: usize = 0;
    while n < 9
        invariant
            n <= 9,
            game@.wf(),
            g == game@,
            forall|m: int| 0 <= m < n ==> !winning_move_at(g, m),
        decreases 9 - n,
    {
        let x: usize = n % 3;
        let y: usize = n / 3;
        proof {
            assert(scan_coord(n as int) == (x, y));
        }
        if game.get_board_cell(x, y) == Cell::Empty {
            let mut sim = game.clone();
            sim.make_move(x, y);
            if sim.is_over() {
                proof {
                    assert(winning_move_at(g, n as int));
                    lemma_first_winning_skip(g, 0, n as int);
                    assert(first_winning_from(g, 0) == Some((x, y)));
                    assert(g.cell_of(scan_coord(n as int)) == Cell::Empty);
                    assert(has_empty_cell(g));
                }
                return Some((x, y));
            }
        }
        n = n + 1;
    }
    proof {
        lemma_first_winning_skip(g, 0, 9);
        assert(first_winning_from(g, 0) is None);
    }

    // Tier two: the first cell where the opponent left free wins at once.
    let mut n2: usize = 0;
    while n2 < 9
        invariant
            n2 <= 9,
            game@.wf(),
            g == game@,
            first_winning_from(g, 0) is None,
            forall|m: int| 0 <= m < n2 ==> !blocking_move_at(g, m),
        decreases 9 - n2,
    {
        let x: usize = n2 % 3;
        let y: usize = n2 / 3;
        proof {
            assert(scan_coord(n2 as int) == (x, y));
        }
        if game.get_board_cell(x, y) == Cell::Empty {
            let mut sim = game.clone();
            sim.switch_player();
            proof {
                assert(sim@ =~= (GameView { turn: g.turn.other(), ..g }));
            }
            sim.make_move(x, y);
            if sim.is_over() {
                proof {
                    assert(blocking_move_at(g, n2 as int));
                    lemma_first_blocking_skip(g, 0, n2 as int);
                    assert(first_blocking_from(g, 0) == Some((x, y)));
                    assert(g.cell_of(scan_coord(n2 as int)) == Cell::Empty);
                    assert(has_empty_cell(g));
                }
                return Some((x, y));
            }
        }
        n2 = n2 + 1;
    }
    proof {
        lemma_first_blocking_skip(g, 0, 9);
        assert(first_blocking_from(g, 0) is None);
    }

    // Tier three: a random empty cell, if the board has one.
    let mut empties: Vec<(usize, usize)> = Vec::new();
    let mut n3: usize = 0;
    while n3 < 9
        invariant
            n3 <= 9,
            game@.wf(),
            g == game@,
            forall|i: int|
                0 <= i < empties@.len() ==> coord_in_range(#[trigger] empties@[i]) && g.cell_of(
                    empties@[i],
                ) == Cell::Empty,
            forall|m: int|
                0 <= m < n3 ==> (g.cell_of(#[trigger] scan_coord(m)) == Cell::Empty
                    ==> empties@.contains(scan_coord(m))),
        decreases 9 - n3,
    {
        let x: usize = n3 % 3;
        let y: usize = n3 / 3;
        proof {
            assert(scan_coord(n3 as int) == (x, y));
        }
        let ghost pre = empties@;
        if game.get_board_cell(x, y) == Cell::Empty {
            empties.push((x, y));
        }
        n3 = n3 + 1;
        proof {
            assert forall|m: int|
                0 <= m < n3 && g.cell_of(#[trigger] scan_coord(m)) == Cell::Empty
                implies empties@.contains(scan_coord(m)) by {
                if m < n3 - 1 {
                    assert(pre.contains(scan_coord(m)));
                    let j = choose|j: int| 0 <= j < pre.len() && pre[j] == scan_coord(m);
                    assert(empties@[j] == scan_coord(m));
                } else {
                    assert(empties@[empties@.len() - 1] == (x, y));
                }
            }
        }
    }
    if empties.len() == 0 {
        proof {
            assert forall|m: int| 0 <= m < 9 implies g.cell_of(
                #[trigger] scan_coord(m),
            ) != Cell::Empty by {
                if g.cell_of(scan_coord(m)) == Cell::Empty {
                    assert(empties@.contains(scan_coord(m)));
                }
            }
        }
        None
    } else {
        let i = random_below(empties.len());
        let c = empties[i];
        proof {
            assert(g.cell_of(c) == Cell::Empty);
            assert(scan_coord(3 * c.1 + c.0) == c);
            assert(has_empty_cell(g));
        }
        Some(c)
    }
}

} // verus!
