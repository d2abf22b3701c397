//! Properties of games that span several moves.
use vstd::prelude::*;
use crate::geometry::Position;
use crate::board::{Minesweeper, OpenResult};

verus! {

/// Opening a closed, unflagged cell that holds a mine returns `Mine` and loses the game.
pub proof fn lemma_open_mine_loses(before: Minesweeper, after: Minesweeper, p: Position, r: Option<OpenResult>)
    requires
        before.wf(),
        !before.spec_lost(),
        before.on_board(p),
        !before.opened().contains(p),
        !before.flagged().contains(p),
        before.mine_set().contains(p),
        Minesweeper::open_post(before, after, p, r),
    ensures
        r == Some(OpenResult::Mine),
        after.spec_lost(),
        after.opened() == before.opened().insert(p),
{
}

/// Once the game is lost, opening any position changes nothing and returns `None`.
pub proof fn lemma_lost_open_is_noop(before: Minesweeper, after: Minesweeper, p: Position, r: Option<OpenResult>)
    requires
        before.wf(),
        before.spec_lost(),
        Minesweeper::open_post(before, after, p, r),
    ensures
        r is None,
        after.unchanged_from(&before),
{
}

/// Once the game is lost, toggling a flag on any position changes nothing.
pub proof fn lemma_lost_toggle_is_noop(before: Minesweeper, after: Minesweeper, p: Position)
    requires
        before.wf(),
        before.spec_lost(),
        Minesweeper::toggle_post(before, after, p),
    ensures
        after.unchanged_from(&before),
{
}

/// Toggling the flag of one position twice gives back the flags there were.
pub proof fn lemma_toggle_twice(b0: Minesweeper, b1: Minesweeper, b2: Minesweeper, p: Position)
    requires
        b0.wf(),
        Minesweeper::toggle_post(b0, b1, p),
        Minesweeper::toggle_post(b1, b2, p),
    ensures
        b2.unchanged_from(&b0),
{
    if !(b0.spec_lost() || b0.opened().contains(p) || !b0.on_board(p)) {
        if b0.flagged().contains(p) {
            assert(b2.flagged() =~= b0.flagged());
        } else {
            assert(b2.flagged() =~= b0.flagged());
        }
    }
}

/// Toggling the flag of an open cell never flags it.
pub proof fn lemma_toggle_open_cell(before: Minesweeper, after: Minesweeper, p: Position)
    requires
        before.wf(),
        before.opened().contains(p),
        Minesweeper::toggle_post(before, after, p),
    ensures
        !after.flagged().contains(p),
        after.flagged() == before.flagged(),
{
    before.lemma_sets_finite();
}

/// `path` leads from `p` through closed, unflagged cells with no mine around
/// them; its last cell may be anything unflagged.
pub open spec fn is_flood_path(board: Minesweeper, p: Position, path: Seq<Position>) -> bool {
    &&& path.len() > 0
    &&& path[0] == p
    &&& forall|i: int| 0 <= i < path.len() ==> !board.flagged().contains(#[trigger] path[i])
    &&& forall|i: int| 0 <= i < path.len() - 1 ==> !board.opened().contains(#[trigger] path[i])
        && board.mines_around(path[i]) == 0 && board.around(path[i]).contains(path[i + 1])
}

/// Opening a safe cell floods: every cell that a path of closed, unflagged
/// cells with no mine around them reaches from it ends up open.
pub proof fn lemma_flood_reaches(
    before: Minesweeper,
    after: Minesweeper,
    p: Position,
    r: Option<OpenResult>,
    path: Seq<Position>,
)
    requires
        before.wf(),
        !before.spec_lost(),
        before.on_board(p),
        !before.opened().contains(p),
        !before.mine_set().contains(p),
        Minesweeper::open_post(before, after, p, r),
        is_flood_path(before, p, path),
    ensures
        forall|i: int| 0 <= i < path.len() ==> after.opened().contains(#[trigger] path[i]),
{
    assert forall|i: int| 0 <= i < path.len() implies after.opened().contains(#[trigger] path[i]) by {
        lemma_flood_prefix(before, after, p, r, path, i);
    }
}

proof fn lemma_flood_prefix(
    before: Minesweeper,
    after: Minesweeper,
    p: Position,
    r: Option<OpenResult>,
    path: Seq<Position>,
    i: int,
)
    requires
        before.wf(),
        !before.spec_lost(),
        before.on_board(p),
        !before.opened().contains(p),
        !before.mine_set().contains(p),
        Minesweeper::open_post(before, after, p, r),
        is_flood_path(before, p, path),
        0 <= i < path.len(),
    ensures
        after.opened().contains(path[i]),
    decreases i,
{
    if i > 0 {
        lemma_flood_prefix(before, after, p, r, path, i - 1);
        let q = path[i - 1];
        assert(!before.opened().contains(q) && before.mines_around(q) == 0 && before.around(q).contains(path[i]));
        assert(after.around(q).contains(path[i]));
        assert(!after.flagged().contains(path[i]));
    }
}

} // verus!
