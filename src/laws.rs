//! Properties that relate the board's operations.
use vstd::prelude::*;
use crate::board::{flagged_set, mine_set, neighbors_of, safe_set, Board};
use crate::grid::{index_of, is_neighbor, lemma_coord_in_grid, lemma_index_in_grid, neighbors};

verus! {

/// Every neighbor of a member of `s` is a member of `s`.
pub open spec fn closed_under_neighbors(s: Set<usize>, rows: int, columns: int) -> bool {
    forall|k: usize| #[trigger]
        s.contains(k) ==> neighbors_of(k as int, rows, columns).subset_of(s)
}

proof fn lemma_step(s: Set<usize>, rows: int, columns: int, r: int, c: int, r2: int, c2: int)
    requires
        rows * columns <= usize::MAX,
        closed_under_neighbors(s, rows, columns),
        0 <= r < rows,
        0 <= c < columns,
        is_neighbor(r, c, r2, c2, rows, columns),
        s.contains(index_of(r, c, columns) as usize),
    ensures
        s.contains(index_of(r2, c2, columns) as usize),
{
    lemma_index_in_grid(r, c, rows, columns);
    lemma_index_in_grid(r2, c2, rows, columns);
    let k = index_of(r, c, columns) as usize;
    assert(neighbors_of(k as int, rows, columns).contains(index_of(r2, c2, columns) as usize));
}

proof fn lemma_walk_row(s: Set<usize>, rows: int, columns: int, r: int, c0: int, c: int)
    requires
        rows * columns <= usize::MAX,
        closed_under_neighbors(s, rows, columns),
        0 <= r < rows,
        0 <= c0 < columns,
        0 <= c < columns,
        s.contains(index_of(r, c0, columns) as usize),
    ensures
        s.contains(index_of(r, c, columns) as usize),
    decreases if c >= c0 { c - c0 } else { c0 - c },
{
    if c > c0 {
        lemma_walk_row(s, rows, columns, r, c0, c - 1);
        lemma_step(s, rows, columns, r, c - 1, r, c);
    } else if c < c0 {
        lemma_walk_row(s, rows, columns, r, c0, c + 1);
        lemma_step(s, rows, columns, r, c + 1, r, c);
    }
}

proof fn lemma_walk_column(s: Set<usize>, rows: int, columns: int, r0: int, r: int, c: int)
    requires
        rows * columns <= usize::MAX,
        closed_under_neighbors(s, rows, columns),
        0 <= r0 < rows,
        0 <= r < rows,
        0 <= c < columns,
        s.contains(index_of(r0, c, columns) as usize),
    ensures
        s.contains(index_of(r, c, columns) as usize),
    decreases if r >= r0 { r - r0 } else { r0 - r },
{
    if r > r0 {
        lemma_walk_column(s, rows, columns, r0, r - 1, c);
        lemma_step(s, rows, columns, r - 1, c, r, c);
    } else if r < r0 {
        lemma_walk_column(s, rows, columns, r0, r + 1, c);
        lemma_step(s, rows, columns, r + 1, c, r, c);
    }
}

/// The adjacent-mine count of the cell at (`r`, `c`) is the number of mines among
/// the cells of the grid at Chebyshev distance one from it.
pub proof fn lemma_adjacency_correct(b: &Board, r: int, c: int)
    requires
        b.wf(),
        0 <= r < b.rows,
        0 <= c < b.columns,
    ensures
        b.tiles@[index_of(r, c, b.columns as int)].adjacent_mines == neighbors(
            r,
            c,
            b.rows as int,
            b.columns as int,
        ).intersect(mine_set(b.tiles@)).len(),
{
    lemma_index_in_grid(r, c, b.rows as int, b.columns as int);
    assert(b.tile_wf(index_of(r, c, b.columns as int)));
}

/// On a board without mines whose seen cells are all exposed (a fresh board, or one
/// that only exposure has changed), a flood fill from any cell sees and exposes
/// every cell.
pub proof fn lemma_flood_reaches_all(before: &Board, after: &Board, i: int)
    requires
        before.wf(),
        before.mines == 0,
        forall|k: int|
            0 <= k < before.tiles@.len() && before.seen_set().contains(k as usize)
                ==> (#[trigger] before.tiles@[k]).exposed,
        0 <= i < before.tiles@.len(),
        after.wf(),
        after.flood_filled(before, i),
    ensures
        forall|k: int|
            0 <= k < after.tiles@.len() ==> after.seen_set().contains(k as usize)
                && (#[trigger] after.tiles@[k]).exposed,
{
    let rows = before.rows as int;
    let columns = before.columns as int;
    let ms = mine_set(before.tiles@);
    let fs = flagged_set(before.tiles@);
    ms.lemma_len0_is_empty();
    fs.lemma_len0_is_empty();
    let s = after.seen_set();
    assert forall|k: usize| #[trigger] s.contains(k) implies neighbors_of(
        k as int,
        rows,
        columns,
    ).subset_of(s) by {
        let nb = neighbors_of(k as int, rows, columns);
        assert(0 <= k < before.tiles@.len());
        assert(before.tile_wf(k as int));
        assert(nb.intersect(ms) =~= Set::<usize>::empty());
        assert(after.tiles@[k as int].adjacent_mines == before.tiles@[k as int].adjacent_mines);
    }
    lemma_coord_in_grid(i, rows, columns);
    assert forall|k: int| 0 <= k < after.tiles@.len() implies #[trigger] s.contains(k as usize) by {
        lemma_coord_in_grid(k, rows, columns);
        lemma_walk_row(s, rows, columns, i / columns, i % columns, k % columns);
        lemma_walk_column(s, rows, columns, i / columns, k / columns, k % columns);
        assert(s.contains(index_of(k / columns, k % columns, columns) as usize));
        assert(index_of(k / columns, k % columns, columns) == k);
    }
    assert forall|k: int| 0 <= k < after.tiles@.len() implies (#[trigger] after.tiles@[k]).exposed by {
        assert(s.contains(k as usize));
        assert(!fs.contains(k as usize));
        if before.seen_set().contains(k as usize) {
            assert(before.tiles@[k].exposed);
        }
    }
}

/// Without flags, exposure keeps every seen cell exposed.
pub proof fn lemma_expose_keeps_seen_exposed(before: &Board, after: &Board, i: int)
    requires
        before.wf(),
        before.flagged_cells == 0,
        forall|k: int|
            0 <= k < before.tiles@.len() && before.seen_set().contains(k as usize)
                ==> (#[trigger] before.tiles@[k]).exposed,
        0 <= i < before.tiles@.len(),
        after.flood_filled(before, i) || after.exposes_only(before, i),
    ensures
        forall|k: int|
            0 <= k < after.tiles@.len() && after.seen_set().contains(k as usize)
                ==> (#[trigger] after.tiles@[k]).exposed,
{
    let fs = flagged_set(before.tiles@);
    fs.lemma_len0_is_empty();
    assert forall|k: int|
        0 <= k < after.tiles@.len() && after.seen_set().contains(k as usize) implies (
        #[trigger] after.tiles@[k]).exposed by {
        assert(!fs.contains(k as usize));
        if after.exposes_only(before, i) && k != i {
            assert(after.tiles@[k] == before.tiles@[k]);
        }
    }
}

/// While every seen cell is exposed, a cell without a mine that is not exposed
/// means the game is not won.
pub proof fn lemma_hidden_safe_cell_is_no_win(b: &Board, k: int)
    requires
        b.wf(),
        forall|m: int|
            0 <= m < b.tiles@.len() && b.seen_set().contains(m as usize)
                ==> (#[trigger] b.tiles@[m]).exposed,
        0 <= k < b.tiles@.len(),
        !b.tiles@[k].mine,
        !b.tiles@[k].exposed,
    ensures
        b.seen_set() != safe_set(b.tiles@),
{
    assert(safe_set(b.tiles@).contains(k as usize));
    assert(!b.seen_set().contains(k as usize));
}

/// A second `expose_all` changes no cell and no seen cell.
pub proof fn lemma_expose_all_twice(b0: &Board, b1: &Board, b2: &Board)
    requires
        b0.wf(),
        b1.wf(),
        b1.exposed_all(b0),
        b2.exposed_all(b1),
    ensures
        b2.tiles@ == b1.tiles@,
        b2.seen_set() == b1.seen_set(),
{
    assert forall|k: int| 0 <= k < b2.tiles@.len() implies #[trigger] b2.tiles@[k] == b1.tiles@[k] by {
        if !b1.tiles@[k].mine {
            assert(safe_set(b1.tiles@).contains(k as usize));
        }
    }
    assert(b2.tiles@ =~= b1.tiles@);
    assert(b2.seen_set() =~= safe_set(b1.tiles@));
}

/// `after` is what `expose` of cell `i` makes of `before`.
pub open spec fn expose_step(before: Board, after: Board, i: int) -> bool {
    &&& after.wf()
    &&& if before.tiles@[i].mine {
        after.exposes_only(&before, i)
    } else {
        after.flood_filled(&before, i)
    }
}

/// What holds after the first `j` steps of a run of exposures from `boards[0]`.
pub open spec fn exposed_prefix(boards: Seq<Board>, order: Seq<int>, j: int) -> bool {
    let b0 = boards[0];
    let b = boards[j];
    &&& b.wf()
    &&& b.same_layout(&b0)
    &&& b0.seen_set().subset_of(b.seen_set())
    &&& forall|m: int|
        0 <= m < j ==> if b.tiles@[#[trigger] order[m]].mine {
            b.tiles@[order[m]].exposed
        } else {
            b.seen_set().contains(order[m] as usize)
        }
    &&& forall|k: int|
        0 <= k < b.tiles@.len() && !(#[trigger] b.tiles@[k]).mine ==> b.tiles@[k].exposed
            == if b0.seen_set().contains(k as usize) {
            b0.tiles@[k].exposed
        } else if b.seen_set().contains(k as usize) {
            !b0.tiles@[k].flagged
        } else {
            b0.tiles@[k].exposed
        }
}

proof fn lemma_exposed_prefix(boards: Seq<Board>, order: Seq<int>, j: int)
    requires
        boards.len() == order.len() + 1,
        boards[0].wf(),
        0 <= j <= order.len(),
        forall|m: int|
            0 <= m < order.len() ==> 0 <= #[trigger] order[m] < boards[0].tiles@.len()
                && expose_step(boards[m], boards[m + 1], order[m]),
    ensures
        exposed_prefix(boards, order, j),
    decreases j,
{
    let b0 = boards[0];
    if j > 0 {
        lemma_exposed_prefix(boards, order, j - 1);
        let prev = boards[j - 1];
        let b = boards[j];
        let i = order[j - 1];
        assert(expose_step(prev, b, i));
        assert(b.same_layout(&b0));
        assert forall|m: int| 0 <= m < j implies if b.tiles@[#[trigger] order[m]].mine {
            b.tiles@[order[m]].exposed
        } else {
            b.seen_set().contains(order[m] as usize)
        } by {
            let k = order[m];
            if m < j - 1 && b.tiles@[k].mine {
                assert(prev.tiles@[k].exposed);
                assert(!b.seen_set().contains(k as usize));
            }
        }
        assert forall|k: int|
            0 <= k < b.tiles@.len() && !(#[trigger] b.tiles@[k]).mine implies b.tiles@[k].exposed
            == if b0.seen_set().contains(k as usize) {
            b0.tiles@[k].exposed
        } else if b.seen_set().contains(k as usize) {
            !b0.tiles@[k].flagged
        } else {
            b0.tiles@[k].exposed
        } by {
            assert(prev.tiles@[k].mine == b.tiles@[k].mine);
            assert(prev.tiles@[k].flagged == b0.tiles@[k].flagged);
        }
    } else {
        assert(b0.same_layout(&b0));
    }
}

/// Exposing every cell, each at least once and in any order, ends where
/// `expose_all` ends.
pub proof fn lemma_expose_in_any_order(boards: Seq<Board>, order: Seq<int>)
    requires
        boards.len() == order.len() + 1,
        boards[0].wf(),
        forall|m: int|
            0 <= m < order.len() ==> 0 <= #[trigger] order[m] < boards[0].tiles@.len()
                && expose_step(boards[m], boards[m + 1], order[m]),
        forall|k: int| 0 <= k < boards[0].tiles@.len() ==> #[trigger] order.contains(k),
    ensures
        boards.last().exposed_all(&boards[0]),
{
    let n = order.len() as int;
    lemma_exposed_prefix(boards, order, n);
    let b0 = boards[0];
    let b = boards[n];
    assert forall|k: int| 0 <= k < b.tiles@.len() implies (if (#[trigger] b.tiles@[k]).mine {
        b.tiles@[k].exposed
    } else {
        b.seen_set().contains(k as usize)
    }) by {
        assert(order.contains(k));
        let m = choose|m: int| 0 <= m < order.len() && order[m] == k;
    }
    assert(b.seen_set() =~= safe_set(b.tiles@));
    assert forall|k: int| 0 <= k < b.tiles@.len() && !(#[trigger] b.tiles@[k]).mine
        && !b0.seen_set().contains(k as usize) implies !b0.tiles@[k].exposed by {
        assert(b0.tiles@[k].mine == b.tiles@[k].mine);
    }
}

/// Once no flags are left, placing one more changes nothing.
pub proof fn lemma_flag_budget(before: &Board, after: &Board, k: int)
    requires
        before.wf(),
        0 <= k < before.tiles@.len(),
        before.mines - before.flagged_cells == 0,
        !before.tiles@[k].flagged,
        after.flag_outcome(before, k),
    ensures
        *after == *before,
        after.flagged_cells <= after.mines,
{
}

/// Toggling the flag of one cell twice restores its flag and the flag count, unless
/// the cell was a flagged cell already exposed: the second toggle cannot place a
/// flag on an exposed cell.
pub proof fn lemma_flag_round_trip(b0: &Board, b1: &Board, b2: &Board, k: int)
    requires
        b0.wf(),
        0 <= k < b0.tiles@.len(),
        !(b0.tiles@[k].flagged && b0.tiles@[k].exposed),
        b1.flag_outcome(b0, k),
        b2.flag_outcome(b1, k),
    ensures
        b2.tiles@[k].flagged == b0.tiles@[k].flagged,
        b2.flagged_cells == b0.flagged_cells,
        b2.tiles@ == b0.tiles@,
{
    assert(b2.tiles@ =~= b0.tiles@);
}

} // verus!
