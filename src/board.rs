//! The board: mine layout, adjacency, exposure, flags and the win check.
use vstd::prelude::*;
use crate::bits::{bit_set_items, empty_set, set_contains, set_insert, set_len, set_to_vec};
use crate::grid::{
    adjacent, coord_from_index, index_from_coord, index_of, lemma_coord_in_grid,
    lemma_index_in_grid, neighbors, Coordinate,
};

verus! {

broadcast use vstd::seq_lib::group_seq_properties;

/// Why a board operation failed.
#[derive(Debug, Clone, Copy, PartialEq, Eq, Structural)]
pub enum Error {
    /// The coordinate lies outside the grid.
    GetTile(usize, usize),
    /// Zero rows or columns, more cells than an index can address, or more mines than cells.
    InvalidBoard,
}

/// One cell of the grid.
pub struct Tile {
    /// Indices of the cells that touch this one.
    pub adjacent_tiles: bit_set::BitSet,
    pub mine: bool,
    pub exposed: bool,
    pub flagged: bool,
    /// How many of the touching cells hold a mine.
    pub adjacent_mines: u8,
}

/// Relies on `rand::thread_rng` and `rand::seq::index::sample`: exactly `amount`
/// distinct indices below `length`, drawn at random. `sample` panics when
/// `amount > length`.
#[verifier::external_body]
fn sample_indices(length: usize, amount: usize) -> (r: Vec<usize>)
    requires
        amount <= length,
    ensures
        r@.len() == amount,
        r@.no_duplicates(),
        forall|k: int| 0 <= k < r@.len() ==> r@[k] < length,
{
    let mut rng = rand::thread_rng();
    rand::seq::index::sample(&mut rng, length, amount).into_vec()
}

/// The indices of the cells that touch cell `i`.
pub open spec fn neighbors_of(i: int, rows: int, columns: int) -> Set<usize> {
    neighbors(i / columns, i % columns, rows, columns)
}

/// The indices of the mine cells.
pub open spec fn mine_set(tiles: Seq<Tile>) -> Set<usize> {
    Set::new(|i: usize| i < tiles.len() && tiles[i as int].mine)
}

/// The indices of the cells without a mine.
pub open spec fn safe_set(tiles: Seq<Tile>) -> Set<usize> {
    Set::new(|i: usize| i < tiles.len() && !tiles[i as int].mine)
}

/// The indices of the flagged cells.
pub open spec fn flagged_set(tiles: Seq<Tile>) -> Set<usize> {
    Set::new(|i: usize| i < tiles.len() && tiles[i as int].flagged)
}

/// The number of mines in the cells of `cells`.
pub open spec fn mines_in(tiles: Seq<Tile>, cells: Set<usize>) -> nat {
    cells.intersect(mine_set(tiles)).len()
}

/// The flagged cells among the first `k`.
pub open spec fn flags_before(tiles: Seq<Tile>, k: int) -> Set<usize> {
    Set::new(|i: usize| i < k && tiles[i as int].flagged)
}

/// The indices below `n`.
pub open spec fn index_range(n: nat) -> Set<usize> {
    Set::new(|i: usize| i < n)
}

proof fn lemma_index_range(n: nat)
    requires
        n <= usize::MAX + 1,
    ensures
        index_range(n).finite(),
        index_range(n).len() == n,
    decreases n,
{
    if n == 0 {
        assert(index_range(n) =~= Set::empty());
    } else {
        lemma_index_range((n - 1) as nat);
        assert(index_range(n) =~= index_range((n - 1) as nat).insert((n - 1) as usize));
    }
}

/// Mine cells and safe cells split the grid.
proof fn lemma_cell_sets(tiles: Seq<Tile>)
    requires
        tiles.len() <= usize::MAX,
    ensures
        mine_set(tiles).finite(),
        safe_set(tiles).finite(),
        flagged_set(tiles).finite(),
        mine_set(tiles).len() + safe_set(tiles).len() == tiles.len(),
{
    let all = index_range(tiles.len());
    lemma_index_range(tiles.len());
    vstd::set_lib::lemma_len_subset(mine_set(tiles), all);
    vstd::set_lib::lemma_len_subset(safe_set(tiles), all);
    vstd::set_lib::lemma_len_subset(flagged_set(tiles), all);
    assert(mine_set(tiles) + safe_set(tiles) =~= all);
    vstd::set_lib::lemma_set_disjoint_lens(mine_set(tiles), safe_set(tiles));
}

/// Counts the members of `adj` that `samples` holds.
fn count_members(adj: &bit_set::BitSet, samples: &bit_set::BitSet) -> (r: u8)
    requires
        bit_set_items(*adj).finite(),
        bit_set_items(*adj).len() <= 8,
    ensures
        r == bit_set_items(*adj).intersect(bit_set_items(*samples)).len(),
{
    let v = set_to_vec(adj);
    let ghost s = bit_set_items(*samples);
    proof {
        v@.unique_seq_to_set();
        assert(v@.take(0).to_set().intersect(s) =~= Set::empty());
    }
    let mut count: u8 = 0;
    let mut j: usize = 0;
    while j < v.len()
        invariant
            v@.no_duplicates(),
            v@.to_set() == bit_set_items(*adj),
            v@.len() <= 8,
            s == bit_set_items(*samples),
            j <= v@.len(),
            count <= j,
            count == v@.take(j as int).to_set().intersect(s).len(),
            v@.take(j as int).to_set().intersect(s).finite(),
        decreases v.len() - j,
    {
        let ghost before = v@.take(j as int).to_set().intersect(s);
        assert(v@.take(j as int + 1) == v@.take(j as int).push(v@[j as int]));
        assert(!v@.take(j as int).contains(v@[j as int]));
        if set_contains(samples, v[j]) {
            assert(v@.take(j as int + 1).to_set().intersect(s) =~= before.insert(v@[j as int]));
            count = count + 1;
        } else {
            assert(v@.take(j as int + 1).to_set().intersect(s) =~= before);
        }
        j = j + 1;
    }
    assert(v@.take(v@.len() as int) == v@);
    count
}

/// The grid and the state of play.
pub struct Board {
    /// The cells, row by row.
    pub tiles: Vec<Tile>,
    pub rows: usize,
    pub columns: usize,
    /// The number of mines on the board.
    pub mines: usize,
    /// The number of cells that carry a flag.
    pub flagged_cells: usize,
    /// The number of mine cells that carry a flag.
    pub correctly_flagged_mines: usize,
    /// The cells that exposure has visited.
    pub seen: bit_set::BitSet,
}

/// A cell with no mine around it has no mine among its neighbors.
proof fn lemma_no_mine_neighbor(b: &Board, x: int)
    requires
        b.wf(),
        0 <= x < b.tiles@.len(),
        b.tiles@[x].adjacent_mines == 0,
    ensures
        forall|j: usize|
            #[trigger] neighbors_of(x, b.rows as int, b.columns as int).contains(j) ==> safe_set(
                b.tiles@,
            ).contains(j),
{
    let nb = neighbors_of(x, b.rows as int, b.columns as int);
    assert(b.tile_wf(x));
    let s = nb.intersect(mine_set(b.tiles@));
    vstd::set_lib::lemma_len_subset(s, mine_set(b.tiles@));
    assert forall|j: usize| nb.contains(j) implies safe_set(b.tiles@).contains(j) by {
        if mine_set(b.tiles@).contains(j) {
            assert(s.contains(j));
            vstd::set::axiom_set_contains_len(s, j);
        }
    }
}

impl Board {
    /// The indices that exposure has visited.
    pub open spec fn seen_set(&self) -> Set<usize> {
        bit_set_items(self.seen)
    }

    /// The cells touching cell `i` are its neighbors on the grid, and its count
    /// of adjacent mines is the number of mines among them.
    pub open spec fn tile_wf(&self, i: int) -> bool {
        &&& bit_set_items(self.tiles@[i].adjacent_tiles) == neighbors_of(
            i,
            self.rows as int,
            self.columns as int,
        )
        &&& self.tiles@[i].adjacent_mines == mines_in(
            self.tiles@,
            neighbors_of(i, self.rows as int, self.columns as int),
        )
    }

    /// Both boards have the same grid, mines, flags, adjacency and counters;
    /// only exposure and the seen cells may differ.
    pub open spec fn same_layout(&self, other: &Board) -> bool {
        &&& self.rows == other.rows
        &&& self.columns == other.columns
        &&& self.mines == other.mines
        &&& self.flagged_cells == other.flagged_cells
        &&& self.correctly_flagged_mines == other.correctly_flagged_mines
        &&& self.tiles@.len() == other.tiles@.len()
        &&& forall|i: int|
            0 <= i < self.tiles@.len() ==> {
                &&& (#[trigger] self.tiles@[i]).mine == other.tiles@[i].mine
                &&& self.tiles@[i].flagged == other.tiles@[i].flagged
                &&& self.tiles@[i].adjacent_tiles == other.tiles@[i].adjacent_tiles
                &&& self.tiles@[i].adjacent_mines == other.tiles@[i].adjacent_mines
            }
    }

    /// Whether `coord` names a cell of the grid.
    pub open spec fn in_grid(&self, coord: Coordinate) -> bool {
        coord.0 < self.rows && coord.1 < self.columns
    }

    /// The row-major index of `coord`.
    pub open spec fn index_spec(&self, coord: Coordinate) -> int {
        index_of(coord.0 as int, coord.1 as int, self.columns as int)
    }

    /// `self` is `before` with the cell at `i` exposed, and nothing else changed.
    pub open spec fn exposes_only(&self, before: &Board, i: int) -> bool {
        &&& self.same_layout(before)
        &&& self.seen == before.seen
        &&& self.tiles@ == before.tiles@.update(i, Tile { exposed: true, ..before.tiles@[i] })
    }

    /// `path` leads from cell `i` through touching cells, each but the last unseen
    /// and without an adjacent mine.
    pub open spec fn is_flood_path(&self, i: int, path: Seq<usize>) -> bool {
        &&& path.len() > 0
        &&& path[0] == i
        &&& forall|m: int|
            0 <= m < path.len() - 1 ==> {
                &&& !self.seen_set().contains(#[trigger] path[m])
                &&& path[m] < self.tiles@.len()
                &&& self.tiles@[path[m] as int].adjacent_mines == 0
                &&& neighbors_of(path[m] as int, self.rows as int, self.columns as int).contains(
                    path[m + 1],
                )
            }
    }

    /// A flood fill from cell `i` can reach cell `k`.
    pub open spec fn flood_reaches(&self, i: int, k: usize) -> bool {
        exists|path: Seq<usize>| #[trigger] self.is_flood_path(i, path) && path.last() == k
    }

    /// `self` is `before` after a flood fill from cell `i`: `i` is seen, every cell seen
    /// now and not before is exposed unless flagged, and every such cell with no
    /// adjacent mine has all its neighbors seen. Nothing else changed.
    pub open spec fn flood_filled(&self, before: &Board, i: int) -> bool {
        &&& self.same_layout(before)
        &&& before.seen_set().subset_of(self.seen_set())
        &&& self.seen_set().contains(i as usize)
        &&& forall|k: int|
            0 <= k < self.tiles@.len() ==> (#[trigger] self.tiles@[k]).exposed == if self.seen_set().contains(k as usize)
                && !before.seen_set().contains(k as usize) {
                !before.tiles@[k].flagged
            } else {
                before.tiles@[k].exposed
            }
        &&& forall|k: usize|
            #[trigger] self.seen_set().contains(k) && !before.seen_set().contains(k)
                && self.tiles@[k as int].adjacent_mines == 0 ==> neighbors_of(
                k as int,
                self.rows as int,
                self.columns as int,
            ).subset_of(self.seen_set())
        &&& forall|k: usize|
            #[trigger] self.seen_set().contains(k) && !before.seen_set().contains(k)
                ==> before.flood_reaches(i, k)
    }

    /// `self` is `before` with the flag of cell `i` set to `on`, the flag count moved by
    /// one and the count of flagged mines moved by one if `i` holds a mine.
    pub open spec fn flag_set_to(&self, before: &Board, i: int, on: bool) -> bool {
        let step: int = if before.tiles@[i].mine { 1 } else { 0 };
        &&& self.rows == before.rows
        &&& self.columns == before.columns
        &&& self.mines == before.mines
        &&& self.seen == before.seen
        &&& self.tiles@ == before.tiles@.update(i, Tile { flagged: on, ..before.tiles@[i] })
        &&& if on {
            &&& self.flagged_cells == before.flagged_cells + 1
            &&& self.correctly_flagged_mines == before.correctly_flagged_mines + step
        } else {
            &&& self.flagged_cells == before.flagged_cells - 1
            &&& self.correctly_flagged_mines == before.correctly_flagged_mines - step
        }
    }

    /// What toggling the flag of cell `k` of `before` gives: a flag is removed; one is
    /// placed while the flag count is below the mine count and the cell is not exposed;
    /// otherwise nothing changes.
    pub open spec fn flag_outcome(&self, before: &Board, k: int) -> bool {
        let t = before.tiles@[k];
        if t.flagged {
            self.flag_set_to(before, k, false)
        } else if before.flagged_cells < before.mines && !t.exposed {
            self.flag_set_to(before, k, true)
        } else {
            *self == *before
        }
    }

    /// `self` is `before` with every mine exposed and every cell without a mine seen;
    /// such a cell not seen in `before` is exposed unless flagged, and every other
    /// cell keeps its exposure.
    pub open spec fn exposed_all(&self, before: &Board) -> bool {
        &&& self.same_layout(before)
        &&& before.seen_set().subset_of(self.seen_set())
        &&& self.seen_set() == safe_set(self.tiles@)
        &&& forall|k: int|
            0 <= k < self.tiles@.len() && (#[trigger] self.tiles@[k]).mine
                ==> self.tiles@[k].exposed
        &&& forall|k: int|
            0 <= k < self.tiles@.len() && !(#[trigger] self.tiles@[k]).mine
                ==> self.tiles@[k].exposed == if before.seen_set().contains(k as usize) {
                before.tiles@[k].exposed
            } else {
                !before.tiles@[k].flagged
            }
    }

    /// A board just built: `rows` by `columns` cells, well formed, nothing exposed,
    /// flagged or seen.
    pub open spec fn is_fresh(&self, rows: usize, columns: usize) -> bool {
        &&& self.wf()
        &&& self.rows == rows
        &&& self.columns == columns
        &&& self.tiles@.len() == rows * columns
        &&& self.flagged_cells == 0
        &&& self.correctly_flagged_mines == 0
        &&& self.seen_set() == Set::<usize>::empty()
        &&& forall|i: int|
            0 <= i < self.tiles@.len() ==> !(#[trigger] self.tiles@[i]).exposed
                && !self.tiles@[i].flagged
    }

    /// The invariant that every operation keeps.
    pub open spec fn wf(&self) -> bool {
        &&& self.rows > 0
        &&& self.columns > 0
        &&& self.rows * self.columns <= usize::MAX
        &&& self.tiles@.len() == self.rows * self.columns
        &&& forall|i: int| 0 <= i < self.tiles@.len() ==> #[trigger] self.tile_wf(i)
        &&& mine_set(self.tiles@).finite()
        &&& mine_set(self.tiles@).len() == self.mines
        &&& safe_set(self.tiles@).finite()
        &&& safe_set(self.tiles@).len() + self.mines == self.tiles@.len()
        &&& flagged_set(self.tiles@).finite()
        &&& flagged_set(self.tiles@).len() == self.flagged_cells
        &&& self.flagged_cells <= self.mines
        &&& flagged_set(self.tiles@).intersect(mine_set(self.tiles@)).len()
            == self.correctly_flagged_mines
        &&& self.seen_set().finite()
        &&& self.seen_set().subset_of(safe_set(self.tiles@))
        &&& forall|k: int|
            0 <= k < self.tiles@.len() && (#[trigger] self.tiles@[k]).exposed
                && !self.tiles@[k].mine ==> self.seen_set().contains(k as usize)
        &&& forall|k: usize|
            #[trigger] self.seen_set().contains(k) && self.tiles@[k as int].adjacent_mines == 0
                ==> neighbors_of(k as int, self.rows as int, self.columns as int).subset_of(
                self.seen_set(),
            )
    }

    /// A board of `rows` by `columns` cells with `mines` mines at distinct cells
    /// chosen at random; nothing exposed, flagged or seen.
    pub fn new(rows: usize, columns: usize, mines: usize) -> (r: Result<Self, Error>)
        ensures
            r is Err <==> (rows == 0 || columns == 0 || rows * columns > usize::MAX || mines > rows
                * columns),
            r is Err ==> r == Err::<Self, Error>(Error::InvalidBoard),
            r matches Ok(b) ==> b.is_fresh(rows, columns) && b.mines == mines && mine_set(
                b.tiles@,
            ).len() == mines,
    {
        if rows == 0 || columns == 0 {
            return Err(Error::InvalidBoard);
        }
        let n = match rows.checked_mul(columns) {
            Some(n) => n,
            None => {
                return Err(Error::InvalidBoard);
            },
        };
        if mines > n {
            return Err(Error::InvalidBoard);
        }
        let picks = sample_indices(n, mines);
        proof {
            picks@.unique_seq_to_set();
        }
        Self::with_mines(rows, columns, &picks)
    }

    /// A board of `rows` by `columns` cells with mines at the row-major indices
    /// `cells` (a repeated index counts once); nothing exposed, flagged or seen.
    pub fn with_mines(rows: usize, columns: usize, cells: &Vec<usize>) -> (r: Result<Self, Error>)
        ensures
            r is Err <==> (rows == 0 || columns == 0 || rows * columns > usize::MAX || exists|k: int|
                0 <= k < cells@.len() && cells@[k] >= rows * columns),
            r is Err ==> r == Err::<Self, Error>(Error::InvalidBoard),
            r matches Ok(b) ==> b.is_fresh(rows, columns) && mine_set(b.tiles@) == cells@.to_set()
                && b.mines == cells@.to_set().len(),
    {
        if rows == 0 || columns == 0 {
            return Err(Error::InvalidBoard);
        }
        let n = match rows.checked_mul(columns) {
            Some(n) => n,
            None => {
                return Err(Error::InvalidBoard);
            },
        };
        let mut samples = empty_set();
        let mut k: usize = 0;
        while k < cells.len()
            invariant
                k <= cells@.len(),
                n == rows * columns,
                forall|m: int| 0 <= m < k ==> cells@[m] < n,
                bit_set_items(samples) == cells@.take(k as int).to_set(),
            decreases cells.len() - k,
        {
            if cells[k] >= n {
                return Err(Error::InvalidBoard);
            }
            assert(cells@.take(k as int + 1) == cells@.take(k as int).push(cells@[k as int]));
            set_insert(&mut samples, cells[k]);
            k = k + 1;
        }
        let ghost s = bit_set_items(samples);
        proof {
            assert(cells@.take(cells@.len() as int) == cells@);
            assert forall|x: usize| s.contains(x) implies x < n by {
                let m = choose|m: int| 0 <= m < cells@.len() && cells@[m] == x;
            }
        }
        let mines = set_len(&samples);
        proof {
            lemma_index_range(n as nat);
            vstd::set_lib::lemma_len_subset(s, index_range(n as nat));
        }
        let mut tiles: Vec<Tile> = Vec::new();
        let mut i: usize = 0;
        while i < n
            invariant
                n == rows * columns,
                rows > 0,
                columns > 0,
                i <= n,
                s == bit_set_items(samples),
                forall|x: usize| s.contains(x) ==> x < n,
                tiles@.len() == i,
                forall|m: int|
                    0 <= m < i ==> {
                        &&& bit_set_items((#[trigger] tiles@[m]).adjacent_tiles) == neighbors_of(
                            m,
                            rows as int,
                            columns as int,
                        )
                        &&& tiles@[m].mine == s.contains(m as usize)
                        &&& tiles@[m].adjacent_mines == neighbors_of(
                            m,
                            rows as int,
                            columns as int,
                        ).intersect(s).len()
                        &&& !tiles@[m].exposed
                        &&& !tiles@[m].flagged
                    },
            decreases n - i,
        {
            let coord = coord_from_index(i, columns);
            proof {
                lemma_coord_in_grid(i as int, rows as int, columns as int);
            }
            let adjacent_tiles = adjacent(coord, rows, columns);
            let adjacent_mines = count_members(&adjacent_tiles, &samples);
            let mine = set_contains(&samples, i);
            tiles.push(
                Tile { adjacent_tiles, mine, exposed: false, flagged: false, adjacent_mines },
            );
            i = i + 1;
        }
        let board = Board {
            tiles,
            rows,
            columns,
            mines,
            flagged_cells: 0,
            correctly_flagged_mines: 0,
            seen: empty_set(),
        };
        proof {
            let ts = board.tiles@;
            assert forall|i: int| 0 <= i < ts.len() implies ts[i].mine == s.contains(i as usize)
                && !ts[i].flagged && !ts[i].exposed by {
                assert(bit_set_items(ts[i].adjacent_tiles) == neighbors_of(
                    i,
                    rows as int,
                    columns as int,
                ));
            }
            assert(mine_set(ts) =~= s);
            lemma_cell_sets(ts);
            assert(flagged_set(ts) =~= Set::empty());
            assert(flagged_set(ts).intersect(mine_set(ts)) =~= Set::empty());
            assert forall|i: int| 0 <= i < ts.len() implies #[trigger] board.tile_wf(i) by {
                assert(bit_set_items(ts[i].adjacent_tiles) == neighbors_of(
                    i,
                    rows as int,
                    columns as int,
                ));
            }
            assert(board.seen_set() =~= Set::empty());
        }
        Ok(board)
    }

    /// The row-major index of `coord` on this board.
    pub fn index_from_coord(&self, coord: Coordinate) -> (r: usize)
        requires
            self.wf(),
            self.in_grid(coord),
        ensures
            r == self.index_spec(coord),
            r < self.tiles@.len(),
    {
        proof {
            lemma_index_in_grid(
                coord.0 as int,
                coord.1 as int,
                self.rows as int,
                self.columns as int,
            );
        }
        index_from_coord(coord, self.columns)
    }

    /// The cell at row `i`, column `j`.
    pub fn tile(&self, i: usize, j: usize) -> (r: Result<&Tile, Error>)
        requires
            self.wf(),
        ensures
            self.in_grid((i, j)) ==> (r matches Ok(t) && *t == self.tiles@[self.index_spec((i, j))]),
            !self.in_grid((i, j)) ==> r == Err::<&Tile, Error>(Error::GetTile(i, j)),
    {
        if i < self.rows && j < self.columns {
            let index = self.index_from_coord((i, j));
            Ok(&self.tiles[index])
        } else {
            Err(Error::GetTile(i, j))
        }
    }

    /// The cell at row `i`, column `j`, for change. The board keeps its invariant only
    /// if the change does.
    pub fn tile_mut(&mut self, i: usize, j: usize) -> (r: Result<&mut Tile, Error>)
        requires
            old(self).wf(),
        ensures
            !old(self).in_grid((i, j)) ==> r == Err::<&mut Tile, Error>(Error::GetTile(i, j))
                && *final(self) == *old(self),
            old(self).in_grid((i, j)) ==> (r matches Ok(t) && *t == old(self).tiles@[old(
                self,
            ).index_spec((i, j))] && *final(self) == (Board {
                tiles: final(self).tiles,
                ..*old(self)
            }) && final(self).tiles@ == old(self).tiles@.update(
                old(self).index_spec((i, j)),
                *final(t),
            )),
    {
        if i < self.rows && j < self.columns {
            let index = self.index_from_coord((i, j));
            Ok(&mut self.tiles[index])
        } else {
            Err(Error::GetTile(i, j))
        }
    }

    /// How many more flags may be placed.
    pub fn available_flags(&self) -> (r: usize)
        requires
            self.wf(),
        ensures
            r == self.mines - self.flagged_cells,
    {
        self.mines - self.flagged_cells
    }

    /// Whether every cell without a mine has been seen. Also true when the seen
    /// cells and the flagged mines together cover the grid, which comes to the same.
    pub fn won(&self) -> (r: bool)
        requires
            self.wf(),
        ensures
            r == (self.seen_set() == safe_set(self.tiles@)),
    {
        let nseen = set_len(&self.seen);
        proof {
            let fm = flagged_set(self.tiles@).intersect(mine_set(self.tiles@));
            vstd::set_lib::lemma_len_subset(self.seen_set(), safe_set(self.tiles@));
            vstd::set_lib::lemma_len_subset(fm, mine_set(self.tiles@));
            if nseen == safe_set(self.tiles@).len() {
                vstd::set_lib::lemma_subset_equality(self.seen_set(), safe_set(self.tiles@));
            }
        }
        let exposed_or_correctly_flagged = nseen + self.correctly_flagged_mines;
        let ntiles = self.rows * self.columns;
        ntiles == exposed_or_correctly_flagged || (self.tiles.len() - nseen) == self.mines
    }

    /// Toggles the flag on cell (`i`, `j`) and returns the toggled state. A flag is
    /// always removed; one is placed only while flags remain and the cell is not
    /// exposed, and otherwise nothing changes.
    pub fn flag(&mut self, i: usize, j: usize) -> (r: Result<bool, Error>)
        requires
            old(self).wf(),
        ensures
            final(self).wf(),
            !old(self).in_grid((i, j)) ==> r == Err::<bool, Error>(Error::GetTile(i, j))
                && *final(self) == *old(self),
            old(self).in_grid((i, j)) ==> r == Ok::<bool, Error>(
                !old(self).tiles@[old(self).index_spec((i, j))].flagged,
            ) && final(self).flag_outcome(old(self), old(self).index_spec((i, j))),
    {
        if !(i < self.rows && j < self.columns) {
            return Err(Error::GetTile(i, j));
        }
        let index = self.index_from_coord((i, j));
        let ghost before = *self;
        let ghost fs = flagged_set(before.tiles@);
        let ghost ms = mine_set(before.tiles@);
        let was_flagged = self.tiles[index].flagged;
        let mine = self.tiles[index].mine;
        if was_flagged {
            proof {
                assert(fs.contains(index));
                vstd::set::axiom_set_remove_len(fs, index);
                if mine {
                    vstd::set::axiom_set_remove_len(fs.intersect(ms), index);
                }
            }
            self.flagged_cells = self.flagged_cells.saturating_sub(1);
            if mine {
                self.correctly_flagged_mines = self.correctly_flagged_mines - 1;
            }
            self.tiles[index].flagged = false;
            proof {
                assert(flagged_set(self.tiles@) =~= fs.remove(index));
                if mine {
                    assert(flagged_set(self.tiles@).intersect(mine_set(self.tiles@))
                        =~= fs.intersect(ms).remove(index));
                } else {
                    assert(flagged_set(self.tiles@).intersect(mine_set(self.tiles@))
                        =~= fs.intersect(ms));
                }
            }
        } else if self.flagged_cells < self.mines && !self.tiles[index].exposed {
            proof {
                vstd::set::axiom_set_insert_len(fs, index);
                vstd::set::axiom_set_insert_len(fs.intersect(ms), index);
                vstd::set_lib::lemma_len_subset(fs.intersect(ms), fs);
            }
            self.flagged_cells = self.flagged_cells + 1;
            if mine {
                self.correctly_flagged_mines = self.correctly_flagged_mines + 1;
            }
            self.tiles[index].flagged = true;
            proof {
                assert(flagged_set(self.tiles@) =~= fs.insert(index));
                if mine {
                    assert(flagged_set(self.tiles@).intersect(mine_set(self.tiles@))
                        =~= fs.intersect(ms).insert(index));
                } else {
                    assert(flagged_set(self.tiles@).intersect(mine_set(self.tiles@))
                        =~= fs.intersect(ms));
                }
            }
        }
        proof {
            assert(mine_set(self.tiles@) =~= ms);
            assert(safe_set(self.tiles@) =~= safe_set(before.tiles@));
            assert forall|k: int| 0 <= k < self.tiles@.len() implies #[trigger] self.tile_wf(k) by {
                assert(before.tile_wf(k));
            }
        }
        Ok(!was_flagged)
    }

    /// Exposes every cell, as `expose` on each coordinate in turn: afterwards every
    /// mine is exposed and every cell without a mine has been seen.
    pub fn expose_all(&mut self) -> (r: Result<(), Error>)
        requires
            old(self).wf(),
        ensures
            r == Ok::<(), Error>(()),
            final(self).wf(),
            final(self).exposed_all(old(self)),
    {
        let ghost before = *self;
        let columns = self.columns;
        let n = self.tiles.len();
        let mut i: usize = 0;
        while i < n
            invariant
                self.wf(),
                self.same_layout(&before),
                n == self.tiles@.len(),
                columns == self.columns,
                i <= n,
                before.seen_set().subset_of(self.seen_set()),
                forall|k: int|
                    0 <= k < i ==> if (#[trigger] self.tiles@[k]).mine {
                        self.tiles@[k].exposed
                    } else {
                        self.seen_set().contains(k as usize)
                    },
                forall|k: int|
                    0 <= k < n && !(#[trigger] self.tiles@[k]).mine ==> self.tiles@[k].exposed
                        == if before.seen_set().contains(k as usize) {
                        before.tiles@[k].exposed
                    } else if self.seen_set().contains(k as usize) {
                        !before.tiles@[k].flagged
                    } else {
                        before.tiles@[k].exposed
                    },
            decreases n - i,
        {
            let coord = coord_from_index(i, columns);
            proof {
                lemma_coord_in_grid(i as int, self.rows as int, columns as int);
            }
            let ghost prev = *self;
            let _ = self.expose(coord);
            proof {
                assert forall|k: int| 0 <= k <= i implies if (#[trigger] self.tiles@[k]).mine {
                    self.tiles@[k].exposed
                } else {
                    self.seen_set().contains(k as usize)
                } by {
                    assert(prev.same_layout(&before));
                    if k < i && self.tiles@[k].mine {
                        assert(prev.tiles@[k].exposed);
                        assert(!self.seen_set().contains(k as usize));
                    }
                }
                assert forall|k: int| 0 <= k < n && !(#[trigger] self.tiles@[k]).mine implies self.tiles@[k].exposed
                    == if before.seen_set().contains(k as usize) {
                    before.tiles@[k].exposed
                } else if self.seen_set().contains(k as usize) {
                    !before.tiles@[k].flagged
                } else {
                    before.tiles@[k].exposed
                } by {
                    assert(prev.same_layout(&before));
                    assert(prev.tiles@[k].mine == self.tiles@[k].mine);
                }
            }
            i = i + 1;
        }
        proof {
            assert(self.seen_set() =~= safe_set(self.tiles@));
            assert forall|k: int| 0 <= k < n && !(#[trigger] before.tiles@[k]).mine
                && !before.seen_set().contains(k as usize) implies !before.tiles@[k].exposed by {}
        }
        Ok(())
    }

    /// Flags every mine that is not exposed and clears every other flag; the flag
    /// counts follow.
    pub fn flag_all(&mut self)
        requires
            old(self).wf(),
        ensures
            final(self).wf(),
            final(self).rows == old(self).rows,
            final(self).columns == old(self).columns,
            final(self).mines == old(self).mines,
            final(self).seen == old(self).seen,
            final(self).tiles@.len() == old(self).tiles@.len(),
            forall|k: int|
                0 <= k < final(self).tiles@.len() ==> #[trigger] final(self).tiles@[k] == (Tile {
                    flagged: !old(self).tiles@[k].exposed && old(self).tiles@[k].mine,
                    ..old(self).tiles@[k]
                }),
            final(self).flagged_cells == flagged_set(final(self).tiles@).len(),
            final(self).correctly_flagged_mines == final(self).flagged_cells,
    {
        let ghost before = *self;
        let n = self.tiles.len();
        let mut count: usize = 0;
        let mut k: usize = 0;
        proof {
            assert(flags_before(self.tiles@, 0) =~= Set::empty());
        }
        while k < n
            invariant
                n == self.tiles@.len(),
                n == before.tiles@.len(),
                before.wf(),
                k <= n,
                self.rows == before.rows,
                self.columns == before.columns,
                self.mines == before.mines,
                self.seen == before.seen,
                forall|m: int|
                    0 <= m < n ==> #[trigger] self.tiles@[m] == if m < k {
                        Tile { flagged: !before.tiles@[m].exposed && before.tiles@[m].mine, ..before.tiles@[m] }
                    } else {
                        before.tiles@[m]
                    },
                flags_before(self.tiles@, k as int).finite(),
                count == flags_before(self.tiles@, k as int).len(),
                count <= k,
            decreases n - k,
        {
            let ghost prev = flags_before(self.tiles@, k as int);
            let on = !self.tiles[k].exposed && self.tiles[k].mine;
            self.tiles[k].flagged = on;
            if on {
                proof {
                    assert(flags_before(self.tiles@, k as int + 1) =~= prev.insert(k));
                    vstd::set::axiom_set_insert_len(prev, k);
                }
                count = count + 1;
            } else {
                assert(flags_before(self.tiles@, k as int + 1) =~= prev);
            }
            k = k + 1;
        }
        self.flagged_cells = count;
        self.correctly_flagged_mines = count;
        proof {
            let ts = self.tiles@;
            assert(flags_before(ts, n as int) =~= flagged_set(ts));
            assert(mine_set(ts) =~= mine_set(before.tiles@));
            assert(safe_set(ts) =~= safe_set(before.tiles@));
            assert(flagged_set(ts).intersect(mine_set(ts)) =~= flagged_set(ts));
            vstd::set_lib::lemma_len_subset(flagged_set(ts), mine_set(ts));
            assert forall|m: int| 0 <= m < ts.len() implies #[trigger] self.tile_wf(m) by {
                assert(before.tile_wf(m));
            }
            assert(self.wf());
        }
    }

    /// Exposes the cell at `coord`. A mine is exposed alone and `Ok(true)` returned;
    /// otherwise a flood fill spreads from the cell through cells with no adjacent mine,
    /// and `Ok(false)` is returned.
    pub fn expose(&mut self, coord: Coordinate) -> (r: Result<bool, Error>)
        requires
            old(self).wf(),
        ensures
            final(self).wf(),
            !old(self).in_grid(coord) ==> r == Err::<bool, Error>(Error::GetTile(coord.0, coord.1))
                && *final(self) == *old(self),
            old(self).in_grid(coord) && old(self).tiles@[old(self).index_spec(coord)].mine ==> r
                == Ok::<bool, Error>(true) && final(self).exposes_only(
                old(self),
                old(self).index_spec(coord),
            ),
            old(self).in_grid(coord) && !old(self).tiles@[old(self).index_spec(coord)].mine ==> r
                == Ok::<bool, Error>(false) && final(self).flood_filled(
                old(self),
                old(self).index_spec(coord),
            ),
            old(self).in_grid(coord) && old(self).seen_set().contains(
                old(self).index_spec(coord) as usize,
            ) ==> final(self).tiles@ == old(self).tiles@ && final(self).seen_set() == old(
                self,
            ).seen_set(),
            forall|k: int|
                0 <= k < old(self).tiles@.len() && old(self).tiles@[k].exposed
                    ==> (#[trigger] final(self).tiles@[k]).exposed,
    {
        let (row, column) = coord;
        if !(row < self.rows && column < self.columns) {
            return Err(Error::GetTile(row, column));
        }
        let start = self.index_from_coord(coord);
        let ghost before = *self;
        let n = self.tiles.len();
        if self.tiles[start].mine {
            self.tiles[start].exposed = true;
            proof {
                assert(mine_set(self.tiles@) =~= mine_set(before.tiles@));
                assert(safe_set(self.tiles@) =~= safe_set(before.tiles@));
                assert(flagged_set(self.tiles@) =~= flagged_set(before.tiles@));
                assert forall|i: int| 0 <= i < self.tiles@.len() implies #[trigger] self.tile_wf(
                    i,
                ) by {
                    assert(before.tile_wf(i));
                }
            }
            return Ok(true);
        }
        proof {
            lemma_cell_sets(before.tiles@);
            lemma_index_range(n as nat);
            vstd::set_lib::lemma_len_subset(safe_set(before.tiles@), index_range(n as nat));
        }
        let mut pending: Vec<usize> = Vec::new();
        pending.push(start);
        proof {
            assert(before.is_flood_path(start as int, seq![start]));
        }
        while pending.len() > 0
            invariant
                n == self.tiles@.len(),
                n == before.tiles@.len(),
                before.wf(),
                start < n,
                !before.tiles@[start as int].mine,
                safe_set(before.tiles@).len() <= n,
                self.same_layout(&before),
                self.seen_set().finite(),
                before.seen_set().subset_of(self.seen_set()),
                self.seen_set().subset_of(safe_set(before.tiles@)),
                forall|k: int|
                    0 <= k < n ==> (#[trigger] self.tiles@[k]).exposed == if self.seen_set().contains(
                        k as usize,
                    ) && !before.seen_set().contains(k as usize) {
                        !before.tiles@[k].flagged
                    } else {
                        before.tiles@[k].exposed
                    },
                forall|m: int|
                    0 <= m < pending@.len() ==> safe_set(before.tiles@).contains(
                        #[trigger] pending@[m],
                    ),
                self.seen_set().contains(start) || pending@.contains(start),
                forall|m: int|
                    0 <= m < pending@.len() ==> before.flood_reaches(
                        start as int,
                        #[trigger] pending@[m],
                    ),
                forall|k: usize|
                    #[trigger] self.seen_set().contains(k) && !before.seen_set().contains(k)
                        ==> before.flood_reaches(start as int, k),
                before.seen_set().contains(start) ==> self.tiles@ == before.tiles@
                    && self.seen_set() == before.seen_set() && (pending@.len() == 0 || pending@
                    == seq![start]),
                forall|k: usize|
                    #[trigger] self.seen_set().contains(k) && !before.seen_set().contains(k)
                        && self.tiles@[k as int].adjacent_mines == 0 ==> forall|j: usize|
                        #[trigger] neighbors_of(
                            k as int,
                            self.rows as int,
                            self.columns as int,
                        ).contains(j) ==> self.seen_set().contains(j) || pending@.contains(j),
            decreases n - self.seen_set().len(), pending@.len(),
        {
            let ghost seen_before = self.seen_set();
            let ghost pending_before = pending@;
            proof {
                vstd::set_lib::lemma_len_subset(seen_before, safe_set(before.tiles@));
            }
            let x = pending.pop().unwrap();
            assert(pending_before == pending@.push(x));
            assert(forall|j: usize| pending_before.contains(j) ==> j == x || pending@.contains(j));
            assert(safe_set(before.tiles@).contains(x));
            if set_insert(&mut self.seen, x) {
                proof {
                    assert(!before.seen_set().contains(x));
                    vstd::set::axiom_set_insert_len(seen_before, x);
                    vstd::set_lib::lemma_len_subset(self.seen_set(), safe_set(before.tiles@));
                }
                let tile_mine = self.tiles[x].mine;
                let tile_flagged = self.tiles[x].flagged;
                self.tiles[x].exposed = !(tile_mine || tile_flagged);
                if self.tiles[x].adjacent_mines == 0 {
                    let mut more = set_to_vec(&self.tiles[x].adjacent_tiles);
                    proof {
                        assert(before.tile_wf(x as int));
                        assert(self.tiles@[x as int].adjacent_tiles
                            == before.tiles@[x as int].adjacent_tiles);
                        let p = choose|p: Seq<usize>|
                            #[trigger] before.is_flood_path(start as int, p) && p.last() == x;
                        assert forall|m: int| 0 <= m < more@.len() implies before.flood_reaches(
                            start as int,
                            #[trigger] more@[m],
                        ) by {
                            let j = more@[m];
                            assert(more@.to_set().contains(j));
                            let q = p.push(j);
                            assert forall|t: int| 0 <= t < q.len() - 1 implies {
                                &&& !before.seen_set().contains(#[trigger] q[t])
                                &&& q[t] < before.tiles@.len()
                                &&& before.tiles@[q[t] as int].adjacent_mines == 0
                                &&& neighbors_of(
                                    q[t] as int,
                                    before.rows as int,
                                    before.columns as int,
                                ).contains(q[t + 1])
                            } by {
                                if t < p.len() - 1 {
                                    assert(q[t] == p[t] && q[t + 1] == p[t + 1]);
                                    assert(!before.seen_set().contains(p[t]));
                                } else {
                                    assert(q[t] == x && q[t + 1] == j);
                                    assert(!before.seen_set().contains(x));
                                    assert(before.tiles@[x as int].adjacent_mines == 0);
                                    assert(neighbors_of(
                                        x as int,
                                        before.rows as int,
                                        before.columns as int,
                                    ).contains(j));
                                }
                            }
                            assert(before.is_flood_path(start as int, q));
                            assert(q.last() == j);
                        }
                        assert(before.tile_wf(x as int));
                        lemma_no_mine_neighbor(&before, x as int);
                        assert forall|m: int| 0 <= m < more@.len() implies safe_set(
                            before.tiles@,
                        ).contains(#[trigger] more@[m]) by {
                            assert(more@.to_set().contains(more@[m]));
                        }
                    }
                    pending.append(&mut more);
                }
            }
        }
        proof {
            assert(mine_set(self.tiles@) =~= mine_set(before.tiles@));
            assert(safe_set(self.tiles@) =~= safe_set(before.tiles@));
            assert(flagged_set(self.tiles@) =~= flagged_set(before.tiles@));
            assert forall|i: int| 0 <= i < self.tiles@.len() implies #[trigger] self.tile_wf(i) by {
                assert(before.tile_wf(i));
            }
        }
        Ok(false)
    }
}

} // verus!
