//! The floor plan of one storey, and the name that identifies a storey.

use vstd::prelude::*;
use crate::route::{at, in_grid, open_cells};
use crate::storey::{MapMarker, StoreyTable};
use crate::tile::TileType;

verus! {

/// A rectangular floor plan: `tiles[row][column]`.
#[derive(Clone, Debug)]
pub struct TileMap {
    pub tiles: Vec<Vec<TileType>>,
}

/// Whether all rows of `grid` have the same length.
pub open spec fn rectangular<T>(grid: Seq<Vec<T>>) -> bool {
    forall|i: int| 0 <= i < grid.len() ==> (#[trigger] grid[i]).len() == grid[0].len()
}

/// The number of columns of `grid`: the length of its first row, 0 without one.
pub open spec fn width<T>(grid: Seq<Vec<T>>) -> nat {
    if grid.len() == 0 {
        0
    } else {
        grid[0].len() as nat
    }
}

/// Whether `grid` is a rectangle of `rows` by `cols` cells.
pub open spec fn has_shape<T>(grid: Seq<Vec<T>>, rows: nat, cols: nat) -> bool {
    &&& grid.len() == rows
    &&& forall|i: int| 0 <= i < grid.len() ==> (#[trigger] grid[i]).len() == cols
}

/// A grid of `rows` by `cols` cells, each holding a copy of `fill`.
pub fn filled<T: Copy>(rows: usize, cols: usize, fill: T) -> (grid: Vec<Vec<T>>)
    ensures
        has_shape(grid@, rows as nat, cols as nat),
        forall|i: int, j: int| 0 <= i < rows && 0 <= j < cols ==> (#[trigger] grid[i][j]) == fill,
{
    let mut grid: Vec<Vec<T>> = Vec::new();
    let mut i: usize = 0;
    while i < rows
        invariant
            i <= rows,
            has_shape(grid@, i as nat, cols as nat),
            forall|a: int, b: int| 0 <= a < i && 0 <= b < cols ==> (#[trigger] grid[a][b]) == fill,
        decreases rows - i,
    {
        let mut row: Vec<T> = Vec::new();
        let mut j: usize = 0;
        while j < cols
            invariant
                j <= cols,
                row.len() == j,
                forall|b: int| 0 <= b < j ==> (#[trigger] row[b]) == fill,
            decreases cols - j,
        {
            row.push(fill);
            j += 1;
        }
        grid.push(row);
        i += 1;
    }
    grid
}

/// The cells of a plan on which someone who has left the building walks.
pub open spec fn outside(tiles: Seq<Vec<TileType>>) -> Set<(usize, usize)> {
    Set::new(|c: (usize, usize)| in_grid(tiles, c) && at(tiles, c).open_outside())
}

impl TileMap {
    /// For each cell whether someone who has left the building walks on it.
    pub fn outside_grid(&self) -> (grid: Vec<Vec<bool>>)
        requires
            self.wf(),
        ensures
            has_shape(grid@, self.rows(), self.cols()),
            open_cells(grid@) == outside(self.tiles@),
    {
        let rows = self.tiles.len();
        let mut grid: Vec<Vec<bool>> = Vec::new();
        let mut i: usize = 0;
        while i < rows
            invariant
                i <= rows,
                rows == self.rows(),
                self.wf(),
                has_shape(grid@, i as nat, self.cols()),
                forall|a: int, b: int|
                    0 <= a < i && 0 <= b < self.cols() ==> (#[trigger] grid[a][b])
                        == self.tiles[a][b].open_outside(),
            decreases rows - i,
        {
            let cols = self.tiles[i].len();
            let mut row: Vec<bool> = Vec::new();
            let mut j: usize = 0;
            while j < cols
                invariant
                    i < rows,
                    j <= cols,
                    rows == self.rows(),
                    cols == self.cols(),
                    self.wf(),
                    row.len() == j,
                    forall|b: int|
                        0 <= b < j ==> (#[trigger] row[b]) == self.tiles[i as int][b].open_outside(),
                decreases cols - j,
            {
                let tile = self.tiles[i][j];
                row.push(tile == TileType::Stone || tile == TileType::SavePlace || tile
                    == TileType::Exit);
                j += 1;
            }
            grid.push(row);
            i += 1;
        }
        proof {
            assert forall|c: (usize, usize)|
                open_cells(grid@).contains(c) == outside(self.tiles@).contains(c) by {
                if in_grid(self.tiles@, c) {
                    assert(grid[c.0 as int][c.1 as int]
                        == self.tiles[c.0 as int][c.1 as int].open_outside());
                }
            }
            assert(open_cells(grid@) =~= outside(self.tiles@));
        }
        grid
    }

    /// The plan is a rectangle.
    pub open spec fn wf(&self) -> bool {
        rectangular(self.tiles@)
    }

    /// The number of rows.
    pub open spec fn rows(&self) -> nat {
        self.tiles@.len()
    }

    /// The number of columns.
    pub open spec fn cols(&self) -> nat {
        width(self.tiles@)
    }

    /// Whether `(i, j)` is a cell of the plan.
    pub open spec fn has_cell(&self, i: int, j: int) -> bool {
        0 <= i < self.rows() && 0 <= j < self.cols()
    }

    /// The tile on cell `(i, j)`.
    pub open spec fn tile(&self, i: int, j: int) -> TileType {
        self.tiles[i][j]
    }

    /// A plan of `row` by `col` cells, all of them floor.
    pub fn new(row: usize, col: usize) -> (plan: TileMap)
        ensures
            plan.wf(),
            plan.rows() == row,
            row > 0 ==> plan.cols() == col,
            forall|i: int, j: int| 0 <= i < row && 0 <= j < col ==> plan.tile(i, j) == TileType::Floor,
    {
        TileMap { tiles: filled(row, col, TileType::Floor) }
    }

    /// The tile on cell `(row, col)`.
    pub fn get_tile(&self, row: usize, col: usize) -> (tile: TileType)
        requires
            self.wf(),
            self.has_cell(row as int, col as int),
        ensures
            tile == self.tile(row as int, col as int),
    {
        self.tiles[row][col]
    }

    /// Puts `tile` on cell `(row, col)`.
    pub fn set_tile(&mut self, row: usize, col: usize, tile: TileType)
        requires
            old(self).wf(),
            old(self).has_cell(row as int, col as int),
        ensures
            final(self).wf(),
            final(self).rows() == old(self).rows(),
            final(self).cols() == old(self).cols(),
            final(self).tile(row as int, col as int) == tile,
            forall|i: int, j: int|
                old(self).has_cell(i, j) && (i != row || j != col) ==> final(self).tile(i, j)
                    == old(self).tile(i, j),
    {
        self.tiles[row][col] = tile;
    }

    /// The numbers of rows and of columns.
    pub fn get_size(&self) -> (size: (usize, usize))
        ensures
            size.0 == self.rows(),
            size.1 == self.cols(),
    {
        if self.tiles.len() == 0 {
            (0, 0)
        } else {
            (self.tiles.len(), self.tiles[0].len())
        }
    }

    /// A second plan with the same tiles.
    pub fn copy(&self) -> (plan: TileMap)
        requires
            self.wf(),
        ensures
            plan.wf(),
            plan.rows() == self.rows(),
            plan.cols() == self.cols(),
            forall|i: int, j: int| self.has_cell(i, j) ==> #[trigger] plan.tile(i, j) == self.tile(i, j),
    {
        let rows = self.tiles.len();
        let mut tiles: Vec<Vec<TileType>> = Vec::new();
        let mut i: usize = 0;
        while i < rows
            invariant
                i <= rows,
                rows == self.rows(),
                self.wf(),
                has_shape(tiles@, i as nat, self.cols()),
                forall|a: int, b: int|
                    0 <= a < i && 0 <= b < self.cols() ==> (#[trigger] tiles[a][b]) == self.tiles[a][b],
            decreases rows - i,
        {
            let cols = self.tiles[i].len();
            let mut row: Vec<TileType> = Vec::new();
            let mut j: usize = 0;
            while j < cols
                invariant
                    i < rows,
                    j <= cols,
                    rows == self.rows(),
                    cols == self.cols(),
                    self.wf(),
                    row.len() == j,
                    forall|b: int| 0 <= b < j ==> (#[trigger] row[b]) == self.tiles[i as int][b],
                decreases cols - j,
            {
                row.push(self.tiles[i][j]);
                j += 1;
            }
            tiles.push(row);
            i += 1;
        }
        TileMap { tiles }
    }

    /// Turns every cell into floor.
    pub fn clean(&mut self)
        requires
            old(self).wf(),
        ensures
            final(self).wf(),
            final(self).rows() == old(self).rows(),
            final(self).cols() == old(self).cols(),
            forall|i: int, j: int|
                final(self).has_cell(i, j) ==> #[trigger] final(self).tile(i, j) == TileType::Floor,
    {
        let (row, col) = self.get_size();
        let mut i: usize = 0;
        while i < row
            invariant
                i <= row,
                self.wf(),
                self.rows() == row,
                self.cols() == col,
                forall|a: int, b: int|
                    0 <= a < i && 0 <= b < col ==> #[trigger] self.tile(a, b) == TileType::Floor,
            decreases row - i,
        {
            let mut j: usize = 0;
            while j < col
                invariant
                    i < row,
                    j <= col,
                    self.wf(),
                    self.rows() == row,
                    self.cols() == col,
                    forall|a: int, b: int|
                        0 <= a < row && 0 <= b < col && (a < i || (a == i && b < j))
                            ==> #[trigger] self.tile(a, b) == TileType::Floor,
                decreases col - j,
            {
                self.set_tile(i, j, TileType::Floor);
                j += 1;
            }
            i += 1;
        }
    }
}

/// The floor plans of a building, one per storey, and the storey on show.
#[derive(Clone, Debug)]
pub struct MapAlbum {
    pub maps: StoreyTable<TileMap>,
    pub now_map: MapMarker,
}

impl MapAlbum {
    /// No storey occurs twice, and every plan is a rectangle.
    pub open spec fn wf(&self) -> bool {
        &&& self.maps.wf()
        &&& forall|k: int| 0 <= k < self.maps.count() ==> (#[trigger] self.maps.entries[k]).1.wf()
    }

    /// An album without plans, which shows the storey "default".
    pub fn new() -> (album: MapAlbum)
        ensures
            album.wf(),
            album.maps.count() == 0,
            album.now_map@ == "default"@,
    {
        MapAlbum { maps: StoreyTable::new(), now_map: MapMarker::named("default") }
    }

    /// Puts `map` in as the plan of the storey `name`.
    pub fn add_map(&mut self, name: String, map: TileMap)
        requires
            old(self).wf(),
            map.wf(),
        ensures
            final(self).wf(),
            final(self).now_map == old(self).now_map,
            final(self).maps.has(name@),
            final(self).maps@ == old(self).maps@.insert(name@, map),
            final(self).maps.entries[final(self).maps.place(name@)].1 == map,
            old(self).maps.has(name@) ==> final(self).maps.count() == old(self).maps.count(),
            !old(self).maps.has(name@) ==> final(self).maps.count() == old(self).maps.count() + 1,
            forall|k: int|
                0 <= k < old(self).maps.count() && old(self).maps.entries[k].0@ != name@
                    ==> (#[trigger] final(self).maps.entries[k]) == old(self).maps.entries[k],
    {
        let ghost place = if self.maps.has(name@) {
            self.maps.place(name@)
        } else {
            self.maps.count() as int
        };
        self.maps.insert(MapMarker { name }, map);
        proof {
            assert forall|k: int| 0 <= k < self.maps.count() implies (
            #[trigger] self.maps.entries[k]).1.wf() by {
                if k != place {
                    if k < old(self).maps.count() {
                        if old(self).maps.entries[k].0@ == name@ {
                            assert(old(self).maps.at(k, name@));
                            old(self).maps.lemma_place(k, name@);
                        }
                        assert(self.maps.entries[k] == old(self).maps.entries[k]);
                    }
                }
            }
        }
    }

    /// Takes the plan of the storey `name` out, if the album has it.
    pub fn remove_map(&mut self, name: &MapMarker)
        requires
            old(self).wf(),
        ensures
            final(self).wf(),
            final(self).now_map == old(self).now_map,
            !final(self).maps.has(name@),
            old(self).maps.has(name@) ==> final(self).maps.entries@
                == old(self).maps.entries@.remove(old(self).maps.place(name@)),
            !old(self).maps.has(name@) ==> final(self).maps.entries@ == old(self).maps.entries@,
    {
        let _ = self.maps.remove(name);
        proof {
            if old(self).maps.has(name@) {
                let p = old(self).maps.place(name@);
                assert(old(self).maps.at(p, name@));
                assert forall|k: int| 0 <= k < self.maps.count() implies (
                #[trigger] self.maps.entries[k]).1.wf() by {
                    let k0 = if k < p { k } else { k + 1 };
                    assert(self.maps.entries[k] == old(self).maps.entries[k0]);
                }
            }
        }
    }

    /// The plans by the names of their storeys, in the order of the album.
    pub fn into_string_map(&self) -> (plans: Vec<(String, TileMap)>)
        requires
            self.wf(),
        ensures
            plans@.len() == self.maps.count(),
            forall|k: int|
                0 <= k < self.maps.count() ==> {
                    let named = #[trigger] plans[k];
                    let entry = self.maps.entries[k];
                    &&& named.0@ == entry.0@
                    &&& named.1.wf()
                    &&& named.1.rows() == entry.1.rows()
                    &&& named.1.cols() == entry.1.cols()
                    &&& forall|i: int, j: int|
                        entry.1.has_cell(i, j) ==> #[trigger] named.1.tile(i, j) == entry.1.tile(i, j)
                },
    {
        let mut plans: Vec<(String, TileMap)> = Vec::new();
        let mut k: usize = 0;
        while k < self.maps.entries.len()
            invariant
                k <= self.maps.count(),
                self.wf(),
                plans@.len() == k,
                forall|a: int|
                    0 <= a < k ==> {
                        let named = #[trigger] plans[a];
                        let entry = self.maps.entries[a];
                        &&& named.0@ == entry.0@
                        &&& named.1.wf()
                        &&& named.1.rows() == entry.1.rows()
                        &&& named.1.cols() == entry.1.cols()
                        &&& forall|i: int, j: int|
                            entry.1.has_cell(i, j) ==> #[trigger] named.1.tile(i, j) == entry.1.tile(
                                i,
                                j,
                            )
                    },
            decreases self.maps.count() - k,
        {
            assert(self.maps.entries[k as int].1.wf());
            let name = self.maps.entries[k].0.name.clone();
            let plan = self.maps.entries[k].1.copy();
            plans.push((name, plan));
            k += 1;
        }
        plans
    }

    /// The album of the plans `plans`, each under its name; of two plans of
    /// one name the later one stays. It shows the storey "default".
    pub fn from_string_map(plans: Vec<(String, TileMap)>) -> (album: MapAlbum)
        requires
            forall|k: int| 0 <= k < plans@.len() ==> (#[trigger] plans[k]).1.wf(),
        ensures
            album.wf(),
            album.now_map@ == "default"@,
            forall|name: Seq<char>|
                album.maps.has(name) <==> exists|k: int|
                    0 <= k < plans@.len() && (#[trigger] plans[k]).0@ == name,
            forall|k: int|
                0 <= k < plans@.len() && (forall|later: int|
                    k < later < plans@.len() ==> (#[trigger] plans[later]).0@ != plans[k].0@)
                    ==> album.maps@[(#[trigger] plans[k]).0@] == plans[k].1,
    {
        let mut album = MapAlbum::new();
        let ghost all = plans@;
        let mut plans = plans;
        let mut k: usize = 0;
        let count = plans.len();
        while k < count
            invariant
                k <= count == all.len(),
                plans@.len() == count - k,
                forall|a: int| 0 <= a < plans@.len() ==> #[trigger] plans[a] == all[k + a],
                forall|a: int| 0 <= a < all.len() ==> (#[trigger] all[a]).1.wf(),
                album.wf(),
                album.now_map@ == "default"@,
                forall|name: Seq<char>|
                    album.maps.has(name) <==> exists|a: int|
                        0 <= a < k && (#[trigger] all[a]).0@ == name,
                forall|a: int|
                    0 <= a < k && (forall|later: int|
                        a < later < k ==> (#[trigger] all[later]).0@ != all[a].0@)
                        ==> album.maps@[(#[trigger] all[a]).0@] == all[a].1,
            decreases count - k,
        {
            let ghost before = album.maps;
            let ghost rest = plans@;
            assert(plans[0] == all[k as int]);
            let named = plans.remove(0);
            let ghost name = named.0@;
            album.add_map(named.0, named.1);
            proof {
                assert forall|a: int| 0 <= a < plans@.len() implies #[trigger] plans[a] == all[k + 1
                    + a] by {
                    assert(plans[a] == rest[a + 1]);
                }
                assert(album.maps@ == before@.insert(name, all[k as int].1));
                assert forall|x: Seq<char>|
                    album.maps.has(x) <==> exists|a: int|
                        0 <= a < k + 1 && (#[trigger] all[a]).0@ == x by {
                    assert(album.maps.has(x) == album.maps@.dom().contains(x));
                    assert(before.has(x) == before@.dom().contains(x));
                    if album.maps.has(x) {
                        if x == name {
                            assert(all[k as int].0@ == x);
                        } else {
                            assert(before.has(x));
                            let a = choose|a: int| 0 <= a < k && (#[trigger] all[a]).0@ == x;
                            assert(0 <= a < k + 1 && all[a].0@ == x);
                        }
                    }
                    if exists|a: int| 0 <= a < k + 1 && (#[trigger] all[a]).0@ == x {
                        let a = choose|a: int| 0 <= a < k + 1 && (#[trigger] all[a]).0@ == x;
                        if a < k {
                            assert(before.has(x));
                        }
                    }
                }
                assert forall|a: int|
                    0 <= a < k + 1 && (forall|later: int|
                        a < later < k + 1 ==> (#[trigger] all[later]).0@ != all[a].0@)
                            implies album.maps@[(
                #[trigger] all[a]).0@] == all[a].1 by {
                    if a < k {
                        assert(all[k as int].0@ != all[a].0@);
                        assert forall|later: int| a < later < k implies (#[trigger] all[later]).0@
                            != all[a].0@ by {}
                    }
                }
            }
            k += 1;
        }
        album
    }

    /// Turns every cell of every plan into floor.
    pub fn clean(&mut self)
        requires
            old(self).wf(),
        ensures
            final(self).wf(),
            final(self).now_map == old(self).now_map,
            final(self).maps.count() == old(self).maps.count(),
            forall|k: int|
                0 <= k < old(self).maps.count() ==> {
                    let before = old(self).maps.entries[k];
                    let after = #[trigger] final(self).maps.entries[k];
                    &&& after.0 == before.0
                    &&& after.1.rows() == before.1.rows()
                    &&& after.1.cols() == before.1.cols()
                    &&& forall|i: int, j: int|
                        after.1.has_cell(i, j) ==> #[trigger] after.1.tile(i, j) == TileType::Floor
                },
    {
        let mut k: usize = 0;
        while k < self.maps.entries.len()
            invariant
                k <= self.maps.count(),
                self.wf(),
                self.now_map == old(self).now_map,
                self.maps.count() == old(self).maps.count(),
                forall|a: int|
                    0 <= a < old(self).maps.count() ==> (#[trigger] self.maps.entries[a]).0
                        == old(self).maps.entries[a].0,
                forall|a: int|
                    k <= a < old(self).maps.count() ==> (#[trigger] self.maps.entries[a])
                        == old(self).maps.entries[a],
                forall|a: int|
                    0 <= a < k ==> {
                        let before = old(self).maps.entries[a];
                        let after = #[trigger] self.maps.entries[a];
                        &&& after.1.rows() == before.1.rows()
                        &&& after.1.cols() == before.1.cols()
                        &&& forall|i: int, j: int|
                            after.1.has_cell(i, j) ==> #[trigger] after.1.tile(i, j)
                                == TileType::Floor
                    },
            decreases self.maps.count() - k,
        {
            self.maps.entries[k].1.clean();
            k += 1;
        }
    }
}

impl Default for MapAlbum {
    /// An album with the one storey "map0": 40 rows of 50 cells of floor.
    fn default() -> (album: MapAlbum)
        ensures
            album.wf(),
            album.maps.count() == 1,
            album.now_map@ == "map0"@,
            album.maps.entries[0].0@ == "map0"@,
            album.maps.entries[0].1.rows() == 40,
            album.maps.entries[0].1.cols() == 50,
            forall|i: int, j: int|
                0 <= i < 40 && 0 <= j < 50 ==> album.maps.entries[0].1.tile(i, j) == TileType::Floor,
    {
        let mut album = MapAlbum::new();
        album.add_map("map0".to_owned(), TileMap::new(40, 50));
        album.now_map = MapMarker::named("map0");
        proof {
            assert(album.maps.at(album.maps.place("map0"@), "map0"@));
        }
        album
    }
}

} // verus!
