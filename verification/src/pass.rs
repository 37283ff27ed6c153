//! Where people can walk on a storey, how dangerous each cell is, and where
//! the exits are.

use vstd::prelude::*;
use crate::plan::{filled, has_shape, rectangular, width, TileMap};
use crate::route::{at, in_grid};
use crate::smoke::{Smoke, StoreySmoke};
use crate::storey::StoreyTable;
use crate::tile::TileType;

verus! {

/// How dangerous a cell is: the density of the smoke on it, in thousandths.
#[derive(Clone, Copy, Debug, PartialEq, Eq, Structural)]
pub struct Danger {
    pub value: u64,
}

impl Default for Danger {
    fn default() -> (danger: Danger)
        ensures
            danger.value == 0,
    {
        Danger { value: 0 }
    }
}

/// Whether a cell can be walked on.
#[derive(Clone, Copy, Debug, PartialEq, Eq, Structural)]
pub enum Pass {
    Passable(Danger),
    Impassable,
}

/// The walkable cells of one storey, `map[row][column]`, and its exits.
#[derive(Clone, Debug)]
pub struct StoreyPass {
    pub map: Vec<Vec<Pass>>,
    pub exit: Vec<(usize, usize)>,
}

/// What a fresh field holds on a cell with the tile `tile`.
pub open spec fn pass_of_tile(tile: TileType) -> Pass {
    if tile.blocks_walking() {
        Pass::Impassable
    } else {
        Pass::Passable(Danger { value: 0 })
    }
}

/// Whether cell `a` comes before cell `b` where cells are listed column by
/// column, and from the top down within a column.
pub open spec fn column_first(a: (usize, usize), b: (usize, usize)) -> bool {
    a.1 < b.1 || (a.1 == b.1 && a.0 < b.0)
}

/// Whether `exits` lists the exit cells of `plan`, each once, column by column.
pub open spec fn lists_exits(exits: Seq<(usize, usize)>, plan: &TileMap) -> bool {
    &&& forall|k: int|
        0 <= k < exits.len() ==> plan.has_cell((#[trigger] exits[k]).0 as int, exits[k].1 as int)
            && plan.tile(exits[k].0 as int, exits[k].1 as int) == TileType::Exit
    &&& forall|i: int, j: int|
        plan.has_cell(i, j) && #[trigger] plan.tile(i, j) == TileType::Exit ==> exists|k: int|
            0 <= k < exits.len() && #[trigger] exits[k] == (i as usize, j as usize)
    &&& forall|a: int, b: int|
        0 <= a < b < exits.len() ==> column_first(#[trigger] exits[a], #[trigger] exits[b])
}

/// The cells of `field` that can be walked on.
pub open spec fn walkable(field: Seq<Vec<Pass>>) -> Set<(usize, usize)> {
    Set::new(|c: (usize, usize)| in_grid(field, c) && at(field, c) is Passable)
}

/// What it costs to stand on the cell `c` of `field`: its danger in whole
/// units, the thousandths cut off.
pub open spec fn weight(field: Seq<Vec<Pass>>, c: (usize, usize)) -> nat {
    match at(field, c) {
        Pass::Passable(danger) => (danger.value / 1000) as nat,
        Pass::Impassable => 0,
    }
}

/// What refreshing from the smoke `smoke` makes of the cell `pass`.
pub open spec fn refreshed(pass: Pass, smoke: Smoke) -> Pass {
    match (pass, smoke) {
        (Pass::Passable(_), Smoke::Diffusible(density)) => Pass::Passable(
            Danger { value: density.value },
        ),
        _ => pass,
    }
}

impl StoreyPass {
    /// The field is a rectangle.
    pub open spec fn wf(&self) -> bool {
        rectangular(self.map@)
    }

    /// The number of rows.
    pub open spec fn rows(&self) -> nat {
        self.map@.len()
    }

    /// The number of columns.
    pub open spec fn cols(&self) -> nat {
        width(self.map@)
    }

    /// Whether the field has one cell for each cell of `plan`.
    pub open spec fn fits(&self, plan: &TileMap) -> bool {
        self.rows() == plan.rows() && self.cols() == plan.cols()
    }

    /// For each cell whether it can be walked on.
    pub fn open_grid(&self) -> (grid: Vec<Vec<bool>>)
        requires
            self.wf(),
        ensures
            has_shape(grid@, self.rows(), self.cols()),
            crate::route::open_cells(grid@) == walkable(self.map@),
    {
        let rows = self.map.len();
        let mut grid: Vec<Vec<bool>> = Vec::new();
        let mut i: usize = 0;
        while i < rows
            invariant
                i <= rows,
                rows == self.rows(),
                self.wf(),
                has_shape(grid@, i as nat, self.cols()),
                forall|a: int, b: int|
                    0 <= a < i && 0 <= b < self.cols() ==> (#[trigger] grid[a][b]) == (
                    self.map[a][b] is Passable),
            decreases rows - i,
        {
            let cols = self.map[i].len();
            let mut row: Vec<bool> = Vec::new();
            let mut j: usize = 0;
            while j < cols
                invariant
                    i < rows,
                    j <= cols,
                    rows == self.rows(),
                    cols == self.cols(),
                    self.wf(),
                    row.len() == j,
                    forall|b: int|
                        0 <= b < j ==> (#[trigger] row[b]) == (self.map[i as int][b] is Passable),
                decreases cols - j,
            {
                let open = match self.map[i][j] {
                    Pass::Passable(_) => true,
                    Pass::Impassable => false,
                };
                row.push(open);
                j += 1;
            }
            grid.push(row);
            i += 1;
        }
        proof {
            assert forall|c: (usize, usize)|
                crate::route::open_cells(grid@).contains(c) == walkable(self.map@).contains(c) by {
                if in_grid(self.map@, c) {
                    assert(grid[c.0 as int][c.1 as int]
                        == (self.map[c.0 as int][c.1 as int] is Passable));
                }
            }
            assert(crate::route::open_cells(grid@) =~= walkable(self.map@));
        }
        grid
    }

    /// A field of `rows` by `cols` cells, all of them walkable and without
    /// danger, and without exits.
    pub fn new(rows: usize, cols: usize) -> (field: StoreyPass)
        ensures
            field.wf(),
            has_shape(field.map@, rows as nat, cols as nat),
            field.exit@.len() == 0,
            forall|i: int, j: int|
                0 <= i < rows && 0 <= j < cols ==> (#[trigger] field.map[i][j]) == Pass::Passable(
                    Danger { value: 0 },
                ),
    {
        StoreyPass {
            map: filled(rows, cols, Pass::Passable(Danger { value: 0 })),
            exit: Vec::new(),
        }
    }

    /// Closes the cells of walls, furniture and stone, and lists the exits of
    /// `map` column by column. The other cells stay as they are.
    pub fn init_from_map(&mut self, map: &TileMap)
        requires
            old(self).wf(),
            map.wf(),
            old(self).fits(map),
        ensures
            final(self).wf(),
            final(self).fits(map),
            forall|i: int, j: int|
                map.has_cell(i, j) ==> (#[trigger] final(self).map[i][j]) == (if map.tile(
                    i,
                    j,
                ).blocks_walking() {
                    Pass::Impassable
                } else {
                    old(self).map[i][j]
                }),
            lists_exits(final(self).exit@, map),
    {
        let (rows, cols) = map.get_size();
        let mut i: usize = 0;
        while i < rows
            invariant
                i <= rows,
                rows == map.rows(),
                cols == map.cols(),
                map.wf(),
                self.wf(),
                self.fits(map),
                self.exit == old(self).exit,
                forall|a: int, b: int|
                    map.has_cell(a, b) ==> (#[trigger] self.map[a][b]) == (if a < i && map.tile(
                        a,
                        b,
                    ).blocks_walking() {
                        Pass::Impassable
                    } else {
                        old(self).map[a][b]
                    }),
            decreases rows - i,
        {
            let mut j: usize = 0;
            while j < cols
                invariant
                    i < rows,
                    j <= cols,
                    rows == map.rows(),
                    cols == map.cols(),
                    map.wf(),
                    self.wf(),
                    self.fits(map),
                    self.exit == old(self).exit,
                    forall|a: int, b: int|
                        map.has_cell(a, b) ==> (#[trigger] self.map[a][b]) == (if (a < i || (a == i
                            && b < j)) && map.tile(a, b).blocks_walking() {
                            Pass::Impassable
                        } else {
                            old(self).map[a][b]
                        }),
                decreases cols - j,
            {
                let tile = map.tiles[i][j];
                if tile == TileType::Wall || tile == TileType::Furniture || tile == TileType::Stone {
                    self.map[i][j] = Pass::Impassable;
                }
                j += 1;
            }
            i += 1;
        }
        self.exit = exits_of(map);
    }

    /// Takes the danger of every walkable cell from the smoke on it. Cells
    /// that smoke never enters keep the danger that they had.
    pub fn update_from_smoke(&mut self, smoke: &StoreySmoke)
        requires
            old(self).wf(),
            smoke.wf(),
            old(self).rows() == smoke.rows(),
            old(self).cols() == smoke.cols(),
        ensures
            final(self).wf(),
            final(self).rows() == old(self).rows(),
            final(self).cols() == old(self).cols(),
            final(self).exit == old(self).exit,
            forall|i: int, j: int|
                0 <= i < old(self).rows() && 0 <= j < old(self).cols() ==> (
                #[trigger] final(self).map[i][j]) == refreshed(old(self).map[i][j], smoke.map[i][j]),
            walkable(final(self).map@) == walkable(old(self).map@),
    {
        let rows = self.map.len();
        let mut i: usize = 0;
        while i < rows
            invariant
                i <= rows,
                rows == self.rows(),
                self.wf(),
                smoke.wf(),
                self.rows() == old(self).rows(),
                self.cols() == old(self).cols(),
                self.rows() == smoke.rows(),
                self.cols() == smoke.cols(),
                self.exit == old(self).exit,
                forall|a: int, b: int|
                    0 <= a < self.rows() && 0 <= b < self.cols() ==> (#[trigger] self.map[a][b]) == (
                    if a < i {
                        refreshed(old(self).map[a][b], smoke.map[a][b])
                    } else {
                        old(self).map[a][b]
                    }),
            decreases rows - i,
        {
            let cols = self.map[i].len();
            let mut j: usize = 0;
            while j < cols
                invariant
                    i < rows,
                    j <= cols,
                    rows == self.rows(),
                    cols == self.cols(),
                    self.wf(),
                    smoke.wf(),
                    self.rows() == old(self).rows(),
                    self.cols() == old(self).cols(),
                    self.rows() == smoke.rows(),
                    self.cols() == smoke.cols(),
                    self.exit == old(self).exit,
                    forall|a: int, b: int|
                        0 <= a < self.rows() && 0 <= b < self.cols() ==> (
                        #[trigger] self.map[a][b]) == (if a < i || (a == i && b < j) {
                            refreshed(old(self).map[a][b], smoke.map[a][b])
                        } else {
                            old(self).map[a][b]
                        }),
                decreases cols - j,
            {
                match (self.map[i][j], smoke.map[i][j]) {
                    (Pass::Passable(_), Smoke::Diffusible(density)) => {
                        self.map[i][j] = Pass::Passable(Danger { value: density.value });
                    },
                    _ => {},
                }
                j += 1;
            }
            i += 1;
        }
        proof {
            assert forall|c: (usize, usize)|
                walkable(self.map@).contains(c) == walkable(old(self).map@).contains(c) by {
                if in_grid(self.map@, c) {
                    assert(self.map[c.0 as int][c.1 as int] == refreshed(
                        old(self).map[c.0 as int][c.1 as int],
                        smoke.map[c.0 as int][c.1 as int],
                    ));
                }
            }
            assert(walkable(self.map@) =~= walkable(old(self).map@));
        }
    }
}

/// The exit cells of `plan`, column by column.
pub fn exits_of(plan: &TileMap) -> (exits: Vec<(usize, usize)>)
    requires
        plan.wf(),
    ensures
        lists_exits(exits@, plan),
{
    let (rows, cols) = plan.get_size();
    let mut exits: Vec<(usize, usize)> = Vec::new();
    let mut j: usize = 0;
    while j < cols
        invariant
            j <= cols,
            rows == plan.rows(),
            cols == plan.cols(),
            plan.wf(),
            forall|k: int|
                0 <= k < exits@.len() ==> plan.has_cell(
                    (#[trigger] exits[k]).0 as int,
                    exits[k].1 as int,
                ) && plan.tile(exits[k].0 as int, exits[k].1 as int) == TileType::Exit && exits[k].1
                    < j,
            forall|a: int, b: int|
                plan.has_cell(a, b) && b < j && #[trigger] plan.tile(a, b) == TileType::Exit
                    ==> exists|k: int|
                    0 <= k < exits@.len() && #[trigger] exits[k] == (a as usize, b as usize),
            forall|a: int, b: int|
                0 <= a < b < exits@.len() ==> column_first(#[trigger] exits[a], #[trigger] exits[b]),
        decreases cols - j,
    {
        let mut i: usize = 0;
        while i < rows
            invariant
                i <= rows,
                j < cols,
                rows == plan.rows(),
                cols == plan.cols(),
                plan.wf(),
                forall|k: int|
                    0 <= k < exits@.len() ==> plan.has_cell(
                        (#[trigger] exits[k]).0 as int,
                        exits[k].1 as int,
                    ) && plan.tile(exits[k].0 as int, exits[k].1 as int) == TileType::Exit && (
                    exits[k].1 < j || (exits[k].1 == j && exits[k].0 < i)),
                forall|a: int, b: int|
                    plan.has_cell(a, b) && (b < j || (b == j && a < i)) && #[trigger] plan.tile(a, b)
                        == TileType::Exit ==> exists|k: int|
                        0 <= k < exits@.len() && #[trigger] exits[k] == (a as usize, b as usize),
                forall|a: int, b: int|
                    0 <= a < b < exits@.len() ==> column_first(
                        #[trigger] exits[a],
                        #[trigger] exits[b],
                    ),
            decreases rows - i,
        {
            if plan.tiles[i][j] == TileType::Exit {
                let ghost before = exits@;
                exits.push((i, j));
                proof {
                    assert forall|a: int, b: int|
                        plan.has_cell(a, b) && (b < j || (b == j && a < i + 1)) && #[trigger] plan.tile(
                            a,
                            b,
                        ) == TileType::Exit implies exists|k: int|
                        0 <= k < exits@.len() && #[trigger] exits[k] == (a as usize, b as usize) by {
                        if a == i && b == j {
                            assert(exits[before.len() as int] == (i, j));
                        } else {
                            let k = choose|k: int|
                                0 <= k < before.len() && #[trigger] before[k] == (
                                    a as usize,
                                    b as usize,
                                );
                            assert(exits[k] == before[k]);
                        }
                    }
                    assert forall|a: int, b: int| 0 <= a < b < exits@.len() implies column_first(
                        #[trigger] exits[a],
                        #[trigger] exits[b],
                    ) by {
                        if b == before.len() {
                            assert(exits[a] == before[a]);
                        } else {
                            assert(exits[a] == before[a]);
                            assert(exits[b] == before[b]);
                        }
                    }
                    assert forall|k: int| 0 <= k < exits@.len() implies plan.has_cell(
                        (#[trigger] exits[k]).0 as int,
                        exits[k].1 as int,
                    ) && plan.tile(exits[k].0 as int, exits[k].1 as int) == TileType::Exit && (
                    exits[k].1 < j || (exits[k].1 == j && exits[k].0 < i + 1)) by {
                        if k < before.len() {
                            assert(exits[k] == before[k]);
                        }
                    }
                }
            }
            i += 1;
        }
        j += 1;
    }
    exits
}

/// The walkable cells of a building, storey by storey.
#[derive(Clone, Debug)]
pub struct BuildingPass {
    pub maps: StoreyTable<StoreyPass>,
}

impl BuildingPass {
    /// No storey occurs twice, and every field is a rectangle.
    pub open spec fn wf(&self) -> bool {
        self.maps.wf() && self.maps.all(|field: StoreyPass| field.wf())
    }
}

/// Whether `field` is the field of the walkable cells of `plan` before any
/// danger: walls, furniture and stone are closed, every other cell is open
/// and without danger, and the exits are listed column by column.
pub open spec fn fresh_pass(field: StoreyPass, plan: TileMap) -> bool {
    &&& field.wf()
    &&& field.fits(&plan)
    &&& forall|i: int, j: int|
        plan.has_cell(i, j) ==> #[trigger] field.map[i][j] == pass_of_tile(plan.tile(i, j))
    &&& lists_exits(field.exit@, &plan)
}

impl Default for BuildingPass {
    fn default() -> (building: BuildingPass)
        ensures
            building.wf(),
            building.maps.count() == 0,
    {
        BuildingPass { maps: StoreyTable::new() }
    }
}

/// The first `i` cells of one list of the exits of `plan` are the first `i`
/// cells of any other.
proof fn lemma_exits_agree(a: Seq<(usize, usize)>, b: Seq<(usize, usize)>, plan: &TileMap, i: int)
    requires
        lists_exits(a, plan),
        lists_exits(b, plan),
        0 <= i <= a.len(),
    ensures
        i <= b.len(),
        forall|j: int| 0 <= j < i ==> #[trigger] a[j] == b[j],
    decreases i,
{
    if i > 0 {
        lemma_exits_agree(a, b, plan, i - 1);
        let c = a[i - 1];
        assert(plan.tile(c.0 as int, c.1 as int) == TileType::Exit);
        let k = choose|k: int|
            0 <= k < b.len() && #[trigger] b[k] == (c.0 as int as usize, c.1 as int as usize);
        assert(b[k] == c);
        if k < i - 1 {
            assert(a[k] == b[k]);
            assert(column_first(a[k], a[i - 1]));
        }
        if k > i - 1 {
            let d = b[i - 1];
            assert(column_first(b[i - 1], b[k]));
            assert(plan.tile(d.0 as int, d.1 as int) == TileType::Exit);
            let m = choose|m: int|
                0 <= m < a.len() && #[trigger] a[m] == (d.0 as int as usize, d.1 as int as usize);
            assert(a[m] == d);
            if m < i - 1 {
                assert(a[m] == b[m]);
                assert(column_first(b[m], b[i - 1]));
            } else if m > i - 1 {
                assert(column_first(a[i - 1], a[m]));
            }
        }
    }
}

/// A plan has one list of its exits.
pub proof fn lemma_exits_listed_once(a: Seq<(usize, usize)>, b: Seq<(usize, usize)>, plan: &TileMap)
    requires
        lists_exits(a, plan),
        lists_exits(b, plan),
    ensures
        a == b,
{
    lemma_exits_agree(a, b, plan, a.len() as int);
    lemma_exits_agree(b, a, plan, b.len() as int);
    assert(a =~= b);
}

/// Two fresh fields of the walkable cells of one plan have the same cells to
/// walk on and the same exits.
pub proof fn lemma_fresh_pass_once(first: StoreyPass, second: StoreyPass, plan: TileMap)
    requires
        fresh_pass(first, plan),
        fresh_pass(second, plan),
    ensures
        first.exit@ == second.exit@,
        walkable(first.map@) == walkable(second.map@),
        forall|c: (usize, usize)| in_grid(first.map@, c) == in_grid(second.map@, c),
{
    lemma_exits_listed_once(first.exit@, second.exit@, &plan);
    assert forall|c: (usize, usize)| in_grid(first.map@, c) == in_grid(second.map@, c) by {}
    assert forall|c: (usize, usize)| walkable(first.map@).contains(c) == walkable(second.map@).contains(
        c,
    ) by {
        if in_grid(first.map@, c) {
            assert(plan.has_cell(c.0 as int, c.1 as int));
            assert(first.map[c.0 as int][c.1 as int] == pass_of_tile(plan.tile(c.0 as int, c.1 as int)));
            assert(second.map[c.0 as int][c.1 as int] == pass_of_tile(plan.tile(c.0 as int, c.1 as int)));
        }
    }
    assert(walkable(first.map@) =~= walkable(second.map@));
}

} // verus!
