//! The smoke field of one storey: a density on every cell that smoke can
//! enter, evened out with the four neighbours once per tick.

use vstd::prelude::*;
use crate::plan::{filled, has_shape, rectangular, width, TileMap};
use crate::storey::StoreyTable;
use crate::tile::TileType;

verus! {

/// An amount of smoke, in thousandths.
#[derive(Clone, Copy, Debug, PartialEq, Eq, Structural)]
pub struct Density {
    pub value: u64,
}

impl Density {
    /// The amount `value`.
    pub fn new(value: u64) -> (density: Density)
        ensures
            density.value == value,
    {
        Density { value }
    }

    /// Adds `value`; the sum stops at the largest amount that can be held.
    pub fn density_up(&mut self, value: u64)
        ensures
            final(self).value == raised(old(self).value, value),
    {
        self.value = self.value.saturating_add(value);
    }
}

impl Default for Density {
    fn default() -> (density: Density)
        ensures
            density.value == 0,
    {
        Density { value: 0 }
    }
}

/// `value` added to `density`, held at the top of the range.
pub open spec fn raised(density: u64, value: u64) -> u64 {
    if density + value > u64::MAX {
        u64::MAX
    } else {
        (density + value) as u64
    }
}

/// The smoke on one cell.
#[derive(Clone, Copy, Debug, PartialEq, Eq, Structural)]
pub enum Smoke {
    /// Smoke enters the cell; it holds this much.
    Diffusible(Density),
    /// Smoke never enters the cell.
    InDiffusible,
}

impl Smoke {
    /// The density on the cell, 0 where smoke never enters.
    pub open spec fn density(self) -> u64 {
        match self {
            Smoke::Diffusible(density) => density.value,
            Smoke::InDiffusible => 0,
        }
    }

    /// A cell that smoke can enter, still clear.
    pub fn new_diffusible() -> (smoke: Smoke)
        ensures
            smoke == Smoke::Diffusible(Density { value: 0 }),
    {
        Smoke::Diffusible(Density { value: 0 })
    }

    /// Adds `value` to a cell that smoke can enter, and leaves any other as it is.
    pub fn density_up(&mut self, value: u64)
        ensures
            *final(self) == old(self).raised_by(value),
    {
        match *self {
            Smoke::Diffusible(density) => {
                let mut density = density;
                density.density_up(value);
                *self = Smoke::Diffusible(density);
            },
            Smoke::InDiffusible => {},
        }
    }

    /// The cell after `value` has been emitted into it.
    pub open spec fn raised_by(self, value: u64) -> Smoke {
        match self {
            Smoke::Diffusible(density) => Smoke::Diffusible(
                Density { value: raised(density.value, value) },
            ),
            Smoke::InDiffusible => Smoke::InDiffusible,
        }
    }

    /// The density on the cell, 0 where smoke never enters.
    pub fn get_density(&self) -> (value: u64)
        ensures
            value == self.density(),
    {
        match self {
            Smoke::Diffusible(density) => density.value,
            Smoke::InDiffusible => 0,
        }
    }
}

/// The cell that a smoke sprite covers.
#[derive(Clone, Copy, Debug, PartialEq, Eq)]
pub struct SmokeTile {
    pub pos: (usize, usize),
}

impl SmokeTile {
    /// The tile on cell `(i, j)`.
    pub fn new(i: usize, j: usize) -> (tile: SmokeTile)
        ensures
            tile.pos == (i, j),
    {
        SmokeTile { pos: (i, j) }
    }
}

/// The smoke of one storey: `map[row][column]`.
#[derive(Clone, Debug)]
pub struct StoreySmoke {
    pub map: Vec<Vec<Smoke>>,
}

/// Whether smoke can enter cell `(i, j)` of `field`; no, outside the field.
pub open spec fn diffusible_at(field: Seq<Vec<Smoke>>, i: int, j: int) -> bool {
    0 <= i < field.len() && 0 <= j < field[i].len() && field[i][j] is Diffusible
}

/// The density on cell `(i, j)` of `field`; 0 outside the field.
pub open spec fn density_at(field: Seq<Vec<Smoke>>, i: int, j: int) -> int {
    if 0 <= i < field.len() && 0 <= j < field[i].len() {
        field[i][j].density() as int
    } else {
        0
    }
}

/// 1 if smoke can enter cell `(i, j)` of `field`, else 0.
pub open spec fn open_count(field: Seq<Vec<Smoke>>, i: int, j: int) -> int {
    if diffusible_at(field, i, j) {
        1
    } else {
        0
    }
}

/// The densities of cell `(i, j)` and of its four neighbours, added up.
pub open spec fn neighbourhood_sum(field: Seq<Vec<Smoke>>, i: int, j: int) -> int {
    density_at(field, i, j) + density_at(field, i - 1, j) + density_at(field, i + 1, j)
        + density_at(field, i, j - 1) + density_at(field, i, j + 1)
}

/// How many of cell `(i, j)` and its four neighbours smoke can enter.
pub open spec fn neighbourhood_count(field: Seq<Vec<Smoke>>, i: int, j: int) -> int {
    open_count(field, i, j) + open_count(field, i - 1, j) + open_count(field, i + 1, j)
        + open_count(field, i, j - 1) + open_count(field, i, j + 1)
}

/// Cell `(i, j)` after one diffusion step of `field`: a cell that smoke can
/// enter takes the mean, rounded down, of its own density and those of the
/// neighbours that smoke can enter.
pub open spec fn diffused(field: Seq<Vec<Smoke>>, i: int, j: int) -> Smoke {
    match field[i][j] {
        Smoke::Diffusible(_) => Smoke::Diffusible(
            Density {
                value: (neighbourhood_sum(field, i, j) / neighbourhood_count(field, i, j)) as u64,
            },
        ),
        Smoke::InDiffusible => Smoke::InDiffusible,
    }
}

/// What a fresh smoke field holds on a cell with the tile `tile`.
pub open spec fn smoke_of_tile(tile: TileType) -> Smoke {
    if tile.blocks_smoke() {
        Smoke::InDiffusible
    } else {
        Smoke::Diffusible(Density { value: 0 })
    }
}

impl StoreySmoke {
    /// The field is a rectangle.
    pub open spec fn wf(&self) -> bool {
        rectangular(self.map@)
    }

    /// The number of rows.
    pub open spec fn rows(&self) -> nat {
        self.map@.len()
    }

    /// The number of columns.
    pub open spec fn cols(&self) -> nat {
        width(self.map@)
    }

    /// Whether the field has one cell for each cell of `plan`.
    pub open spec fn fits(&self, plan: &TileMap) -> bool {
        self.rows() == plan.rows() && self.cols() == plan.cols()
    }

    /// A field of `rows` by `cols` cells that smoke can enter, all clear.
    pub fn new(rows: usize, cols: usize) -> (field: StoreySmoke)
        ensures
            field.wf(),
            has_shape(field.map@, rows as nat, cols as nat),
            forall|i: int, j: int|
                0 <= i < rows && 0 <= j < cols ==> (#[trigger] field.map[i][j])
                    == Smoke::Diffusible(Density { value: 0 }),
    {
        StoreySmoke { map: filled(rows, cols, Smoke::Diffusible(Density { value: 0 })) }
    }

    /// Closes the cells of walls and exits to smoke. The other cells stay as they are.
    pub fn init_from_map(&mut self, map: &TileMap)
        requires
            old(self).wf(),
            map.wf(),
            old(self).fits(map),
        ensures
            final(self).wf(),
            final(self).fits(map),
            forall|i: int, j: int|
                map.has_cell(i, j) ==> (#[trigger] final(self).map[i][j]) == (if map.tile(
                    i,
                    j,
                ).blocks_smoke() {
                    Smoke::InDiffusible
                } else {
                    old(self).map[i][j]
                }),
    {
        let rows = map.tiles.len();
        let mut i: usize = 0;
        while i < rows
            invariant
                i <= rows,
                rows == map.rows(),
                map.wf(),
                self.wf(),
                self.fits(map),
                forall|a: int, b: int|
                    map.has_cell(a, b) ==> (#[trigger] self.map[a][b]) == (if a < i && map.tile(
                        a,
                        b,
                    ).blocks_smoke() {
                        Smoke::InDiffusible
                    } else {
                        old(self).map[a][b]
                    }),
            decreases rows - i,
        {
            let cols = map.tiles[i].len();
            let mut j: usize = 0;
            while j < cols
                invariant
                    i < rows,
                    j <= cols,
                    rows == map.rows(),
                    cols == map.cols(),
                    map.wf(),
                    self.wf(),
                    self.fits(map),
                    forall|a: int, b: int|
                        map.has_cell(a, b) ==> (#[trigger] self.map[a][b]) == (if (a < i || (a == i
                            && b < j)) && map.tile(a, b).blocks_smoke() {
                            Smoke::InDiffusible
                        } else {
                            old(self).map[a][b]
                        }),
                decreases cols - j,
            {
                let tile = map.tiles[i][j];
                if tile == TileType::Wall || tile == TileType::Exit {
                    self.map[i][j] = Smoke::InDiffusible;
                }
                j += 1;
            }
            i += 1;
        }
    }

    /// The smoke on cell `(i, j)` if smoke can enter it: its density and 1;
    /// else 0 and 0.
    fn share(&self, i: usize, j: usize) -> (share: (u64, u8))
        requires
            i < self.map@.len(),
            j < self.map[i as int].len(),
        ensures
            share.0 == density_at(self.map@, i as int, j as int),
            share.1 == open_count(self.map@, i as int, j as int),
    {
        match self.map[i][j] {
            Smoke::Diffusible(density) => (density.value, 1),
            Smoke::InDiffusible => (0, 0),
        }
    }

    /// One diffusion step. Every cell is computed from the densities that
    /// the field held before the step.
    pub fn diffuse(&mut self)
        requires
            old(self).wf(),
        ensures
            final(self).wf(),
            final(self).rows() == old(self).rows(),
            final(self).cols() == old(self).cols(),
            forall|i: int, j: int|
                0 <= i < old(self).rows() && 0 <= j < old(self).cols() ==> (
                #[trigger] final(self).map[i][j]) == diffused(old(self).map@, i, j),
    {
        let rows = self.map.len();
        let mut next: Vec<Vec<Smoke>> = Vec::new();
        let mut i: usize = 0;
        while i < rows
            invariant
                i <= rows,
                rows == self.map@.len(),
                self.wf(),
                has_shape(next@, i as nat, self.cols()),
                forall|a: int, b: int|
                    0 <= a < i && 0 <= b < self.cols() ==> (#[trigger] next[a][b]) == diffused(
                        self.map@,
                        a,
                        b,
                    ),
            decreases rows - i,
        {
            let cols = self.map[i].len();
            let mut row: Vec<Smoke> = Vec::new();
            let mut j: usize = 0;
            while j < cols
                invariant
                    i < rows,
                    j <= cols,
                    rows == self.map@.len(),
                    cols == self.cols(),
                    self.wf(),
                    row.len() == j,
                    forall|b: int| 0 <= b < j ==> (#[trigger] row[b]) == diffused(self.map@,
                        i as int, b),
                decreases cols - j,
            {
                let own = self.share(i, j);
                let cell = if own.1 == 0 {
                    Smoke::InDiffusible
                } else {
                    let up = if i > 0 {
                        self.share(i - 1, j)
                    } else {
                        (0, 0)
                    };
                    let down = if i + 1 < rows {
                        self.share(i + 1, j)
                    } else {
                        (0, 0)
                    };
                    let left = if j > 0 {
                        self.share(i, j - 1)
                    } else {
                        (0, 0)
                    };
                    let right = if j + 1 < cols {
                        self.share(i, j + 1)
                    } else {
                        (0, 0)
                    };
                    let sum: u128 = own.0 as u128 + up.0 as u128 + down.0 as u128 + left.0 as u128
                        + right.0 as u128;
                    let count: u8 = own.1 + up.1 + down.1 + left.1 + right.1;
                    let mean: u128 = sum / (count as u128);
                    assert(mean <= u64::MAX) by {
                        assert(sum <= count * u64::MAX);
                        vstd::arithmetic::div_mod::lemma_div_is_ordered(
                            sum as int,
                            count * u64::MAX,
                            count as int,
                        );
                        vstd::arithmetic::div_mod::lemma_div_multiples_vanish(
                            u64::MAX as int,
                            count as int,
                        );
                    }
                    Smoke::Diffusible(Density { value: mean as u64 })
                };
                row.push(cell);
                j += 1;
            }
            next.push(row);
            i += 1;
        }
        self.map = next;
    }
}

/// The smoke of a building, storey by storey, and the picture of smoke.
#[derive(Clone, Debug)]
pub struct BuildingSmoke {
    pub maps: StoreyTable<StoreySmoke>,
    pub texture_path: String,
}

impl BuildingSmoke {
    /// No storey occurs twice, and every field is a rectangle.
    pub open spec fn wf(&self) -> bool {
        self.maps.wf() && self.maps.all(|field: StoreySmoke| field.wf())
    }
}

impl Default for BuildingSmoke {
    fn default() -> (building: BuildingSmoke)
        ensures
            building.wf(),
            building.maps.count() == 0,
            building.texture_path@ == "./movethings/smoke.png"@,
    {
        BuildingSmoke { maps: StoreyTable::new(), texture_path: "./movethings/smoke.png".to_owned() }
    }
}

/// Whether `field` is the smoke field of `plan` before any smoke: walls and
/// exits are closed to smoke, every other cell is clear.
pub open spec fn fresh_smoke(field: StoreySmoke, plan: TileMap) -> bool {
    &&& field.wf()
    &&& field.fits(&plan)
    &&& forall|i: int, j: int|
        plan.has_cell(i, j) ==> #[trigger] field.map[i][j] == smoke_of_tile(plan.tile(i, j))
}

/// Whether `after` is `before` after one diffusion step.
pub open spec fn diffused_field(before: StoreySmoke, after: StoreySmoke) -> bool {
    &&& after.wf()
    &&& after.rows() == before.rows()
    &&& after.cols() == before.cols()
    &&& forall|i: int, j: int|
        0 <= i < before.rows() && 0 <= j < before.cols() ==> #[trigger] after.map[i][j] == diffused(
            before.map@,
            i,
            j,
        )
}

/// The opacity, in thousandths, with which smoke of the density `density` is
/// drawn: the density, and no more than 1000.
pub open spec fn opacity_of(density: u64) -> u64 {
    if density > 1000 {
        1000
    } else {
        density
    }
}

impl Smoke {
    /// The opacity, in thousandths, with which the smoke on the cell is drawn.
    pub fn opacity(&self) -> (value: u64)
        ensures
            value == opacity_of(self.density()),
    {
        let value = self.get_density();
        if value > 1000 {
            1000
        } else {
            value
        }
    }
}

} // verus!
