//! The field that tells, on every walkable cell of a storey, which way leads
//! to an exit through the least danger.

use vstd::prelude::*;
use crate::frontier::sweeps_to;
use crate::pass::{walkable, weight, Pass, StoreyPass};
use crate::plan::{has_shape, rectangular, width};
use crate::route::{at, before, in_grid, is_route};
use crate::storey::{MapMarker, StoreyTable};

verus! {

/// One step on the grid, or none.
#[derive(Clone, Copy, Debug, PartialEq, Eq, Structural)]
pub enum MoveDirection {
    Up,
    Down,
    Left,
    Right,
    Stay,
}

impl MoveDirection {
    /// The direction that belongs to an offset of `i` rows and `j` columns.
    pub open spec fn of_offset(i: int, j: int) -> MoveDirection {
        if i == 0 && j == 1 {
            MoveDirection::Up
        } else if i == 0 && j == -1 {
            MoveDirection::Down
        } else if i == 1 && j == 0 {
            MoveDirection::Left
        } else if i == -1 && j == 0 {
            MoveDirection::Right
        } else {
            MoveDirection::Stay
        }
    }

    /// The direction as a vector of the drawing plane.
    pub open spec fn vector(self) -> (i32, i32, i32) {
        match self {
            MoveDirection::Up => (0i32, 1i32, 0i32),
            MoveDirection::Down => (0i32, -1i32, 0i32),
            MoveDirection::Left => (-1i32, 0i32, 0i32),
            MoveDirection::Right => (1i32, 0i32, 0i32),
            MoveDirection::Stay => (0i32, 0i32, 0i32),
        }
    }

    /// Whether the direction, taken on the cell `c`, leads to the cell `p`.
    pub open spec fn points(self, c: (usize, usize), p: (usize, usize)) -> bool {
        self != MoveDirection::Stay && self == Self::of_offset(p.0 - c.0, p.1 - c.1)
    }

    /// The direction as a vector of the drawing plane.
    pub fn into_vec3(&self) -> (v: (i32, i32, i32))
        ensures
            v == self.vector(),
    {
        match self {
            MoveDirection::Up => (0, 1, 0),
            MoveDirection::Down => (0, -1, 0),
            MoveDirection::Left => (-1, 0, 0),
            MoveDirection::Right => (1, 0, 0),
            MoveDirection::Stay => (0, 0, 0),
        }
    }

    /// The direction that belongs to an offset of `i` rows and `j` columns.
    pub fn from_ij(i: i32, j: i32) -> (direction: MoveDirection)
        ensures
            direction == Self::of_offset(i as int, j as int),
    {
        if i == 0 && j == 1 {
            MoveDirection::Up
        } else if i == 0 && j == -1 {
            MoveDirection::Down
        } else if i == 1 && j == 0 {
            MoveDirection::Left
        } else if i == -1 && j == 0 {
            MoveDirection::Right
        } else {
            MoveDirection::Stay
        }
    }
}

/// What the field says on one cell.
#[derive(Clone, Copy, Debug, PartialEq, Eq, Structural)]
pub enum Evacuate {
    /// The way to take from here.
    Move(MoveDirection),
    /// Nobody can stand here.
    CanNotArrive,
}

/// Whether the field sends someone on the cell `x` to the cell `y`.
pub open spec fn leads(field: Seq<Vec<Evacuate>>, x: (usize, usize), y: (usize, usize)) -> bool {
    &&& in_grid(field, x)
    &&& at(field, x) matches Evacuate::Move(direction)
    &&& direction.points(x, y)
}

/// Whether someone who starts on `c` and goes where the field sends them
/// enters the cells `steps`, one after the other.
pub open spec fn follows(field: Seq<Vec<Evacuate>>, c: (usize, usize), steps: Seq<(usize,
    usize)>) -> bool {
    forall|k: int| 0 <= k < steps.len() ==> leads(field, before(c, steps, k), #[trigger] steps[k])
}

/// What the walk `steps` from `c` costs: the weights of `c` and of the cells
/// entered, but for the last one, where the walk ends.
pub open spec fn toll(pass: Seq<Vec<Pass>>, c: (usize, usize), steps: Seq<(usize, usize)>) -> nat
    decreases steps.len(),
{
    if steps.len() == 0 {
        0
    } else {
        weight(pass, c) + toll(pass, steps[0], steps.drop_first())
    }
}

/// Whether `steps` is a walk from `c` to `exit` and no such walk costs less.
pub open spec fn is_cheapest_route(
    pass: Seq<Vec<Pass>>,
    c: (usize, usize),
    exit: (usize, usize),
    steps: Seq<(usize, usize)>,
) -> bool {
    &&& is_route(walkable(pass), c, exit, steps)
    &&& forall|other: Seq<(usize, usize)>| #[trigger]
        is_route(walkable(pass), c, exit, other) ==> toll(pass, c, steps) <= toll(pass, c, other)
}

/// Whether the walkable cell `c` has a walk to `exit` whose cost can be held.
pub open spec fn within_reach(pass: Seq<Vec<Pass>>, c: (usize, usize), exit: (usize, usize)) -> bool {
    &&& walkable(pass).contains(c)
    &&& exists|steps: Seq<(usize, usize)>| #[trigger]
        is_route(walkable(pass), c, exit, steps) && toll(pass, c, steps) < u64::MAX
}

/// Whether going where the field sends them takes someone from `c` to `exit`
/// along a walk that no other walk undercuts.
pub open spec fn guides(
    pass: Seq<Vec<Pass>>,
    field: Seq<Vec<Evacuate>>,
    c: (usize, usize),
    exit: (usize, usize),
) -> bool {
    exists|steps: Seq<(usize, usize)>| #[trigger]
        follows(field, c, steps) && is_cheapest_route(pass, c, exit, steps)
}

/// What a sweep towards `exit` makes of the cell `c`: a walkable cell from
/// which `exit` can be reached is sent along a cheapest walk; any other
/// cell, and `exit` itself, keeps what it held.
pub open spec fn routed(
    pass: Seq<Vec<Pass>>,
    start: Seq<Vec<Evacuate>>,
    field: Seq<Vec<Evacuate>>,
    exit: (usize, usize),
    c: (usize, usize),
) -> bool {
    if c != exit && within_reach(pass, c, exit) {
        guides(pass, field, c, exit)
    } else {
        at(field, c) == at(start, c)
    }
}

/// The escape field of one storey, `map[row][column]`.
#[derive(Clone, Debug)]
pub struct StoreyEvacuation {
    pub map: Vec<Vec<Evacuate>>,
}

/// What a fresh escape field holds on a cell that holds `pass`.
pub open spec fn evacuate_of_pass(pass: Pass) -> Evacuate {
    match pass {
        Pass::Passable(_) => Evacuate::Move(MoveDirection::Stay),
        Pass::Impassable => Evacuate::CanNotArrive,
    }
}

impl StoreyEvacuation {
    /// The field is a rectangle.
    pub open spec fn wf(&self) -> bool {
        rectangular(self.map@)
    }

    /// The number of rows.
    pub open spec fn rows(&self) -> nat {
        self.map@.len()
    }

    /// The number of columns.
    pub open spec fn cols(&self) -> nat {
        width(self.map@)
    }

    /// Whether the field has one cell for each cell of `pass`, with a way on
    /// just the cells that can be walked on.
    pub open spec fn matches(&self, pass: &StoreyPass) -> bool {
        &&& self.rows() == pass.rows()
        &&& self.cols() == pass.cols()
        &&& forall|c: (usize, usize)|
            in_grid(pass.map@, c) ==> (#[trigger] at(self.map@, c) is Move) == (at(pass.map@,
                c) is Passable)
    }

    /// The escape field before any route is known: a way that stays on every
    /// walkable cell.
    pub fn init_from_pass(pass: &StoreyPass) -> (field: StoreyEvacuation)
        requires
            pass.wf(),
        ensures
            field.wf(),
            field.matches(pass),
            forall|i: int, j: int|
                0 <= i < pass.rows() && 0 <= j < pass.cols() ==> (#[trigger] field.map[i][j])
                    == evacuate_of_pass(pass.map[i][j]),
    {
        let rows = pass.map.len();
        let mut map: Vec<Vec<Evacuate>> = Vec::new();
        let mut i: usize = 0;
        while i < rows
            invariant
                i <= rows,
                rows == pass.rows(),
                pass.wf(),
                has_shape(map@, i as nat, pass.cols()),
                forall|a: int, b: int|
                    0 <= a < i && 0 <= b < pass.cols() ==> (#[trigger] map[a][b]) == evacuate_of_pass(
                        pass.map[a][b],
                    ),
            decreases rows - i,
        {
            let cols = pass.map[i].len();
            let mut row: Vec<Evacuate> = Vec::new();
            let mut j: usize = 0;
            while j < cols
                invariant
                    i < rows,
                    j <= cols,
                    rows == pass.rows(),
                    cols == pass.cols(),
                    pass.wf(),
                    row.len() == j,
                    forall|b: int|
                        0 <= b < j ==> (#[trigger] row[b]) == evacuate_of_pass(pass.map[i as int][b]),
                decreases cols - j,
            {
                let cell = match pass.map[i][j] {
                    Pass::Passable(_) => Evacuate::Move(MoveDirection::Stay),
                    Pass::Impassable => Evacuate::CanNotArrive,
                };
                row.push(cell);
                j += 1;
            }
            map.push(row);
            i += 1;
        }
        let field = StoreyEvacuation { map };
        proof {
            assert forall|c: (usize, usize)| in_grid(pass.map@, c) implies (#[trigger] at(
                field.map@,
                c,
            ) is Move) == (at(pass.map@, c) is Passable) by {
                assert(field.map[c.0 as int][c.1 as int] == evacuate_of_pass(
                    pass.map[c.0 as int][c.1 as int],
                ));
            }
        }
        field
    }

    /// Finds, for every walkable cell from which `exit` can be reached, the
    /// way to it through the least danger, and writes on the cell the first
    /// step of that way. Entering a cell costs its danger in whole units.
    /// The other cells, and `exit` itself, keep what they held.
    ///
    /// Where several first steps are as cheap, the cell keeps the one that
    /// the sweep comes to first: the field is the one that the steps of
    /// [`swept`](crate::frontier::swept) leave, which read of `pass` only
    /// which cells can be walked and what each costs in whole units. With
    /// an exit off the grid nothing changes.
    pub fn update_from_pass(&mut self, pass: &StoreyPass, exit: (usize, usize))
        requires
            old(self).wf(),
            pass.wf(),
            old(self).matches(pass),
        ensures
            final(self).wf(),
            final(self).matches(pass),
            forall|c: (usize, usize)|
                in_grid(pass.map@, c) ==> #[trigger] routed(
                    pass.map@,
                    old(self).map@,
                    final(self).map@,
                    exit,
                    c,
                ),
            in_grid(pass.map@, exit) ==> sweeps_to(
                pass.map@,
                old(self).map@,
                final(self).map@,
                exit,
            ),
            !in_grid(pass.map@, exit) ==> final(self).map@ == old(self).map@,
    {
        crate::sweep::sweep(&mut self.map, &pass.map, exit);
    }
}

/// The escape fields of a building, storey by storey, and the storey on show.
#[derive(Clone, Debug)]
pub struct BuildingEvacuation {
    pub maps: StoreyTable<StoreyEvacuation>,
    pub now_map: MapMarker,
}

} // verus!
