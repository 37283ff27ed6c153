//! One person in the building: where they stand and where they go, how fast
//! they walk and how much the smoke has left of their health.
//!
//! Health is counted in millionths, speed in millionths of a pixel per
//! millisecond, so that a density in thousandths times a time in
//! milliseconds is a loss of health, and a speed times a time is a length.

use rand::rngs::StdRng;
use std::collections::VecDeque;
use vstd::prelude::*;
use crate::paper::{get_x, get_y, held, x_of, y_of};
use crate::pass::{walkable, StoreyPass};
use crate::plan::TileMap;
use crate::random::draw_range;
use crate::route::{adjacent, at, in_grid, is_shortest_route, manhattan, reachable, shortest_route};
use crate::smoke::{Smoke, StoreySmoke};
use crate::storey::MapMarker;
use crate::tile::TileType;

verus! {

/// The layer on which people are drawn.
pub const LAYER: i64 = 12_000_000;

/// A point of the drawing space, or a step in it.
#[derive(Clone, Copy, Debug, PartialEq, Eq, Structural)]
pub struct Point {
    pub x: i64,
    pub y: i64,
    pub z: i64,
}

/// Why no path was found.
#[derive(Clone, Copy, Debug, PartialEq, Eq, Structural)]
pub enum RouteError {
    /// The person does not stand on a cell of the storey.
    OffGrid,
    /// No walk leads from the person to the target.
    Unreachable,
}

/// One person.
#[derive(Debug)]
pub struct Human {
    pub id: usize,
    pub position: Point,
    pub next_position: Point,
    pub speed: u64,
    pub max_speed: u64,
    pub direction: Point,
    pub now_tile: (usize, usize),
    pub next_tile: (usize, usize),
    pub target_tile: (usize, usize),
    pub my_path: VecDeque<(usize, usize)>,
    pub hp: i64,
    pub max_hp: i64,
    pub storey: MapMarker,
    pub is_evacuated: bool,
    pub is_dead: bool,
    pub is_safe: bool,
}

/// A person as plain values.
pub struct HumanView {
    pub id: usize,
    pub position: Point,
    pub next_position: Point,
    pub speed: u64,
    pub max_speed: u64,
    pub direction: Point,
    pub now_tile: (usize, usize),
    pub next_tile: (usize, usize),
    pub target_tile: (usize, usize),
    pub my_path: Seq<(usize, usize)>,
    pub hp: i64,
    pub max_hp: i64,
    pub storey: Seq<char>,
    pub is_evacuated: bool,
    pub is_dead: bool,
    pub is_safe: bool,
}

impl View for Human {
    type V = HumanView;

    open spec fn view(&self) -> HumanView {
        HumanView {
            id: self.id,
            position: self.position,
            next_position: self.next_position,
            speed: self.speed,
            max_speed: self.max_speed,
            direction: self.direction,
            now_tile: self.now_tile,
            next_tile: self.next_tile,
            target_tile: self.target_tile,
            my_path: self.my_path@,
            hp: self.hp,
            max_hp: self.max_hp,
            storey: self.storey@,
            is_evacuated: self.is_evacuated,
            is_dead: self.is_dead,
            is_safe: self.is_safe,
        }
    }
}

/// The health that is left of `hp` after `time` milliseconds in smoke of the
/// density `density`: `time * density` less, which may leave less than
/// nothing. It is held at the least health that can be held.
pub open spec fn worn(hp: i64, density: u64, time: u32) -> i64 {
    if hp - time * density < i64::MIN {
        i64::MIN
    } else {
        (hp - time * density) as i64
    }
}

/// The speed of someone with `hp` of `max_hp` health who walks at `max_speed`
/// in full health: `max_speed * hp / max_hp` rounded down, and 0 with no
/// health or less. It is held at the highest speed that can be held.
pub open spec fn paced(max_speed: u64, hp: i64, max_hp: i64) -> u64 {
    if hp <= 0 {
        0
    } else if max_hp <= 0 || max_speed * hp / (max_hp as int) > u64::MAX {
        u64::MAX
    } else {
        (max_speed * hp / (max_hp as int)) as u64
    }
}

/// -1, 0 or 1 as `to` lies below, on or above `from`.
pub open spec fn side(from: i64, to: i64) -> i64 {
    if to > from {
        1i64
    } else if to < from {
        -1i64
    } else {
        0i64
    }
}

/// The direction from `from` to `to`, along each axis.
pub open spec fn heading(from: Point, to: Point) -> Point {
    Point { x: side(from.x, to.x), y: side(from.y, to.y), z: side(from.z, to.z) }
}

/// Where someone at `from` stands after `step` towards `to` along one axis:
/// at `to` if that is no further than `step`, else `step` nearer to it.
pub open spec fn nearer(from: i64, to: i64, step: int) -> i64 {
    if vstd::math::abs(to - from) <= step {
        to
    } else if to > from {
        (from + step) as i64
    } else {
        (from - step) as i64
    }
}

/// Whether `a` and `b` lie on one line along an axis.
pub open spec fn aligned(a: Point, b: Point) -> bool {
    ||| a.x == b.x && a.y == b.y
    ||| a.x == b.x && a.z == b.z
    ||| a.y == b.y && a.z == b.z
}

/// How far it is from `from` to `to`, for points on one line along an axis.
pub open spec fn way(from: Point, to: Point) -> int {
    (vstd::math::abs(to.x - from.x) + vstd::math::abs(to.y - from.y) + vstd::math::abs(
        to.z - from.z,
    )) as int
}

/// Where someone at `from` stands after a step of the length `step` in the
/// direction of `to`: on `to` if the step is no shorter than the way that
/// is left, else the step further on in that direction.
pub open spec fn approach(from: Point, to: Point, step: int) -> Point {
    if step >= way(from, to) {
        to
    } else {
        Point {
            x: (from.x + side(from.x, to.x) * step) as i64,
            y: (from.y + side(from.y, to.y) * step) as i64,
            z: (from.z + side(from.z, to.z) * step) as i64,
        }
    }
}

/// For points on one line along an axis, the step towards `to` is the step
/// taken along each axis.
proof fn lemma_step_by_axis(from: Point, to: Point, step: int)
    requires
        0 <= step,
        aligned(from, to),
    ensures
        approach(from, to, step) == (Point {
            x: nearer(from.x, to.x, step),
            y: nearer(from.y, to.y, step),
            z: nearer(from.z, to.z, step),
        }),
{
    assert(side(from.x, to.x) * step == if to.x > from.x {
        step
    } else if to.x < from.x {
        -step
    } else {
        0
    }) by (nonlinear_arith);
    assert(side(from.y, to.y) * step == if to.y > from.y {
        step
    } else if to.y < from.y {
        -step
    } else {
        0
    }) by (nonlinear_arith);
    assert(side(from.z, to.z) * step == if to.z > from.z {
        step
    } else if to.z < from.z {
        -step
    } else {
        0
    }) by (nonlinear_arith);
}

/// The middle of the cell `tile` on a board of the given measures, on the
/// layer of the people.
pub open spec fn place_of(tile: (usize, usize), size: u64, width: u64, height: u64) -> Point {
    Point { x: held(x_of(size, tile.1, width)), y: held(y_of(size, tile.0, height)), z: LAYER }
}

/// One step along an axis, at most `step` long and never beyond `to`.
fn step_nearer(from: i64, to: i64, step: u128) -> (at: i64)
    ensures
        at == nearer(from, to, step as int),
{
    if to >= from {
        let gap: u128 = (to as i128 - from as i128) as u128;
        if gap <= step {
            to
        } else {
            (from as i128 + step as i128) as i64
        }
    } else {
        let gap: u128 = (from as i128 - to as i128) as u128;
        if gap <= step {
            to
        } else {
            (from as i128 - step as i128) as i64
        }
    }
}

/// A second queue of the same cells.
pub fn copy_path(path: &VecDeque<(usize, usize)>) -> (copy: VecDeque<(usize, usize)>)
    ensures
        copy@ == path@,
{
    let mut copy: VecDeque<(usize, usize)> = VecDeque::new();
    let mut k: usize = 0;
    while k < path.len()
        invariant
            k <= path@.len(),
            copy@ == path@.take(k as int),
        decreases path@.len() - k,
    {
        let cell = path[k];
        copy.push_back((cell.0, cell.1));
        assert(path@.take(k + 1) == path@.take(k as int).push(path@[k as int]));
        k += 1;
    }
    assert(path@.take(path@.len() as int) == path@);
    copy
}

/// -1, 0 or 1 as `to` lies below, on or above `from`.
fn step_side(from: i64, to: i64) -> (s: i64)
    ensures
        s == side(from, to),
{
    if to > from {
        1
    } else if to < from {
        -1
    } else {
        0
    }
}

/// Someone has left the building through an exit of the ground floor.
#[derive(Clone, Copy, Debug, PartialEq, Eq, Structural)]
pub struct Evacuated {
    pub id: usize,
}

/// Someone has no health left.
#[derive(Clone, Copy, Debug, PartialEq, Eq, Structural)]
pub struct Dead {
    pub id: usize,
}

/// Someone has reached the exit of the storey that leads down to the ground
/// floor.
#[derive(Clone, Copy, Debug, PartialEq, Eq, Structural)]
pub struct ChangeStorey {
    pub id: usize,
}

/// Someone has reached a safe place.
#[derive(Clone, Copy, Debug, PartialEq, Eq, Structural)]
pub struct ChangeSafe {
    pub id: usize,
}

/// What can happen to someone during a tick.
#[derive(Clone, Copy, Debug, PartialEq, Eq, Structural)]
pub enum LifecycleEvent {
    Evacuated(Evacuated),
    Dead(Dead),
    ChangeStorey(ChangeStorey),
    ChangeSafe(ChangeSafe),
}

/// The distance between two cells along the rows plus that along the columns.
pub fn manhattan_between(a: (usize, usize), b: (usize, usize)) -> (d: u128)
    ensures
        d == manhattan(a, b),
{
    let di: usize = if a.0 > b.0 {
        a.0 - b.0
    } else {
        b.0 - a.0
    };
    let dj: usize = if a.1 > b.1 {
        a.1 - b.1
    } else {
        b.1 - a.1
    };
    di as u128 + dj as u128
}

/// Whether `cells[k]` is the first of `cells` that is as near to `from` as
/// any of them.
pub open spec fn is_first_nearest(from: (usize, usize), cells: Seq<(usize, usize)>, k: int) -> bool {
    &&& 0 <= k < cells.len()
    &&& forall|a: int| 0 <= a < cells.len() ==> manhattan(#[trigger] cells[a],
        from) >= manhattan(cells[k], from)
    &&& forall|a: int| 0 <= a < k ==> manhattan(#[trigger] cells[a], from) > manhattan(cells[k], from)
}

/// Whether `target` is the one of `cells` to which someone on `from` goes:
/// the first of the nearest, and (0, 0) where there are none.
pub open spec fn is_nearest_of(from: (usize, usize), cells: Seq<(usize, usize)>, target: (usize,
    usize)) -> bool {
    if cells.len() == 0 {
        target == (0usize, 0usize)
    } else {
        exists|k: int| is_first_nearest(from, cells, k) && #[trigger] cells[k] == target
    }
}

/// Whether the cell `a` comes before the cell `b` where cells are listed row
/// by row.
pub open spec fn row_first(a: (usize, usize), b: (usize, usize)) -> bool {
    a.0 < b.0 || (a.0 == b.0 && a.1 < b.1)
}

/// Whether `c` is a safe place of `tiles`.
pub open spec fn is_safe_place(tiles: Seq<Vec<TileType>>, c: (usize, usize)) -> bool {
    in_grid(tiles, c) && at(tiles, c) == TileType::SavePlace
}

/// Whether `target` is the safe place to which someone on `from` goes: the
/// nearest one, the first of them row by row, and (0, 0) where the plan has
/// none.
pub open spec fn is_nearest_safe_place(
    tiles: Seq<Vec<TileType>>,
    from: (usize, usize),
    target: (usize, usize),
) -> bool {
    if exists|c: (usize, usize)| is_safe_place(tiles, c) {
        &&& is_safe_place(tiles, target)
        &&& forall|c: (usize, usize)| #[trigger]
            is_safe_place(tiles, c) ==> manhattan(c, from) > manhattan(target,
                from) || (manhattan(c, from)
                == manhattan(target, from) && !row_first(c, target))
    } else {
        target == (0usize, 0usize)
    }
}

impl Human {
    /// Picks the exit to walk to: the nearest one, the first of them in the
    /// list of the exits.
    pub fn find_my_target(&mut self, evacuation: &StoreyPass)
        ensures
            is_nearest_of(old(self).now_tile, evacuation.exit@, final(self).target_tile),
            final(self)@ == (HumanView { target_tile: final(self).target_tile, ..old(self)@ }),
    {
        let now = self.now_tile;
        let mut target: (usize, usize) = (0, 0);
        let mut least: u128 = 0;
        let ghost mut found: int = 0;
        let mut k: usize = 0;
        while k < evacuation.exit.len()
            invariant
                k <= evacuation.exit@.len(),
                k == 0 ==> target == (0usize, 0usize),
                k > 0 ==> 0 <= found < k && evacuation.exit@[found] == target && least == manhattan(
                    target,
                    now,
                ),
                forall|a: int|
                    0 <= a < k ==> manhattan(#[trigger] evacuation.exit@[a], now) >= least,
                forall|a: int|
                    0 <= a < found ==> manhattan(#[trigger] evacuation.exit@[a], now) > least,
            decreases evacuation.exit@.len() - k,
        {
            let exit = evacuation.exit[k];
            let d = manhattan_between(exit, now);
            if k == 0 || d < least {
                least = d;
                target = (exit.0, exit.1);
                proof {
                    found = k as int;
                }
            }
            k += 1;
        }
        self.target_tile = target;
        proof {
            if evacuation.exit@.len() > 0 {
                assert(is_first_nearest(now, evacuation.exit@, found));
            }
        }
    }

    /// Finds the shortest way over the walkable cells to the target, and
    /// takes it as the path. Without a way the person stays as they are.
    pub fn find_my_path(&mut self, evacuation: &StoreyPass) -> (found: Result<(), RouteError>)
        requires
            evacuation.wf(),
        ensures
            match found {
                Ok(_) => {
                    &&& in_grid(evacuation.map@, old(self).now_tile)
                    &&& is_shortest_route(
                        walkable(evacuation.map@),
                        old(self).now_tile,
                        old(self).target_tile,
                        final(self).my_path@,
                    )
                    &&& final(self)@ == (HumanView { my_path: final(self).my_path@, ..old(self)@ })
                },
                Err(RouteError::OffGrid) => !in_grid(evacuation.map@, old(self).now_tile)
                    && final(self)@ == old(self)@,
                Err(RouteError::Unreachable) => {
                    &&& in_grid(evacuation.map@, old(self).now_tile)
                    &&& !reachable(
                        walkable(evacuation.map@),
                        old(self).now_tile,
                        old(self).target_tile,
                    )
                    &&& final(self)@ == old(self)@
                },
            },
    {
        let now = self.now_tile;
        if now.0 >= evacuation.map.len() || now.1 >= evacuation.map[now.0].len() {
            return Err(RouteError::OffGrid);
        }
        let grid = evacuation.open_grid();
        match shortest_route(&grid, now, self.target_tile) {
            Some(steps) => {
                self.my_path = steps;
                Ok(())
            },
            None => Err(RouteError::Unreachable),
        }
    }

    /// Picks the safe place to walk to: the nearest one, the first of them
    /// row by row.
    pub fn find_my_safe_place(&mut self, evacuation: &TileMap)
        requires
            evacuation.wf(),
        ensures
            is_nearest_safe_place(evacuation.tiles@, old(self).now_tile, final(self).target_tile),
            final(self)@ == (HumanView { target_tile: final(self).target_tile, ..old(self)@ }),
    {
        let now = self.now_tile;
        let (rows, cols) = evacuation.get_size();
        let mut target: (usize, usize) = (0, 0);
        let mut least: u128 = 0;
        let mut any = false;
        let mut i: usize = 0;
        while i < rows
            invariant
                i <= rows,
                rows == evacuation.rows(),
                cols == evacuation.cols(),
                evacuation.wf(),
                !any ==> target == (0usize, 0usize),
                !any ==> forall|c: (usize, usize)| #[trigger]
                    is_safe_place(evacuation.tiles@, c) ==> c.0 >= i,
                any ==> is_safe_place(evacuation.tiles@, target) && least == manhattan(target, now)
                    && target.0 < i,
                any ==> forall|c: (usize, usize)| #[trigger]
                    is_safe_place(evacuation.tiles@, c) && c.0 < i ==> manhattan(c, now) > least || (
                    manhattan(c, now) == least && !row_first(c, target)),
            decreases rows - i,
        {
            let mut j: usize = 0;
            while j < cols
                invariant
                    i < rows,
                    j <= cols,
                    rows == evacuation.rows(),
                    cols == evacuation.cols(),
                    evacuation.wf(),
                    !any ==> target == (0usize, 0usize),
                    !any ==> forall|c: (usize, usize)| #[trigger]
                        is_safe_place(evacuation.tiles@, c) ==> c.0 > i || (c.0 == i && c.1 >= j),
                    any ==> is_safe_place(evacuation.tiles@, target) && least == manhattan(
                        target,
                        now,
                    ) && (target.0 < i || (target.0 == i && target.1 < j)),
                    any ==> forall|c: (usize, usize)| #[trigger]
                        is_safe_place(evacuation.tiles@, c) && (c.0 < i || (c.0 == i && c.1 < j))
                            ==> manhattan(c, now) > least || (manhattan(c, now) == least && !row_first(
                            c,
                            target,
                        )),
                decreases cols - j,
            {
                if evacuation.tiles[i][j] == TileType::SavePlace {
                    let d = manhattan_between((i, j), now);
                    if !any || d < least {
                        any = true;
                        least = d;
                        target = (i, j);
                    }
                }
                j += 1;
            }
            i += 1;
        }
        self.target_tile = target;
        proof {
            if any {
                assert(is_safe_place(evacuation.tiles@, target));
            } else {
                assert forall|c: (usize, usize)| !is_safe_place(evacuation.tiles@, c) by {
                    if is_safe_place(evacuation.tiles@, c) {
                        assert(c.0 >= rows);
                    }
                }
            }
        }
    }

    /// Finds the shortest way over stone, safe places and exits to the
    /// target, and takes it as the path. Without a way the person stays as
    /// they are.
    pub fn find_my_safe_path(&mut self, evacuation: &TileMap) -> (found: Result<(), RouteError>)
        requires
            evacuation.wf(),
        ensures
            match found {
                Ok(_) => {
                    &&& in_grid(evacuation.tiles@, old(self).now_tile)
                    &&& is_shortest_route(
                        crate::plan::outside(evacuation.tiles@),
                        old(self).now_tile,
                        old(self).target_tile,
                        final(self).my_path@,
                    )
                    &&& final(self)@ == (HumanView { my_path: final(self).my_path@, ..old(self)@ })
                },
                Err(RouteError::OffGrid) => !in_grid(evacuation.tiles@, old(self).now_tile)
                    && final(self)@ == old(self)@,
                Err(RouteError::Unreachable) => {
                    &&& in_grid(evacuation.tiles@, old(self).now_tile)
                    &&& !reachable(
                        crate::plan::outside(evacuation.tiles@),
                        old(self).now_tile,
                        old(self).target_tile,
                    )
                    &&& final(self)@ == old(self)@
                },
            },
    {
        let now = self.now_tile;
        if now.0 >= evacuation.tiles.len() || now.1 >= evacuation.tiles[now.0].len() {
            return Err(RouteError::OffGrid);
        }
        let grid = evacuation.outside_grid();
        match shortest_route(&grid, now, self.target_tile) {
            Some(steps) => {
                self.my_path = steps;
                Ok(())
            },
            None => Err(RouteError::Unreachable),
        }
    }

    /// Sets the position to the middle of the cell on which the person stands.
    pub fn clc_position(&mut self, size: u64, width: u64, height: u64)
        ensures
            final(self)@ == (HumanView {
                position: place_of(old(self).now_tile, size, width, height),
                ..old(self)@
            }),
    {
        let (i, j) = self.now_tile;
        self.position = Point { x: get_x(size, j, width), y: get_y(size, i, height), z: LAYER };
    }

    /// Sets the next position to the middle of the cell to which the person
    /// walks.
    pub fn clc_next_position(&mut self, size: u64, width: u64, height: u64)
        ensures
            final(self)@ == (HumanView {
                next_position: place_of(old(self).next_tile, size, width, height),
                ..old(self)@
            }),
    {
        let (i, j) = self.next_tile;
        self.next_position = Point { x: get_x(size, j, width), y: get_y(size, i, height), z: LAYER };
    }

    /// Takes `time` milliseconds of the smoke on the cell on which the
    /// person stands off their health. Who has no health left, or less, is
    /// dead. Where smoke never enters nothing happens. The person stands on
    /// a cell of the field.
    pub fn smoke_damage(&mut self, smoke: &StoreySmoke, time: u32)
        requires
            in_grid(smoke.map@, old(self).now_tile),
        ensures
            final(self)@ == old(self)@.damaged(smoke.map@, time),
    {
        let (i, j) = self.now_tile;
        {
            match smoke.map[i][j] {
                Smoke::Diffusible(density) => {
                    assert(0 <= time * density.value <= 0xffff_ffff * 0xffff_ffff_ffff_ffff)
                        by (nonlinear_arith)
                        requires
                            0 <= time <= 0xffff_ffff,
                            0 <= density.value <= 0xffff_ffff_ffff_ffff,
                    ;
                    let loss: u128 = (time as u128) * (density.value as u128);
                    let left: i128 = self.hp as i128 - loss as i128;
                    if left < i64::MIN as i128 {
                        self.hp = i64::MIN;
                    } else {
                        self.hp = left as i64;
                    }
                    if self.hp <= 0 {
                        self.is_dead = true;
                    }
                },
                Smoke::InDiffusible => {},
            }
        }
    }

    /// Sets the speed by what is left of the health.
    pub fn change_my_speed(&mut self)
        ensures
            final(self)@ == (HumanView {
                speed: paced(old(self).max_speed, old(self).hp, old(self).max_hp),
                ..old(self)@
            }),
    {
        if self.hp <= 0 {
            self.speed = 0;
        } else if self.max_hp <= 0 {
            self.speed = u64::MAX;
        } else {
            assert(0 <= self.max_speed * self.hp <= 0xffff_ffff_ffff_ffff * 0xffff_ffff_ffff_ffff)
                by (nonlinear_arith)
                requires
                    0 <= self.max_speed <= 0xffff_ffff_ffff_ffff,
                    0 <= self.hp <= 0xffff_ffff_ffff_ffff,
            ;
            let pace: u128 = (self.max_speed as u128) * (self.hp as u128) / (self.max_hp as u128);
            if pace > u64::MAX as u128 {
                self.speed = u64::MAX;
            } else {
                self.speed = pace as u64;
            }
        }
    }

    /// Turns the person towards the next position.
    pub fn change_my_direction(&mut self)
        ensures
            final(self)@ == (HumanView {
                direction: heading(old(self).position, old(self).next_position),
                ..old(self)@
            }),
    {
        self.direction = Point {
            x: step_side(self.position.x, self.next_position.x),
            y: step_side(self.position.y, self.next_position.y),
            z: step_side(self.position.z, self.next_position.z),
        };
    }

    /// Walks for `time` milliseconds at the person's speed in the direction
    /// of the next position, and not beyond it. The position and the next
    /// position lie on one line along an axis, as the middles of two cells
    /// of one row or column do.
    pub fn walk(&mut self, time: u32)
        requires
            aligned(old(self).position, old(self).next_position),
        ensures
            final(self)@ == (HumanView {
                position: approach(
                    old(self).position,
                    old(self).next_position,
                    old(self).speed * time,
                ),
                ..old(self)@
            }),
    {
        assert(self.speed * time <= 0xffff_ffff_ffff_ffff * 0xffff_ffff) by (nonlinear_arith)
            requires
                0 <= self.speed <= 0xffff_ffff_ffff_ffff,
                0 <= time <= 0xffff_ffff,
        ;
        let step: u128 = (self.speed as u128) * (time as u128);
        proof {
            lemma_step_by_axis(self.position, self.next_position, step as int);
        }
        self.position = Point {
            x: step_nearer(self.position.x, self.next_position.x, step),
            y: step_nearer(self.position.y, self.next_position.y, step),
            z: step_nearer(self.position.z, self.next_position.z, step),
        };
    }
}

/// Whether `after` is `before` sent to the nearest exit of `pass`: with that
/// exit as the target, a shortest way to it as the path, and set out on it.
pub open spec fn sent_to_exit(
    before: HumanView,
    after: HumanView,
    pass: StoreyPass,
    size: u64,
    width: u64,
    height: u64,
) -> bool {
    &&& in_grid(pass.map@, before.now_tile)
    &&& is_nearest_of(before.now_tile, pass.exit@, after.target_tile)
    &&& is_shortest_route(walkable(pass.map@), before.now_tile, after.target_tile, after.my_path)
    &&& after == (HumanView {
        target_tile: after.target_tile,
        my_path: after.my_path,
        ..before
    }).set_out(size, width, height)
}

/// Whether someone on `now_tile` has no way to the nearest exit of `pass`.
pub open spec fn stranded(now_tile: (usize, usize), pass: StoreyPass) -> bool {
    exists|target: (usize, usize)|
        #[trigger] is_nearest_of(now_tile, pass.exit@, target) && (!in_grid(pass.map@, now_tile)
            || !reachable(walkable(pass.map@), now_tile, target))
}

/// Whether `after` is `before` sent to the nearest safe place of `plan`:
/// with that place as the target, a shortest way to it over stone, safe
/// places and exits as the path, and set out on it.
pub open spec fn sent_to_safety(
    before: HumanView,
    after: HumanView,
    plan: TileMap,
    size: u64,
    width: u64,
    height: u64,
) -> bool {
    &&& in_grid(plan.tiles@, before.now_tile)
    &&& is_nearest_safe_place(plan.tiles@, before.now_tile, after.target_tile)
    &&& is_shortest_route(
        crate::plan::outside(plan.tiles@),
        before.now_tile,
        after.target_tile,
        after.my_path,
    )
    &&& after == (HumanView {
        target_tile: after.target_tile,
        my_path: after.my_path,
        ..before
    }).set_out(size, width, height)
}

/// Whether someone on `now_tile` has no way to the nearest safe place of
/// `plan`.
pub open spec fn shut_out(now_tile: (usize, usize), plan: TileMap) -> bool {
    exists|target: (usize, usize)|
        #[trigger] is_nearest_safe_place(plan.tiles@, now_tile, target) && (!in_grid(
            plan.tiles@,
            now_tile,
        ) || !reachable(crate::plan::outside(plan.tiles@), now_tile, target))
}

/// The least health that a draw with the spread `h`, in thousandths, leaves
/// of `max_hp`.
pub open spec fn least_hp(max_hp: i64, h: u32) -> int {
    max_hp - max_hp * h / 1000
}

/// The least speed that a draw with the spread `v`, in thousandths, makes of
/// `max_speed`.
pub open spec fn least_speed(max_speed: u64, v: u32) -> int {
    max_speed * (1000 - v) / 1000
}

/// The speed below which a draw with the spread `v`, in thousandths, of
/// `max_speed` stays; no more than can be held.
pub open spec fn most_speed(max_speed: u64, v: u32) -> int {
    if max_speed * (1000 + v) / 1000 > u64::MAX {
        u64::MAX as int
    } else {
        max_speed * (1000 + v) / 1000
    }
}

impl Human {
    /// Draws the health from the part `h`, in thousandths, below full health:
    /// at least `max_hp * (1 - h / 1000)` and less than `max_hp`.
    pub fn rand_my_hp(&mut self, h: u32, rng: &mut StdRng)
        requires
            h <= 1000,
            least_hp(old(self).max_hp, h) < old(self).max_hp,
        ensures
            least_hp(old(self).max_hp, h) <= final(self).hp < old(self).max_hp,
            final(self)@ == (HumanView { hp: final(self).hp, ..old(self)@ }),
    {
        assert(self.max_hp > 0) by (nonlinear_arith)
            requires
                0 <= h <= 1000,
                self.max_hp - self.max_hp * h / 1000 < self.max_hp,
        ;
        assert(0 <= self.max_hp * h / 1000 <= self.max_hp) by (nonlinear_arith)
            requires
                0 <= h <= 1000,
                0 <= self.max_hp,
        ;
        assert(self.max_hp * h <= 0xffff_ffff_ffff_ffff * 1000) by (nonlinear_arith)
            requires
                0 <= h <= 1000,
                0 <= self.max_hp <= 0xffff_ffff_ffff_ffff,
        ;
        let cut: u128 = (self.max_hp as u128) * (h as u128) / 1000;
        let low: u64 = (self.max_hp as u64) - (cut as u64);
        self.hp = draw_range(rng, low, self.max_hp as u64) as i64;
    }

    /// Draws the speed from the part `v`, in thousandths, around the speed
    /// in full health: at least `max_speed * (1 - v / 1000)` and less than
    /// `max_speed * (1 + v / 1000)`.
    pub fn rand_my_speed(&mut self, v: u32, rng: &mut StdRng)
        requires
            v <= 1000,
            least_speed(old(self).max_speed, v) < most_speed(old(self).max_speed, v),
        ensures
            least_speed(old(self).max_speed, v) <= final(self).speed < most_speed(
                old(self).max_speed,
                v,
            ),
            final(self)@ == (HumanView { speed: final(self).speed, ..old(self)@ }),
    {
        assert(0 <= self.max_speed * (1000 - v) / 1000 <= self.max_speed) by (nonlinear_arith)
            requires
                0 <= v <= 1000,
                0 <= self.max_speed,
        ;
        assert(self.max_speed * (1000 - v) <= 0xffff_ffff_ffff_ffff * 1000 && self.max_speed * (1000
            + v) <= 0xffff_ffff_ffff_ffff * 2000) by (nonlinear_arith)
            requires
                0 <= v <= 1000,
                0 <= self.max_speed <= 0xffff_ffff_ffff_ffff,
        ;
        let low: u128 = (self.max_speed as u128) * ((1000 - v) as u128) / 1000;
        let top: u128 = (self.max_speed as u128) * ((1000 + v) as u128) / 1000;
        let high: u64 = if top > u64::MAX as u128 {
            u64::MAX
        } else {
            top as u64
        };
        self.speed = draw_range(rng, low as u64, high);
    }

    /// Sets the person out on their path: they turn from the middle of the
    /// cell on which they stand to the first cell of the path, or stay where
    /// they are if the path is empty.
    pub fn set_out(&mut self, size: u64, width: u64, height: u64)
        ensures
            final(self)@ == old(self)@.set_out(size, width, height),
    {
        if self.my_path.len() > 0 {
            let next = self.my_path[0];
            self.next_tile = (next.0, next.1);
        } else {
            self.next_tile = (self.now_tile.0, self.now_tile.1);
        }
        self.clc_position(size, width, height);
        self.clc_next_position(size, width, height);
        self.change_my_direction();
    }

    /// Sends the person to the nearest exit of the storey `evacuation` on
    /// which they stand: picks the exit, finds the shortest way and sets out
    /// on it. Without a way only the target is set.
    pub fn head_for_exit(&mut self, evacuation: &StoreyPass, size: u64, width: u64,
        height: u64) -> (found:
        Result<(), RouteError>)
        requires
            evacuation.wf(),
        ensures
            is_nearest_of(old(self).now_tile, evacuation.exit@, final(self).target_tile),
            match found {
                Ok(_) => {
                    &&& in_grid(evacuation.map@, old(self).now_tile)
                    &&& is_shortest_route(
                        walkable(evacuation.map@),
                        old(self).now_tile,
                        final(self).target_tile,
                        final(self).my_path@,
                    )
                    &&& final(self)@ == (HumanView {
                        target_tile: final(self).target_tile,
                        my_path: final(self).my_path@,
                        ..old(self)@
                    }).set_out(size, width, height)
                },
                Err(RouteError::OffGrid) => !in_grid(evacuation.map@, old(self).now_tile),
                Err(RouteError::Unreachable) => in_grid(evacuation.map@, old(self).now_tile)
                    && !reachable(
                    walkable(evacuation.map@),
                    old(self).now_tile,
                    final(self).target_tile,
                ),
            },
            found is Err ==> final(self)@ == (HumanView {
                target_tile: final(self).target_tile,
                ..old(self)@
            }),
            found is Ok ==> sent_to_exit(old(self)@, final(self)@, *evacuation, size, width, height),
            found is Err ==> stranded(old(self).now_tile, *evacuation),
    {
        self.find_my_target(evacuation);
        match self.find_my_path(evacuation) {
            Ok(_) => {
                self.set_out(size, width, height);
                Ok(())
            },
            Err(error) => Err(error),
        }
    }

    /// Sends the person, who has left the building, to the nearest safe
    /// place of `plan`: picks it, finds the shortest way over stone, safe
    /// places and exits, and sets out on it. Without a way only the target
    /// is set.
    pub fn head_for_safety(&mut self, plan: &TileMap, size: u64, width: u64, height: u64) -> (found:
        Result<(), RouteError>)
        requires
            plan.wf(),
        ensures
            is_nearest_safe_place(plan.tiles@, old(self).now_tile, final(self).target_tile),
            match found {
                Ok(_) => {
                    &&& in_grid(plan.tiles@, old(self).now_tile)
                    &&& is_shortest_route(
                        crate::plan::outside(plan.tiles@),
                        old(self).now_tile,
                        final(self).target_tile,
                        final(self).my_path@,
                    )
                    &&& final(self)@ == (HumanView {
                        target_tile: final(self).target_tile,
                        my_path: final(self).my_path@,
                        ..old(self)@
                    }).set_out(size, width, height)
                },
                Err(RouteError::OffGrid) => !in_grid(plan.tiles@, old(self).now_tile),
                Err(RouteError::Unreachable) => in_grid(plan.tiles@, old(self).now_tile)
                    && !reachable(
                    crate::plan::outside(plan.tiles@),
                    old(self).now_tile,
                    final(self).target_tile,
                ),
            },
            found is Err ==> final(self)@ == (HumanView {
                target_tile: final(self).target_tile,
                ..old(self)@
            }),
            found is Ok ==> sent_to_safety(old(self)@, final(self)@, *plan, size, width, height),
            found is Err ==> shut_out(old(self).now_tile, *plan),
    {
        self.find_my_safe_place(plan);
        match self.find_my_safe_path(plan) {
            Ok(_) => {
                self.set_out(size, width, height);
                Ok(())
            },
            Err(error) => Err(error),
        }
    }

    /// Moves the person to the storey `ground`, whose walkable cells are
    /// `evacuation`, and sends them to its nearest exit. Without a way the
    /// person stays on their storey, and only the target is set.
    pub fn move_to_storey(
        &mut self,
        ground: &MapMarker,
        evacuation: &StoreyPass,
        size: u64,
        width: u64,
        height: u64,
    ) -> (found: Result<(), RouteError>)
        requires
            evacuation.wf(),
        ensures
            is_nearest_of(old(self).now_tile, evacuation.exit@, final(self).target_tile),
            match found {
                Ok(_) => {
                    &&& in_grid(evacuation.map@, old(self).now_tile)
                    &&& is_shortest_route(
                        walkable(evacuation.map@),
                        old(self).now_tile,
                        final(self).target_tile,
                        final(self).my_path@,
                    )
                    &&& final(self)@ == (HumanView {
                        storey: ground@,
                        target_tile: final(self).target_tile,
                        my_path: final(self).my_path@,
                        ..old(self)@
                    }).set_out(size, width, height)
                },
                Err(RouteError::OffGrid) => !in_grid(evacuation.map@, old(self).now_tile),
                Err(RouteError::Unreachable) => in_grid(evacuation.map@, old(self).now_tile)
                    && !reachable(
                    walkable(evacuation.map@),
                    old(self).now_tile,
                    final(self).target_tile,
                ),
            },
            found is Err ==> final(self)@ == (HumanView {
                target_tile: final(self).target_tile,
                ..old(self)@
            }),
            found is Ok ==> sent_to_exit(
                (HumanView { storey: ground@, ..old(self)@ }),
                final(self)@,
                *evacuation,
                size,
                width,
                height,
            ),
            found is Err ==> stranded(old(self).now_tile, *evacuation),
    {
        let from = self.storey.copy();
        self.storey = ground.copy();
        match self.head_for_exit(evacuation, size, width, height) {
            Ok(_) => Ok(()),
            Err(error) => {
                self.storey = from;
                Err(error)
            },
        }
    }

    /// One tick of `time` milliseconds in the life of the person. The smoke
    /// of `smoke` on their cell takes its toll; who has no health left is
    /// dead and does nothing more. Who has reached the next position steps
    /// on along the path and turns to the cell after it; reaching the target
    /// on the storey `ground` makes them evacuated. Then they walk on, at
    /// the speed that their health allows.
    pub fn run(
        &mut self,
        smoke: &StoreySmoke,
        time: u32,
        size: u64,
        width: u64,
        height: u64,
        ground: &MapMarker,
        connector: &MapMarker,
    ) -> (event: Option<LifecycleEvent>)
        requires
            smoke.wf(),
            old(self)@.on_track(smoke.rows(), smoke.cols(), size, width, height),
        ensures
            final(self)@ == old(self)@.ticked(smoke.map@, time, size, width, height, ground@),
            event == old(self)@.damaged(smoke.map@, time).event(ground@, connector@),
            final(self)@.on_track(smoke.rows(), smoke.cols(), size, width, height),
    {
        proof {
            lemma_tick_keeps_track(
                self@,
                smoke.map@,
                smoke.rows(),
                smoke.cols(),
                time,
                size,
                width,
                height,
                ground@,
            );
        }
        self.smoke_damage(smoke, time);
        if self.hp <= 0 {
            self.is_dead = true;
            return Some(LifecycleEvent::Dead(Dead { id: self.id }));
        }
        let mut event: Option<LifecycleEvent> = None;
        if self.position == self.next_position {
            match self.my_path.pop_front() {
                Some(cell) => {
                    self.now_tile = (cell.0, cell.1);
                    if cell.0 == self.target_tile.0 && cell.1 == self.target_tile.1
                        && !self.is_evacuated {
                        if self.storey.same(ground) {
                            event = Some(LifecycleEvent::Evacuated(Evacuated { id: self.id }));
                            self.is_evacuated = true;
                        } else if self.storey.same(connector) {
                            event = Some(LifecycleEvent::ChangeStorey(ChangeStorey { id: self.id }));
                        }
                    }
                },
                None => {},
            }
            if self.my_path.len() > 0 {
                let next = self.my_path[0];
                self.next_tile = (next.0, next.1);
                self.clc_next_position(size, width, height);
                self.change_my_direction();
            }
        }
        self.change_my_speed();
        self.walk(time);
        event
    }
}

impl HumanView {
    /// Whether the person is on their way over a storey of `rows` by `cols`
    /// cells: they stand on a cell of it and their path leads from cell to
    /// cell of it, each beside the one before; they walk to the middle of
    /// the cell that is first on the path; and they stand on one line along
    /// an axis with the position to which they walk.
    pub open spec fn on_track(self, rows: nat, cols: nat, size: u64, width: u64, height: u64) -> bool {
        &&& self.now_tile.0 < rows && self.now_tile.1 < cols
        &&& forall|k: int|
            0 <= k < self.my_path.len() ==> (#[trigger] self.my_path[k]).0 < rows && self.my_path[k].1
                < cols
        &&& forall|k: int|
            0 < k < self.my_path.len() ==> adjacent(self.my_path[k - 1], #[trigger] self.my_path[k])
        &&& self.next_position == place_of(self.next_tile, size, width, height)
        &&& (self.my_path.len() > 0 ==> self.my_path[0] == self.next_tile)
        &&& aligned(self.position, self.next_position)
    }

    /// Whether the person has reached the position to which they walked.
    pub open spec fn arrives(self) -> bool {
        self.position == self.next_position
    }

    /// Whether the person, who is alive, reaches their target with this tick
    /// for the first time.
    pub open spec fn reaches_target(self) -> bool {
        &&& self.arrives()
        &&& self.my_path.len() > 0
        &&& self.my_path[0] == self.target_tile
        &&& !self.is_evacuated
    }

    /// What this tick raises for the person, whom the smoke of the tick has
    /// worn already: their death; or, as they reach their target, that they
    /// have left the building from the storey `ground` or are to go on from
    /// the storey `connector`.
    pub open spec fn event(self, ground: Seq<char>, connector: Seq<char>) -> Option<LifecycleEvent> {
        if self.hp <= 0 {
            Some(LifecycleEvent::Dead(Dead { id: self.id }))
        } else if self.reaches_target() && self.storey == ground {
            Some(LifecycleEvent::Evacuated(Evacuated { id: self.id }))
        } else if self.reaches_target() && self.storey == connector {
            Some(LifecycleEvent::ChangeStorey(ChangeStorey { id: self.id }))
        } else {
            None
        }
    }

    /// The person after they have taken the first cell of the path as the
    /// cell on which they stand, if there is one.
    pub open spec fn entered(self, ground: Seq<char>) -> HumanView {
        if self.my_path.len() > 0 {
            HumanView {
                now_tile: self.my_path[0],
                my_path: self.my_path.drop_first(),
                is_evacuated: self.is_evacuated || (self.my_path[0] == self.target_tile && self.storey
                    == ground),
                ..self
            }
        } else {
            self
        }
    }

    /// The person after they have turned to the first cell of the path, if
    /// there is one.
    pub open spec fn turned(self, size: u64, width: u64, height: u64) -> HumanView {
        if self.my_path.len() > 0 {
            let next = place_of(self.my_path[0], size, width, height);
            HumanView {
                next_tile: self.my_path[0],
                next_position: next,
                direction: heading(self.position, next),
                ..self
            }
        } else {
            self
        }
    }

    /// The person set out on their path: on the middle of their cell, turned
    /// to the first cell of the path, or to their own cell if the path is
    /// empty.
    pub open spec fn set_out(self, size: u64, width: u64, height: u64) -> HumanView {
        let next_tile = if self.my_path.len() > 0 {
            self.my_path[0]
        } else {
            self.now_tile
        };
        let position = place_of(self.now_tile, size, width, height);
        let next_position = place_of(next_tile, size, width, height);
        HumanView {
            next_tile,
            position,
            next_position,
            direction: heading(position, next_position),
            ..self
        }
    }

    /// The person after `time` milliseconds of walking at the speed that
    /// their health allows.
    pub open spec fn walked(self, time: u32) -> HumanView {
        let speed = paced(self.max_speed, self.hp, self.max_hp);
        HumanView {
            speed,
            position: approach(self.position, self.next_position, speed * time),
            ..self
        }
    }

    /// The person after one tick of `time` milliseconds.
    pub open spec fn ticked(
        self,
        smoke: Seq<Vec<Smoke>>,
        time: u32,
        size: u64,
        width: u64,
        height: u64,
        ground: Seq<char>,
    ) -> HumanView {
        let worn = self.damaged(smoke, time);
        if worn.hp <= 0 {
            HumanView { is_dead: true, ..worn }
        } else if worn.arrives() {
            worn.entered(ground).turned(size, width, height).walked(time)
        } else {
            worn.walked(time)
        }
    }

    /// The person after `time` milliseconds of the smoke of `smoke` on the
    /// cell on which they stand.
    pub open spec fn damaged(self, smoke: Seq<Vec<Smoke>>, time: u32) -> HumanView {
        if at(smoke, self.now_tile) is Diffusible {
            let hp = worn(self.hp, at(smoke, self.now_tile).density(), time);
            HumanView { hp, is_dead: self.is_dead || hp <= 0, ..self }
        } else {
            self
        }
    }
}

impl PartialEq for Human {
    /// Two people are the same if they have the same number.
    fn eq(&self, other: &Human) -> (same: bool) {
        self.id == other.id
    }
}

impl Eq for Human {

}

impl vstd::std_specs::cmp::PartialEqSpecImpl for Human {
    open spec fn obeys_eq_spec() -> bool {
        true
    }

    open spec fn eq_spec(&self, other: &Human) -> bool {
        self.id == other.id
    }
}

impl Clone for Human {
    /// A second person with the same values.
    fn clone(&self) -> (copy: Human)
        ensures
            copy@ == self@,
    {
        Human {
            id: self.id,
            position: self.position,
            next_position: self.next_position,
            speed: self.speed,
            max_speed: self.max_speed,
            direction: self.direction,
            now_tile: (self.now_tile.0, self.now_tile.1),
            next_tile: (self.next_tile.0, self.next_tile.1),
            target_tile: (self.target_tile.0, self.target_tile.1),
            my_path: copy_path(&self.my_path),
            hp: self.hp,
            max_hp: self.max_hp,
            storey: self.storey.copy(),
            is_evacuated: self.is_evacuated,
            is_dead: self.is_dead,
            is_safe: self.is_safe,
        }
    }
}

/// Someone in full health of 100, who walks 10 pixels a second when in full
/// health, and stands still on cell (0, 0) of the storey "default".
pub open spec fn newcomer() -> HumanView {
    HumanView {
        id: 0,
        position: Point { x: 0, y: 0, z: 0 },
        next_position: Point { x: 0, y: 0, z: 0 },
        speed: 0,
        max_speed: 10_000,
        direction: Point { x: 0, y: 0, z: 0 },
        now_tile: (0, 0),
        next_tile: (0, 0),
        target_tile: (0, 0),
        my_path: Seq::empty(),
        hp: 100_000_000,
        max_hp: 100_000_000,
        storey: "default"@,
        is_evacuated: false,
        is_dead: false,
        is_safe: false,
    }
}

impl Default for Human {
    /// A newcomer.
    fn default() -> (human: Human)
        ensures
            human@ == newcomer(),
    {
        Human {
            id: 0,
            position: Point { x: 0, y: 0, z: 0 },
            next_position: Point { x: 0, y: 0, z: 0 },
            speed: 0,
            max_speed: 10_000,
            direction: Point { x: 0, y: 0, z: 0 },
            now_tile: (0, 0),
            next_tile: (0, 0),
            target_tile: (0, 0),
            my_path: VecDeque::new(),
            hp: 100_000_000,
            max_hp: 100_000_000,
            storey: MapMarker::named("default"),
            is_evacuated: false,
            is_dead: false,
            is_safe: false,
        }
    }
}

/// Health and speed go together. Smoke of the density `density` takes
/// exactly `time * density` off the health, also where that leaves less than
/// nothing, as far as the health can be held; and the speed of someone who
/// has health left of no more than their full health is their full speed
/// times the part of their health that is left, rounded down, which is no
/// more than their full speed; with no health or less it is 0.
pub proof fn lemma_health_and_speed(hp: i64, max_hp: i64, max_speed: u64, density: u64, time: u32)
    requires
        0 < max_hp,
        hp <= max_hp,
    ensures
        hp - time * density >= i64::MIN ==> worn(hp, density, time) == hp - time * density,
        hp >= 0 && time * density <= 0x7fff_ffff_ffff_ffff ==> worn(hp, density, time) == hp - time
            * density,
        worn(hp, density, time) <= hp,
        worn(hp, density, time) > 0 ==> paced(max_speed, worn(hp, density, time), max_hp) == max_speed
            * worn(hp, density, time) / (max_hp as int),
        paced(max_speed, worn(hp, density, time), max_hp) <= max_speed,
        worn(hp, density, time) <= 0 ==> paced(max_speed, worn(hp, density, time), max_hp) == 0,
        worn(hp, density, time) == max_hp ==> paced(max_speed, worn(hp, density, time), max_hp)
            == max_speed,
{
    let left = worn(hp, density, time);
    assert(0 <= time * density) by (nonlinear_arith)
        requires
            0 <= time,
            0 <= density,
    ;
    if left > 0 {
        assert(0 <= max_speed * left / (max_hp as int) <= max_speed) by (nonlinear_arith)
            requires
                0 <= left <= max_hp,
                0 < max_hp,
                0 <= max_speed,
        ;
    }
    if left == max_hp {
        assert(max_speed * left / (max_hp as int) == max_speed) by (nonlinear_arith)
            requires
                left == max_hp,
                0 < max_hp,
        ;
    }
}

/// Walking never goes beyond the next position nor off the line to it: for
/// points on one line along an axis, a step towards `to` ends on that line,
/// and leaves of the way what the step has not taken.
pub proof fn lemma_walk_along_an_axis(from: Point, to: Point, step: int)
    requires
        0 <= step,
        aligned(from, to),
    ensures
        aligned(approach(from, to, step), to),
        aligned(from, approach(from, to, step)),
        way(approach(from, to, step), to) == (if step >= way(from, to) {
            0
        } else {
            way(from, to) - step
        }),
{
    lemma_step_by_axis(from, to, step);
}

/// The middles of two cells that lie beside each other, and those of one
/// cell, lie on one line along an axis.
pub proof fn lemma_places_aligned(a: (usize, usize), b: (usize, usize), size: u64, width: u64, height: u64)
    requires
        adjacent(a, b) || a == b,
    ensures
        aligned(place_of(a, size, width, height), place_of(b, size, width, height)),
{
}

/// A tick keeps a person on their way: see [`HumanView::on_track`].
pub proof fn lemma_tick_keeps_track(
    before: HumanView,
    smoke: Seq<Vec<Smoke>>,
    rows: nat,
    cols: nat,
    time: u32,
    size: u64,
    width: u64,
    height: u64,
    ground: Seq<char>,
)
    requires
        before.on_track(rows, cols, size, width, height),
    ensures
        before.ticked(smoke, time, size, width, height, ground).on_track(rows, cols, size, width, height),
        before.ticked(smoke, time, size, width, height, ground).storey == before.storey,
        before.ticked(smoke, time, size, width, height, ground).id == before.id,
{
    let worn = before.damaged(smoke, time);
    if worn.hp > 0 {
        let turned = if worn.arrives() {
            worn.entered(ground).turned(size, width, height)
        } else {
            worn
        };
        assert(turned.on_track(rows, cols, size, width, height)) by {
            if worn.arrives() {
                let entered = worn.entered(ground);
                if worn.my_path.len() > 0 {
                    assert(entered.now_tile == worn.my_path[0]);
                    assert forall|k: int| 0 <= k < entered.my_path.len() implies (
                    #[trigger] entered.my_path[k]).0 < rows && entered.my_path[k].1 < cols by {
                        assert(entered.my_path[k] == worn.my_path[k + 1]);
                    }
                    assert forall|k: int| 0 < k < entered.my_path.len() implies adjacent(
                        entered.my_path[k - 1],
                        #[trigger] entered.my_path[k],
                    ) by {
                        assert(entered.my_path[k] == worn.my_path[k + 1]);
                        assert(entered.my_path[k - 1] == worn.my_path[k]);
                    }
                    if entered.my_path.len() > 0 {
                        assert(entered.my_path[0] == worn.my_path[1]);
                        assert(adjacent(worn.my_path[0], worn.my_path[1]));
                        lemma_places_aligned(worn.my_path[0], worn.my_path[1], size, width, height);
                    }
                }
            }
        }
        let speed = paced(turned.max_speed, turned.hp, turned.max_hp);
        assert(0 <= speed * time) by (nonlinear_arith)
            requires
                0 <= speed,
                0 <= time,
        ;
        lemma_walk_along_an_axis(turned.position, turned.next_position, speed * time);
    }
}

/// Who has been set out on a path that leads from the cell on which they
/// stand from cell to cell of a storey of `rows` by `cols` cells is on their
/// way.
pub proof fn lemma_set_out_on_track(
    before: HumanView,
    rows: nat,
    cols: nat,
    size: u64,
    width: u64,
    height: u64,
)
    requires
        before.now_tile.0 < rows && before.now_tile.1 < cols,
        forall|k: int|
            0 <= k < before.my_path.len() ==> (#[trigger] before.my_path[k]).0 < rows
                && before.my_path[k].1 < cols && adjacent(
                crate::route::before(before.now_tile, before.my_path, k),
                before.my_path[k],
            ),
    ensures
        before.set_out(size, width, height).on_track(rows, cols, size, width, height),
{
    let after = before.set_out(size, width, height);
    if before.my_path.len() > 0 {
        assert(adjacent(crate::route::before(before.now_tile, before.my_path, 0), before.my_path[0]));
        lemma_places_aligned(before.now_tile, before.my_path[0], size, width, height);
    } else {
        lemma_places_aligned(before.now_tile, before.now_tile, size, width, height);
    }
    assert forall|k: int| 0 < k < after.my_path.len() implies adjacent(
        after.my_path[k - 1],
        #[trigger] after.my_path[k],
    ) by {
        assert(adjacent(crate::route::before(before.now_tile, before.my_path, k), before.my_path[k]));
    }
}

/// Who has been sent to an exit of a storey is on their way over it.
pub proof fn lemma_sent_to_exit_on_track(
    before: HumanView,
    after: HumanView,
    pass: StoreyPass,
    size: u64,
    width: u64,
    height: u64,
)
    requires
        pass.wf(),
        sent_to_exit(before, after, pass, size, width, height),
    ensures
        after.on_track(pass.rows(), pass.cols(), size, width, height),
{
    let start = HumanView { target_tile: after.target_tile, my_path: after.my_path, ..before };
    assert forall|k: int| 0 <= k < start.my_path.len() implies (#[trigger] start.my_path[k]).0
        < pass.rows() && start.my_path[k].1 < pass.cols() && adjacent(
        crate::route::before(start.now_tile, start.my_path, k),
        start.my_path[k],
    ) by {
        assert(walkable(pass.map@).contains(start.my_path[k]));
    }
    lemma_set_out_on_track(start, pass.rows(), pass.cols(), size, width, height);
}

/// Who has been sent to a safe place of a storey is on their way over it.
pub proof fn lemma_sent_to_safety_on_track(
    before: HumanView,
    after: HumanView,
    plan: TileMap,
    size: u64,
    width: u64,
    height: u64,
)
    requires
        plan.wf(),
        sent_to_safety(before, after, plan, size, width, height),
    ensures
        after.on_track(plan.rows(), plan.cols(), size, width, height),
{
    let start = HumanView { target_tile: after.target_tile, my_path: after.my_path, ..before };
    assert forall|k: int| 0 <= k < start.my_path.len() implies (#[trigger] start.my_path[k]).0
        < plan.rows() && start.my_path[k].1 < plan.cols() && adjacent(
        crate::route::before(start.now_tile, start.my_path, k),
        start.my_path[k],
    ) by {
        assert(crate::plan::outside(plan.tiles@).contains(start.my_path[k]));
    }
    lemma_set_out_on_track(start, plan.rows(), plan.cols(), size, width, height);
}

} // verus!
