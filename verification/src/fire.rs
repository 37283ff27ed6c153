//! The fire of one storey: which cells can burn, which burn and for how
//! long, and which have burnt out.

use rand::rngs::StdRng;
use vstd::prelude::*;
use crate::plan::{filled, has_shape, rectangular, width, TileMap};
use crate::random::{draw_range, draw_ratio};
use crate::route::{at, in_grid};
use crate::smoke::StoreySmoke;
use crate::storey::StoreyTable;
use crate::tile::TileType;
use crate::timer::{Timer, TimerMode};

verus! {

/// The smoke, in thousandths, that a fire at the end of its burning time
/// emits each time its smoke timer runs out.
pub const EMISSION: u64 = 5000;

/// The denominator of chances and coefficients given in thousandths.
pub const THOUSAND: u32 = 1000;

/// The two timers of a burning cell: the one that ends the fire, which runs
/// once, and the one that paces the smoke, which repeats.
#[derive(Clone, Copy, Debug, PartialEq, Eq, Structural)]
pub struct FireTimer {
    pub burning_timer: Timer,
    pub smoking_timer: Timer,
}

/// Whether `drawn` is a duration within a fifth around `duration`: from four
/// fifths of it up to, but not including, six fifths or the longest time a
/// timer can hold. Around 0 there is only 0.
pub open spec fn within_jitter(duration: u32, drawn: u32) -> bool {
    if duration == 0 {
        drawn == 0
    } else {
        duration as int * 4 / 5 <= drawn && drawn < duration as int * 6 / 5 && drawn < u32::MAX
    }
}

/// A duration within a fifth around `duration`, drawn from `rng`.
pub fn jittered(duration: u32, rng: &mut StdRng) -> (drawn: u32)
    ensures
        within_jitter(duration, drawn),
{
    if duration == 0 {
        return 0;
    }
    let low: u64 = duration as u64 * 4 / 5;
    let high: u64 = if duration as u64 * 6 / 5 > u32::MAX as u64 {
        u32::MAX as u64
    } else {
        duration as u64 * 6 / 5
    };
    draw_range(rng, low, high) as u32
}

impl FireTimer {
    /// The timers of a fire that has just caught, to burn for `burning`
    /// milliseconds and to smoke every `smoking` milliseconds.
    pub open spec fn started(burning: u32, smoking: u32) -> FireTimer {
        FireTimer {
            burning_timer: Timer {
                duration: burning,
                elapsed: 0,
                mode: TimerMode::Once,
                finished: false,
            },
            smoking_timer: Timer {
                duration: smoking,
                elapsed: 0,
                mode: TimerMode::Repeating,
                finished: false,
            },
        }
    }

    /// Whether these are the timers of a fire that has just caught, with
    /// durations within a fifth around `burning_time` and `smoking_time`.
    pub open spec fn fresh(self, burning_time: u32, smoking_time: u32) -> bool {
        &&& self == Self::started(self.burning_timer.duration, self.smoking_timer.duration)
        &&& within_jitter(burning_time, self.burning_timer.duration)
        &&& within_jitter(smoking_time, self.smoking_timer.duration)
    }

    /// The timers of a fire that has just caught, with the given durations.
    pub fn with_durations(burning: u32, smoking: u32) -> (timer: FireTimer)
        ensures
            timer == Self::started(burning, smoking),
    {
        FireTimer {
            burning_timer: Timer::new(burning, TimerMode::Once),
            smoking_timer: Timer::new(smoking, TimerMode::Repeating),
        }
    }

    /// The timers of a fire that has just caught, each duration drawn within
    /// a fifth around the given one.
    pub fn new(burning_time: u32, smoking_time: u32, rng: &mut StdRng) -> (timer: FireTimer)
        ensures
            timer.fresh(burning_time, smoking_time),
    {
        let burning = jittered(burning_time, rng);
        let smoking = jittered(smoking_time, rng);
        Self::with_durations(burning, smoking)
    }

    /// For how many milliseconds the fire has burnt.
    pub fn get_burning_time(&self) -> (time: u32)
        ensures
            time == self.burning_timer.elapsed,
    {
        self.burning_timer.elapsed
    }

    /// The timers after `delta` more milliseconds.
    pub open spec fn after(self, delta: u32) -> FireTimer {
        FireTimer {
            burning_timer: self.burning_timer.after(delta),
            smoking_timer: self.smoking_timer.after(delta),
        }
    }

    /// Lets `delta` milliseconds pass on both timers.
    pub fn tick(&mut self, delta: u32)
        ensures
            *final(self) == old(self).after(delta),
    {
        self.burning_timer.tick(delta);
        self.smoking_timer.tick(delta);
    }

    /// The smoke that the fire emits when its smoke timer runs out:
    /// [`EMISSION`] times the part of the burning time that has passed.
    pub open spec fn emission(self) -> u64 {
        emission_at(self.burning_timer.elapsed, self.burning_timer.duration)
    }

    /// The smoke that the fire emits when its smoke timer runs out.
    pub fn get_emission(&self) -> (value: u64)
        ensures
            value == self.emission(),
    {
        let elapsed = self.burning_timer.elapsed;
        let duration = self.burning_timer.duration;
        if duration == 0 || elapsed >= duration {
            EMISSION
        } else {
            assert(EMISSION * elapsed / (duration as int) <= EMISSION) by (nonlinear_arith)
                requires
                    elapsed < duration,
                    EMISSION == 5000,
            ;
            EMISSION * (elapsed as u64) / (duration as u64)
        }
    }
}

/// [`EMISSION`] times `elapsed / duration`, rounded down; all of it once the
/// time has run.
pub open spec fn emission_at(elapsed: u32, duration: u32) -> u64 {
    if duration == 0 || elapsed >= duration {
        EMISSION
    } else {
        (EMISSION * elapsed / (duration as int)) as u64
    }
}

impl Default for FireTimer {
    /// The timers of a fire that burns for a minute and smokes every two
    /// seconds.
    fn default() -> (timer: FireTimer)
        ensures
            timer == FireTimer::started(60_000, 2_000),
    {
        FireTimer::with_durations(60_000, 2_000)
    }
}

/// The fire on one cell.
#[derive(Clone, Copy, Debug, PartialEq, Eq, Structural)]
pub enum Fire {
    /// The cell can burn and has not caught fire.
    Off,
    /// The cell burns.
    On(FireTimer),
    /// The cell has burnt out, or holds nothing that burns.
    NeverBurn,
}

impl Default for Fire {
    fn default() -> (fire: Fire)
        ensures
            fire == Fire::Off,
    {
        Fire::Off
    }
}

impl Fire {
    /// How far the cell has come on the way from unburnt to burnt out.
    pub open spec fn stage(self) -> nat {
        match self {
            Fire::Off => 0,
            Fire::On(_) => 1,
            Fire::NeverBurn => 2,
        }
    }

    /// Whether a cell that held `self` may hold `later` afterwards: it
    /// never goes back a stage.
    pub open spec fn may_become(self, later: Fire) -> bool {
        self.stage() <= later.stage()
    }

    /// Whether the cell has just caught fire, with durations within a fifth
    /// around the given ones.
    pub open spec fn kindled(self, burning_time: u32, smoking_time: u32) -> bool {
        self matches Fire::On(timer) && timer.fresh(burning_time, smoking_time)
    }

    /// For how many milliseconds the cell has burnt; 0 if it does not burn.
    pub open spec fn burning_time(self) -> u32 {
        match self {
            Fire::On(timer) => timer.burning_timer.elapsed,
            _ => 0,
        }
    }

    /// The cell after `delta` more milliseconds: a burning cell whose time
    /// is up has burnt out.
    pub open spec fn burnt(self, delta: u32) -> Fire {
        match self {
            Fire::On(timer) => if timer.after(delta).burning_timer.finished {
                Fire::NeverBurn
            } else {
                Fire::On(timer.after(delta))
            },
            _ => self,
        }
    }

    /// The smoke that the cell emits during the next `delta` milliseconds.
    pub open spec fn emitted(self, delta: u32) -> u64 {
        match self {
            Fire::On(timer) => if timer.after(delta).smoking_timer.finished {
                timer.after(delta).emission()
            } else {
                0
            },
            _ => 0,
        }
    }

    /// Sets an unburnt cell on fire with the timers `timer`; any other cell
    /// stays as it is.
    pub fn fire_on_with(&mut self, timer: FireTimer)
        ensures
            *final(self) == (if *old(self) == Fire::Off {
                Fire::On(timer)
            } else {
                *old(self)
            }),
            old(self).may_become(*final(self)),
    {
        match *self {
            Fire::Off => {
                *self = Fire::On(timer);
            },
            _ => {},
        }
    }

    /// Sets an unburnt cell on fire, its timers drawn around the given
    /// durations; any other cell stays as it is.
    pub fn fire_on(&mut self, burning_time: u32, smoking_time: u32, rng: &mut StdRng)
        ensures
            *old(self) == Fire::Off ==> final(self).kindled(burning_time, smoking_time),
            *old(self) != Fire::Off ==> *final(self) == *old(self),
            old(self).may_become(*final(self)),
    {
        match *self {
            Fire::Off => {
                let timer = FireTimer::new(burning_time, smoking_time, rng);
                self.fire_on_with(timer);
            },
            _ => {},
        }
    }

    /// Puts a burning cell out for good; any other cell stays as it is.
    pub fn fire_off(&mut self)
        ensures
            *final(self) == (if *old(self) is On {
                Fire::NeverBurn
            } else {
                *old(self)
            }),
            old(self).may_become(*final(self)),
    {
        match *self {
            Fire::On(_) => {
                *self = Fire::NeverBurn;
            },
            _ => {},
        }
    }

    /// For how many milliseconds the cell has burnt; 0 if it does not burn.
    pub fn get_burning_time(&self) -> (time: u32)
        ensures
            time == self.burning_time(),
    {
        match self {
            Fire::On(timer) => timer.get_burning_time(),
            _ => 0,
        }
    }

    /// Whether the cell can burn and has not caught fire.
    pub fn is_off(&self) -> (off: bool)
        ensures
            off == (*self == Fire::Off),
    {
        match self {
            Fire::Off => true,
            _ => false,
        }
    }

    /// Whether the fire on the cell is to be shown: it is while the cell burns.
    pub fn is_visible(&self) -> (visible: bool)
        ensures
            visible == (*self is On),
    {
        match self {
            Fire::On(_) => true,
            _ => false,
        }
    }

    /// Lets `delta` milliseconds pass on the cell, and says how much smoke
    /// it emitted meanwhile.
    pub fn burn(&mut self, delta: u32) -> (smoke: u64)
        ensures
            *final(self) == old(self).burnt(delta),
            smoke == old(self).emitted(delta),
            old(self).may_become(*final(self)),
    {
        match *self {
            Fire::On(timer) => {
                let mut timer = timer;
                timer.tick(delta);
                let smoke = if timer.smoking_timer.finished {
                    timer.get_emission()
                } else {
                    0
                };
                if timer.burning_timer.finished {
                    *self = Fire::NeverBurn;
                } else {
                    *self = Fire::On(timer);
                }
                smoke
            },
            _ => 0,
        }
    }
}

/// The three stages of a fire follow each other in one direction: a cell
/// that may become a second state, which may become a third, may become the
/// third; so a cell seen burning is never seen unburnt later, and a cell
/// seen burnt out is never seen burning or unburnt later.
pub proof fn lemma_fire_never_goes_back(first: Fire, second: Fire, third: Fire)
    requires
        first.may_become(second),
        second.may_become(third),
    ensures
        first.may_become(third),
        first is On ==> !(third is Off),
        first is NeverBurn ==> third is NeverBurn,
{
}

/// Whether the timer that ends the fire of the cell, if it burns, runs once
/// and is marked finished only when it has run its time.
pub open spec fn well_timed(fire: Fire) -> bool {
    fire matches Fire::On(timer) ==> timer.burning_timer.mode == TimerMode::Once && (
    timer.burning_timer.finished ==> timer.burning_timer.elapsed >= timer.burning_timer.duration)
}

/// A fire burns for the time of its timer and no longer: a burning cell
/// that has burnt for `elapsed` of `duration` milliseconds has burnt out
/// after `delta` more if `elapsed + delta >= duration`, and else burns on
/// and has burnt for `elapsed + delta`; it is never unburnt again; and a cell
/// that does not burn stays as it is.
pub proof fn lemma_fire_burns_its_time(fire: Fire, delta: u32)
    requires
        well_timed(fire),
    ensures
        well_timed(fire.burnt(delta)),
        fire matches Fire::On(timer) ==> fire.burnt(delta) == (if timer.burning_timer.elapsed + delta
            >= timer.burning_timer.duration {
            Fire::NeverBurn
        } else {
            Fire::On(timer.after(delta))
        }),
        fire matches Fire::On(timer) ==> (timer.burning_timer.elapsed + delta
            < timer.burning_timer.duration ==> fire.burnt(delta).burning_time()
            == timer.burning_timer.elapsed + delta),
        fire is On ==> !(fire.burnt(delta) is Off),
        !(fire is On) ==> fire.burnt(delta) == fire,
{
}

/// Whether every cell of `field` is well timed.
pub open spec fn field_well_timed(field: StoreyFire) -> bool {
    forall|c: (usize, usize)| in_grid(field.map@, c) ==> well_timed(#[trigger] at(field.map@, c))
}

/// Every field is well timed that the rules of this library have made: a
/// fresh field holds no fire; a cell that has just caught fire is well
/// timed; and time leaves a well-timed cell well timed.
pub proof fn lemma_fields_stay_well_timed(
    before: StoreyFire,
    after: StoreyFire,
    plan: TileMap,
    p: u32,
    delta: u32,
)
    requires
        fresh_fire(after, plan) || (before.wf() && field_well_timed(before) && (sparked_field(
            before,
            after,
            p,
        ) || caught_field(before, after) || burnt_field(before, after, delta))),
    ensures
        field_well_timed(after),
{
    assert forall|c: (usize, usize)| in_grid(after.map@, c) implies well_timed(
        #[trigger] at(after.map@, c),
    ) by {
        if fresh_fire(after, plan) {
            assert(plan.has_cell(c.0 as int, c.1 as int));
            assert(after.map[c.0 as int][c.1 as int] == fire_of_tile(
                plan.tile(c.0 as int, c.1 as int),
            ));
        } else {
            assert(after.follows_on(&before));
            assert(after.map@[c.0 as int].len() == after.map@[0].len());
            assert(before.map@[c.0 as int].len() == before.map@[0].len());
            assert(in_grid(before.map@, c));
            assert(well_timed(at(before.map@, c)));
            if burnt_field(before, after, delta) {
                lemma_fire_burns_its_time(at(before.map@, c), delta);
            }
        }
    }
}

/// The cell that a fire sprite covers.
#[derive(Clone, Copy, Debug, PartialEq, Eq)]
pub struct FireTile {
    pub pos: (usize, usize),
}

impl FireTile {
    /// The tile on cell `(i, j)`.
    pub fn new(i: usize, j: usize) -> (tile: FireTile)
        ensures
            tile.pos == (i, j),
    {
        FireTile { pos: (i, j) }
    }
}

/// What a fresh fire field holds on a cell with the tile `tile`.
pub open spec fn fire_of_tile(tile: TileType) -> Fire {
    if tile.flammable() {
        Fire::Off
    } else {
        Fire::NeverBurn
    }
}

/// Whether a fire that has burnt for `time` milliseconds reaches over a
/// distance whose square is `distance2` cells, under the coefficient `k`
/// given in thousandths: whether `time / 1000` divided by the distance is
/// more than `k / 1000`. Both sides are squared, which leaves no root to
/// take.
pub open spec fn reaches(time: int, distance2: int, k: int) -> bool {
    time * time > k * k * distance2
}

/// The square of the distance between two cells.
pub open spec fn distance2(a: (usize, usize), b: (usize, usize)) -> int {
    (a.0 - b.0) * (a.0 - b.0) + (a.1 - b.1) * (a.1 - b.1)
}

/// Whether some burning cell of `field` reaches the cell `c`.
pub open spec fn catches(field: Seq<Vec<Fire>>, k: u32, c: (usize, usize)) -> bool {
    exists|b: (usize, usize)| #[trigger]
        lights(field, k, b, c)
}

/// Whether `b` is a burning cell of `field` that reaches the cell `c`.
pub open spec fn lights(field: Seq<Vec<Fire>>, k: u32, b: (usize, usize), c: (usize, usize)) -> bool {
    &&& in_grid(field, b)
    &&& at(field, b) is On
    &&& reaches(at(field, b).burning_time() as int, distance2(b, c), k as int)
}

/// Whether a fire that has burnt for `time` milliseconds reaches from `a`
/// to `b` under the coefficient `k`.
pub fn fire_reaches(time: u32, a: (usize, usize), b: (usize, usize), k: u32) -> (reached: bool)
    ensures
        reached == reaches(time as int, distance2(a, b), k as int),
{
    let di: usize = if a.0 > b.0 {
        a.0 - b.0
    } else {
        b.0 - a.0
    };
    let dj: usize = if a.1 > b.1 {
        a.1 - b.1
    } else {
        b.1 - a.1
    };
    assert(distance2(a, b) == di * di + dj * dj) by (nonlinear_arith)
        requires
            di == a.0 - b.0 || di == b.0 - a.0,
            dj == a.1 - b.1 || dj == b.1 - a.1,
            distance2(a, b) == (a.0 - b.0) * (a.0 - b.0) + (a.1 - b.1) * (a.1 - b.1),
    ;
    let t2: u64 = {
        assert(time * time <= 0xffff_ffff * 0xffff_ffff) by (nonlinear_arith)
            requires
                0 <= time <= 0xffff_ffff,
        ;
        (time as u64) * (time as u64)
    };
    if k == 0 {
        assert(k * k * distance2(a, b) == 0) by (nonlinear_arith)
            requires
                k == 0,
        ;
        assert((time > 0) == (time * time > 0)) by (nonlinear_arith)
            requires
                time >= 0,
        ;
        return time > 0;
    }
    if di > 0xffff_ffff || dj > 0xffff_ffff {
        assert(k * k * (di * di + dj * dj) > 0xffff_ffff * 0xffff_ffff) by (nonlinear_arith)
            requires
                k >= 1,
                di >= 0,
                dj >= 0,
                di > 0xffff_ffff || dj > 0xffff_ffff,
        ;
        return false;
    }
    let d2: u128 = {
        assert(di * di <= 0xffff_ffff * 0xffff_ffff && dj * dj <= 0xffff_ffff * 0xffff_ffff)
            by (nonlinear_arith)
            requires
                0 <= di <= 0xffff_ffff,
                0 <= dj <= 0xffff_ffff,
        ;
        (di as u128) * (di as u128) + (dj as u128) * (dj as u128)
    };
    if d2 > 0xffff_ffff_ffff_ffff {
        assert(k * k * (di * di + dj * dj) > 0xffff_ffff * 0xffff_ffff) by (nonlinear_arith)
            requires
                k >= 1,
                di * di + dj * dj > 0xffff_ffff_ffff_ffff,
        ;
        return false;
    }
    let k2: u64 = {
        assert(k * k <= 0xffff_ffff * 0xffff_ffff) by (nonlinear_arith)
            requires
                0 <= k <= 0xffff_ffff,
        ;
        (k as u64) * (k as u64)
    };
    assert(k2 as int * d2 as int <= 0xffff_ffff_ffff_ffff * 0xffff_ffff_ffff_ffff) by (nonlinear_arith)
        requires
            0 <= k2 <= 0xffff_ffff_ffff_ffff,
            0 <= d2 <= 0xffff_ffff_ffff_ffff,
    ;
    assert(k * k * (di * di + dj * dj) == (k * k) * (di * di + dj * dj)) by (nonlinear_arith);
    (t2 as u128) > (k2 as u128) * d2
}

/// The fire of one storey: `map[row][column]`, the times for which a fire
/// burns and after which it smokes again, in milliseconds, and the
/// coefficient of spreading, in thousandths.
#[derive(Clone, Debug)]
pub struct StoreyFire {
    pub map: Vec<Vec<Fire>>,
    pub burning_time: u32,
    pub smoking_time: u32,
    pub k: u32,
}

impl StoreyFire {
    /// The field is a rectangle.
    pub open spec fn wf(&self) -> bool {
        rectangular(self.map@)
    }

    /// The number of rows.
    pub open spec fn rows(&self) -> nat {
        self.map@.len()
    }

    /// The number of columns.
    pub open spec fn cols(&self) -> nat {
        width(self.map@)
    }

    /// Whether the field has one cell for each cell of `plan`.
    pub open spec fn fits(&self, plan: &TileMap) -> bool {
        self.rows() == plan.rows() && self.cols() == plan.cols()
    }

    /// Whether the field differs from `before` in nothing but what is on its
    /// cells, and there no cell has gone back a stage.
    pub open spec fn follows_on(&self, before: &StoreyFire) -> bool {
        &&& self.rows() == before.rows()
        &&& self.cols() == before.cols()
        &&& self.burning_time == before.burning_time
        &&& self.smoking_time == before.smoking_time
        &&& self.k == before.k
        &&& forall|c: (usize, usize)|
            in_grid(before.map@, c) ==> at(before.map@, c).may_become(#[trigger] at(self.map@, c))
    }

    /// A field of `rows` by `cols` cells that cannot burn, where a fire
    /// burns for 100 seconds and smokes every second, with a coefficient of
    /// spreading of 1.
    pub fn new(rows: usize, cols: usize) -> (field: StoreyFire)
        ensures
            field.wf(),
            has_shape(field.map@, rows as nat, cols as nat),
            forall|i: int, j: int|
                0 <= i < rows && 0 <= j < cols ==> (#[trigger] field.map[i][j]) == Fire::NeverBurn,
            field.burning_time == 100_000,
            field.smoking_time == 1_000,
            field.k == 1_000,
    {
        StoreyFire {
            map: filled(rows, cols, Fire::NeverBurn),
            burning_time: 100_000,
            smoking_time: 1_000,
            k: 1_000,
        }
    }

    /// A field of `rows` by `cols` cells that cannot burn, with the given
    /// times and coefficient.
    pub fn new_with(rows: usize, cols: usize, burning_time: u32, smoking_time: u32, k: u32) -> (field:
        StoreyFire)
        ensures
            field.wf(),
            has_shape(field.map@, rows as nat, cols as nat),
            forall|i: int, j: int|
                0 <= i < rows && 0 <= j < cols ==> (#[trigger] field.map[i][j]) == Fire::NeverBurn,
            field.burning_time == burning_time,
            field.smoking_time == smoking_time,
            field.k == k,
    {
        StoreyFire { map: filled(rows, cols, Fire::NeverBurn), burning_time, smoking_time, k }
    }

    /// Makes the cells that hold furniture ready to burn. The other cells
    /// stay as they are.
    pub fn init_from_map(&mut self, map: &TileMap)
        requires
            old(self).wf(),
            map.wf(),
            old(self).fits(map),
        ensures
            final(self).wf(),
            final(self).fits(map),
            final(self).burning_time == old(self).burning_time,
            final(self).smoking_time == old(self).smoking_time,
            final(self).k == old(self).k,
            forall|i: int, j: int|
                map.has_cell(i, j) ==> (#[trigger] final(self).map[i][j]) == (if map.tile(
                    i,
                    j,
                ).flammable() {
                    Fire::Off
                } else {
                    old(self).map[i][j]
                }),
    {
        let (rows, cols) = map.get_size();
        let mut i: usize = 0;
        while i < rows
            invariant
                i <= rows,
                rows == map.rows(),
                cols == map.cols(),
                map.wf(),
                self.wf(),
                self.fits(map),
                self.burning_time == old(self).burning_time,
                self.smoking_time == old(self).smoking_time,
                self.k == old(self).k,
                forall|a: int, b: int|
                    map.has_cell(a, b) ==> (#[trigger] self.map[a][b]) == (if a < i && map.tile(
                        a,
                        b,
                    ).flammable() {
                        Fire::Off
                    } else {
                        old(self).map[a][b]
                    }),
            decreases rows - i,
        {
            let mut j: usize = 0;
            while j < cols
                invariant
                    i < rows,
                    j <= cols,
                    rows == map.rows(),
                    cols == map.cols(),
                    map.wf(),
                    self.wf(),
                    self.fits(map),
                    self.burning_time == old(self).burning_time,
                    self.smoking_time == old(self).smoking_time,
                    self.k == old(self).k,
                    forall|a: int, b: int|
                        map.has_cell(a, b) ==> (#[trigger] self.map[a][b]) == (if (a < i || (a == i
                            && b < j)) && map.tile(a, b).flammable() {
                            Fire::Off
                        } else {
                            old(self).map[a][b]
                        }),
                decreases cols - j,
            {
                if map.tiles[i][j] == TileType::Furniture {
                    self.map[i][j] = Fire::Off;
                }
                j += 1;
            }
            i += 1;
        }
    }

    /// The burning cells, each with the time for which it has burnt.
    fn burning_cells(&self) -> (burning: Vec<(usize, usize, u32)>)
        requires
            self.wf(),
        ensures
            forall|e: int|
                0 <= e < burning@.len() ==> is_burning(self.map@, #[trigger] burning@[e]),
            forall|b: (usize, usize)|
                in_grid(self.map@, b) && at(self.map@, b) is On ==> burning@.contains(
                    #[trigger] burning_entry(self.map@, b),
                ),
    {
        let rows = self.map.len();
        let mut burning: Vec<(usize, usize, u32)> = Vec::new();
        let mut i: usize = 0;
        while i < rows
            invariant
                i <= rows,
                rows == self.rows(),
                self.wf(),
                forall|e: int|
                    0 <= e < burning@.len() ==> is_burning(self.map@, #[trigger] burning@[e]),
                forall|b: (usize, usize)|
                    in_grid(self.map@, b) && at(self.map@, b) is On && b.0 < i ==> burning@.contains(
                        #[trigger] burning_entry(self.map@, b),
                    ),
            decreases rows - i,
        {
            let cols = self.map[i].len();
            let mut j: usize = 0;
            while j < cols
                invariant
                    i < rows,
                    j <= cols,
                    rows == self.rows(),
                    cols == self.cols(),
                    self.wf(),
                    forall|e: int|
                        0 <= e < burning@.len() ==> is_burning(self.map@, #[trigger] burning@[e]),
                    forall|b: (usize, usize)|
                        in_grid(self.map@, b) && at(self.map@, b) is On && (b.0 < i || (b.0 == i
                            && b.1 < j)) ==> burning@.contains(#[trigger] burning_entry(self.map@, b)),
                decreases cols - j,
            {
                let ghost seen = burning@;
                match self.map[i][j] {
                    Fire::On(timer) => {
                        burning.push((i, j, timer.get_burning_time()));
                        proof {
                            assert(burning@[seen.len() as int] == burning_entry(self.map@, (i, j)));
                        }
                    },
                    _ => {},
                }
                proof {
                    assert forall|b: (usize, usize)|
                        in_grid(self.map@, b) && at(self.map@, b) is On && (b.0 < i || (b.0 == i
                            && b.1 < j + 1)) implies burning@.contains(
                        #[trigger] burning_entry(self.map@, b),
                    ) by {
                        if b != (i, j) {
                            let e = choose|e: int|
                                0 <= e < seen.len() && seen[e] == burning_entry(self.map@, b);
                            assert(burning@[e] == seen[e]);
                        }
                    }
                    assert forall|e: int| 0 <= e < burning@.len() implies is_burning(
                        self.map@,
                        #[trigger] burning@[e],
                    ) by {
                        if e < seen.len() {
                            assert(burning@[e] == seen[e]);
                        }
                    }
                }
                j += 1;
            }
            i += 1;
        }
        burning
    }

    /// Sets every unburnt cell on fire with a chance of `p` in a thousand,
    /// each on its own draw. Cells that burn or have burnt out stay as they
    /// are.
    pub fn get_p_fire(&mut self, p: u32, rng: &mut StdRng)
        requires
            old(self).wf(),
            p <= THOUSAND,
        ensures
            final(self).wf(),
            final(self).follows_on(old(self)),
            forall|c: (usize, usize)|
                in_grid(old(self).map@, c) ==> sparked(
                    at(old(self).map@, c),
                    #[trigger] at(final(self).map@, c),
                    p,
                    old(self).burning_time,
                    old(self).smoking_time,
                ),
    {
        let rows = self.map.len();
        let burning_time = self.burning_time;
        let smoking_time = self.smoking_time;
        let mut i: usize = 0;
        while i < rows
            invariant
                i <= rows,
                rows == self.rows(),
                p <= THOUSAND,
                self.wf(),
                old(self).wf(),
                self.rows() == old(self).rows(),
                self.cols() == old(self).cols(),
                self.burning_time == old(self).burning_time == burning_time,
                self.smoking_time == old(self).smoking_time == smoking_time,
                self.k == old(self).k,
                forall|c: (usize, usize)|
                    in_grid(old(self).map@, c) ==> (if c.0 < i {
                        sparked(
                            at(old(self).map@, c),
                            #[trigger] at(self.map@, c),
                            p,
                            burning_time,
                            smoking_time,
                        )
                    } else {
                        at(self.map@, c) == at(old(self).map@, c)
                    }),
            decreases rows - i,
        {
            let cols = self.map[i].len();
            let mut j: usize = 0;
            while j < cols
                invariant
                    i < rows,
                    j <= cols,
                    rows == self.rows(),
                    cols == self.cols(),
                    p <= THOUSAND,
                    self.wf(),
                    old(self).wf(),
                    self.rows() == old(self).rows(),
                    self.cols() == old(self).cols(),
                    self.burning_time == old(self).burning_time == burning_time,
                    self.smoking_time == old(self).smoking_time == smoking_time,
                    self.k == old(self).k,
                    forall|c: (usize, usize)|
                        in_grid(old(self).map@, c) ==> (if c.0 < i || (c.0 == i && c.1 < j) {
                            sparked(
                                at(old(self).map@, c),
                                #[trigger] at(self.map@, c),
                                p,
                                burning_time,
                                smoking_time,
                            )
                        } else {
                            at(self.map@, c) == at(old(self).map@, c)
                        }),
                decreases cols - j,
            {
                let ghost before = self.map@;
                assert(at(before, (i, j)) == at(old(self).map@, (i, j)));
                if self.map[i][j].is_off() {
                    if draw_ratio(rng, p, THOUSAND) {
                        self.map[i][j].fire_on(burning_time, smoking_time, rng);
                    }
                }
                proof {
                    assert forall|c: (usize, usize)| in_grid(old(self).map@, c) implies (if c.0 < i
                        || (c.0 == i && c.1 < j + 1) {
                        sparked(
                            at(old(self).map@, c),
                            #[trigger] at(self.map@, c),
                            p,
                            burning_time,
                            smoking_time,
                        )
                    } else {
                        at(self.map@, c) == at(old(self).map@, c)
                    }) by {
                        if c != (i, j) {
                            assert(at(self.map@, c) == at(before, c));
                        }
                    }
                }
                j += 1;
            }
            i += 1;
        }
        proof {
            assert forall|c: (usize, usize)| in_grid(old(self).map@, c) implies at(
                old(self).map@,
                c,
            ).may_become(#[trigger] at(self.map@, c)) by {
                assert(sparked(
                    at(old(self).map@, c),
                    at(self.map@, c),
                    p,
                    burning_time,
                    smoking_time,
                ));
            }
        }
    }

    /// Lets the fire spread: every unburnt cell that some burning cell
    /// reaches catches fire. Only the cells that burnt before the call
    /// spread the fire.
    pub fn get_neighbours_fire_on(&mut self, rng: &mut StdRng)
        requires
            old(self).wf(),
        ensures
            final(self).wf(),
            final(self).follows_on(old(self)),
            forall|c: (usize, usize)|
                in_grid(old(self).map@, c) ==> caught(
                    old(self).map@,
                    old(self).k,
                    c,
                    #[trigger] at(final(self).map@, c),
                    old(self).burning_time,
                    old(self).smoking_time,
                ),
    {
        let burning = self.burning_cells();
        let rows = self.map.len();
        let burning_time = self.burning_time;
        let smoking_time = self.smoking_time;
        let k = self.k;
        let mut i: usize = 0;
        while i < rows
            invariant
                i <= rows,
                rows == self.rows(),
                self.wf(),
                old(self).wf(),
                self.rows() == old(self).rows(),
                self.cols() == old(self).cols(),
                self.burning_time == old(self).burning_time == burning_time,
                self.smoking_time == old(self).smoking_time == smoking_time,
                self.k == old(self).k == k,
                forall|e: int|
                    0 <= e < burning@.len() ==> is_burning(old(self).map@, #[trigger] burning@[e]),
                forall|b: (usize, usize)|
                    in_grid(old(self).map@, b) && at(old(self).map@, b) is On ==> burning@.contains(
                        #[trigger] burning_entry(old(self).map@, b),
                    ),
                forall|c: (usize, usize)|
                    in_grid(old(self).map@, c) ==> (if c.0 < i {
                        caught(
                            old(self).map@,
                            k,
                            c,
                            #[trigger] at(self.map@, c),
                            burning_time,
                            smoking_time,
                        )
                    } else {
                        at(self.map@, c) == at(old(self).map@, c)
                    }),
            decreases rows - i,
        {
            let cols = self.map[i].len();
            let mut j: usize = 0;
            while j < cols
                invariant
                    i < rows,
                    j <= cols,
                    rows == self.rows(),
                    cols == self.cols(),
                    self.wf(),
                    old(self).wf(),
                    self.rows() == old(self).rows(),
                    self.cols() == old(self).cols(),
                    self.burning_time == old(self).burning_time == burning_time,
                    self.smoking_time == old(self).smoking_time == smoking_time,
                    self.k == old(self).k == k,
                    forall|e: int|
                        0 <= e < burning@.len() ==> is_burning(
                            old(self).map@,
                            #[trigger] burning@[e],
                        ),
                    forall|b: (usize, usize)|
                        in_grid(old(self).map@, b) && at(old(self).map@, b) is On
                            ==> burning@.contains(#[trigger] burning_entry(old(self).map@, b)),
                    forall|c: (usize, usize)|
                        in_grid(old(self).map@, c) ==> (if c.0 < i || (c.0 == i && c.1 < j) {
                            caught(
                                old(self).map@,
                                k,
                                c,
                                #[trigger] at(self.map@, c),
                                burning_time,
                                smoking_time,
                            )
                        } else {
                            at(self.map@, c) == at(old(self).map@, c)
                        }),
                decreases cols - j,
            {
                let ghost before = self.map@;
                assert(at(before, (i, j)) == at(old(self).map@, (i, j)));
                if self.map[i][j].is_off() {
                    let mut hit = false;
                    let mut e: usize = 0;
                    while e < burning.len() && !hit
                        invariant
                            e <= burning@.len(),
                            forall|a: int|
                                0 <= a < burning@.len() ==> is_burning(
                                    old(self).map@,
                                    #[trigger] burning@[a],
                                ),
                            hit ==> catches(old(self).map@, k, (i, j)),
                            !hit ==> forall|a: int|
                                0 <= a < e ==> !reaches(
                                    (#[trigger] burning@[a]).2 as int,
                                    distance2((burning@[a].0, burning@[a].1), (i, j)),
                                    k as int,
                                ),
                        decreases burning@.len() - e,
                    {
                        let entry = burning[e];
                        if fire_reaches(entry.2, (entry.0, entry.1), (i, j), k) {
                            hit = true;
                            proof {
                                assert(is_burning(old(self).map@, burning@[e as int]));
                                assert(lights(old(self).map@, k, (entry.0, entry.1), (i, j)));
                            }
                        }
                        e += 1;
                    }
                    proof {
                        if !hit {
                            assert forall|b: (usize, usize)| !lights(old(self).map@, k, b, (i, j)) by {
                                if lights(old(self).map@, k, b, (i, j)) {
                                    let entry = burning_entry(old(self).map@, b);
                                    assert(burning@.contains(entry));
                                    let a = choose|a: int|
                                        0 <= a < burning@.len() && burning@[a] == entry;
                                    assert(!reaches(
                                        burning@[a].2 as int,
                                        distance2((burning@[a].0, burning@[a].1), (i, j)),
                                        k as int,
                                    ));
                                }
                            }
                        }
                    }
                    if hit {
                        self.map[i][j].fire_on(burning_time, smoking_time, rng);
                    }
                }
                proof {
                    assert forall|c: (usize, usize)| in_grid(old(self).map@, c) implies (if c.0 < i
                        || (c.0 == i && c.1 < j + 1) {
                        caught(
                            old(self).map@,
                            k,
                            c,
                            #[trigger] at(self.map@, c),
                            burning_time,
                            smoking_time,
                        )
                    } else {
                        at(self.map@, c) == at(old(self).map@, c)
                    }) by {
                        if c != (i, j) {
                            assert(at(self.map@, c) == at(before, c));
                        }
                    }
                }
                j += 1;
            }
            i += 1;
        }
        proof {
            assert forall|c: (usize, usize)| in_grid(old(self).map@, c) implies at(
                old(self).map@,
                c,
            ).may_become(#[trigger] at(self.map@, c)) by {
                assert(caught(
                    old(self).map@,
                    k,
                    c,
                    at(self.map@, c),
                    burning_time,
                    smoking_time,
                ));
            }
        }
    }

    /// Lets `delta` milliseconds pass on every burning cell. A cell whose
    /// smoke timer runs out emits smoke into the cell of `smoke` that lies
    /// on it; a cell whose burning time is up has burnt out.
    pub fn burn(&mut self, smoke: &mut StoreySmoke, delta: u32)
        requires
            old(self).wf(),
            old(smoke).wf(),
            old(self).rows() == old(smoke).rows(),
            old(self).cols() == old(smoke).cols(),
        ensures
            final(self).wf(),
            final(self).follows_on(old(self)),
            final(smoke).wf(),
            final(smoke).rows() == old(smoke).rows(),
            final(smoke).cols() == old(smoke).cols(),
            forall|c: (usize, usize)|
                in_grid(old(self).map@, c) ==> #[trigger] at(final(self).map@, c) == at(
                    old(self).map@,
                    c,
                ).burnt(delta),
            forall|c: (usize, usize)|
                in_grid(old(self).map@, c) ==> #[trigger] at(final(smoke).map@, c) == at(
                    old(smoke).map@,
                    c,
                ).raised_by(at(old(self).map@, c).emitted(delta)),
    {
        let rows = self.map.len();
        let mut i: usize = 0;
        while i < rows
            invariant
                i <= rows,
                rows == self.rows(),
                self.wf(),
                smoke.wf(),
                old(self).wf(),
                old(smoke).wf(),
                self.rows() == old(self).rows() == smoke.rows() == old(smoke).rows(),
                self.cols() == old(self).cols() == smoke.cols() == old(smoke).cols(),
                self.burning_time == old(self).burning_time,
                self.smoking_time == old(self).smoking_time,
                self.k == old(self).k,
                forall|c: (usize, usize)|
                    in_grid(old(self).map@, c) ==> #[trigger] at(self.map@, c) == (if c.0 < i {
                        at(old(self).map@, c).burnt(delta)
                    } else {
                        at(old(self).map@, c)
                    }),
                forall|c: (usize, usize)|
                    in_grid(old(self).map@, c) ==> #[trigger] at(smoke.map@, c) == (if c.0 < i {
                        at(old(smoke).map@, c).raised_by(at(old(self).map@, c).emitted(delta))
                    } else {
                        at(old(smoke).map@, c)
                    }),
            decreases rows - i,
        {
            let cols = self.map[i].len();
            let mut j: usize = 0;
            while j < cols
                invariant
                    i < rows,
                    j <= cols,
                    rows == self.rows(),
                    cols == self.cols(),
                    self.wf(),
                    smoke.wf(),
                    old(self).wf(),
                    old(smoke).wf(),
                    self.rows() == old(self).rows() == smoke.rows() == old(smoke).rows(),
                    self.cols() == old(self).cols() == smoke.cols() == old(smoke).cols(),
                    self.burning_time == old(self).burning_time,
                    self.smoking_time == old(self).smoking_time,
                    self.k == old(self).k,
                    forall|c: (usize, usize)|
                        in_grid(old(self).map@, c) ==> #[trigger] at(self.map@, c) == (if c.0 < i
                            || (c.0 == i && c.1 < j) {
                            at(old(self).map@, c).burnt(delta)
                        } else {
                            at(old(self).map@, c)
                        }),
                    forall|c: (usize, usize)|
                        in_grid(old(self).map@, c) ==> #[trigger] at(smoke.map@, c) == (if c.0 < i
                            || (c.0 == i && c.1 < j) {
                            at(old(smoke).map@, c).raised_by(at(old(self).map@, c).emitted(delta))
                        } else {
                            at(old(smoke).map@, c)
                        }),
                decreases cols - j,
            {
                let ghost fire_before = self.map@;
                let ghost smoke_before = smoke.map@;
                assert(at(fire_before, (i, j)) == at(old(self).map@, (i, j)));
                assert(at(smoke_before, (i, j)) == at(old(smoke).map@, (i, j)));
                let emitted = self.map[i][j].burn(delta);
                smoke.map[i][j].density_up(emitted);
                proof {
                    assert forall|c: (usize, usize)| in_grid(old(self).map@, c) implies #[trigger] at(
                        self.map@,
                        c,
                    ) == (if c.0 < i || (c.0 == i && c.1 < j + 1) {
                        at(old(self).map@, c).burnt(delta)
                    } else {
                        at(old(self).map@, c)
                    }) by {
                        if c != (i, j) {
                            assert(at(self.map@, c) == at(fire_before, c));
                        }
                    }
                    assert forall|c: (usize, usize)| in_grid(old(self).map@, c) implies #[trigger] at(
                        smoke.map@,
                        c,
                    ) == (if c.0 < i || (c.0 == i && c.1 < j + 1) {
                        at(old(smoke).map@, c).raised_by(at(old(self).map@, c).emitted(delta))
                    } else {
                        at(old(smoke).map@, c)
                    }) by {
                        if c != (i, j) {
                            assert(at(smoke.map@, c) == at(smoke_before, c));
                        }
                    }
                }
                j += 1;
            }
            i += 1;
        }
    }
}

/// The entry of the burning cell `b` in a list of the burning cells.
pub open spec fn burning_entry(field: Seq<Vec<Fire>>, b: (usize, usize)) -> (usize, usize, u32) {
    (b.0, b.1, at(field, b).burning_time())
}

/// Whether `entry` names a burning cell of `field` with the time for which
/// it has burnt.
pub open spec fn is_burning(field: Seq<Vec<Fire>>, entry: (usize, usize, u32)) -> bool {
    &&& in_grid(field, (entry.0, entry.1))
    &&& at(field, (entry.0, entry.1)) is On
    &&& at(field, (entry.0, entry.1)).burning_time() == entry.2
}

/// What random ignition with a chance of `p` in a thousand can make of a
/// cell: an unburnt cell stays unburnt or has just caught fire, never the
/// latter for a chance of 0 and always for a chance of 1; any other cell
/// stays as it is.
pub open spec fn sparked(before: Fire, after: Fire, p: u32, burning_time: u32,
    smoking_time: u32) -> bool {
    if before == Fire::Off {
        &&& after == Fire::Off || after.kindled(burning_time, smoking_time)
        &&& p == 0 ==> after == Fire::Off
        &&& p == THOUSAND ==> after.kindled(burning_time, smoking_time)
    } else {
        after == before
    }
}

/// What spreading makes of the cell `c` of `field`: an unburnt cell that a
/// burning cell reaches has just caught fire; any other cell stays as it is.
pub open spec fn caught(
    field: Seq<Vec<Fire>>,
    k: u32,
    c: (usize, usize),
    after: Fire,
    burning_time: u32,
    smoking_time: u32,
) -> bool {
    if at(field, c) == Fire::Off && catches(field, k, c) {
        after.kindled(burning_time, smoking_time)
    } else {
        after == at(field, c)
    }
}

/// The fires of a building, storey by storey, and the picture of a fire.
#[derive(Clone, Debug)]
pub struct BuildingFire {
    pub maps: StoreyTable<StoreyFire>,
    pub texture_path: String,
}

impl BuildingFire {
    /// No storey occurs twice, and every field is a rectangle.
    pub open spec fn wf(&self) -> bool {
        self.maps.wf() && self.maps.all(|field: StoreyFire| field.wf())
    }
}

impl Default for BuildingFire {
    fn default() -> (building: BuildingFire)
        ensures
            building.wf(),
            building.maps.count() == 0,
            building.texture_path@ == "./movethings/fire.png"@,
    {
        BuildingFire { maps: StoreyTable::new(), texture_path: "./movethings/fire.png".to_owned() }
    }
}

/// Whether `field` is the fire field of `plan` before anything burns:
/// furniture is ready to burn, nothing else can, and the times and the
/// coefficient are those of [`StoreyFire::new`].
pub open spec fn fresh_fire(field: StoreyFire, plan: TileMap) -> bool {
    &&& field.wf()
    &&& field.fits(&plan)
    &&& forall|i: int, j: int|
        plan.has_cell(i, j) ==> #[trigger] field.map[i][j] == fire_of_tile(plan.tile(i, j))
    &&& field.burning_time == 100_000
    &&& field.smoking_time == 1_000
    &&& field.k == 1_000
}

/// Whether `after` is what random ignition with a chance of `p` in a
/// thousand can make of `before`.
pub open spec fn sparked_field(before: StoreyFire, after: StoreyFire, p: u32) -> bool {
    &&& after.wf()
    &&& after.follows_on(&before)
    &&& forall|c: (usize, usize)|
        in_grid(before.map@, c) ==> sparked(
            at(before.map@, c),
            #[trigger] at(after.map@, c),
            p,
            before.burning_time,
            before.smoking_time,
        )
}

/// Whether `after` is what spreading makes of `before`.
pub open spec fn caught_field(before: StoreyFire, after: StoreyFire) -> bool {
    &&& after.wf()
    &&& after.follows_on(&before)
    &&& forall|c: (usize, usize)|
        in_grid(before.map@, c) ==> caught(
            before.map@,
            before.k,
            c,
            #[trigger] at(after.map@, c),
            before.burning_time,
            before.smoking_time,
        )
}

/// Whether `after` is `before` after `delta` more milliseconds.
pub open spec fn burnt_field(before: StoreyFire, after: StoreyFire, delta: u32) -> bool {
    &&& after.wf()
    &&& after.follows_on(&before)
    &&& forall|c: (usize, usize)|
        in_grid(before.map@, c) ==> #[trigger] at(after.map@, c) == at(before.map@, c).burnt(delta)
}

/// Whether `after` is the smoke `before` with what the fire `fire` emits
/// during `delta` milliseconds.
pub open spec fn smoked_field(before: StoreySmoke, after: StoreySmoke, fire: StoreyFire,
    delta: u32) -> bool {
    &&& after.wf()
    &&& after.rows() == before.rows()
    &&& after.cols() == before.cols()
    &&& forall|c: (usize, usize)|
        in_grid(before.map@, c) ==> #[trigger] at(after.map@, c) == at(before.map@, c).raised_by(
            at(fire.map@, c).emitted(delta),
        )
}

} // verus!
