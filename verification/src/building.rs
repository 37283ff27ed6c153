//! A building as a whole: its floor plans, the fields of every storey and
//! its people, set up together and moved on tick by tick.

use rand::rngs::StdRng;
use vstd::prelude::*;
use crate::crowd::{
    change_storey, init_crowd_target_and_path, init_the_crowd, lemma_raised_by_whom, names_changing,
    names_evacuated, names_known, people_run, placed, raised, to_get_safe, TheCrowd,
};
use crate::fire::{
    burnt_field, caught_field, field_well_timed, fire_of_tile, lemma_fields_stay_well_timed,
    smoked_field, sparked, well_timed, BuildingFire, StoreyFire,
};
use crate::human::{
    sent_to_exit, sent_to_safety, shut_out, stranded, HumanView, LifecycleEvent, RouteError,
};
use crate::pass::{fresh_pass, BuildingPass, StoreyPass};
use crate::plan::{MapAlbum, TileMap};
use crate::route::{at, in_grid};
use crate::rules::{
    burning, ignition, init_building_fire, init_building_pass, init_building_smoke, smoke_covers,
    smoke_diffusion,
};
use crate::smoke::{diffused_field, fresh_smoke, BuildingSmoke, StoreySmoke};
use crate::storey::MapMarker;
use crate::tile::TileType;

verus! {

/// What a simulation is run with. Chances, coefficients and spreads are
/// thousandths, times are milliseconds.
#[derive(Clone, Copy, Debug, PartialEq, Eq, Structural)]
pub struct NeededParameters {
    /// The coefficient of spreading of the fire.
    pub k: u32,
    /// The chance that furniture burns at the start.
    pub p: u32,
    /// For how long a cell burns.
    pub burning_time: u32,
    /// After how long a burning cell smokes again.
    pub smoking_time: u32,
    /// The chance that someone stands on a floor cell at the start.
    pub human_seed: u32,
    /// The coefficient of the damage that smoke does.
    pub s: u32,
    /// The part below full health from which the health at the start is drawn.
    pub h: u32,
    /// The part around the full speed from which the speed at the start is
    /// drawn.
    pub v: u32,
    /// The chance that furniture is put in the place of floor.
    pub c: u32,
}

impl Default for NeededParameters {
    /// Parameters that are all 0.
    fn default() -> (parameters: NeededParameters)
        ensures
            parameters == (NeededParameters {
                k: 0,
                p: 0,
                burning_time: 0,
                smoking_time: 0,
                human_seed: 0,
                s: 0,
                h: 0,
                v: 0,
                c: 0,
            }),
    {
        NeededParameters {
            k: 0,
            p: 0,
            burning_time: 0,
            smoking_time: 0,
            human_seed: 0,
            s: 0,
            h: 0,
            v: 0,
            c: 0,
        }
    }
}

impl NeededParameters {
    /// The chances are chances, and the spreads leave something to draw.
    pub open spec fn valid(&self) -> bool {
        &&& self.p <= 1000
        &&& self.human_seed <= 1000
        &&& self.c <= 1000
        &&& 0 < self.h <= 1000
        &&& 0 < self.v <= 1000
    }

    /// Whether a simulation can be run with the parameters.
    pub fn is_valid(&self) -> (valid: bool)
        ensures
            valid == self.valid(),
    {
        self.p <= 1000 && self.human_seed <= 1000 && self.c <= 1000 && 0 < self.h && self.h <= 1000 && 0
            < self.v && self.v <= 1000
    }
}

/// Why a building could not be set up.
#[derive(Clone, Copy, Debug, PartialEq, Eq, Structural)]
pub enum SetupError {
    /// The parameters are not valid.
    BadParameters,
    /// The album has no plan of the ground floor.
    NoGroundFloor,
    /// Someone has no way to an exit of their storey.
    NoWayOut(RouteError),
}

/// A building in a fire.
#[derive(Debug)]
pub struct Building {
    pub album: MapAlbum,
    pub fire: BuildingFire,
    pub smoke: BuildingSmoke,
    pub pass: BuildingPass,
    pub crowd: TheCrowd,
    /// The storey whose exits lead out of the building.
    pub ground: MapMarker,
    /// The storey whose exits lead to the ground floor.
    pub connector: MapMarker,
}

/// Whether `field` is the fire field of `plan` at the start of a run with
/// `parameters`: nothing but furniture can burn, and of the furniture some
/// may have just caught fire.
pub open spec fn lit_at_start(field: StoreyFire, plan: TileMap, parameters: NeededParameters) -> bool {
    &&& field.wf()
    &&& field.fits(&plan)
    &&& field.burning_time == parameters.burning_time
    &&& field.smoking_time == parameters.smoking_time
    &&& field.k == parameters.k
    &&& forall|i: int, j: int|
        plan.has_cell(i, j) ==> sparked(
            fire_of_tile(plan.tile(i, j)),
            #[trigger] field.map[i][j],
            parameters.p,
            parameters.burning_time,
            parameters.smoking_time,
        )
}

/// Whether `after` is what one tick of `time` milliseconds makes of the fire
/// field `before`: the fire spreads, then time passes.
pub open spec fn fire_ticked(before: StoreyFire, after: StoreyFire, time: u32) -> bool {
    exists|spread: StoreyFire| #[trigger]
        caught_field(before, spread) && burnt_field(spread, after, time)
}

/// Whether `after` is what one tick of `time` milliseconds under the fire
/// `before_fire` makes of the smoke field `before`: the fire spreads, the
/// smoke that it emits is added, and the smoke diffuses.
pub open spec fn smoke_ticked(before: StoreySmoke, after: StoreySmoke, before_fire: StoreyFire,
    time: u32) -> bool {
    exists|spread: StoreyFire, fed: StoreySmoke| #[trigger]
        caught_field(before_fire, spread) && #[trigger] smoked_field(before, fed, spread, time)
            && diffused_field(fed, after)
}

/// The fire field of a storey is well timed at the start of a run, and every
/// tick leaves it so: every cell that burns has burnt out once it has burnt
/// for the time of its timer, and not before.
pub proof fn lemma_fire_stays_well_timed(
    before: StoreyFire,
    after: StoreyFire,
    plan: TileMap,
    parameters: NeededParameters,
    time: u32,
)
    requires
        lit_at_start(after, plan, parameters) || (before.wf() && field_well_timed(before)
            && fire_ticked(before, after, time)),
    ensures
        field_well_timed(after),
{
    if lit_at_start(after, plan, parameters) {
        assert forall|c: (usize, usize)| in_grid(after.map@, c) implies well_timed(
            #[trigger] at(after.map@, c),
        ) by {
            assert(plan.has_cell(c.0 as int, c.1 as int));
            assert(sparked(
                fire_of_tile(plan.tile(c.0 as int, c.1 as int)),
                after.map[c.0 as int][c.1 as int],
                parameters.p,
                parameters.burning_time,
                parameters.smoking_time,
            ));
        }
    } else {
        let spread = choose|spread: StoreyFire| #[trigger]
            caught_field(before, spread) && burnt_field(spread, after, time);
        lemma_fields_stay_well_timed(before, spread, plan, 0, time);
        lemma_fields_stay_well_timed(spread, after, plan, 0, time);
    }
}

/// Whether every fire field of `fire` is well timed.
pub open spec fn fires_well_timed(fire: &BuildingFire) -> bool {
    forall|k: int|
        0 <= k < fire.maps.count() ==> field_well_timed((#[trigger] fire.maps.entries[k]).1)
}

/// The fire fields of a building at the start of a run are well timed.
proof fn lemma_fires_at_start(fire: &BuildingFire, album: &MapAlbum, parameters: NeededParameters)
    requires
        fire.wf(),
        fire.maps@.dom() == album.maps@.dom(),
        forall|name: Seq<char>| #[trigger]
            album.maps@.dom().contains(name) ==> lit_at_start(
                fire.maps@[name],
                album.maps@[name],
                parameters,
            ),
    ensures
        fires_well_timed(fire),
{
    assert forall|k: int| 0 <= k < fire.maps.count() implies field_well_timed(
        (#[trigger] fire.maps.entries[k]).1,
    ) by {
        let name = fire.maps.entries[k].0@;
        fire.maps.lemma_place(k, name);
        assert(album.maps@.dom().contains(name));
        lemma_fire_stays_well_timed(
            fire.maps.entries[k].1,
            fire.maps.entries[k].1,
            album.maps@[name],
            parameters,
            0,
        );
    }
}

/// A tick leaves the fire fields of a building well timed.
proof fn lemma_fires_after_tick(before: &BuildingFire, after: &BuildingFire, time: u32)
    requires
        before.wf(),
        fires_well_timed(before),
        after.maps.count() == before.maps.count(),
        forall|k: int|
            0 <= k < before.maps.count() ==> fire_ticked(
                before.maps.entries[k].1,
                (#[trigger] after.maps.entries[k]).1,
                time,
            ),
    ensures
        fires_well_timed(after),
{
    assert forall|k: int| 0 <= k < after.maps.count() implies field_well_timed(
        (#[trigger] after.maps.entries[k]).1,
    ) by {
        assert(field_well_timed(before.maps.entries[k].1));
        assert(before.maps.entries[k].1.wf());
        lemma_fire_stays_well_timed(
            before.maps.entries[k].1,
            after.maps.entries[k].1,
            arbitrary(),
            arbitrary(),
            time,
        );
    }
}

/// Whether `now` is what one tick makes of the person `before`, number `k` of
/// the crowd, where the tick raised `events` and `sent` says whether
/// everyone could be sent on: the person is worn and walks on; who has left
/// the building is then sent to a safe place of their storey, and who is to
/// change the storey is then moved to the ground floor and sent to its
/// nearest exit.
pub open spec fn person_ticked(
    before: HumanView,
    now: HumanView,
    k: int,
    events: Seq<LifecycleEvent>,
    sent: bool,
    after: &Building,
    time: u32,
) -> bool {
    let walked = before.ticked(
        after.smoke.maps@[before.storey].map@,
        time,
        after.crowd.element_size,
        after.crowd.board_width,
        after.crowd.board_height,
        after.ground@,
    );
    if names_evacuated(events, events.len() as int, k) {
        sent ==> sent_to_safety(
            walked,
            now,
            after.album.maps@[walked.storey],
            after.crowd.element_size,
            after.crowd.board_width,
            after.crowd.board_height,
        )
    } else if names_changing(events, events.len() as int, k) {
        sent ==> sent_to_exit(
            (HumanView { storey: after.ground@, ..walked }),
            now,
            after.pass.maps@[after.ground@],
            after.crowd.element_size,
            after.crowd.board_width,
            after.crowd.board_height,
        )
    } else {
        now == walked
    }
}

/// Whether `c` is a floor cell of the storey number `a` of `album` from which
/// no way leads to the nearest exit of that storey.
pub open spec fn cut_off(album: &MapAlbum, a: int, c: (usize, usize)) -> bool {
    &&& 0 <= a < album.maps.count()
    &&& in_grid(album.maps.entries[a].1.tiles@, c)
    &&& at(album.maps.entries[a].1.tiles@, c) == TileType::Floor
    &&& forall|pass: StoreyPass| #[trigger]
        fresh_pass(pass, album.maps.entries[a].1) ==> stranded(c, pass)
}

/// Whether `now` is someone who was put on a floor cell of a storey of
/// `album` as number `k`, with health and speed drawn from the parts `h` and
/// `v`, and was sent to the nearest exit of that storey.
pub open spec fn person_set_up(
    now: HumanView,
    k: int,
    album: &MapAlbum,
    pass: Map<Seq<char>, StoreyPass>,
    size: u64,
    width: u64,
    height: u64,
    v: u32,
    h: u32,
) -> bool {
    exists|a: int, start: HumanView|
        0 <= a < album.maps.count() && #[trigger] placed(
            start,
            k,
            &album.maps.entries[a].1,
            album.maps.entries[a].0@,
            v,
            h,
        ) && sent_to_exit(start, now, pass[album.maps.entries[a].0@], size, width, height)
}

/// Whether the person `before`, number `k` of the crowd, is one who could not
/// be sent on after the tick that raised `events`: they have left the
/// building and have no way to a safe place of their storey, or they are to
/// change the storey and have no way to an exit of the ground floor.
pub open spec fn person_stuck(
    before: HumanView,
    k: int,
    events: Seq<LifecycleEvent>,
    after: &Building,
    time: u32,
) -> bool {
    let walked = before.ticked(
        after.smoke.maps@[before.storey].map@,
        time,
        after.crowd.element_size,
        after.crowd.board_width,
        after.crowd.board_height,
        after.ground@,
    );
    ||| names_evacuated(events, events.len() as int, k) && shut_out(
        walked.now_tile,
        after.album.maps@[walked.storey],
    )
    ||| names_changing(events, events.len() as int, k) && stranded(
        walked.now_tile,
        after.pass.maps@[after.ground@],
    )
}

/// Whether every storey of `album` has smoke and walkable cells of the shape
/// of its plan.
pub open spec fn fields_fit(album: &MapAlbum, smoke: &BuildingSmoke, pass: &BuildingPass) -> bool {
    forall|name: Seq<char>| #[trigger]
        album.maps.has(name) ==> {
            &&& smoke.maps.has(name)
            &&& pass.maps.has(name)
            &&& smoke.maps@[name].fits(&album.maps@[name])
            &&& pass.maps@[name].fits(&album.maps@[name])
        }
}

/// Whether `after` has the storeys of `before`, in their order, with smoke
/// fields of the same shapes.
pub open spec fn same_shapes(before: &BuildingSmoke, after: &BuildingSmoke) -> bool {
    &&& after.maps.count() == before.maps.count()
    &&& forall|b: int|
        0 <= b < before.maps.count() ==> (#[trigger] after.maps.entries[b]).0 == before.maps.entries[b].0
            && after.maps.entries[b].1.rows() == before.maps.entries[b].1.rows()
            && after.maps.entries[b].1.cols() == before.maps.entries[b].1.cols()
}

/// Smoke that keeps its storeys and their shapes keeps them by name.
proof fn lemma_same_shapes(before: &BuildingSmoke, after: &BuildingSmoke, name: Seq<char>)
    requires
        before.maps.wf(),
        after.maps.wf(),
        same_shapes(before, after),
        before.maps.has(name),
    ensures
        after.maps.has(name),
        after.maps@[name].rows() == before.maps@[name].rows(),
        after.maps@[name].cols() == before.maps@[name].cols(),
{
    let p = before.maps.place(name);
    assert(before.maps.at(p, name));
    before.maps.lemma_place(p, name);
    assert(after.maps.entries[p].0 == before.maps.entries[p].0);
    assert(after.maps.at(p, name));
    after.maps.lemma_place(p, name);
}

impl Building {
    /// The fields belong together: every storey that burns has smoke of its
    /// shape, every fire is well timed, every storey has smoke and walkable
    /// cells of the shape of its plan, everyone is on their way over a
    /// storey that has a plan, everyone's number is their place, and the
    /// ground floor is there.
    pub open spec fn wf(&self) -> bool {
        &&& self.album.wf()
        &&& self.fire.wf()
        &&& self.smoke.wf()
        &&& self.pass.wf()
        &&& smoke_covers(&self.fire, &self.smoke)
        &&& fires_well_timed(&self.fire)
        &&& fields_fit(&self.album, &self.smoke, &self.pass)
        &&& self.crowd.wf()
        &&& self.crowd.on_track(&self.smoke)
        &&& self.crowd.mapped(&self.album)
        &&& self.album.maps.has(self.ground@)
        &&& self.smoke.maps.has(self.ground@)
        &&& self.pass.maps.has(self.ground@)
    }

    /// One tick of `time` milliseconds, in this order: the fire spreads; the
    /// burning cells burn on and emit their smoke; the smoke diffuses;
    /// everyone suffers the smoke and walks on; those who have left the
    /// building are sent to a safe place, and those who have reached the
    /// exit of the connecting storey are moved to the ground floor. The
    /// events of the tick come back, and with them an error if someone who
    /// was to be sent on has no way to go; those behind them in the events
    /// are then not sent on.
    pub fn tick(&mut self, time: u32, rng: &mut StdRng) -> (outcome: (
        Vec<LifecycleEvent>,
        Result<(), RouteError>,
    ))
        requires
            old(self).wf(),
        ensures
            final(self).wf(),
            final(self).album == old(self).album,
            final(self).pass == old(self).pass,
            final(self).ground == old(self).ground,
            final(self).connector == old(self).connector,
            final(self).fire.maps.count() == old(self).fire.maps.count(),
            forall|k: int|
                0 <= k < old(self).fire.maps.count() ==> (#[trigger] final(self).fire.maps.entries[k]).0
                    == old(self).fire.maps.entries[k].0 && fire_ticked(
                    old(self).fire.maps.entries[k].1,
                    final(self).fire.maps.entries[k].1,
                    time,
                ) && final(self).fire.maps.entries[k].1.follows_on(&old(self).fire.maps.entries[k].1),
            forall|k: int|
                0 <= k < old(self).fire.maps.count() ==> smoke_ticked(
                    old(self).smoke.maps@[(#[trigger] old(self).fire.maps.entries[k]).0@],
                    final(self).smoke.maps@[old(self).fire.maps.entries[k].0@],
                    old(self).fire.maps.entries[k].1,
                    time,
                ),
            final(self).crowd.same_board(&old(self).crowd),
            final(self).crowd.humans@.len() == old(self).crowd.humans@.len(),
            outcome.0@ == raised(
                old(self).crowd.humans@,
                final(self).smoke.maps@,
                time,
                old(self).ground@,
                old(self).connector@,
                old(self).crowd.humans@.len(),
            ),
            names_known(outcome.0@, old(self).crowd.humans@.len()),
            forall|k: int|
                0 <= k < old(self).crowd.humans@.len() ==> person_ticked(
                    old(self).crowd.humans[k]@,
                    (#[trigger] final(self).crowd.humans[k])@,
                    k,
                    outcome.0@,
                    outcome.1 is Ok,
                    final(self),
                    time,
                ),
            outcome.1 is Err ==> exists|k: int|
                0 <= k < old(self).crowd.humans@.len() && person_stuck(
                    (#[trigger] old(self).crowd.humans[k])@,
                    k,
                    outcome.0@,
                    final(self),
                    time,
                ),
    {
        self.burn_on(time, rng);
        self.walk_on(time)
    }

    /// The part of a tick that the fire and the smoke take: the fire
    /// spreads, burns on and emits its smoke, and the smoke diffuses.
    fn burn_on(&mut self, time: u32, rng: &mut StdRng)
        requires
            old(self).wf(),
        ensures
            final(self).wf(),
            final(self).album == old(self).album,
            final(self).pass == old(self).pass,
            final(self).ground == old(self).ground,
            final(self).connector == old(self).connector,
            final(self).crowd == old(self).crowd,
            final(self).fire.maps.count() == old(self).fire.maps.count(),
            forall|k: int|
                0 <= k < old(self).fire.maps.count() ==> (#[trigger] final(self).fire.maps.entries[k]).0
                    == old(self).fire.maps.entries[k].0 && fire_ticked(
                    old(self).fire.maps.entries[k].1,
                    final(self).fire.maps.entries[k].1,
                    time,
                ) && final(self).fire.maps.entries[k].1.follows_on(&old(self).fire.maps.entries[k].1),
            forall|k: int|
                0 <= k < old(self).fire.maps.count() ==> smoke_ticked(
                    old(self).smoke.maps@[(#[trigger] old(self).fire.maps.entries[k]).0@],
                    final(self).smoke.maps@[old(self).fire.maps.entries[k].0@],
                    old(self).fire.maps.entries[k].1,
                    time,
                ),
    {
        let ghost fire0 = self.fire;
        let ghost smoke0 = self.smoke;
        ignition(&mut self.fire, rng);
        let ghost fire1 = self.fire;
        proof {
            assert forall|k: int| 0 <= k < fire1.maps.count() implies {
                let name = (#[trigger] fire1.maps.entries[k]).0@;
                &&& smoke0.maps.has(name)
                &&& smoke0.maps@[name].rows() == fire1.maps.entries[k].1.rows()
                &&& smoke0.maps@[name].cols() == fire1.maps.entries[k].1.cols()
            } by {
                assert(fire1.maps.entries[k].0 == fire0.maps.entries[k].0);
                assert(caught_field(fire0.maps.entries[k].1, fire1.maps.entries[k].1));
            }
        }
        burning(&mut self.fire, &mut self.smoke, time);
        let ghost smoke1 = self.smoke;
        smoke_diffusion(&mut self.smoke);
        proof {
            assert forall|name: Seq<char>| smoke0.maps.has(name) implies self.smoke.maps.has(name) by {
                let p = smoke0.maps.place(name);
                assert(smoke0.maps.at(p, name));
                assert(smoke1.maps.entries[p].0 == smoke0.maps.entries[p].0);
                assert(self.smoke.maps.entries[p].0 == smoke1.maps.entries[p].0);
                assert(self.smoke.maps.at(p, name));
            }
            assert forall|a: int, b: int| 0 <= a < b < self.smoke.maps.count() implies (
            #[trigger] self.smoke.maps.entries[a]).0@ != (#[trigger] self.smoke.maps.entries[b]).0@ by {
                assert(self.smoke.maps.entries[a].0 == smoke1.maps.entries[a].0);
                assert(self.smoke.maps.entries[b].0 == smoke1.maps.entries[b].0);
                assert(smoke1.maps.entries[a].0 == smoke0.maps.entries[a].0);
                assert(smoke1.maps.entries[b].0 == smoke0.maps.entries[b].0);
            }
            assert forall|k: int| 0 <= k < self.fire.maps.count() implies {
                let name = (#[trigger] self.fire.maps.entries[k]).0@;
                &&& self.smoke.maps.has(name)
                &&& self.smoke.maps@[name].rows() == self.fire.maps.entries[k].1.rows()
                &&& self.smoke.maps@[name].cols() == self.fire.maps.entries[k].1.cols()
            } by {
                let name = self.fire.maps.entries[k].0@;
                let p = smoke1.maps.place(name);
                assert(smoke1.maps.has(name));
                assert(smoke1.maps.at(p, name));
                smoke1.maps.lemma_place(p, name);
                assert(self.smoke.maps.entries[p].0 == smoke1.maps.entries[p].0);
                assert(self.smoke.maps.at(p, name));
                self.smoke.maps.lemma_place(p, name);
                assert(diffused_field(smoke1.maps.entries[p].1, self.smoke.maps.entries[p].1));
            }
            assert forall|k: int| 0 <= k < fire0.maps.count() implies (
            #[trigger] self.fire.maps.entries[k]).0 == fire0.maps.entries[k].0 && fire_ticked(
                fire0.maps.entries[k].1,
                self.fire.maps.entries[k].1,
                time,
            ) && self.fire.maps.entries[k].1.follows_on(&fire0.maps.entries[k].1) by {
                let a = fire0.maps.entries[k].1;
                let b = fire1.maps.entries[k].1;
                let c = self.fire.maps.entries[k].1;
                assert(fire1.maps.entries[k].0 == fire0.maps.entries[k].0);
                assert(caught_field(a, b) && burnt_field(b, c, time));
                assert forall|cell: (usize, usize)| in_grid(a.map@, cell) implies at(
                    a.map@,
                    cell,
                ).may_become(#[trigger] at(c.map@, cell)) by {
                    assert(at(a.map@, cell).may_become(at(b.map@, cell)));
                    assert(at(b.map@, cell).may_become(at(c.map@, cell)));
                }
            }
            assert forall|k: int| 0 <= k < fire0.maps.count() implies smoke_ticked(
                smoke0.maps@[(#[trigger] fire0.maps.entries[k]).0@],
                self.smoke.maps@[fire0.maps.entries[k].0@],
                fire0.maps.entries[k].1,
                time,
            ) by {
                let name = fire0.maps.entries[k].0@;
                assert(fire1.maps.entries[k].0 == fire0.maps.entries[k].0);
                assert(self.fire.maps.entries[k].0 == fire1.maps.entries[k].0);
                assert(caught_field(fire0.maps.entries[k].1, fire1.maps.entries[k].1));
                let p = smoke1.maps.place(name);
                assert(smoke0.maps.has(name));
                assert(smoke1.maps.has(name));
                assert(smoke1.maps.at(p, name));
                smoke1.maps.lemma_place(p, name);
                assert(self.smoke.maps.entries[p].0 == smoke1.maps.entries[p].0);
                assert(self.smoke.maps.at(p, name));
                self.smoke.maps.lemma_place(p, name);
                assert(smoked_field(
                    smoke0.maps@[name],
                    smoke1.maps@[name],
                    fire1.maps.entries[k].1,
                    time,
                ));
                assert(diffused_field(smoke1.maps@[name], self.smoke.maps@[name]));
            }
        }
        proof {
            lemma_fires_after_tick(&fire0, &self.fire, time);
            assert(same_shapes(&smoke0, &smoke1));
            assert(same_shapes(&smoke1, &self.smoke)) by {
                assert forall|b: int| 0 <= b < smoke1.maps.count() implies (
                #[trigger] self.smoke.maps.entries[b]).0 == smoke1.maps.entries[b].0
                    && self.smoke.maps.entries[b].1.rows() == smoke1.maps.entries[b].1.rows()
                    && self.smoke.maps.entries[b].1.cols() == smoke1.maps.entries[b].1.cols() by {
                    assert(diffused_field(smoke1.maps.entries[b].1, self.smoke.maps.entries[b].1));
                }
            }
            assert forall|name: Seq<char>| smoke0.maps.has(name) implies self.smoke.maps.has(name)
                && self.smoke.maps@[name].rows() == smoke0.maps@[name].rows()
                && self.smoke.maps@[name].cols() == smoke0.maps@[name].cols() by {
                lemma_same_shapes(&smoke0, &smoke1, name);
                lemma_same_shapes(&smoke1, &self.smoke, name);
            }
            assert forall|k: int| 0 <= k < self.crowd.humans@.len() implies self.smoke.maps.has(
                (#[trigger] self.crowd.humans[k]).storey@,
            ) && self.crowd.humans[k]@.on_track(
                self.smoke.maps@[self.crowd.humans[k].storey@].rows(),
                self.smoke.maps@[self.crowd.humans[k].storey@].cols(),
                self.crowd.element_size,
                self.crowd.board_width,
                self.crowd.board_height,
            ) by {
                assert(smoke0.maps.has(self.crowd.humans[k].storey@));
            }
            assert forall|name: Seq<char>| #[trigger] self.album.maps.has(name) implies {
                &&& self.smoke.maps.has(name)
                &&& self.pass.maps.has(name)
                &&& self.smoke.maps@[name].fits(&self.album.maps@[name])
                &&& self.pass.maps@[name].fits(&self.album.maps@[name])
            } by {
                assert(smoke0.maps.has(name));
            }
        }
    }

    /// The part of a tick that the people take: everyone suffers the smoke
    /// and walks on, and who has left the building or is to change the
    /// storey is sent on.
    fn walk_on(&mut self, time: u32) -> (outcome: (Vec<LifecycleEvent>, Result<(), RouteError>))
        requires
            old(self).wf(),
        ensures
            final(self).wf(),
            final(self).album == old(self).album,
            final(self).pass == old(self).pass,
            final(self).ground == old(self).ground,
            final(self).connector == old(self).connector,
            final(self).fire == old(self).fire,
            final(self).smoke == old(self).smoke,
            final(self).crowd.same_board(&old(self).crowd),
            final(self).crowd.humans@.len() == old(self).crowd.humans@.len(),
            outcome.0@ == raised(
                old(self).crowd.humans@,
                final(self).smoke.maps@,
                time,
                old(self).ground@,
                old(self).connector@,
                old(self).crowd.humans@.len(),
            ),
            names_known(outcome.0@, old(self).crowd.humans@.len()),
            forall|k: int|
                0 <= k < old(self).crowd.humans@.len() ==> person_ticked(
                    old(self).crowd.humans[k]@,
                    (#[trigger] final(self).crowd.humans[k])@,
                    k,
                    outcome.0@,
                    outcome.1 is Ok,
                    final(self),
                    time,
                ),
            outcome.1 is Err ==> exists|k: int|
                0 <= k < old(self).crowd.humans@.len() && person_stuck(
                    (#[trigger] old(self).crowd.humans[k])@,
                    k,
                    outcome.0@,
                    final(self),
                    time,
                ),
    {
        let events = people_run(&mut self.crowd, &self.smoke, time, &self.ground, &self.connector);
        let ghost crowd1 = self.crowd;
        let safe = to_get_safe(&mut self.crowd, &self.album, &events);
        let ghost crowd2 = self.crowd;
        proof {
            assert forall|k: int| 0 <= k < self.crowd.humans@.len() implies self.smoke.maps.has(
                (#[trigger] self.crowd.humans[k]).storey@,
            ) && self.crowd.humans[k]@.on_track(
                self.smoke.maps@[self.crowd.humans[k].storey@].rows(),
                self.smoke.maps@[self.crowd.humans[k].storey@].cols(),
                self.crowd.element_size,
                self.crowd.board_width,
                self.crowd.board_height,
            ) by {
                let name = crowd1.humans[k].storey@;
                assert(crowd1.humans[k].storey@ == old(self).crowd.humans[k].storey@);
                assert(self.smoke.maps.has(name));
                assert(self.album.maps.has(name));
                assert(crowd2.humans[k].storey@ == name);
                assert(crowd1.humans[k]@.on_track(
                    self.smoke.maps@[name].rows(),
                    self.smoke.maps@[name].cols(),
                    self.crowd.element_size,
                    self.crowd.board_width,
                    self.crowd.board_height,
                ));
            }
        }
        proof {
            assert forall|k: int| 0 <= k < self.crowd.humans@.len() implies (
            #[trigger] self.crowd.humans[k]).id == k && self.smoke.maps.has(self.crowd.humans[k].storey@)
                && self.album.maps.has(self.crowd.humans[k].storey@) by {
                assert(crowd1.humans[k].id == k);
                assert(crowd1.humans[k].storey@ == old(self).crowd.humans[k].storey@);
                assert(self.smoke.maps.has(old(self).crowd.humans[k].storey@));
            }
        }
        proof {
            assert forall|k: int| 0 <= k < crowd1.humans@.len() implies !(names_evacuated(
                events@,
                events@.len() as int,
                k,
            ) && names_changing(events@, events@.len() as int, k)) by {
                if names_evacuated(events@, events@.len() as int, k) && names_changing(
                    events@,
                    events@.len() as int,
                    k,
                ) {
                    assert(k < crowd1.humans.len());
                    let e1 = choose|e: int|
                        0 <= e < events@.len() && #[trigger] events@[e] == LifecycleEvent::Evacuated(
                            crate::human::Evacuated { id: k as usize },
                        );
                    let e2 = choose|e: int|
                        0 <= e < events@.len() && #[trigger] events@[e]
                            == LifecycleEvent::ChangeStorey(
                            crate::human::ChangeStorey { id: k as usize },
                        );
                    lemma_raised_by_whom(
                        old(self).crowd.humans@,
                        self.smoke.maps@,
                        time,
                        self.ground@,
                        self.connector@,
                        old(self).crowd.humans@.len(),
                        e1,
                    );
                    lemma_raised_by_whom(
                        old(self).crowd.humans@,
                        self.smoke.maps@,
                        time,
                        self.ground@,
                        self.connector@,
                        old(self).crowd.humans@.len(),
                        e2,
                    );
                }
            }
        }
        match safe {
            Ok(_) => {},
            Err(error) => {
                proof {
                    assert forall|k: int| 0 <= k < old(self).crowd.humans@.len() implies person_ticked(
                        old(self).crowd.humans[k]@,
                        (#[trigger] self.crowd.humans[k])@,
                        k,
                        events@,
                        false,
                        self,
                        time,
                    ) by {
                        assert(crowd1.humans[k]@ == old(self).crowd.humans[k]@.ticked(
                            self.smoke.maps@[old(self).crowd.humans[k].storey@].map@,
                            time,
                            self.crowd.element_size,
                            self.crowd.board_width,
                            self.crowd.board_height,
                            self.ground@,
                        ));
                    }
                }
                proof {
                    let k = choose|k: int|
                        0 <= k < crowd1.humans@.len() && names_evacuated(
                            events@,
                            events@.len() as int,
                            k,
                        ) && shut_out(
                            (#[trigger] crowd1.humans[k]).now_tile,
                            self.album.maps@[crowd1.humans[k].storey@],
                        );
                    assert(crowd1.humans[k]@ == old(self).crowd.humans[k]@.ticked(
                        self.smoke.maps@[old(self).crowd.humans[k].storey@].map@,
                        time,
                        self.crowd.element_size,
                        self.crowd.board_width,
                        self.crowd.board_height,
                        self.ground@,
                    ));
                    assert(person_stuck(old(self).crowd.humans[k]@, k, events@, self, time));
                }
                return (events, Err(error));
            },
        }
        let moved = change_storey(&mut self.crowd, &self.pass, &events, &self.ground);
        proof {
            assert forall|k: int| 0 <= k < self.crowd.humans@.len() implies self.smoke.maps.has(
                (#[trigger] self.crowd.humans[k]).storey@,
            ) && self.crowd.humans[k]@.on_track(
                self.smoke.maps@[self.crowd.humans[k].storey@].rows(),
                self.smoke.maps@[self.crowd.humans[k].storey@].cols(),
                self.crowd.element_size,
                self.crowd.board_width,
                self.crowd.board_height,
            ) by {
                assert(self.smoke.maps.has(crowd2.humans[k].storey@));
                assert(self.album.maps.has(self.ground@));
            }
            if moved is Err {
                let k = choose|k: int|
                    0 <= k < crowd2.humans@.len() && names_changing(events@, events@.len() as int, k)
                        && stranded((#[trigger] crowd2.humans[k]).now_tile, self.pass.maps@[self.ground@]);
                assert(crowd1.humans[k]@ == old(self).crowd.humans[k]@.ticked(
                    self.smoke.maps@[old(self).crowd.humans[k].storey@].map@,
                    time,
                    self.crowd.element_size,
                    self.crowd.board_width,
                    self.crowd.board_height,
                    self.ground@,
                ));
                assert(!names_evacuated(events@, events@.len() as int, k));
                assert(crowd2.humans[k]@ == crowd1.humans[k]@);
                assert(person_stuck(old(self).crowd.humans[k]@, k, events@, self, time));
            }
        }
        proof {
            assert forall|k: int| 0 <= k < old(self).crowd.humans@.len() implies person_ticked(
                old(self).crowd.humans[k]@,
                (#[trigger] self.crowd.humans[k])@,
                k,
                events@,
                moved is Ok,
                self,
                time,
            ) by {
                assert(crowd1.humans[k]@ == old(self).crowd.humans[k]@.ticked(
                    self.smoke.maps@[old(self).crowd.humans[k].storey@].map@,
                    time,
                    self.crowd.element_size,
                    self.crowd.board_width,
                    self.crowd.board_height,
                    self.ground@,
                ));
                assert(crowd1.humans[k].storey@ == old(self).crowd.humans[k].storey@);
                if names_evacuated(events@, events@.len() as int, k) {
                    assert(self.crowd.humans[k]@ == crowd2.humans[k]@);
                } else {
                    assert(crowd2.humans[k]@ == crowd1.humans[k]@);
                }
            }
        }
        proof {
            assert forall|k: int| 0 <= k < self.crowd.humans@.len() implies (
            #[trigger] self.crowd.humans[k]).id == k && self.smoke.maps.has(self.crowd.humans[k].storey@)
                && self.album.maps.has(self.crowd.humans[k].storey@) by {
                assert(crowd2.humans[k].id == k);
                assert(self.smoke.maps.has(crowd2.humans[k].storey@));
            }
        }
        (events, moved)
    }
}

/// Whether `after` is the fire field `before` with the times and the
/// coefficient of `parameters`, and with the sparks of the start.
pub open spec fn lit_field(before: StoreyFire, after: StoreyFire, parameters: NeededParameters) -> bool {
    &&& after.wf()
    &&& after.rows() == before.rows()
    &&& after.cols() == before.cols()
    &&& after.burning_time == parameters.burning_time
    &&& after.smoking_time == parameters.smoking_time
    &&& after.k == parameters.k
    &&& forall|c: (usize, usize)|
        in_grid(before.map@, c) ==> sparked(
            at(before.map@, c),
            #[trigger] at(after.map@, c),
            parameters.p,
            parameters.burning_time,
            parameters.smoking_time,
        )
}

/// Gives every fire field the times and the coefficient of `parameters`, and
/// sets every unburnt cell on fire with the chance that they name.
pub fn light(building_fire: &mut BuildingFire, parameters: &NeededParameters, rng: &mut StdRng)
    requires
        old(building_fire).wf(),
        parameters.p <= 1000,
    ensures
        final(building_fire).wf(),
        final(building_fire).texture_path == old(building_fire).texture_path,
        final(building_fire).maps.count() == old(building_fire).maps.count(),
        forall|k: int|
            0 <= k < old(building_fire).maps.count() ==> (
            #[trigger] final(building_fire).maps.entries[k]).0 == old(building_fire).maps.entries[k].0
                && lit_field(
                old(building_fire).maps.entries[k].1,
                final(building_fire).maps.entries[k].1,
                *parameters,
            ),
{
    let mut k: usize = 0;
    while k < building_fire.maps.entries.len()
        invariant
            k <= building_fire.maps.count() == old(building_fire).maps.count(),
            parameters.p <= 1000,
            building_fire.wf(),
            building_fire.texture_path == old(building_fire).texture_path,
            forall|a: int|
                0 <= a < old(building_fire).maps.count() ==> (
                #[trigger] building_fire.maps.entries[a]).0 == old(building_fire).maps.entries[a].0,
            forall|a: int|
                k <= a < old(building_fire).maps.count() ==> #[trigger] building_fire.maps.entries[a]
                    == old(building_fire).maps.entries[a],
            forall|a: int|
                0 <= a < k ==> lit_field(
                    old(building_fire).maps.entries[a].1,
                    (#[trigger] building_fire.maps.entries[a]).1,
                    *parameters,
                ),
        decreases building_fire.maps.count() - k,
    {
        assert(building_fire.maps.entries[k as int].1.wf());
        building_fire.maps.entries[k].1.burning_time = parameters.burning_time;
        building_fire.maps.entries[k].1.smoking_time = parameters.smoking_time;
        building_fire.maps.entries[k].1.k = parameters.k;
        building_fire.maps.entries[k].1.get_p_fire(parameters.p, rng);
        k += 1;
    }
}

impl Building {
    /// Sets a building up for a run: every storey of `album` gets its fire,
    /// with the sparks of the start, its smoke and its walkable cells;
    /// people are put on the floor cells and sent to the nearest exit of
    /// their storey.
    pub fn new(
        album: MapAlbum,
        parameters: &NeededParameters,
        element_size: u64,
        board_width: u64,
        board_height: u64,
        ground: MapMarker,
        connector: MapMarker,
        rng: &mut StdRng,
    ) -> (made: Result<Building, SetupError>)
        requires
            album.wf(),
        ensures
            match made {
                Ok(building) => {
                    &&& parameters.valid()
                    &&& building.wf()
                    &&& building.album == album
                    &&& building.ground == ground
                    &&& building.connector == connector
                    &&& building.crowd.element_size == element_size
                    &&& building.crowd.board_width == board_width
                    &&& building.crowd.board_height == board_height
                    &&& building.fire.maps@.dom() == album.maps@.dom()
                    &&& building.smoke.maps@.dom() == album.maps@.dom()
                    &&& building.pass.maps@.dom() == album.maps@.dom()
                    &&& (parameters.human_seed == 0 ==> building.crowd.humans@.len() == 0)
                    &&& forall|k: int|
                        0 <= k < building.crowd.humans@.len() ==> person_set_up(
                            (#[trigger] building.crowd.humans[k])@,
                            k,
                            &album,
                            building.pass.maps@,
                            element_size,
                            board_width,
                            board_height,
                            parameters.v,
                            parameters.h,
                        )
                    &&& forall|name: Seq<char>| #[trigger]
                        album.maps@.dom().contains(name) ==> {
                            &&& lit_at_start(building.fire.maps@[name], album.maps@[name], *parameters)
                            &&& fresh_smoke(building.smoke.maps@[name], album.maps@[name])
                            &&& fresh_pass(building.pass.maps@[name], album.maps@[name])
                        }
                },
                Err(SetupError::BadParameters) => !parameters.valid(),
                Err(SetupError::NoGroundFloor) => parameters.valid() && !album.maps.has(ground@),
                Err(SetupError::NoWayOut(_)) => {
                    &&& parameters.valid()
                    &&& album.maps.has(ground@)
                    &&& parameters.human_seed > 0
                    &&& exists|a: int, c: (usize, usize)| #[trigger]
                        cut_off(&album, a, c)
                },
            },
    {
        if !parameters.is_valid() {
            return Err(SetupError::BadParameters);
        }
        if album.maps.find(&ground).is_none() {
            return Err(SetupError::NoGroundFloor);
        }
        let mut fire = BuildingFire::default();
        init_building_fire(&mut fire, &album);
        let ghost fire0 = fire;
        light(&mut fire, parameters, rng);
        let mut smoke = BuildingSmoke::default();
        init_building_smoke(&mut smoke, &album);
        let mut pass = BuildingPass::default();
        init_building_pass(&mut pass, &album);
        let mut crowd = TheCrowd::new();
        init_the_crowd(
            &mut crowd,
            &album,
            element_size,
            board_width,
            board_height,
            parameters.human_seed,
            parameters.v,
            parameters.h,
            rng,
        );
        proof {
            assert(fire0.maps@.dom() =~= album.maps@.dom());
            assert(smoke.maps@.dom() =~= album.maps@.dom());
            assert(pass.maps@.dom() =~= album.maps@.dom());
            assert forall|k: int| 0 <= k < crowd.humans@.len() implies pass.maps.has(
                (#[trigger] crowd.humans[k]).storey@,
            ) && smoke.maps.has(crowd.humans[k].storey@) by {
                let name = crowd.humans[k].storey@;
                assert(album.maps.has(name));
                assert(album.maps@.dom().contains(name));
                assert(pass.maps@.dom().contains(name));
                assert(smoke.maps@.dom().contains(name));
            }
            assert forall|name: Seq<char>| fire.maps.has(name) == fire0.maps.has(name) by {
                if fire.maps.has(name) {
                    let p = fire.maps.place(name);
                    assert(fire.maps.at(p, name));
                    assert(fire.maps.entries[p].0 == fire0.maps.entries[p].0);
                    assert(fire0.maps.at(p, name));
                }
                if fire0.maps.has(name) {
                    let p = fire0.maps.place(name);
                    assert(fire0.maps.at(p, name));
                    assert(fire.maps.entries[p].0 == fire0.maps.entries[p].0);
                    assert(fire.maps.at(p, name));
                }
            }
            assert(fire.maps@.dom() =~= album.maps@.dom());
            assert forall|a: int, b: int| 0 <= a < b < fire.maps.count() implies (
            #[trigger] fire.maps.entries[a]).0@ != (#[trigger] fire.maps.entries[b]).0@ by {
                assert(fire.maps.entries[a].0 == fire0.maps.entries[a].0);
                assert(fire.maps.entries[b].0 == fire0.maps.entries[b].0);
            }
            assert forall|name: Seq<char>| #[trigger] album.maps@.dom().contains(name) implies {
                &&& lit_at_start(fire.maps@[name], album.maps@[name], *parameters)
                &&& fresh_smoke(smoke.maps@[name], album.maps@[name])
                &&& fresh_pass(pass.maps@[name], album.maps@[name])
            } by {
                let plan = album.maps@[name];
                assert(fire0.maps@.dom().contains(name));
                let p = fire0.maps.place(name);
                assert(fire0.maps.at(p, name));
                fire0.maps.lemma_place(p, name);
                assert(fire.maps.entries[p].0 == fire0.maps.entries[p].0);
                assert(fire.maps.at(p, name));
                fire.maps.lemma_place(p, name);
                let before = fire0.maps.entries[p].1;
                let after = fire.maps.entries[p].1;
                assert(crate::fire::fresh_fire(before, plan));
                assert(lit_field(before, after, *parameters));
                assert forall|i: int, j: int| plan.has_cell(i, j) implies sparked(
                    fire_of_tile(plan.tile(i, j)),
                    #[trigger] after.map[i][j],
                    parameters.p,
                    parameters.burning_time,
                    parameters.smoking_time,
                ) by {
                    assert(i < plan.tiles.len() && j < plan.tiles[i].len());
                    let c = (i as usize, j as usize);
                    assert(c.0 == i && c.1 == j);
                    assert(in_grid(before.map@, c));
                    assert(before.map[i][j] == fire_of_tile(plan.tile(i, j)));
                    assert(sparked(
                        at(before.map@, c),
                        at(after.map@, c),
                        parameters.p,
                        parameters.burning_time,
                        parameters.smoking_time,
                    ));
                }
            }
            assert forall|k: int| 0 <= k < fire.maps.count() implies {
                let name = (#[trigger] fire.maps.entries[k]).0@;
                &&& smoke.maps.has(name)
                &&& smoke.maps@[name].rows() == fire.maps.entries[k].1.rows()
                &&& smoke.maps@[name].cols() == fire.maps.entries[k].1.cols()
            } by {
                let name = fire.maps.entries[k].0@;
                assert(fire.maps.at(k, name));
                fire.maps.lemma_place(k, name);
                assert(album.maps@.dom().contains(name));
                assert(smoke.maps@.dom().contains(name));
            }
        }
        let ghost crowd0 = crowd;
        match init_crowd_target_and_path(&mut crowd, &pass) {
            Ok(_) => {},
            Err(error) => {
                proof {
                    let k = choose|k: int|
                        0 <= k < crowd0.humans@.len() && stranded(
                            (#[trigger] crowd0.humans[k]).now_tile,
                            pass.maps@[crowd0.humans[k].storey@],
                        );
                    let start = crowd0.humans[k]@;
                    let a = choose|a: int|
                        0 <= a < album.maps.count() && placed(
                            start,
                            k,
                            &album.maps.entries[a].1,
                            album.maps.entries[a].0@,
                            parameters.v,
                            parameters.h,
                        );
                    let name = album.maps.entries[a].0@;
                    let plan = album.maps.entries[a].1;
                    let c = start.now_tile;
                    assert(album.maps.at(a, name));
                    album.maps.lemma_place(a, name);
                    assert(album.maps@.dom().contains(name));
                    assert(fresh_pass(pass.maps@[name], plan));
                    assert forall|other: StoreyPass| #[trigger] fresh_pass(other, plan) implies stranded(
                        c,
                        other,
                    ) by {
                        crate::pass::lemma_fresh_pass_once(pass.maps@[name], other, plan);
                        let target = choose|target: (usize, usize)|
                            #[trigger] crate::human::is_nearest_of(c, pass.maps@[name].exit@, target) && (
                            !in_grid(pass.maps@[name].map@, c) || !crate::route::reachable(
                                crate::pass::walkable(pass.maps@[name].map@),
                                c,
                                target,
                            ));
                        assert(crate::human::is_nearest_of(c, other.exit@, target));
                    }
                    assert(cut_off(&album, a, c));
                }
                return Err(SetupError::NoWayOut(error));
            },
        }
        proof {
            assert forall|k: int| 0 <= k < crowd.humans@.len() implies person_set_up(
                (#[trigger] crowd.humans[k])@,
                k,
                &album,
                pass.maps@,
                element_size,
                board_width,
                board_height,
                parameters.v,
                parameters.h,
            ) by {
                let start = crowd0.humans[k]@;
                let a = choose|a: int|
                    0 <= a < album.maps.count() && placed(
                        start,
                        k,
                        &album.maps.entries[a].1,
                        album.maps.entries[a].0@,
                        parameters.v,
                        parameters.h,
                    );
                assert(sent_to_exit(
                    start,
                    crowd.humans[k]@,
                    pass.maps@[album.maps.entries[a].0@],
                    element_size,
                    board_width,
                    board_height,
                ));
            }
        }
        proof {
            assert forall|name: Seq<char>| #[trigger] album.maps.has(name) implies {
                &&& smoke.maps.has(name)
                &&& pass.maps.has(name)
                &&& smoke.maps@[name].fits(&album.maps@[name])
                &&& pass.maps@[name].fits(&album.maps@[name])
            } by {
                assert(album.maps@.dom().contains(name));
                assert(smoke.maps@.dom().contains(name));
                assert(pass.maps@.dom().contains(name));
            }
            assert forall|k: int| 0 <= k < crowd.humans@.len() implies smoke.maps.has(
                (#[trigger] crowd.humans[k]).storey@,
            ) && crowd.humans[k]@.on_track(
                smoke.maps@[crowd.humans[k].storey@].rows(),
                smoke.maps@[crowd.humans[k].storey@].cols(),
                crowd.element_size,
                crowd.board_width,
                crowd.board_height,
            ) by {
                let name = crowd0.humans[k].storey@;
                assert(crowd.humans[k].storey@ == name);
                assert(pass.maps.has(name));
                assert(pass.maps@.dom().contains(name));
                assert(album.maps@.dom().contains(name));
                assert(album.maps.has(name));
                pass.maps.lemma_all(|field: StoreyPass| field.wf(), name);
                crate::human::lemma_sent_to_exit_on_track(
                    crowd0.humans[k]@,
                    crowd.humans[k]@,
                    pass.maps@[name],
                    element_size,
                    board_width,
                    board_height,
                );
            }
        }
        proof {
            lemma_fires_at_start(&fire, &album, *parameters);
            assert(album.maps@.dom().contains(ground@));
            assert(smoke.maps@.dom().contains(ground@));
            assert(pass.maps@.dom().contains(ground@));
            assert forall|k: int| 0 <= k < crowd.humans@.len() implies smoke.maps.has(
                (#[trigger] crowd.humans[k]).storey@,
            ) && album.maps.has(crowd.humans[k].storey@) by {
                let name = crowd.humans[k].storey@;
                assert(pass.maps.has(name));
                assert(pass.maps@.dom().contains(name));
                assert(album.maps@.dom().contains(name));
                assert(smoke.maps@.dom().contains(name));
            }
        }
        Ok(Building { album, fire, smoke, pass, crowd, ground, connector })
    }
}

} // verus!
