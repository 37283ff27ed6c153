//! The people of a building, and what a tick does to them.

use rand::rngs::StdRng;
use vstd::prelude::*;
use crate::human::{
    least_hp, least_speed, most_speed, newcomer, row_first, sent_to_exit, sent_to_safety, shut_out,
    stranded, Human, HumanView, LifecycleEvent, RouteError,
};
use crate::pass::{BuildingPass, StoreyPass};
use crate::plan::{MapAlbum, TileMap};
use crate::random::draw_ratio;
use crate::smoke::{BuildingSmoke, StoreySmoke};
use crate::storey::MapMarker;
use crate::tile::TileType;

verus! {

/// What tells which person a sprite shows.
#[derive(Clone, Debug)]
pub struct HumanMarker {
    pub id: usize,
    pub storey: MapMarker,
}

impl HumanMarker {
    /// The marker of `human`.
    pub fn from_human(human: &Human) -> (marker: HumanMarker)
        ensures
            marker.id == human.id,
            marker.storey@ == human.storey@,
    {
        HumanMarker { id: human.id, storey: human.storey.copy() }
    }
}

/// All people of a building, the picture of a person, and the measures of
/// the board on which they are drawn, in millionths of a pixel.
#[derive(Debug)]
pub struct TheCrowd {
    pub humans: Vec<Human>,
    pub texture_path: String,
    pub element_size: u64,
    pub board_width: u64,
    pub board_height: u64,
}

/// Whether `human` is someone whom [`TheCrowd::extend_from_pass`] has just
/// put on a floor cell of `plan` as number `id`: a newcomer but for the
/// number, the cell, the storey, and the health and speed that were drawn.
pub open spec fn placed(human: HumanView, id: int, plan: &TileMap, storey: Seq<char>, v: u32,
    h: u32) -> bool {
    &&& human == (HumanView {
        id: human.id,
        hp: human.hp,
        speed: human.speed,
        now_tile: human.now_tile,
        storey,
        ..newcomer()
    })
    &&& human.id == id
    &&& plan.has_cell(human.now_tile.0 as int, human.now_tile.1 as int)
    &&& plan.tile(human.now_tile.0 as int, human.now_tile.1 as int) == TileType::Floor
    &&& least_hp(newcomer().max_hp, h) <= human.hp < newcomer().max_hp
    &&& least_speed(newcomer().max_speed, v) <= human.speed < most_speed(newcomer().max_speed, v)
}

/// `humans` without those who have the number `id`.
pub open spec fn without(humans: Seq<Human>, id: usize) -> Seq<Human>
    decreases humans.len(),
{
    if humans.len() == 0 {
        Seq::empty()
    } else if humans.last().id == id {
        without(humans.drop_last(), id)
    } else {
        without(humans.drop_last(), id).push(humans.last())
    }
}

/// How many of the first `n` of `humans` are dead.
pub open spec fn dead_among(humans: Seq<Human>, n: nat) -> nat
    decreases n,
{
    if n == 0 {
        0
    } else {
        dead_among(humans, (n - 1) as nat) + if humans[n - 1].is_dead {
            1nat
        } else {
            0nat
        }
    }
}

/// How many of the first `n` of `humans` have left the building.
pub open spec fn evacuated_among(humans: Seq<Human>, n: nat) -> nat
    decreases n,
{
    if n == 0 {
        0
    } else {
        evacuated_among(humans, (n - 1) as nat) + if humans[n - 1].is_evacuated {
            1nat
        } else {
            0nat
        }
    }
}

/// The events that a tick raises for the first `n` of `humans`, in their
/// order.
pub open spec fn raised(
    humans: Seq<Human>,
    smoke: Map<Seq<char>, StoreySmoke>,
    time: u32,
    ground: Seq<char>,
    connector: Seq<char>,
    n: nat,
) -> Seq<LifecycleEvent>
    decreases n,
{
    if n == 0 {
        Seq::empty()
    } else {
        let human = humans[n - 1];
        let before = raised(humans, smoke, time, ground, connector, (n - 1) as nat);
        match human@.damaged(smoke[human.storey@].map@, time).event(ground, connector) {
            Some(event) => before.push(event),
            None => before,
        }
    }
}

/// Whether `after` is `before` but for the target.
pub open spec fn kept(before: HumanView, after: HumanView) -> bool {
    after == (HumanView { target_tile: after.target_tile, ..before })
}

/// Whether one of the first `n` of `events` says that person `id` has left
/// the building.
pub open spec fn names_evacuated(events: Seq<LifecycleEvent>, n: int, id: int) -> bool {
    exists|e: int| 0 <= e < n && #[trigger] events[e] == LifecycleEvent::Evacuated(
        crate::human::Evacuated { id: id as usize },
    )
}

/// Whether one of the first `n` of `events` says that person `id` is to
/// change the storey.
pub open spec fn names_changing(events: Seq<LifecycleEvent>, n: int, id: int) -> bool {
    exists|e: int| 0 <= e < n && #[trigger] events[e] == LifecycleEvent::ChangeStorey(
        crate::human::ChangeStorey { id: id as usize },
    )
}

/// Whether every event of `events` names one of `count` people.
pub open spec fn names_known(events: Seq<LifecycleEvent>, count: nat) -> bool {
    forall|e: int| 0 <= e < events.len() ==> event_id(#[trigger] events[e]) < count
}

/// The number of the person of whom `event` speaks.
pub open spec fn event_id(event: LifecycleEvent) -> usize {
    match event {
        LifecycleEvent::Evacuated(evacuated) => evacuated.id,
        LifecycleEvent::Dead(dead) => dead.id,
        LifecycleEvent::ChangeStorey(change) => change.id,
        LifecycleEvent::ChangeSafe(change) => change.id,
    }
}

impl TheCrowd {
    /// Everyone's number is their place in the crowd.
    pub open spec fn wf(&self) -> bool {
        forall|k: int| 0 <= k < self.humans@.len() ==> (#[trigger] self.humans[k]).id == k
    }

    /// Whether the crowd differs from `before` in nothing but its people.
    pub open spec fn same_board(&self, before: &TheCrowd) -> bool {
        &&& self.texture_path == before.texture_path
        &&& self.element_size == before.element_size
        &&& self.board_width == before.board_width
        &&& self.board_height == before.board_height
    }

    /// Nobody, on a board of 50 by 40 pixels with cells of one pixel.
    pub fn new() -> (crowd: TheCrowd)
        ensures
            crowd.wf(),
            crowd.humans@.len() == 0,
            crowd.texture_path@ == "./movethings/mango.png"@,
            crowd.element_size == 1_000_000,
            crowd.board_width == 50_000_000,
            crowd.board_height == 40_000_000,
    {
        TheCrowd {
            humans: Vec::new(),
            texture_path: "./movethings/mango.png".to_owned(),
            element_size: 1_000_000,
            board_width: 50_000_000,
            board_height: 40_000_000,
        }
    }

    /// Puts someone on each floor cell of `pass` with a chance of
    /// `human_seed` in a thousand, each on its own draw, row by row. Their
    /// health is drawn from the part `h` below full health and their speed
    /// from the part `v` around the full speed, both in thousandths.
    pub fn extend_from_pass(
        &mut self,
        pass: &TileMap,
        storey: MapMarker,
        human_seed: u32,
        v: u32,
        h: u32,
        rng: &mut StdRng,
    )
        requires
            pass.wf(),
            human_seed <= 1000,
            0 < v <= 1000,
            0 < h <= 1000,
        ensures
            final(self).same_board(old(self)),
            old(self).humans@.len() <= final(self).humans@.len(),
            forall|k: int|
                0 <= k < old(self).humans@.len() ==> #[trigger] final(self).humans[k]
                    == old(self).humans[k],
            forall|k: int|
                old(self).humans@.len() <= k < final(self).humans@.len() ==> placed(
                    (#[trigger] final(self).humans[k])@,
                    k,
                    pass,
                    storey@,
                    v,
                    h,
                ),
            forall|a: int, b: int|
                old(self).humans@.len() <= a < b < final(self).humans@.len() ==> row_first(
                    (#[trigger] final(self).humans[a]).now_tile,
                    (#[trigger] final(self).humans[b]).now_tile,
                ),
            human_seed == 0 ==> final(self).humans@.len() == old(self).humans@.len(),
            human_seed == 1000 ==> forall|i: int, j: int|
                pass.has_cell(i, j) && #[trigger] pass.tile(i, j) == TileType::Floor ==> exists|k: int|
                    old(self).humans@.len() <= k < final(self).humans@.len() && (
                    #[trigger] final(self).humans[k]).now_tile == (i as usize, j as usize),
            old(self).wf() ==> final(self).wf(),
    {
        let (rows, cols) = pass.get_size();
        let ghost first = self.humans@.len() as int;
        let mut i: usize = 0;
        while i < rows
            invariant
                i <= rows,
                rows == pass.rows(),
                cols == pass.cols(),
                pass.wf(),
                human_seed <= 1000,
                0 < v <= 1000,
                0 < h <= 1000,
                self.same_board(old(self)),
                first == old(self).humans@.len() <= self.humans@.len(),
                forall|k: int| 0 <= k < first ==> #[trigger] self.humans[k] == old(self).humans[k],
                forall|k: int|
                    first <= k < self.humans@.len() ==> placed(
                        (#[trigger] self.humans[k])@,
                        k,
                        pass,
                        storey@,
                        v,
                        h,
                    ) && self.humans[k].now_tile.0 < i,
                forall|a: int, b: int|
                    first <= a < b < self.humans@.len() ==> row_first(
                        (#[trigger] self.humans[a]).now_tile,
                        (#[trigger] self.humans[b]).now_tile,
                    ),
                human_seed == 0 ==> self.humans@.len() == first,
                human_seed == 1000 ==> forall|a: int, b: int|
                    pass.has_cell(a, b) && a < i && #[trigger] pass.tile(a, b) == TileType::Floor
                        ==> exists|k: int|
                        first <= k < self.humans@.len() && (#[trigger] self.humans[k]).now_tile == (
                            a as usize,
                            b as usize,
                        ),
            decreases rows - i,
        {
            let mut j: usize = 0;
            while j < cols
                invariant
                    i < rows,
                    j <= cols,
                    rows == pass.rows(),
                    cols == pass.cols(),
                    pass.wf(),
                    human_seed <= 1000,
                    0 < v <= 1000,
                    0 < h <= 1000,
                    self.same_board(old(self)),
                    first == old(self).humans@.len() <= self.humans@.len(),
                    forall|k: int|
                        0 <= k < first ==> #[trigger] self.humans[k] == old(self).humans[k],
                    forall|k: int|
                        first <= k < self.humans@.len() ==> placed(
                            (#[trigger] self.humans[k])@,
                            k,
                            pass,
                            storey@,
                            v,
                            h,
                        ) && (self.humans[k].now_tile.0 < i || (self.humans[k].now_tile.0 == i
                            && self.humans[k].now_tile.1 < j)),
                    forall|a: int, b: int|
                        first <= a < b < self.humans@.len() ==> row_first(
                            (#[trigger] self.humans[a]).now_tile,
                            (#[trigger] self.humans[b]).now_tile,
                        ),
                    human_seed == 0 ==> self.humans@.len() == first,
                    human_seed == 1000 ==> forall|a: int, b: int|
                        pass.has_cell(a, b) && (a < i || (a == i && b < j)) && #[trigger] pass.tile(
                            a,
                            b,
                        ) == TileType::Floor ==> exists|k: int|
                            first <= k < self.humans@.len() && (
                            #[trigger] self.humans[k]).now_tile == (a as usize, b as usize),
                decreases cols - j,
            {
                let ghost crowd = self.humans@;
                if pass.tiles[i][j] == TileType::Floor {
                    if draw_ratio(rng, human_seed, 1000) {
                        let mut human = Human::default();
                        human.id = self.humans.len();
                        proof {
                            assert(least_hp(100_000_000, h) < 100_000_000) by (nonlinear_arith)
                                requires
                                    0 < h <= 1000,
                                    least_hp(100_000_000, h) == 100_000_000 - 100_000_000 * h / 1000,
                            ;
                            assert(least_speed(10_000, v) < most_speed(10_000, v)) by (nonlinear_arith)
                                requires
                                    0 < v <= 1000,
                                    least_speed(10_000, v) == 10_000 * (1000 - v) / 1000,
                                    most_speed(10_000, v) == 10_000 * (1000 + v) / 1000,
                            ;
                        }
                        human.rand_my_hp(h, rng);
                        human.rand_my_speed(v, rng);
                        human.now_tile = (i, j);
                        human.storey = storey.copy();
                        self.humans.push(human);
                    }
                }
                proof {
                    assert forall|k: int| 0 <= k < crowd.len() implies self.humans[k] == crowd[k] by {}
                    assert forall|a: int, b: int|
                        pass.has_cell(a, b) && (a < i || (a == i && b < j + 1)) && #[trigger] pass.tile(
                            a,
                            b,
                        ) == TileType::Floor && human_seed == 1000 implies exists|k: int|
                        first <= k < self.humans@.len() && (#[trigger] self.humans[k]).now_tile == (
                            a as usize,
                            b as usize,
                        ) by {
                        if a == i && b == j {
                            assert(self.humans[crowd.len() as int].now_tile == (i, j));
                        } else {
                            let k = choose|k: int|
                                first <= k < crowd.len() && (#[trigger] crowd[k]).now_tile == (
                                    a as usize,
                                    b as usize,
                                );
                            assert(self.humans[k] == crowd[k]);
                        }
                    }
                }
                j += 1;
            }
            i += 1;
        }
    }

    /// Takes `human` into the crowd, behind the others.
    pub fn add_human(&mut self, human: Human)
        ensures
            final(self).humans@ == old(self).humans@.push(human),
            final(self).same_board(old(self)),
    {
        self.humans.push(human);
    }

    /// Takes everyone with the number of `human` out of the crowd. The
    /// others keep their order.
    pub fn remove_human(&mut self, human: &Human)
        ensures
            final(self).humans@ == without(old(self).humans@, human.id),
            final(self).same_board(old(self)),
    {
        let id = human.id;
        let ghost mut seen: int = 0;
        let mut k: usize = 0;
        while k < self.humans.len()
            invariant
                self.same_board(old(self)),
                0 <= seen <= old(self).humans@.len(),
                k <= self.humans@.len(),
                self.humans@.len() - k == old(self).humans@.len() - seen,
                self.humans@.take(k as int) == without(old(self).humans@.take(seen), id),
                self.humans@.skip(k as int) == old(self).humans@.skip(seen),
            decreases self.humans@.len() - k,
        {
            let ghost before = self.humans@;
            proof {
                assert(before[k as int] == before.skip(k as int)[0]);
                assert(old(self).humans@.take(seen + 1).drop_last() == old(self).humans@.take(seen));
                assert(old(self).humans@.take(seen + 1).last() == old(self).humans@[seen]);
            }
            if self.humans[k].id == id {
                let _ = self.humans.remove(k);
                proof {
                    assert(self.humans@.take(k as int) == before.take(k as int));
                    assert(self.humans@.skip(k as int) == before.skip(k as int).skip(1));
                    assert(old(self).humans@.skip(seen + 1) == old(self).humans@.skip(seen).skip(1));
                    seen = seen + 1;
                }
            } else {
                proof {
                    assert(before.take(k + 1) == before.take(k as int).push(before[k as int]));
                    assert(before.skip(k + 1) == before.skip(k as int).skip(1));
                    assert(old(self).humans@.skip(seen + 1) == old(self).humans@.skip(seen).skip(1));
                    seen = seen + 1;
                }
                k += 1;
            }
        }
        proof {
            assert(self.humans@.take(k as int) == self.humans@);
            assert(old(self).humans@.take(seen) == old(self).humans@);
        }
    }

    /// How many people are dead.
    pub fn count_dead(&self) -> (count: usize)
        ensures
            count == dead_among(self.humans@, self.humans@.len()),
    {
        let mut count: usize = 0;
        let mut k: usize = 0;
        while k < self.humans.len()
            invariant
                k <= self.humans@.len(),
                count == dead_among(self.humans@, k as nat),
                count <= k,
            decreases self.humans@.len() - k,
        {
            if self.humans[k].is_dead {
                count += 1;
            }
            k += 1;
        }
        count
    }

    /// How many people have left the building.
    pub fn count_evacuated(&self) -> (count: usize)
        ensures
            count == evacuated_among(self.humans@, self.humans@.len()),
    {
        let mut count: usize = 0;
        let mut k: usize = 0;
        while k < self.humans.len()
            invariant
                k <= self.humans@.len(),
                count == evacuated_among(self.humans@, k as nat),
                count <= k,
            decreases self.humans@.len() - k,
        {
            if self.humans[k].is_evacuated {
                count += 1;
            }
            k += 1;
        }
        count
    }

    /// Whether everyone is on their way over a storey that `smoke` has: see
    /// [`HumanView::on_track`].
    pub open spec fn on_track(&self, smoke: &BuildingSmoke) -> bool {
        forall|k: int|
            0 <= k < self.humans@.len() ==> smoke.maps.has((#[trigger] self.humans[k]).storey@)
                && self.humans[k]@.on_track(
                smoke.maps@[self.humans[k].storey@].rows(),
                smoke.maps@[self.humans[k].storey@].cols(),
                self.element_size,
                self.board_width,
                self.board_height,
            )
    }

    /// Whether every person stands on a storey that `pass` has.
    pub open spec fn housed(&self, pass: &BuildingPass) -> bool {
        forall|k: int| 0 <= k < self.humans@.len() ==> pass.maps.has((#[trigger] self.humans[k]).storey@)
    }

    /// Whether every person stands on a storey that `album` has.
    pub open spec fn mapped(&self, album: &MapAlbum) -> bool {
        forall|k: int| 0 <= k < self.humans@.len()
            ==> album.maps.has((#[trigger] self.humans[k]).storey@)
    }
}

/// Puts people on the floor cells of every storey of `map_album`, and takes
/// the measures of the board.
pub fn init_the_crowd(
    the_crowd: &mut TheCrowd,
    map_album: &MapAlbum,
    element_size: u64,
    board_width: u64,
    board_height: u64,
    human_seed: u32,
    v: u32,
    h: u32,
    rng: &mut StdRng,
)
    requires
        map_album.wf(),
        human_seed <= 1000,
        0 < v <= 1000,
        0 < h <= 1000,
    ensures
        final(the_crowd).texture_path == old(the_crowd).texture_path,
        final(the_crowd).element_size == element_size,
        final(the_crowd).board_width == board_width,
        final(the_crowd).board_height == board_height,
        old(the_crowd).humans@.len() <= final(the_crowd).humans@.len(),
        forall|k: int|
            0 <= k < old(the_crowd).humans@.len() ==> #[trigger] final(the_crowd).humans[k]
                == old(the_crowd).humans[k],
        forall|k: int|
            old(the_crowd).humans@.len() <= k < final(the_crowd).humans@.len() ==> exists|a: int|
                0 <= a < map_album.maps.count() && placed(
                    (#[trigger] final(the_crowd).humans[k])@,
                    k,
                    &map_album.maps.entries[a].1,
                    map_album.maps.entries[a].0@,
                    v,
                    h,
                ),
        human_seed == 0 ==> final(the_crowd).humans@.len() == old(the_crowd).humans@.len(),
        old(the_crowd).wf() ==> final(the_crowd).wf(),
        old(the_crowd).mapped(map_album) ==> final(the_crowd).mapped(map_album),
{
    let ghost first = the_crowd.humans@.len() as int;
    let mut s: usize = 0;
    while s < map_album.maps.entries.len()
        invariant
            s <= map_album.maps.count(),
            map_album.wf(),
            human_seed <= 1000,
            0 < v <= 1000,
            0 < h <= 1000,
            the_crowd.same_board(old(the_crowd)),
            first == old(the_crowd).humans@.len() <= the_crowd.humans@.len(),
            forall|k: int|
                0 <= k < first ==> #[trigger] the_crowd.humans[k] == old(the_crowd).humans[k],
            forall|k: int|
                first <= k < the_crowd.humans@.len() ==> exists|a: int|
                    0 <= a < map_album.maps.count() && placed(
                        (#[trigger] the_crowd.humans[k])@,
                        k,
                        &map_album.maps.entries[a].1,
                        map_album.maps.entries[a].0@,
                        v,
                        h,
                    ),
            human_seed == 0 ==> the_crowd.humans@.len() == first,
            old(the_crowd).wf() ==> the_crowd.wf(),
        decreases map_album.maps.count() - s,
    {
        let ghost crowd = the_crowd.humans@;
        assert(map_album.maps.entries[s as int].1.wf());
        let storey = map_album.maps.entries[s].0.copy();
        the_crowd.extend_from_pass(&map_album.maps.entries[s].1, storey, human_seed, v, h, rng);
        proof {
            assert forall|k: int| first <= k < the_crowd.humans@.len() implies exists|a: int|
                0 <= a < map_album.maps.count() && placed(
                    (#[trigger] the_crowd.humans[k])@,
                    k,
                    &map_album.maps.entries[a].1,
                    map_album.maps.entries[a].0@,
                    v,
                    h,
                ) by {
                if k < crowd.len() {
                    assert(the_crowd.humans[k] == crowd[k]);
                    let a = choose|a: int|
                        0 <= a < map_album.maps.count() && placed(
                            crowd[k]@,
                            k,
                            &map_album.maps.entries[a].1,
                            map_album.maps.entries[a].0@,
                            v,
                            h,
                        );
                    assert(placed(
                        the_crowd.humans[k]@,
                        k,
                        &map_album.maps.entries[a].1,
                        map_album.maps.entries[a].0@,
                        v,
                        h,
                    ));
                } else {
                    assert(placed(
                        the_crowd.humans[k]@,
                        k,
                        &map_album.maps.entries[s as int].1,
                        map_album.maps.entries[s as int].0@,
                        v,
                        h,
                    ));
                }
            }
        }
        s += 1;
    }
    the_crowd.element_size = element_size;
    the_crowd.board_width = board_width;
    the_crowd.board_height = board_height;
    proof {
        if old(the_crowd).mapped(map_album) {
            assert forall|k: int| 0 <= k < the_crowd.humans@.len() implies map_album.maps.has(
                (#[trigger] the_crowd.humans[k]).storey@,
            ) by {
                if k >= first {
                    let a = choose|a: int|
                        0 <= a < map_album.maps.count() && placed(
                            the_crowd.humans[k]@,
                            k,
                            &map_album.maps.entries[a].1,
                            map_album.maps.entries[a].0@,
                            v,
                            h,
                        );
                    assert(map_album.maps.at(a, map_album.maps.entries[a].0@));
                }
            }
        }
    }
}

/// Of people of whom the first `n` have been sent to the nearest exit of
/// their storey and the others are as they were but for the target, each is
/// as they were but for the target or on their way over their storey.
proof fn lemma_sent_people_on_track(
    before: Seq<Human>,
    after: Seq<Human>,
    building_pass: &BuildingPass,
    n: int,
    size: u64,
    width: u64,
    height: u64,
)
    requires
        building_pass.wf(),
        after.len() == before.len(),
        0 <= n <= before.len(),
        forall|a: int| 0 <= a < before.len() ==> building_pass.maps.has((#[trigger] before[a]).storey@),
        forall|a: int|
            0 <= a < n ==> sent_to_exit(
                before[a]@,
                (#[trigger] after[a])@,
                building_pass.maps@[before[a].storey@],
                size,
                width,
                height,
            ),
        forall|a: int| n <= a < before.len() ==> kept(before[a]@, (#[trigger] after[a])@),
    ensures
        forall|a: int|
            0 <= a < before.len() ==> kept(before[a]@, (#[trigger] after[a])@) || after[a]@.on_track(
                building_pass.maps@[before[a].storey@].rows(),
                building_pass.maps@[before[a].storey@].cols(),
                size,
                width,
                height,
            ),
{
    assert forall|a: int| 0 <= a < before.len() implies kept(before[a]@, (#[trigger] after[a])@)
        || after[a]@.on_track(
        building_pass.maps@[before[a].storey@].rows(),
        building_pass.maps@[before[a].storey@].cols(),
        size,
        width,
        height,
    ) by {
        if a < n {
            let name = before[a].storey@;
            assert(building_pass.maps.has(name));
            building_pass.maps.lemma_all(|field: StoreyPass| field.wf(), name);
            crate::human::lemma_sent_to_exit_on_track(
                before[a]@,
                after[a]@,
                building_pass.maps@[name],
                size,
                width,
                height,
            );
        }
    }
}

/// Sends everyone to the nearest exit of their storey. It stops at the
/// first person who has no way there.
pub fn init_crowd_target_and_path(the_crowd: &mut TheCrowd, building_pass: &BuildingPass) -> (found:
    Result<(), RouteError>)
    requires
        building_pass.wf(),
        old(the_crowd).housed(building_pass),
    ensures
        final(the_crowd).same_board(old(the_crowd)),
        final(the_crowd).humans@.len() == old(the_crowd).humans@.len(),
        final(the_crowd).housed(building_pass),
        old(the_crowd).wf() ==> final(the_crowd).wf(),
        forall|k: int|
            0 <= k < old(the_crowd).humans@.len() ==> (#[trigger] final(the_crowd).humans[k]).storey@
                == old(the_crowd).humans[k].storey@,
        forall|k: int|
            0 <= k < old(the_crowd).humans@.len() ==> kept(
                old(the_crowd).humans[k]@,
                (#[trigger] final(the_crowd).humans[k])@,
            ) || final(the_crowd).humans[k]@.on_track(
                building_pass.maps@[old(the_crowd).humans[k].storey@].rows(),
                building_pass.maps@[old(the_crowd).humans[k].storey@].cols(),
                old(the_crowd).element_size,
                old(the_crowd).board_width,
                old(the_crowd).board_height,
            ),
        found is Ok ==> forall|k: int|
            0 <= k < old(the_crowd).humans@.len() ==> sent_to_exit(
                old(the_crowd).humans[k]@,
                (#[trigger] final(the_crowd).humans[k])@,
                building_pass.maps@[old(the_crowd).humans[k].storey@],
                old(the_crowd).element_size,
                old(the_crowd).board_width,
                old(the_crowd).board_height,
            ),
        found is Err ==> exists|k: int|
            0 <= k < old(the_crowd).humans@.len() && stranded(
                (#[trigger] old(the_crowd).humans[k]).now_tile,
                building_pass.maps@[old(the_crowd).humans[k].storey@],
            ),
{
    let size = the_crowd.element_size;
    let width = the_crowd.board_width;
    let height = the_crowd.board_height;
    let mut k: usize = 0;
    while k < the_crowd.humans.len()
        invariant
            k <= the_crowd.humans@.len() == old(the_crowd).humans@.len(),
            building_pass.wf(),
            old(the_crowd).housed(building_pass),
            the_crowd.same_board(old(the_crowd)),
            size == the_crowd.element_size,
            width == the_crowd.board_width,
            height == the_crowd.board_height,
            forall|a: int|
                0 <= a < the_crowd.humans@.len() ==> (#[trigger] the_crowd.humans[a]).storey@
                    == old(the_crowd).humans[a].storey@ && the_crowd.humans[a].id
                    == old(the_crowd).humans[a].id,
            forall|a: int|
                k <= a < the_crowd.humans@.len() ==> (#[trigger] the_crowd.humans[a])@
                    == old(the_crowd).humans[a]@,
            forall|a: int|
                0 <= a < k ==> sent_to_exit(
                    old(the_crowd).humans[a]@,
                    (#[trigger] the_crowd.humans[a])@,
                    building_pass.maps@[old(the_crowd).humans[a].storey@],
                    size,
                    width,
                    height,
                ),
        decreases the_crowd.humans@.len() - k,
    {
        let ghost name = the_crowd.humans[k as int].storey@;
        assert(building_pass.maps.has(old(the_crowd).humans[k as int].storey@));
        match building_pass.maps.get(&the_crowd.humans[k].storey) {
            Some(pass) => {
                proof {
                    building_pass.maps.lemma_all(|field: StoreyPass| field.wf(), name);
                }
                match the_crowd.humans[k].head_for_exit(pass, size, width, height) {
                    Ok(_) => {},
                    Err(error) => {
                        proof {
                            assert(stranded(
                                old(the_crowd).humans[k as int].now_tile,
                                building_pass.maps@[old(the_crowd).humans[k as int].storey@],
                            ));
                        }
                        proof {
                            lemma_sent_people_on_track(
                                old(the_crowd).humans@,
                                the_crowd.humans@,
                                building_pass,
                                k as int,
                                size,
                                width,
                                height,
                            );
                        }
                        return Err(error);
                    },
                }
            },
            None => {},
        }
        k += 1;
    }
    proof {
        lemma_sent_people_on_track(
            old(the_crowd).humans@,
            the_crowd.humans@,
            building_pass,
            k as int,
            size,
            width,
            height,
        );
    }
    Ok(())
}

/// One tick of `time` milliseconds for everyone, each in the smoke of their
/// storey: see [`Human::run`]. The events that the tick raises come back in
/// the order of the people.
pub fn people_run(
    the_crowd: &mut TheCrowd,
    smoke: &BuildingSmoke,
    time: u32,
    ground: &MapMarker,
    connector: &MapMarker,
) -> (events: Vec<LifecycleEvent>)
    requires
        smoke.wf(),
        old(the_crowd).on_track(smoke),
    ensures
        final(the_crowd).same_board(old(the_crowd)),
        final(the_crowd).humans@.len() == old(the_crowd).humans@.len(),
        final(the_crowd).on_track(smoke),
        forall|k: int|
            0 <= k < old(the_crowd).humans@.len() ==> (#[trigger] final(the_crowd).humans[k])@
                == old(the_crowd).humans[k]@.ticked(
                smoke.maps@[old(the_crowd).humans[k].storey@].map@,
                time,
                old(the_crowd).element_size,
                old(the_crowd).board_width,
                old(the_crowd).board_height,
                ground@,
            ),
        events@ == raised(
            old(the_crowd).humans@,
            smoke.maps@,
            time,
            ground@,
            connector@,
            old(the_crowd).humans@.len(),
        ),
        forall|k: int|
            0 <= k < old(the_crowd).humans@.len() ==> (#[trigger] final(the_crowd).humans[k]).storey@
                == old(the_crowd).humans[k].storey@ && final(the_crowd).humans[k].id
                    == old(the_crowd).humans[k].id,
        old(the_crowd).wf() ==> final(the_crowd).wf() && names_known(
            events@,
            old(the_crowd).humans@.len(),
        ),
{
    let size = the_crowd.element_size;
    let width = the_crowd.board_width;
    let height = the_crowd.board_height;
    let mut events: Vec<LifecycleEvent> = Vec::new();
    let mut k: usize = 0;
    while k < the_crowd.humans.len()
        invariant
            k <= the_crowd.humans@.len() == old(the_crowd).humans@.len(),
            smoke.wf(),
            old(the_crowd).on_track(smoke),
            the_crowd.same_board(old(the_crowd)),
            size == the_crowd.element_size,
            width == the_crowd.board_width,
            height == the_crowd.board_height,
            forall|a: int|
                k <= a < the_crowd.humans@.len() ==> (#[trigger] the_crowd.humans[a])@
                    == old(the_crowd).humans[a]@,
            forall|a: int|
                0 <= a < k ==> (#[trigger] the_crowd.humans[a])@ == old(the_crowd).humans[a]@.ticked(
                    smoke.maps@[old(the_crowd).humans[a].storey@].map@,
                    time,
                    size,
                    width,
                    height,
                    ground@,
                ),
            events@ == raised(old(the_crowd).humans@, smoke.maps@, time, ground@, connector@, k as nat),
            old(the_crowd).wf() ==> names_known(events@, k as nat),
        decreases the_crowd.humans@.len() - k,
    {
        let ghost before = events@;
        assert(smoke.maps.has(old(the_crowd).humans[k as int].storey@));
        match smoke.maps.get(&the_crowd.humans[k].storey) {
            Some(field) => {
                proof {
                    smoke.maps.lemma_all(
                        |field: StoreySmoke| field.wf(),
                        old(the_crowd).humans[k as int].storey@,
                    );
                }
                let event = the_crowd.humans[k].run(field, time, size, width, height, ground, connector);
                match event {
                    Some(event) => {
                        events.push(event);
                        proof {
                            assert(event_id(event) == old(the_crowd).humans[k as int].id);
                        }
                    },
                    None => {},
                }
            },
            None => {},
        }
        proof {
            if old(the_crowd).wf() {
                assert forall|e: int| 0 <= e < events@.len() implies event_id(#[trigger] events@[e])
                    < k + 1 by {
                    if e < before.len() {
                        assert(events@[e] == before[e]);
                    }
                }
            }
        }
        k += 1;
    }
    proof {
        assert forall|a: int| 0 <= a < the_crowd.humans@.len() implies smoke.maps.has(
            (#[trigger] the_crowd.humans[a]).storey@,
        ) && the_crowd.humans[a]@.on_track(
            smoke.maps@[the_crowd.humans[a].storey@].rows(),
            smoke.maps@[the_crowd.humans[a].storey@].cols(),
            the_crowd.element_size,
            the_crowd.board_width,
            the_crowd.board_height,
        ) by {
            let before = old(the_crowd).humans[a];
            assert(smoke.maps.has(before.storey@));
            crate::human::lemma_tick_keeps_track(
                before@,
                smoke.maps@[before.storey@].map@,
                smoke.maps@[before.storey@].rows(),
                smoke.maps@[before.storey@].cols(),
                time,
                size,
                width,
                height,
                ground@,
            );
        }
    }
    events
}

/// Sends everyone of whom `events` says that they have left the building on
/// to the nearest safe place of their storey. It stops at the first of them
/// who has no way there.
pub fn to_get_safe(the_crowd: &mut TheCrowd, map_album: &MapAlbum,
    events: &Vec<LifecycleEvent>) -> (found:
    Result<(), RouteError>)
    requires
        map_album.wf(),
        old(the_crowd).mapped(map_album),
        names_known(events@, old(the_crowd).humans@.len()),
    ensures
        final(the_crowd).same_board(old(the_crowd)),
        final(the_crowd).humans@.len() == old(the_crowd).humans@.len(),
        forall|k: int|
            0 <= k < old(the_crowd).humans@.len() ==> (#[trigger] final(the_crowd).humans[k]).storey@
                == old(the_crowd).humans[k].storey@ && final(the_crowd).humans[k].id
                    == old(the_crowd).humans[k].id,
        forall|k: int|
            0 <= k < old(the_crowd).humans@.len() && !names_evacuated(events@, events@.len() as int, k)
                ==> (#[trigger] final(the_crowd).humans[k])@ == old(the_crowd).humans[k]@,
        forall|k: int|
            0 <= k < old(the_crowd).humans@.len() ==> kept(
                old(the_crowd).humans[k]@,
                (#[trigger] final(the_crowd).humans[k])@,
            ) || final(the_crowd).humans[k]@.on_track(
                map_album.maps@[old(the_crowd).humans[k].storey@].rows(),
                map_album.maps@[old(the_crowd).humans[k].storey@].cols(),
                old(the_crowd).element_size,
                old(the_crowd).board_width,
                old(the_crowd).board_height,
            ),
        found is Ok ==> forall|k: int|
            0 <= k < old(the_crowd).humans@.len() && names_evacuated(events@, events@.len() as int, k)
                ==> sent_to_safety(
                old(the_crowd).humans[k]@,
                (#[trigger] final(the_crowd).humans[k])@,
                map_album.maps@[old(the_crowd).humans[k].storey@],
                old(the_crowd).element_size,
                old(the_crowd).board_width,
                old(the_crowd).board_height,
            ),
        found is Err ==> exists|k: int|
            0 <= k < old(the_crowd).humans@.len() && names_evacuated(events@, events@.len() as int, k)
                && shut_out(
                (#[trigger] old(the_crowd).humans[k]).now_tile,
                map_album.maps@[old(the_crowd).humans[k].storey@],
            ),
{
    let size = the_crowd.element_size;
    let width = the_crowd.board_width;
    let height = the_crowd.board_height;
    let mut e: usize = 0;
    while e < events.len()
        invariant
            e <= events@.len(),
            map_album.wf(),
            old(the_crowd).mapped(map_album),
            names_known(events@, old(the_crowd).humans@.len()),
            the_crowd.humans@.len() == old(the_crowd).humans@.len(),
            the_crowd.same_board(old(the_crowd)),
            size == the_crowd.element_size,
            width == the_crowd.board_width,
            height == the_crowd.board_height,
            forall|k: int|
                0 <= k < the_crowd.humans@.len() ==> (#[trigger] the_crowd.humans[k]).storey@
                    == old(the_crowd).humans[k].storey@ && the_crowd.humans[k].id
                    == old(the_crowd).humans[k].id
                    && the_crowd.humans[k].now_tile == old(the_crowd).humans[k].now_tile,
            forall|k: int|
                0 <= k < the_crowd.humans@.len() && !names_evacuated(events@, e as int, k) ==> (
                #[trigger] the_crowd.humans[k])@ == old(the_crowd).humans[k]@,
            forall|k: int|
                0 <= k < the_crowd.humans@.len() && names_evacuated(events@, e as int, k)
                    ==> sent_to_safety(
                    old(the_crowd).humans[k]@,
                    (#[trigger] the_crowd.humans[k])@,
                    map_album.maps@[old(the_crowd).humans[k].storey@],
                    size,
                    width,
                    height,
                ),
            forall|k: int|
                0 <= k < the_crowd.humans@.len() ==> kept(
                    old(the_crowd).humans[k]@,
                    (#[trigger] the_crowd.humans[k])@,
                ) || the_crowd.humans[k]@.on_track(
                    map_album.maps@[old(the_crowd).humans[k].storey@].rows(),
                    map_album.maps@[old(the_crowd).humans[k].storey@].cols(),
                    size,
                    width,
                    height,
                ),
        decreases events@.len() - e,
    {
        let ghost crowd = the_crowd.humans@;
        match events[e] {
            LifecycleEvent::Evacuated(evacuated) => {
                let id = evacuated.id;
                assert(event_id(events@[e as int]) == id);
                let ghost name = the_crowd.humans[id as int].storey@;
                assert(map_album.maps.has(old(the_crowd).humans[id as int].storey@));
                match map_album.maps.get(&the_crowd.humans[id].storey) {
                    Some(plan) => {
                        proof {
                            let p = map_album.maps.place(name);
                            assert(map_album.maps.at(p, name));
                            assert(map_album.maps.entries[p].1.wf());
                        }
                        let found = the_crowd.humans[id].head_for_safety(plan, size, width, height);
                        proof {
                            map_album.maps.lemma_place(map_album.maps.place(name), name);
                            assert forall|k: int| 0 <= k < the_crowd.humans@.len() implies kept(
                                old(the_crowd).humans[k]@,
                                (#[trigger] the_crowd.humans[k])@,
                            ) || the_crowd.humans[k]@.on_track(
                                map_album.maps@[old(the_crowd).humans[k].storey@].rows(),
                                map_album.maps@[old(the_crowd).humans[k].storey@].cols(),
                                size,
                                width,
                                height,
                            ) by {
                                if k == id {
                                    if found is Ok {
                                        crate::human::lemma_sent_to_safety_on_track(
                                            crowd[k]@,
                                            the_crowd.humans[k]@,
                                            *plan,
                                            size,
                                            width,
                                            height,
                                        );
                                    }
                                } else {
                                    assert(the_crowd.humans[k] == crowd[k]);
                                }
                            }
                        }
                        proof {
                            assert(names_evacuated(events@, e + 1, id as int));
                            assert forall|k: int|
                                0 <= k < the_crowd.humans@.len() && !names_evacuated(
                                    events@,
                                    e + 1,
                                    k,
                                ) implies (#[trigger] the_crowd.humans[k])@
                                    == old(the_crowd).humans[k]@ by {
                                assert(k != id);
                                assert(the_crowd.humans[k] == crowd[k]);
                                if names_evacuated(events@, e as int, k) {
                                    let w = choose|w: int|
                                        0 <= w < e && #[trigger] events@[w]
                                            == LifecycleEvent::Evacuated(
                                            crate::human::Evacuated { id: k as usize },
                                        );
                                    assert(0 <= w < e + 1);
                                }
                            }
                        }
                        match found {
                            Ok(_) => {
                                proof {
                                    assert forall|k: int|
                                        0 <= k < the_crowd.humans@.len() && names_evacuated(
                                            events@,
                                            e + 1,
                                            k,
                                        ) implies sent_to_safety(
                                        old(the_crowd).humans[k]@,
                                        (#[trigger] the_crowd.humans[k])@,
                                        map_album.maps@[old(the_crowd).humans[k].storey@],
                                        size,
                                        width,
                                        height,
                                    ) by {
                                        if k != id {
                                            assert(the_crowd.humans[k] == crowd[k]);
                                            let w = choose|w: int|
                                                0 <= w < e + 1 && #[trigger] events@[w]
                                                    == LifecycleEvent::Evacuated(
                                                    crate::human::Evacuated { id: k as usize },
                                                );
                                            assert(events@[e as int] == LifecycleEvent::Evacuated(
                                                crate::human::Evacuated { id },
                                            ));
                                            assert(k < the_crowd.humans.len());
                                            assert(k as usize != id);
                                            assert(w != e);
                                            assert(names_evacuated(events@, e as int, k));
                                        } else {
                                            let first = old(the_crowd).humans[k]@;
                                            let mid = crowd[k]@;
                                            let last = the_crowd.humans[k]@;
                                            if names_evacuated(events@, e as int, k) {
                                                assert(sent_to_safety(
                                                    first,
                                                    mid,
                                                    map_album.maps@[name],
                                                    size,
                                                    width,
                                                    height,
                                                ));
                                            } else {
                                                assert(mid == first);
                                            }
                                            assert(last == (HumanView {
                                                target_tile: last.target_tile,
                                                my_path: last.my_path,
                                                ..first
                                            }).set_out(size, width, height));
                                        }
                                    }
                                }
                            },
                            Err(error) => {
                                proof {
                                    assert(names_evacuated(events@, events@.len() as int, id as int));
                                    assert(shut_out(
                                        old(the_crowd).humans[id as int].now_tile,
                                        map_album.maps@[old(the_crowd).humans[id as int].storey@],
                                    ));
                                    assert forall|k: int|
                                        0 <= k < old(the_crowd).humans@.len() && !names_evacuated(
                                            events@,
                                            events@.len() as int,
                                            k,
                                        ) implies (#[trigger] the_crowd.humans[k])@
                                            == old(the_crowd).humans[k]@ by {
                                        if names_evacuated(events@, e + 1, k) {
                                            let w = choose|w: int|
                                                0 <= w < e + 1 && #[trigger] events@[w]
                                                    == LifecycleEvent::Evacuated(
                                                    crate::human::Evacuated { id: k as usize },
                                                );
                                            assert(0 <= w < events@.len());
                                        }
                                    }
                                }
                                return Err(error);
                            },
                        }
                    },
                    None => {},
                }
            },
            _ => {
                proof {
                    assert forall|k: int| 0 <= k < the_crowd.humans@.len() implies names_evacuated(
                        events@,
                        e + 1,
                        k,
                    ) == names_evacuated(events@, e as int, k) by {
                        if names_evacuated(events@, e + 1, k) {
                            let w = choose|w: int|
                                0 <= w < e + 1 && #[trigger] events@[w] == LifecycleEvent::Evacuated(
                                    crate::human::Evacuated { id: k as usize },
                                );
                            assert(w != e);
                        }
                        if names_evacuated(events@, e as int, k) {
                            let w = choose|w: int|
                                0 <= w < e && #[trigger] events@[w] == LifecycleEvent::Evacuated(
                                    crate::human::Evacuated { id: k as usize },
                                );
                            assert(0 <= w < e + 1);
                        }
                    }
                }
            },
        }
        e += 1;
    }
    Ok(())
}

/// Moves everyone of whom `events` says that they are to change the storey
/// to the storey `ground`, and sends them to its nearest exit. It stops at
/// the first of them who has no way there.
pub fn change_storey(
    the_crowd: &mut TheCrowd,
    building_pass: &BuildingPass,
    events: &Vec<LifecycleEvent>,
    ground: &MapMarker,
) -> (found: Result<(), RouteError>)
    requires
        building_pass.wf(),
        building_pass.maps.has(ground@),
        names_known(events@, old(the_crowd).humans@.len()),
    ensures
        final(the_crowd).same_board(old(the_crowd)),
        final(the_crowd).humans@.len() == old(the_crowd).humans@.len(),
        forall|k: int|
            0 <= k < old(the_crowd).humans@.len() ==> (#[trigger] final(the_crowd).humans[k]).id
                == old(the_crowd).humans[k].id && (final(the_crowd).humans[k].storey@
                == old(the_crowd).humans[k].storey@
                || final(the_crowd).humans[k].storey@ == ground@),
        forall|k: int|
            0 <= k < old(the_crowd).humans@.len() && !names_changing(events@, events@.len() as int, k)
                ==> (#[trigger] final(the_crowd).humans[k])@ == old(the_crowd).humans[k]@,
        forall|k: int|
            0 <= k < old(the_crowd).humans@.len() ==> kept(
                old(the_crowd).humans[k]@,
                (#[trigger] final(the_crowd).humans[k])@,
            ) || (final(the_crowd).humans[k].storey@ == ground@ && final(the_crowd).humans[k]@.on_track(
                building_pass.maps@[ground@].rows(),
                building_pass.maps@[ground@].cols(),
                old(the_crowd).element_size,
                old(the_crowd).board_width,
                old(the_crowd).board_height,
            )),
        found is Ok ==> forall|k: int|
            0 <= k < old(the_crowd).humans@.len() && names_changing(events@, events@.len() as int, k)
                ==> sent_to_exit(
                (HumanView { storey: ground@, ..old(the_crowd).humans[k]@ }),
                (#[trigger] final(the_crowd).humans[k])@,
                building_pass.maps@[ground@],
                old(the_crowd).element_size,
                old(the_crowd).board_width,
                old(the_crowd).board_height,
            ),
        found is Err ==> exists|k: int|
            0 <= k < old(the_crowd).humans@.len() && names_changing(events@, events@.len() as int, k)
                && stranded((#[trigger] old(the_crowd).humans[k]).now_tile,
                    building_pass.maps@[ground@]),
{
    let size = the_crowd.element_size;
    let width = the_crowd.board_width;
    let height = the_crowd.board_height;
    let pass = match building_pass.maps.get(ground) {
        Some(pass) => pass,
        None => {
            return Ok(());
        },
    };
    proof {
        building_pass.maps.lemma_all(|field: StoreyPass| field.wf(), ground@);
    }
    let mut e: usize = 0;
    while e < events.len()
        invariant
            e <= events@.len(),
            pass.wf(),
            *pass == building_pass.maps@[ground@],
            names_known(events@, old(the_crowd).humans@.len()),
            the_crowd.humans@.len() == old(the_crowd).humans@.len(),
            the_crowd.same_board(old(the_crowd)),
            size == the_crowd.element_size,
            width == the_crowd.board_width,
            height == the_crowd.board_height,
            forall|k: int|
                0 <= k < the_crowd.humans@.len() ==> (#[trigger] the_crowd.humans[k]).id
                    == old(the_crowd).humans[k].id && the_crowd.humans[k].now_tile
                    == old(the_crowd).humans[k].now_tile && (
                the_crowd.humans[k].storey@ == old(the_crowd).humans[k].storey@
                    || the_crowd.humans[k].storey@ == ground@),
            forall|k: int|
                0 <= k < the_crowd.humans@.len() && !names_changing(events@, e as int, k) ==> (
                #[trigger] the_crowd.humans[k])@ == old(the_crowd).humans[k]@,
            forall|k: int|
                0 <= k < the_crowd.humans@.len() && names_changing(events@, e as int, k)
                    ==> sent_to_exit(
                    (HumanView { storey: ground@, ..old(the_crowd).humans[k]@ }),
                    (#[trigger] the_crowd.humans[k])@,
                    *pass,
                    size,
                    width,
                    height,
                ),
            forall|k: int|
                0 <= k < the_crowd.humans@.len() ==> kept(
                    old(the_crowd).humans[k]@,
                    (#[trigger] the_crowd.humans[k])@,
                ) || (the_crowd.humans[k].storey@ == ground@ && the_crowd.humans[k]@.on_track(
                    pass.rows(),
                    pass.cols(),
                    size,
                    width,
                    height,
                )),
        decreases events@.len() - e,
    {
        let ghost crowd = the_crowd.humans@;
        match events[e] {
            LifecycleEvent::ChangeStorey(change) => {
                let id = change.id;
                assert(event_id(events@[e as int]) == id);
                {
                    {
                        let found = the_crowd.humans[id].move_to_storey(ground, pass, size, width, height);
                        proof {
                            assert forall|k: int| 0 <= k < the_crowd.humans@.len() implies kept(
                                old(the_crowd).humans[k]@,
                                (#[trigger] the_crowd.humans[k])@,
                            ) || (the_crowd.humans[k].storey@ == ground@
                                && the_crowd.humans[k]@.on_track(
                                pass.rows(),
                                pass.cols(),
                                size,
                                width,
                                height,
                            )) by {
                                if k == id {
                                    if found is Ok {
                                        crate::human::lemma_sent_to_exit_on_track(
                                            (HumanView { storey: ground@, ..crowd[k]@ }),
                                            the_crowd.humans[k]@,
                                            *pass,
                                            size,
                                            width,
                                            height,
                                        );
                                    }
                                } else {
                                    assert(the_crowd.humans[k] == crowd[k]);
                                }
                            }
                        }
                        proof {
                            assert(names_changing(events@, e + 1, id as int));
                            assert forall|k: int|
                                0 <= k < the_crowd.humans@.len() && !names_changing(
                                    events@,
                                    e + 1,
                                    k,
                                ) implies (#[trigger] the_crowd.humans[k])@
                                    == old(the_crowd).humans[k]@ by {
                                assert(k != id);
                                assert(the_crowd.humans[k] == crowd[k]);
                                if names_changing(events@, e as int, k) {
                                    let w = choose|w: int|
                                        0 <= w < e && #[trigger] events@[w]
                                            == LifecycleEvent::ChangeStorey(
                                            crate::human::ChangeStorey { id: k as usize },
                                        );
                                    assert(0 <= w < e + 1);
                                }
                            }
                        }
                        match found {
                            Ok(_) => {
                                proof {
                                    assert forall|k: int|
                                        0 <= k < the_crowd.humans@.len() && names_changing(
                                            events@,
                                            e + 1,
                                            k,
                                        ) implies sent_to_exit(
                                        (HumanView { storey: ground@, ..old(the_crowd).humans[k]@ }),
                                        (#[trigger] the_crowd.humans[k])@,
                                        *pass,
                                        size,
                                        width,
                                        height,
                                    ) by {
                                        if k != id {
                                            assert(the_crowd.humans[k] == crowd[k]);
                                            let w = choose|w: int|
                                                0 <= w < e + 1 && #[trigger] events@[w]
                                                    == LifecycleEvent::ChangeStorey(
                                                    crate::human::ChangeStorey { id: k as usize },
                                                );
                                            assert(events@[e as int] == LifecycleEvent::ChangeStorey(
                                                crate::human::ChangeStorey { id },
                                            ));
                                            assert(k < the_crowd.humans.len());
                                            assert(k as usize != id);
                                            assert(w != e);
                                            assert(names_changing(events@, e as int, k));
                                        } else {
                                            let first = old(the_crowd).humans[k]@;
                                            let mid = crowd[k]@;
                                            let last = the_crowd.humans[k]@;
                                            if names_changing(events@, e as int, k) {
                                                assert(sent_to_exit(
                                                    (HumanView { storey: ground@, ..first }),
                                                    mid,
                                                    *pass,
                                                    size,
                                                    width,
                                                    height,
                                                ));
                                            } else {
                                                assert(mid == first);
                                            }
                                            assert(last == (HumanView {
                                                storey: ground@,
                                                target_tile: last.target_tile,
                                                my_path: last.my_path,
                                                ..first
                                            }).set_out(size, width, height));
                                        }
                                    }
                                }
                            },
                            Err(error) => {
                                proof {
                                    assert(names_changing(events@, events@.len() as int, id as int));
                                    assert(stranded(old(the_crowd).humans[id as int].now_tile, *pass));
                                    assert forall|k: int|
                                        0 <= k < old(the_crowd).humans@.len() && !names_changing(
                                            events@,
                                            events@.len() as int,
                                            k,
                                        ) implies (#[trigger] the_crowd.humans[k])@
                                            == old(the_crowd).humans[k]@ by {
                                        if names_changing(events@, e + 1, k) {
                                            let w = choose|w: int|
                                                0 <= w < e + 1 && #[trigger] events@[w]
                                                    == LifecycleEvent::ChangeStorey(
                                                    crate::human::ChangeStorey { id: k as usize },
                                                );
                                            assert(0 <= w < events@.len());
                                        }
                                    }
                                }
                                return Err(error);
                            },
                        }
                    }
                }
            },
            _ => {
                proof {
                    assert forall|k: int| 0 <= k < the_crowd.humans@.len() implies names_changing(
                        events@,
                        e + 1,
                        k,
                    ) == names_changing(events@, e as int, k) by {
                        if names_changing(events@, e + 1, k) {
                            let w = choose|w: int|
                                0 <= w < e + 1 && #[trigger] events@[w] == LifecycleEvent::ChangeStorey(
                                    crate::human::ChangeStorey { id: k as usize },
                                );
                            assert(w != e);
                        }
                        if names_changing(events@, e as int, k) {
                            let w = choose|w: int|
                                0 <= w < e && #[trigger] events@[w] == LifecycleEvent::ChangeStorey(
                                    crate::human::ChangeStorey { id: k as usize },
                                );
                            assert(0 <= w < e + 1);
                        }
                    }
                }
            },
        }
        e += 1;
    }
    Ok(())
}

/// Every event that a tick raises is the one event of the person whom it
/// names: where everyone's number is their place in the crowd, an event
/// among those raised for the first `n` people names one of them, and is
/// what the tick raises for that person.
pub proof fn lemma_raised_by_whom(
    humans: Seq<Human>,
    smoke: Map<Seq<char>, StoreySmoke>,
    time: u32,
    ground: Seq<char>,
    connector: Seq<char>,
    n: nat,
    e: int,
)
    requires
        n <= humans.len(),
        forall|k: int| 0 <= k < humans.len() ==> (#[trigger] humans[k]).id == k,
        0 <= e < raised(humans, smoke, time, ground, connector, n).len(),
    ensures
        ({
            let event = raised(humans, smoke, time, ground, connector, n)[e];
            let human = humans[event_id(event) as int];
            &&& event_id(event) < n
            &&& human@.damaged(smoke[human.storey@].map@, time).event(ground, connector) == Some(event)
        }),
    decreases n,
{
    if n > 0 {
        let last = humans[n - 1];
        let before = raised(humans, smoke, time, ground, connector, (n - 1) as nat);
        if e < before.len() {
            lemma_raised_by_whom(humans, smoke, time, ground, connector, (n - 1) as nat, e);
            assert(raised(humans, smoke, time, ground, connector, n)[e] == before[e]);
        } else {
            assert(last.id == n - 1);
        }
    }
}

} // verus!
