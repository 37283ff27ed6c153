//! The way of one person over many ticks: who walks in clear air along a
//! path to their exit gets there after finitely many ticks, and leaves the
//! building once.

use vstd::prelude::*;
use crate::human::{
    lemma_sent_to_exit_on_track, lemma_tick_keeps_track, lemma_walk_along_an_axis, paced, place_of,
    sent_to_exit, way, Evacuated, HumanView, LifecycleEvent,
};
use crate::pass::{walkable, StoreyPass};
use crate::plan::has_shape;
use crate::route::{at, before, in_grid, is_route, is_shortest_route};
use crate::smoke::Smoke;

verus! {

/// The person after `ticks` ticks of `time` milliseconds each, all in the
/// smoke `smoke`.
pub open spec fn after_ticks(
    person: HumanView,
    smoke: Seq<Vec<Smoke>>,
    time: u32,
    size: u64,
    width: u64,
    height: u64,
    ground: Seq<char>,
    ticks: nat,
) -> HumanView
    decreases ticks,
{
    if ticks == 0 {
        person
    } else {
        after_ticks(
            person.ticked(smoke, time, size, width, height, ground),
            smoke,
            time,
            size,
            width,
            height,
            ground,
            (ticks - 1) as nat,
        )
    }
}

/// What the tick number `tick` of these ticks, counted from 0, raises for
/// the person.
pub open spec fn event_in_tick(
    person: HumanView,
    smoke: Seq<Vec<Smoke>>,
    time: u32,
    size: u64,
    width: u64,
    height: u64,
    ground: Seq<char>,
    connector: Seq<char>,
    tick: nat,
) -> Option<LifecycleEvent> {
    after_ticks(person, smoke, time, size, width, height, ground, tick).damaged(smoke, time).event(
        ground,
        connector,
    )
}

/// Whether there is no smoke anywhere on the storey.
pub open spec fn clear_air(smoke: Seq<Vec<Smoke>>) -> bool {
    forall|c: (usize, usize)|
        in_grid(smoke, c) && #[trigger] at(smoke, c) is Diffusible ==> at(smoke, c).density() == 0
}

/// Whether the person is alive and on their way over a storey of `rows` by
/// `cols` cells.
pub open spec fn under_way(
    person: HumanView,
    rows: nat,
    cols: nat,
    size: u64,
    width: u64,
    height: u64,
) -> bool {
    person.hp > 0 && person.on_track(rows, cols, size, width, height)
}

/// Whether the person is on the storey `ground`, has not left the building,
/// and has a path that ends on their target and does not touch it before.
pub open spec fn bound_for_exit(person: HumanView, ground: Seq<char>) -> bool {
    &&& person.storey == ground
    &&& !person.is_evacuated
    &&& person.my_path.len() > 0
    &&& person.my_path.last() == person.target_tile
    &&& forall|k: int|
        0 <= k < person.my_path.len() - 1 ==> #[trigger] person.my_path[k] != person.target_tile
}

/// Whether the person leaves the building with the tick number `tick`,
/// counted from 0: after it they stand on their target, in its middle, and
/// have left; that tick says so, under their number; and no other tick
/// raises anything for them.
pub open spec fn leaves_with_tick(
    person: HumanView,
    smoke: Seq<Vec<Smoke>>,
    time: u32,
    size: u64,
    width: u64,
    height: u64,
    ground: Seq<char>,
    connector: Seq<char>,
    tick: nat,
) -> bool {
    let there = after_ticks(person, smoke, time, size, width, height, ground, tick + 1);
    &&& there.now_tile == person.target_tile
    &&& there.position == place_of(person.target_tile, size, width, height)
    &&& there.is_evacuated
    &&& event_in_tick(person, smoke, time, size, width, height, ground, connector, tick) == Some(
        LifecycleEvent::Evacuated(Evacuated { id: person.id }),
    )
    &&& forall|other: nat|
        other != tick ==> #[trigger] event_in_tick(
            person,
            smoke,
            time,
            size,
            width,
            height,
            ground,
            connector,
            other,
        ) is None
}

/// A shortest walk to a cell enters that cell last and not before.
pub proof fn lemma_shortest_route_ends_once(
    open: Set<(usize, usize)>,
    from: (usize, usize),
    to: (usize, usize),
    steps: Seq<(usize, usize)>,
)
    requires
        is_shortest_route(open, from, to, steps),
        steps.len() > 0,
    ensures
        steps.last() == to,
        forall|k: int| 0 <= k < steps.len() - 1 ==> #[trigger] steps[k] != to,
{
    assert forall|k: int| 0 <= k < steps.len() - 1 implies #[trigger] steps[k] != to by {
        if steps[k] == to {
            let short = steps.take(k + 1);
            assert forall|j: int| 0 <= j < short.len() implies open.contains(#[trigger] short[j])
                && crate::route::adjacent(before(from, short, j), short[j]) by {
                assert(short[j] == steps[j]);
                assert(before(from, short, j) == before(from, steps, j));
            }
            assert(is_route(open, from, to, short));
        }
    }
}

/// Who is alive and has been sent to the nearest exit of the ground floor,
/// which is not the cell on which they stand, is under way and bound for
/// that exit.
pub proof fn lemma_sent_out_bound_for_exit(
    person: HumanView,
    sent: HumanView,
    pass: StoreyPass,
    size: u64,
    width: u64,
    height: u64,
    ground: Seq<char>,
)
    requires
        pass.wf(),
        sent_to_exit(person, sent, pass, size, width, height),
        person.hp > 0,
        person.storey == ground,
        !person.is_evacuated,
        sent.target_tile != person.now_tile,
    ensures
        under_way(sent, pass.rows(), pass.cols(), size, width, height),
        bound_for_exit(sent, ground),
{
    lemma_sent_to_exit_on_track(person, sent, pass, size, width, height);
    lemma_shortest_route_ends_once(
        walkable(pass.map@),
        person.now_tile,
        sent.target_tile,
        sent.my_path,
    );
}

/// In clear air a tick takes no health, and leaves someone who is under way
/// under way; who has left the building has left it for good.
pub proof fn lemma_tick_in_clear_air(
    person: HumanView,
    smoke: Seq<Vec<Smoke>>,
    rows: nat,
    cols: nat,
    time: u32,
    size: u64,
    width: u64,
    height: u64,
    ground: Seq<char>,
)
    requires
        has_shape(smoke, rows, cols),
        clear_air(smoke),
        under_way(person, rows, cols, size, width, height),
    ensures
        person.damaged(smoke, time) == person,
        under_way(
            person.ticked(smoke, time, size, width, height, ground),
            rows,
            cols,
            size,
            width,
            height,
        ),
        person.ticked(smoke, time, size, width, height, ground).hp == person.hp,
        person.ticked(smoke, time, size, width, height, ground).max_hp == person.max_hp,
        person.ticked(smoke, time, size, width, height, ground).max_speed == person.max_speed,
        person.ticked(smoke, time, size, width, height, ground).id == person.id,
        person.ticked(smoke, time, size, width, height, ground).storey == person.storey,
        person.ticked(smoke, time, size, width, height, ground).target_tile == person.target_tile,
        person.is_evacuated ==> person.ticked(smoke, time, size, width, height, ground).is_evacuated,
{
    assert(in_grid(smoke, person.now_tile));
    if at(smoke, person.now_tile) is Diffusible {
        assert(at(smoke, person.now_tile).density() == 0);
        assert(time * 0 == 0);
    }
    assert(person.damaged(smoke, time) == person);
    lemma_tick_keeps_track(person, smoke, rows, cols, time, size, width, height, ground);
}

/// Who has left the building and walks on in clear air raises nothing any
/// more.
pub proof fn lemma_gone_for_good(
    person: HumanView,
    smoke: Seq<Vec<Smoke>>,
    rows: nat,
    cols: nat,
    time: u32,
    size: u64,
    width: u64,
    height: u64,
    ground: Seq<char>,
    connector: Seq<char>,
    tick: nat,
)
    requires
        has_shape(smoke, rows, cols),
        clear_air(smoke),
        under_way(person, rows, cols, size, width, height),
        person.is_evacuated,
    ensures
        event_in_tick(person, smoke, time, size, width, height, ground, connector, tick) is None,
    decreases tick,
{
    lemma_tick_in_clear_air(person, smoke, rows, cols, time, size, width, height, ground);
    if tick > 0 {
        lemma_gone_for_good(
            person.ticked(smoke, time, size, width, height, ground),
            smoke,
            rows,
            cols,
            time,
            size,
            width,
            height,
            ground,
            connector,
            (tick - 1) as nat,
        );
    }
}

/// Someone who is under way in clear air to their exit on the ground floor,
/// and whose health lets them move in a tick, gets there after finitely many
/// ticks: with the tick `tick` they stand on their target and leave the
/// building, that tick alone says so, and no other tick raises anything for
/// them.
pub proof fn lemma_leaves_once(
    person: HumanView,
    smoke: Seq<Vec<Smoke>>,
    rows: nat,
    cols: nat,
    time: u32,
    size: u64,
    width: u64,
    height: u64,
    ground: Seq<char>,
    connector: Seq<char>,
) -> (tick: nat)
    requires
        has_shape(smoke, rows, cols),
        clear_air(smoke),
        under_way(person, rows, cols, size, width, height),
        bound_for_exit(person, ground),
        paced(person.max_speed, person.hp, person.max_hp) * time > 0,
    ensures
        leaves_with_tick(person, smoke, time, size, width, height, ground, connector, tick),
    decreases person.my_path.len(), way(person.position, person.next_position),
{
    lemma_tick_in_clear_air(person, smoke, rows, cols, time, size, width, height, ground);
    let next = person.ticked(smoke, time, size, width, height, ground);
    let step = paced(person.max_speed, person.hp, person.max_hp) * time;
    assert(after_ticks(person, smoke, time, size, width, height, ground, 1) == next) by {
        assert(after_ticks(next, smoke, time, size, width, height, ground, 0) == next);
    }
    if person.arrives() && person.my_path[0] == person.target_tile {
        assert(person.my_path.len() == 1);
        assert(next.position == person.position);
        assert(next.my_path.len() == 0);
        assert forall|other: nat| other != 0 implies #[trigger] event_in_tick(
            person,
            smoke,
            time,
            size,
            width,
            height,
            ground,
            connector,
            other,
        ) is None by {
            lemma_gone_for_good(
                next,
                smoke,
                rows,
                cols,
                time,
                size,
                width,
                height,
                ground,
                connector,
                (other - 1) as nat,
            );
        }
        0
    } else {
        if person.arrives() {
            let rest = person.my_path.drop_first();
            assert(next.my_path == rest);
            assert(rest.last() == person.my_path.last());
            assert forall|k: int| 0 <= k < rest.len() - 1 implies #[trigger] rest[k]
                != person.target_tile by {
                assert(rest[k] == person.my_path[k + 1]);
            }
        } else {
            lemma_walk_along_an_axis(person.position, person.next_position, step);
            assert(next.position == crate::human::approach(
                person.position,
                person.next_position,
                step,
            ));
            assert(next.next_position == person.next_position);
        }
        let later = lemma_leaves_once(
            next,
            smoke,
            rows,
            cols,
            time,
            size,
            width,
            height,
            ground,
            connector,
        );
        assert(after_ticks(person, smoke, time, size, width, height, ground, later + 2)
            == after_ticks(next, smoke, time, size, width, height, ground, later + 1));
        assert(after_ticks(person, smoke, time, size, width, height, ground, later + 1)
            == after_ticks(next, smoke, time, size, width, height, ground, later));
        assert forall|other: nat| other != later + 1 implies #[trigger] event_in_tick(
            person,
            smoke,
            time,
            size,
            width,
            height,
            ground,
            connector,
            other,
        ) is None by {
            if other > 0 {
                assert(after_ticks(person, smoke, time, size, width, height, ground, other)
                    == after_ticks(
                    next,
                    smoke,
                    time,
                    size,
                    width,
                    height,
                    ground,
                    (other - 1) as nat,
                ));
                assert(event_in_tick(
                    next,
                    smoke,
                    time,
                    size,
                    width,
                    height,
                    ground,
                    connector,
                    (other - 1) as nat,
                ) is None);
            }
        }
        later + 1
    }
}

} // verus!
