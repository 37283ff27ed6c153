//! The order in which a sweep fills an escape field, step by step: which cell
//! is settled next, which cells beside it take a new cost, and so which of
//! two equally cheap first steps a cell keeps.
//!
//! A sweep reads of a storey only which cells can be walked and what each
//! costs to enter. Everything it holds is a function of that, of the field it
//! started from and of the exit.

use vstd::prelude::*;
use crate::evacuate::{Evacuate, MoveDirection};
use crate::pass::{walkable, weight, Pass};
use crate::plan::width;
use crate::route::{at, in_grid};

verus! {

/// What a sweep reads of a storey: its size, the cells that can be walked,
/// and what each cell costs to enter.
pub struct Ground {
    pub rows: nat,
    pub cols: nat,
    pub open: Set<(usize, usize)>,
    pub weigh: Map<(usize, usize), nat>,
}

/// What a sweep reads of the passability field `pass`.
pub open spec fn ground_of(pass: Seq<Vec<Pass>>) -> Ground {
    Ground {
        rows: pass.len(),
        cols: width(pass),
        open: walkable(pass),
        weigh: Map::new(|c: (usize, usize)| in_grid(pass, c), |c: (usize, usize)| weight(pass, c)),
    }
}

/// What a sweep holds between two steps: the cost found for each cell
/// (`u64::MAX`: none yet), which cells are settled, the cells that wait, each
/// with the cost it was entered under, and the field as far as it is written.
pub struct Frontier {
    pub cost: Map<(usize, usize), u64>,
    pub settled: Map<(usize, usize), bool>,
    pub waiting: Seq<(u64, usize, usize)>,
    pub field: Map<(usize, usize), Evacuate>,
}

/// The grid `field` as a map from its cells.
pub open spec fn field_of(field: Seq<Vec<Evacuate>>) -> Map<(usize, usize), Evacuate> {
    Map::new(|c: (usize, usize)| in_grid(field, c), |c: (usize, usize)| at(field, c))
}

/// A sweep towards `exit` before its first step: only `exit` has a cost,
/// which is 0, and only `exit` waits.
pub open spec fn outset(field: Map<(usize, usize), Evacuate>, exit: (usize, usize)) -> Frontier {
    Frontier {
        cost: Map::new(
            |c: (usize, usize)| true,
            |c: (usize, usize)|
                if c == exit {
                    0u64
                } else {
                    u64::MAX
                },
        ),
        settled: Map::new(|c: (usize, usize)| true, |c: (usize, usize)| false),
        waiting: seq![(0u64, exit.0, exit.1)],
        field,
    }
}

/// The place in `waiting` of the entry that leaves next: one of least cost,
/// and of several of that cost the one that stands first.
pub open spec fn first_least(waiting: Seq<(u64, usize, usize)>) -> int
    decreases waiting.len(),
{
    if waiting.len() <= 1 {
        0
    } else {
        let rest = first_least(waiting.drop_last());
        if waiting.last().0 < waiting[rest].0 {
            waiting.len() - 1
        } else {
            rest
        }
    }
}

/// `waiting` once that entry has left: the last entry takes its place.
pub open spec fn left_waiting(waiting: Seq<(u64, usize, usize)>) -> Seq<(u64, usize, usize)> {
    waiting.update(first_least(waiting), waiting.last()).drop_last()
}

/// What the settled cell `u` makes of the cell `n` beside it: where `n` can
/// be walked and a step from `u` makes it cheaper than it was, and only then,
/// `n` takes that cost, waits under it behind all that wait, and is sent in
/// `direction`. A cost that is as low as the one `n` has changes nothing.
pub open spec fn offered(
    ground: Ground,
    state: Frontier,
    u: (usize, usize),
    n: (usize, usize),
    direction: MoveDirection,
) -> Frontier {
    let offer = state.cost[u] + ground.weigh[n];
    if ground.open.contains(n) && offer <= u64::MAX && offer < state.cost[n] {
        Frontier {
            cost: state.cost.insert(n, offer as u64),
            settled: state.settled,
            waiting: state.waiting.push((offer as u64, n.0, n.1)),
            field: state.field.insert(n, Evacuate::Move(direction)),
        }
    } else {
        state
    }
}

/// What the settled cell `u` makes of the four cells beside it, as far as
/// they lie in the grid: first the one in the next column, then the one in
/// the column before, then the one in the next row, then the one in the row
/// before.
pub open spec fn spread(ground: Ground, state: Frontier, u: (usize, usize)) -> Frontier {
    let first = if u.1 + 1 < ground.cols {
        offered(ground, state, u, (u.0, (u.1 + 1) as usize), MoveDirection::of_offset(0, -1))
    } else {
        state
    };
    let second = if u.1 > 0 {
        offered(ground, first, u, (u.0, (u.1 - 1) as usize), MoveDirection::of_offset(0, 1))
    } else {
        first
    };
    let third = if u.0 + 1 < ground.rows {
        offered(ground, second, u, ((u.0 + 1) as usize, u.1), MoveDirection::of_offset(-1, 0))
    } else {
        second
    };
    if u.0 > 0 {
        offered(ground, third, u, ((u.0 - 1) as usize, u.1), MoveDirection::of_offset(1, 0))
    } else {
        third
    }
}

/// One step of a sweep in which something waits: the entry that leaves next
/// leaves. Where its cell is settled already, nothing else happens. Else the
/// cell is settled, and where the field sends from it, it passes its cost on
/// to the cells beside it.
pub open spec fn advanced(ground: Ground, state: Frontier) -> Frontier {
    let least = state.waiting[first_least(state.waiting)];
    let u = (least.1, least.2);
    let rest = left_waiting(state.waiting);
    if state.settled[u] {
        Frontier { waiting: rest, ..state }
    } else {
        let settled = Frontier { settled: state.settled.insert(u, true), waiting: rest, ..state };
        if state.field[u] is Move {
            spread(ground, settled, u)
        } else {
            settled
        }
    }
}

/// The sweep after `steps` steps from `state`, or where nothing waits any
/// more before that.
pub open spec fn swept(ground: Ground, state: Frontier, steps: nat) -> Frontier
    decreases steps,
{
    if steps == 0 || state.waiting.len() == 0 {
        state
    } else {
        swept(ground, advanced(ground, state), (steps - 1) as nat)
    }
}

/// Whether `after` is what a sweep over `pass` towards `exit` makes of the
/// field `before`: the sweep comes to an end, and `after` holds on each cell
/// what the sweep holds there at its end.
pub open spec fn sweeps_to(
    pass: Seq<Vec<Pass>>,
    before: Seq<Vec<Evacuate>>,
    after: Seq<Vec<Evacuate>>,
    exit: (usize, usize),
) -> bool {
    exists|steps: nat| #[trigger] ends_as(ground_of(pass), before, after, exit, steps)
}

/// Whether a sweep over `ground` towards `exit` from the field `before` has
/// come to an end after `steps` steps, and `after` holds on each cell what
/// it holds there.
pub open spec fn ends_as(
    ground: Ground,
    before: Seq<Vec<Evacuate>>,
    after: Seq<Vec<Evacuate>>,
    exit: (usize, usize),
    steps: nat,
) -> bool {
    let end = swept(ground, outset(field_of(before), exit), steps);
    &&& end.waiting.len() == 0
    &&& forall|c: (usize, usize)| in_grid(before, c) ==> #[trigger] at(after, c) == end.field[c]
}

/// A sweep that has one more step to make, makes it last.
pub proof fn lemma_one_more_step(ground: Ground, state: Frontier, steps: nat)
    requires
        swept(ground, state, steps).waiting.len() > 0,
    ensures
        swept(ground, state, steps + 1) == advanced(ground, swept(ground, state, steps)),
    decreases steps,
{
    if steps > 0 {
        lemma_one_more_step(ground, advanced(ground, state), (steps - 1) as nat);
    } else {
        assert(swept(ground, advanced(ground, state), 0) == advanced(ground, state));
    }
}

/// A sweep that has come to an end stays as it is.
pub proof fn lemma_sweep_rests(ground: Ground, state: Frontier, steps: nat, more: nat)
    requires
        swept(ground, state, steps).waiting.len() == 0,
        steps <= more,
    ensures
        swept(ground, state, more) == swept(ground, state, steps),
    decreases steps,
{
    if steps > 0 && state.waiting.len() > 0 {
        lemma_sweep_rests(
            ground,
            advanced(ground, state),
            (steps - 1) as nat,
            (more - 1) as nat,
        );
    }
}

/// The field that a sweep leaves depends on the storey only through the
/// cells that can be walked and what each costs to enter, in whole units:
/// two sweeps towards one exit, from fields that hold the same on every
/// cell, over two storeys of one size that agree in both, leave the same on
/// every cell.
pub proof fn lemma_field_by_weight(
    first: Seq<Vec<Pass>>,
    second: Seq<Vec<Pass>>,
    before_one: Seq<Vec<Evacuate>>,
    before_other: Seq<Vec<Evacuate>>,
    exit: (usize, usize),
    one: Seq<Vec<Evacuate>>,
    other: Seq<Vec<Evacuate>>,
)
    requires
        first.len() == second.len(),
        width(first) == width(second),
        forall|c: (usize, usize)| in_grid(first, c) == in_grid(second, c),
        forall|c: (usize, usize)|
            in_grid(first, c) ==> (at(first, c) is Passable) == (at(second, c) is Passable),
        forall|c: (usize, usize)| in_grid(first, c) ==> weight(first, c) == weight(second, c),
        forall|c: (usize, usize)| in_grid(before_one, c) == in_grid(before_other, c),
        forall|c: (usize, usize)|
            in_grid(before_one, c) ==> at(before_one, c) == at(before_other, c),
        sweeps_to(first, before_one, one, exit),
        sweeps_to(second, before_other, other, exit),
    ensures
        forall|c: (usize, usize)| in_grid(before_one, c) ==> at(one, c) == at(other, c),
{
    let a = ground_of(first);
    let b = ground_of(second);
    assert(a.open =~= b.open);
    assert(a.weigh =~= b.weigh);
    assert(a == b);
    assert(field_of(before_one) =~= field_of(before_other));
    let m = choose|steps: nat| #[trigger] ends_as(a, before_one, one, exit, steps);
    let n = choose|steps: nat| #[trigger] ends_as(b, before_other, other, exit, steps);
    let from = outset(field_of(before_one), exit);
    if m <= n {
        lemma_sweep_rests(a, from, m, n);
    } else {
        lemma_sweep_rests(a, from, n, m);
    }
    assert forall|c: (usize, usize)| in_grid(before_one, c) implies at(one, c) == at(other, c) by {
        assert(at(one, c) == swept(a, from, m).field[c]);
        assert(in_grid(before_other, c));
        assert(at(other, c) == swept(b, from, n).field[c]);
    }
}

} // verus!
