//! The sweep that fills an escape field: the cheapest walks to one exit, found
//! outwards from the exit, the cheapest cell first.

use vstd::prelude::*;
use crate::evacuate::{
    follows, is_cheapest_route, leads, toll, within_reach, Evacuate, MoveDirection,
};
use crate::frontier::{
    ends_as, field_of, first_least, ground_of, left_waiting, lemma_one_more_step, offered, outset,
    spread, swept, sweeps_to, Frontier,
};
use crate::pass::{walkable, weight, Pass};
use crate::plan::{filled, has_shape};
use crate::route::{adjacent, at, before, end_of, in_grid, is_route, lemma_distinct_cells};

verus! {

/// What the sweep holds: the cost found for each cell (`u64::MAX`: none yet),
/// which cells are settled, and the cells that wait with the cost they
/// were entered under. Those wait in a plain list and no heap, so that of
/// entries that cost the same it is fixed which leaves first.
struct Sweep {
    cost: Vec<Vec<u64>>,
    done: Vec<Vec<bool>>,
    heap: Vec<(u64, usize, usize)>,
}

/// What the proof keeps: the settled cells in the order in which they were
/// settled, the place of each in that order, and the cell from which each
/// cell got its cost.
struct Ledger {
    settled: Seq<(usize, usize)>,
    rank: Map<(usize, usize), int>,
    pred: Map<(usize, usize), (usize, usize)>,
}

/// Whether `c` is the settled cell number `i`; no settled cell costs more
/// than `floor`.
spec fn ranked(sw: Sweep, lg: Ledger, floor: int, c: (usize, usize), i: int) -> bool {
    &&& in_grid(sw.done@, c)
    &&& at(sw.done@, c)
    &&& at(sw.cost@, c) <= floor
    &&& lg.rank[c] == i
}

/// Whether the cell `c` has its cost from a settled cell beside it, to which
/// the field sends from `c`.
spec fn linked(
    pass: Seq<Vec<Pass>>,
    field: Seq<Vec<Evacuate>>,
    sw: Sweep,
    lg: Ledger,
    c: (usize, usize),
) -> bool {
    let p = lg.pred[c];
    &&& at(pass, c) is Passable
    &&& leads(field, c, p)
    &&& in_grid(pass, p)
    &&& at(sw.done@, p)
    &&& at(field, p) is Move
    &&& at(sw.cost@, c) == at(sw.cost@, p) + weight(pass, c)
    &&& (at(sw.done@, c) ==> lg.rank[p] < lg.rank[c])
}

/// Whether the waiting entry `e` names a cell of the grid that costs no more
/// than the entry says, and the entry is not below `floor`.
spec fn entry_ok(sw: Sweep, floor: int, e: (u64, usize, usize)) -> bool {
    &&& in_grid(sw.cost@, (e.1, e.2))
    &&& at(sw.cost@, (e.1, e.2)) <= e.0
    &&& floor <= e.0
    &&& e.0 < u64::MAX
}

/// Whether the cell `n` costs no more than a step from `u` makes it cost.
spec fn relaxed(
    pass: Seq<Vec<Pass>>,
    field: Seq<Vec<Evacuate>>,
    sw: Sweep,
    u: (usize, usize),
    n: (usize, usize),
) -> bool {
    (in_grid(pass, n) && at(pass, n) is Passable && at(field, u) is Move) ==> at(sw.cost@, n) <= at(
        sw.cost@,
        u,
    ) + weight(pass, n)
}

/// Whether the cell `c` is settled or waits under its cost.
spec fn pending(sw: Sweep, c: (usize, usize)) -> bool {
    at(sw.done@, c) || sw.heap@.contains((at(sw.cost@, c), c.0, c.1))
}

/// The state of a sweep towards `exit`, of which the first `closed` settled
/// cells have passed their cost on to the cells beside them.
#[verifier::opaque]
spec fn inv(
    pass: Seq<Vec<Pass>>,
    start: Seq<Vec<Evacuate>>,
    field: Seq<Vec<Evacuate>>,
    rows: nat,
    cols: nat,
    exit: (usize, usize),
    sw: Sweep,
    lg: Ledger,
    closed: int,
    floor: int,
) -> bool {
    &&& has_shape(pass, rows, cols)
    &&& has_shape(start, rows, cols)
    &&& has_shape(field, rows, cols)
    &&& has_shape(sw.cost@, rows, cols)
    &&& has_shape(sw.done@, rows, cols)
    &&& in_grid(pass, exit)
    &&& at(sw.cost@, exit) == 0
    &&& 0 <= floor < u64::MAX
    &&& 0 <= closed <= lg.settled.len() <= closed + 1
    &&& forall|c: (usize, usize)|
        in_grid(pass, c) ==> (#[trigger] at(field, c) is Move) == (at(pass, c) is Passable)
    &&& forall|i: int|
        0 <= i < lg.settled.len() ==> ranked(sw, lg, floor, #[trigger] lg.settled[i], i)
    &&& forall|c: (usize, usize)|
        in_grid(pass, c) && #[trigger] at(sw.done@, c) ==> 0 <= lg.rank[c] < lg.settled.len()
            && lg.settled[lg.rank[c]] == c
    &&& forall|c: (usize, usize)|
        in_grid(pass, c) && at(sw.cost@, c) < u64::MAX && c != exit ==> #[trigger] linked(
            pass,
            field,
            sw,
            lg,
            c,
        )
    &&& forall|c: (usize, usize)|
        in_grid(pass, c) && (at(sw.cost@, c) == u64::MAX || c == exit) ==> #[trigger] at(field, c)
            == at(start, c)
    &&& forall|e: int| 0 <= e < sw.heap@.len() ==> entry_ok(sw, floor, #[trigger] sw.heap@[e])
    &&& forall|c: (usize, usize)|
        in_grid(pass, c) && at(sw.cost@, c) < u64::MAX ==> #[trigger] pending(sw, c)
    &&& forall|i: int, n: (usize, usize)|
        0 <= i < closed && adjacent(lg.settled[i], n) ==> #[trigger] relaxed(
            pass,
            field,
            sw,
            lg.settled[i],
            n,
        )
}

/// What the invariant says of shapes and counts.
proof fn lemma_frame(
    pass: Seq<Vec<Pass>>,
    start: Seq<Vec<Evacuate>>,
    field: Seq<Vec<Evacuate>>,
    rows: nat,
    cols: nat,
    exit: (usize, usize),
    sw: Sweep,
    lg: Ledger,
    closed: int,
    floor: int,
)
    requires
        inv(pass, start, field, rows, cols, exit, sw, lg, closed, floor),
    ensures
        has_shape(field, rows, cols),
        has_shape(sw.cost@, rows, cols),
        has_shape(sw.done@, rows, cols),
        lg.settled.len() <= rows * cols,
        forall|e: int| 0 <= e < sw.heap@.len() ==> in_grid(pass, ((#[trigger] sw.heap@[e]).1,
            sw.heap@[e].2)),
{
    reveal(inv);
    let q = lg.settled;
    assert forall|i: int, j: int| 0 <= i < j < q.len() implies #[trigger] q[i] != #[trigger] q[j] by {
        assert(ranked(sw, lg, floor, q[i], i));
        assert(ranked(sw, lg, floor, q[j], j));
    }
    assert forall|i: int| 0 <= i < q.len() implies (#[trigger] q[i]).0 < rows && q[i].1 < cols by {
        assert(ranked(sw, lg, floor, q[i], i));
    }
    lemma_distinct_cells(q, rows, cols);
    assert forall|e: int| 0 <= e < sw.heap@.len() implies in_grid(
        pass,
        ((#[trigger] sw.heap@[e]).1, sw.heap@[e].2),
    ) by {
        assert(entry_ok(sw, floor, sw.heap@[e]));
    }
}

/// Whether the sweep `sw` and the field `field` hold what `state` holds: the
/// same entries wait in the same order, and each cell of the grid has the
/// same cost, is settled or not, and is sent the same way.
spec fn held_as(sw: Sweep, field: Seq<Vec<Evacuate>>, state: Frontier) -> bool {
    &&& state.waiting == sw.heap@
    &&& forall|c: (usize, usize)| in_grid(field, c) ==> #[trigger] state.cost[c] == at(sw.cost@, c)
    &&& forall|c: (usize, usize)|
        in_grid(field, c) ==> #[trigger] state.settled[c] == at(sw.done@, c)
    &&& forall|c: (usize, usize)| in_grid(field, c) ==> #[trigger] state.field[c] == at(field, c)
}

/// Takes the entry with the least cost out of `heap`, the first of them.
fn pop_min(heap: &mut Vec<(u64, usize, usize)>) -> (least: (u64, usize, usize))
    requires
        old(heap)@.len() > 0,
    ensures
        old(heap)@.contains(least),
        least == old(heap)@[first_least(old(heap)@)],
        final(heap)@ == left_waiting(old(heap)@),
        final(heap)@.len() + 1 == old(heap)@.len(),
        forall|x: (u64, usize, usize)| #[trigger]
            final(heap)@.contains(x) ==> old(heap)@.contains(x) && least.0 <= x.0,
        forall|x: (u64, usize, usize)| #[trigger]
            old(heap)@.contains(x) && x != least ==> final(heap)@.contains(x),
{
    let mut best: usize = 0;
    let mut k: usize = 1;
    while k < heap.len()
        invariant
            best < k <= heap@.len(),
            forall|i: int| 0 <= i < k ==> heap@[best as int].0 <= (#[trigger] heap@[i]).0,
            best == first_least(heap@.take(k as int)),
        decreases heap@.len() - k,
    {
        proof {
            assert(heap@.take(k + 1).drop_last() =~= heap@.take(k as int));
        }
        if heap[k].0 < heap[best].0 {
            best = k;
        }
        k += 1;
    }
    proof {
        assert(heap@.take(k as int) =~= heap@);
    }
    let least = heap.swap_remove(best);
    proof {
        let a = old(heap)@;
        let b = heap@;
        assert(a[best as int] == least);
        assert forall|x: (u64, usize, usize)| #[trigger] b.contains(x) implies a.contains(x)
            && least.0 <= x.0 by {
            let i = choose|i: int| 0 <= i < b.len() && b[i] == x;
            if i == best {
                assert(a[a.len() - 1] == x);
            } else {
                assert(a[i] == x);
            }
        }
        assert forall|x: (u64, usize, usize)| #[trigger] a.contains(x) && x != least implies b.contains(
            x,
        ) by {
            let i = choose|i: int| 0 <= i < a.len() && a[i] == x;
            if i == a.len() - 1 {
                assert(b[best as int] == x);
            } else {
                assert(b[i] == x);
            }
        }
    }
    least
}

/// The state after the entry `least` has left the heap, and its cell has
/// been settled if it was not.
proof fn lemma_popped(
    pass: Seq<Vec<Pass>>,
    start: Seq<Vec<Evacuate>>,
    field: Seq<Vec<Evacuate>>,
    rows: nat,
    cols: nat,
    exit: (usize, usize),
    sw0: Sweep,
    sw1: Sweep,
    lg0: Ledger,
    floor: int,
    least: (u64, usize, usize),
) -> (lg1: Ledger)
    requires
        inv(pass, start, field, rows, cols, exit, sw0, lg0, lg0.settled.len() as int, floor),
        sw0.heap@.contains(least),
        forall|x: (u64, usize, usize)| #[trigger]
            sw1.heap@.contains(x) ==> sw0.heap@.contains(x) && least.0 <= x.0,
        forall|x: (u64, usize, usize)| #[trigger]
            sw0.heap@.contains(x) && x != least ==> sw1.heap@.contains(x),
        sw1.cost == sw0.cost,
        has_shape(sw1.done@, rows, cols),
        forall|c: (usize, usize)|
            in_grid(pass, c) ==> #[trigger] at(sw1.done@, c) == (c == (least.1, least.2) || at(
                sw0.done@,
                c,
            )),
    ensures
        inv(pass, start, field, rows, cols, exit, sw1, lg1, lg0.settled.len() as int, least.0 as int),
        in_grid(pass, (least.1, least.2)),
        at(sw0.done@, (least.1, least.2)) ==> lg1 == lg0,
        !at(sw0.done@, (least.1, least.2)) ==> lg1.settled == lg0.settled.push((least.1, least.2))
            && at(sw1.cost@, (least.1, least.2)) == least.0,
{
    reveal(inv);
    let u = (least.1, least.2);
    let n0 = lg0.settled.len() as int;
    let slot = choose|e: int| 0 <= e < sw0.heap@.len() && sw0.heap@[e] == least;
    assert(entry_ok(sw0, floor, sw0.heap@[slot]));
    let fresh = !at(sw0.done@, u);
    let lg1 = if fresh {
        Ledger { settled: lg0.settled.push(u), rank: lg0.rank.insert(u, n0), pred: lg0.pred }
    } else {
        lg0
    };
    let k = least.0 as int;
    if fresh {
        assert(pending(sw0, u));
        let y = (at(sw0.cost@, u), u.0, u.1);
        assert(sw0.heap@.contains(y));
        if y != least {
            assert(sw1.heap@.contains(y));
        }
        assert(at(sw0.cost@, u) == least.0);
    }
    assert forall|i: int| 0 <= i < lg1.settled.len() implies ranked(
        sw1,
        lg1,
        k,
        #[trigger] lg1.settled[i],
        i,
    ) by {
        if i < n0 {
            assert(ranked(sw0, lg0, floor, lg0.settled[i], i));
            assert(at(sw0.done@, lg0.settled[i]));
        }
    }
    assert forall|c: (usize, usize)| in_grid(pass, c) && #[trigger] at(sw1.done@, c) implies 0
        <= lg1.rank[c] < lg1.settled.len() && lg1.settled[lg1.rank[c]] == c by {
        if at(sw0.done@, c) {
            assert(lg0.settled[lg0.rank[c]] == c);
        }
    }
    assert forall|c: (usize, usize)|
        in_grid(pass, c) && at(sw1.cost@, c) < u64::MAX && c != exit implies #[trigger] linked(
        pass,
        field,
        sw1,
        lg1,
        c,
    ) by {
        assert(linked(pass, field, sw0, lg0, c));
        let p = lg0.pred[c];
        assert(at(sw0.done@, p));
        assert(0 <= lg0.rank[p] < n0);
        if at(sw0.done@, c) {
            assert(at(sw0.done@, c));
        }
    }
    assert forall|e: int| 0 <= e < sw1.heap@.len() implies entry_ok(sw1, k, #[trigger] sw1.heap@[e]) by {
        let x = sw1.heap@[e];
        assert(sw1.heap@.contains(x));
        let e0 = choose|e0: int| 0 <= e0 < sw0.heap@.len() && sw0.heap@[e0] == x;
        assert(entry_ok(sw0, floor, sw0.heap@[e0]));
    }
    assert forall|c: (usize, usize)|
        in_grid(pass, c) && at(sw1.cost@, c) < u64::MAX implies #[trigger] pending(sw1, c) by {
        assert(pending(sw0, c));
        if !at(sw0.done@, c) && c != u {
            let y = (at(sw0.cost@, c), c.0, c.1);
            assert(sw0.heap@.contains(y));
            assert(sw1.heap@.contains(y));
        }
    }
    assert forall|i: int, n: (usize, usize)|
        0 <= i < n0 && adjacent(lg1.settled[i], n) implies #[trigger] relaxed(
        pass,
        field,
        sw1,
        lg1.settled[i],
        n,
    ) by {
        assert(relaxed(pass, field, sw0, lg0.settled[i], n));
    }
    lg1
}

/// When the settled cell that is being expanded has passed its cost on to
/// all four cells beside it, it is closed.
proof fn lemma_close(
    pass: Seq<Vec<Pass>>,
    start: Seq<Vec<Evacuate>>,
    field: Seq<Vec<Evacuate>>,
    rows: nat,
    cols: nat,
    exit: (usize, usize),
    sw: Sweep,
    lg: Ledger,
    closed: int,
    floor: int,
)
    requires
        inv(pass, start, field, rows, cols, exit, sw, lg, closed, floor),
        lg.settled.len() == closed + 1,
        forall|n: (usize, usize)|
            adjacent(lg.settled[closed], n) ==> #[trigger] relaxed(
                pass,
                field,
                sw,
                lg.settled[closed],
                n,
            ),
    ensures
        inv(pass, start, field, rows, cols, exit, sw, lg, closed + 1, floor),
{
    reveal(inv);
}

/// A cell that takes the cost offered to it is held as the step says.
proof fn lemma_offer_taken(
    pass: Seq<Vec<Pass>>,
    f0: Seq<Vec<Evacuate>>,
    s0: Sweep,
    f1: Seq<Vec<Evacuate>>,
    s1: Sweep,
    state: Frontier,
    u: (usize, usize),
    n: (usize, usize),
    direction: MoveDirection,
    offer: u64,
)
    requires
        held_as(s0, f0, state),
        forall|c: (usize, usize)| in_grid(f0, c) == in_grid(pass, c),
        forall|c: (usize, usize)| in_grid(f1, c) == in_grid(pass, c),
        in_grid(pass, u),
        in_grid(pass, n),
        at(pass, n) is Passable,
        offer == at(s0.cost@, u) + weight(pass, n),
        offer < at(s0.cost@, n),
        s1.heap@ == s0.heap@.push((offer, n.0, n.1)),
        forall|c: (usize, usize)|
            in_grid(pass, c) ==> at(s1.cost@, c) == (if c == n {
                offer
            } else {
                at(s0.cost@, c)
            }) && at(f1, c) == (if c == n {
                Evacuate::Move(direction)
            } else {
                at(f0, c)
            }) && at(s1.done@, c) == at(s0.done@, c),
    ensures
        held_as(s1, f1, offered(ground_of(pass), state, u, n, direction)),
{
    let ground = ground_of(pass);
    let next = offered(ground, state, u, n, direction);
    assert(ground.open.contains(n));
    assert(ground.weigh[n] == weight(pass, n));
    assert(state.cost[u] == at(s0.cost@, u));
    assert(state.cost[n] == at(s0.cost@, n));
    assert forall|c: (usize, usize)| in_grid(f1, c) implies #[trigger] next.cost[c] == at(
        s1.cost@,
        c,
    ) by {
        assert(state.cost[c] == at(s0.cost@, c));
    }
    assert forall|c: (usize, usize)| in_grid(f1, c) implies #[trigger] next.settled[c] == at(
        s1.done@,
        c,
    ) by {
        assert(state.settled[c] == at(s0.done@, c));
    }
    assert forall|c: (usize, usize)| in_grid(f1, c) implies #[trigger] next.field[c] == at(
        f1,
        c,
    ) by {
        assert(state.field[c] == at(f0, c));
    }
}

/// A cell that cannot be walked, or that an offer does not make cheaper,
/// stays as it is.
proof fn lemma_offer_refused(
    pass: Seq<Vec<Pass>>,
    f0: Seq<Vec<Evacuate>>,
    s0: Sweep,
    state: Frontier,
    u: (usize, usize),
    n: (usize, usize),
    direction: MoveDirection,
)
    requires
        held_as(s0, f0, state),
        forall|c: (usize, usize)| in_grid(f0, c) == in_grid(pass, c),
        in_grid(pass, u),
        in_grid(pass, n),
        at(pass, n) is Impassable || at(s0.cost@, u) + weight(pass, n) > u64::MAX || at(
            s0.cost@,
            u,
        ) + weight(pass, n) >= at(s0.cost@, n),
    ensures
        offered(ground_of(pass), state, u, n, direction) == state,
{
    let ground = ground_of(pass);
    assert(ground.open.contains(n) == (at(pass, n) is Passable));
    assert(ground.weigh[n] == weight(pass, n));
    assert(state.cost[u] == at(s0.cost@, u));
    assert(state.cost[n] == at(s0.cost@, n));
}

/// Passes the cost of the cell `u`, which is being expanded, on to the cell
/// `n` beside it: where a step from `u` makes `n` cheaper than it was, `n`
/// takes that cost, waits under it, and is sent to `u`.
fn relax(
    pass: &Vec<Vec<Pass>>,
    field: &mut Vec<Vec<Evacuate>>,
    sw: &mut Sweep,
    u: (usize, usize),
    n: (usize, usize),
    direction: MoveDirection,
    Ghost(start): Ghost<Seq<Vec<Evacuate>>>,
    Ghost(rows): Ghost<nat>,
    Ghost(cols): Ghost<nat>,
    Ghost(exit): Ghost<(usize, usize)>,
    Ghost(lg): Ghost<Ledger>,
    Ghost(closed): Ghost<int>,
    Ghost(floor): Ghost<int>,
    Ghost(state): Ghost<Frontier>,
) -> (next: Ghost<Ledger>)
    requires
        inv(pass@, start, old(field)@, rows, cols, exit, *old(sw), lg, closed, floor),
        lg.settled.len() == closed + 1,
        lg.settled[closed] == u,
        at(old(sw).cost@, u) == floor,
        at(old(field)@, u) is Move,
        in_grid(pass@, n),
        adjacent(u, n),
        direction.points(n, u),
        held_as(*old(sw), old(field)@, state),
    ensures
        held_as(
            *final(sw),
            final(field)@,
            offered(ground_of(pass@), state, u, n, direction),
        ),
        inv(pass@, start, final(field)@, rows, cols, exit, *final(sw), next@, closed, floor),
        next@.settled == lg.settled,
        at(final(sw).cost@, u) == floor,
        at(final(field)@, u) is Move,
        final(sw).heap@.len() <= old(sw).heap@.len() + 1,
        relaxed(pass@, final(field)@, *final(sw), u, n),
        forall|m: (usize, usize)| #[trigger]
            relaxed(pass@, old(field)@, *old(sw), u, m) ==> relaxed(
                pass@,
                final(field)@,
                *final(sw),
                u,
                m,
            ),
{
    proof {
        reveal(inv);
        assert(ranked(*sw, lg, floor, lg.settled[closed], closed));
        assert(in_grid(pass@, u));
    }
    let ghost f0 = field@;
    let ghost s0 = *sw;
    match pass[n.0][n.1] {
        Pass::Passable(danger) => {
            let w = danger.value / 1000;
            let k = sw.cost[u.0][u.1];
            match k.checked_add(w) {
                Some(offer) => {
                    if offer < sw.cost[n.0][n.1] {
                        sw.cost[n.0][n.1] = offer;
                        sw.heap.push((offer, n.0, n.1));
                        field[n.0][n.1] = Evacuate::Move(direction);
                        let ghost next = Ledger {
                            settled: lg.settled,
                            rank: lg.rank,
                            pred: lg.pred.insert(n, u),
                        };
                        proof {
                            let s1 = *sw;
                            let f1 = field@;
                            assert(weight(pass@, n) == w);
                            assert(!at(s0.done@, n)) by {
                                if at(s0.done@, n) {
                                    assert(ranked(s0, lg, floor, lg.settled[lg.rank[n]], lg.rank[n]));
                                }
                            }
                            assert(n != exit);
                            assert(n != u);
                            assert forall|c: (usize, usize)| in_grid(pass@, c) implies at(s1.cost@, c)
                                == (if c == n {
                                offer
                            } else {
                                at(s0.cost@, c)
                            }) && at(f1, c) == (if c == n {
                                Evacuate::Move(direction)
                            } else {
                                at(f0, c)
                            }) && at(s1.done@, c) == at(s0.done@, c) by {}
                            assert forall|c: (usize, usize)| in_grid(pass@, c) implies (#[trigger] at(
                                f1,
                                c,
                            ) is Move) == (at(pass@, c) is Passable) by {
                                assert((at(f0, c) is Move) == (at(pass@, c) is Passable));
                            }
                            assert forall|i: int| 0 <= i < next.settled.len() implies ranked(
                                s1,
                                next,
                                floor,
                                #[trigger] next.settled[i],
                                i,
                            ) by {
                                assert(ranked(s0, lg, floor, lg.settled[i], i));
                            }
                            assert forall|c: (usize, usize)|
                                in_grid(pass@, c) && #[trigger] at(s1.done@, c) implies 0
                                <= next.rank[c] < next.settled.len() && next.settled[next.rank[c]]
                                == c by {
                                assert(at(s0.done@, c));
                            }
                            assert forall|c: (usize, usize)|
                                in_grid(pass@, c) && at(s1.cost@, c) < u64::MAX && c
                                != exit implies #[trigger] linked(pass@, f1, s1, next, c) by {
                                if c != n {
                                    assert(linked(pass@, f0, s0, lg, c));
                                    let p = lg.pred[c];
                                    assert(p != n);
                                }
                            }
                            assert forall|c: (usize, usize)|
                                in_grid(pass@, c) && (at(s1.cost@, c) == u64::MAX || c
                                == exit) implies #[trigger] at(f1, c) == at(start, c) by {
                                assert(at(f0, c) == at(start, c));
                            }
                            assert forall|e: int| 0 <= e < s1.heap@.len() implies entry_ok(
                                s1,
                                floor,
                                #[trigger] s1.heap@[e],
                            ) by {
                                if e < s0.heap@.len() {
                                    assert(s1.heap@[e] == s0.heap@[e]);
                                    assert(entry_ok(s0, floor, s0.heap@[e]));
                                }
                            }
                            assert forall|c: (usize, usize)|
                                in_grid(pass@, c) && at(s1.cost@, c)
                                < u64::MAX implies #[trigger] pending(s1, c) by {
                                if c == n {
                                    assert(s1.heap@[s0.heap@.len() as int] == (offer, n.0, n.1));
                                } else {
                                    assert(pending(s0, c));
                                    if !at(s0.done@, c) {
                                        let y = (at(s0.cost@, c), c.0, c.1);
                                        let e = choose|e: int|
                                            0 <= e < s0.heap@.len() && s0.heap@[e] == y;
                                        assert(s1.heap@[e] == y);
                                    }
                                }
                            }
                            assert forall|i: int, m: (usize, usize)|
                                0 <= i < closed && adjacent(
                                    next.settled[i],
                                    m,
                                ) implies #[trigger] relaxed(pass@, f1, s1, next.settled[i], m) by {
                                assert(relaxed(pass@, f0, s0, lg.settled[i], m));
                                assert(ranked(s0, lg, floor, lg.settled[i], i));
                            }
                            assert forall|m: (usize, usize)| #[trigger]
                                relaxed(pass@, f0, s0, u, m) implies relaxed(pass@, f1, s1, u, m) by {}
                            lemma_offer_taken(pass@, f0, s0, f1, s1, state, u, n, direction, offer);
                        }
                        Ghost(next)
                    } else {
                        proof {
                            lemma_offer_refused(pass@, f0, s0, state, u, n, direction);
                        }
                        Ghost(lg)
                    }
                },
                None => {
                    proof {
                        lemma_offer_refused(pass@, f0, s0, state, u, n, direction);
                    }
                    Ghost(lg)
                },
            }
        },
        Pass::Impassable => {
            proof {
                lemma_offer_refused(pass@, f0, s0, state, u, n, direction);
            }
            Ghost(lg)
        },
    }
}

/// Passes the cost of the cell `u`, which has just been settled, on to the
/// four cells beside it, as far as they lie in the grid.
fn pass_on(
    pass: &Vec<Vec<Pass>>,
    field: &mut Vec<Vec<Evacuate>>,
    sw: &mut Sweep,
    u: (usize, usize),
    Ghost(start): Ghost<Seq<Vec<Evacuate>>>,
    Ghost(exit): Ghost<(usize, usize)>,
    Ghost(lg): Ghost<Ledger>,
    Ghost(closed): Ghost<int>,
    Ghost(floor): Ghost<int>,
    Ghost(state): Ghost<Frontier>,
) -> (next: Ghost<Ledger>)
    requires
        inv(
            pass@,
            start,
            old(field)@,
            pass@.len(),
            crate::plan::width(pass@),
            exit,
            *old(sw),
            lg,
            closed,
            floor,
        ),
        lg.settled.len() == closed + 1,
        lg.settled[closed] == u,
        at(old(sw).cost@, u) == floor,
        at(old(field)@, u) is Move,
        held_as(*old(sw), old(field)@, state),
    ensures
        inv(
            pass@,
            start,
            final(field)@,
            pass@.len(),
            crate::plan::width(pass@),
            exit,
            *final(sw),
            next@,
            closed,
            floor,
        ),
        next@.settled == lg.settled,
        forall|n: (usize, usize)|
            adjacent(u, n) ==> #[trigger] relaxed(pass@, final(field)@, *final(sw), u, n),
        held_as(*final(sw), final(field)@, spread(ground_of(pass@), state, u)),
{
    proof {
        reveal(inv);
        assert(ranked(*sw, lg, floor, lg.settled[closed], closed));
        assert(in_grid(pass@, u));
    }
    let rows = pass.len();
    let cols = pass[u.0].len();
    let ghost mut ledger = lg;
    let ghost mut now = state;
    if u.1 + 1 < cols {
        let next = relax(
            pass,
            field,
            sw,
            u,
            (u.0, u.1 + 1),
            MoveDirection::from_ij(0, -1),
            Ghost(start),
            Ghost(rows as nat),
            Ghost(cols as nat),
            Ghost(exit),
            Ghost(ledger),
            Ghost(closed),
            Ghost(floor),
            Ghost(now),
        );
        proof {
            ledger = next@;
            now = offered(
                ground_of(pass@),
                now,
                u,
                (u.0, (u.1 + 1) as usize),
                MoveDirection::of_offset(0, -1),
            );
        }
    }
    assert(relaxed(pass@, field@, *sw, u, (u.0, (u.1 + 1) as usize)));
    if u.1 > 0 {
        let next = relax(
            pass,
            field,
            sw,
            u,
            (u.0, (u.1 - 1) as usize),
            MoveDirection::from_ij(0, 1),
            Ghost(start),
            Ghost(rows as nat),
            Ghost(cols as nat),
            Ghost(exit),
            Ghost(ledger),
            Ghost(closed),
            Ghost(floor),
            Ghost(now),
        );
        proof {
            ledger = next@;
            now = offered(
                ground_of(pass@),
                now,
                u,
                (u.0, (u.1 - 1) as usize),
                MoveDirection::of_offset(0, 1),
            );
        }
    }
    assert(relaxed(pass@, field@, *sw, u, (u.0, (u.1 + 1) as usize)));
    assert(u.1 > 0 ==> relaxed(pass@, field@, *sw, u, (u.0, (u.1 - 1) as usize)));
    if u.0 + 1 < rows {
        let next = relax(
            pass,
            field,
            sw,
            u,
            (u.0 + 1, u.1),
            MoveDirection::from_ij(-1, 0),
            Ghost(start),
            Ghost(rows as nat),
            Ghost(cols as nat),
            Ghost(exit),
            Ghost(ledger),
            Ghost(closed),
            Ghost(floor),
            Ghost(now),
        );
        proof {
            ledger = next@;
            now = offered(
                ground_of(pass@),
                now,
                u,
                ((u.0 + 1) as usize, u.1),
                MoveDirection::of_offset(-1, 0),
            );
        }
    }
    assert(relaxed(pass@, field@, *sw, u, (u.0, (u.1 + 1) as usize)));
    assert(u.1 > 0 ==> relaxed(pass@, field@, *sw, u, (u.0, (u.1 - 1) as usize)));
    assert(relaxed(pass@, field@, *sw, u, ((u.0 + 1) as usize, u.1)));
    if u.0 > 0 {
        let next = relax(
            pass,
            field,
            sw,
            u,
            ((u.0 - 1) as usize, u.1),
            MoveDirection::from_ij(1, 0),
            Ghost(start),
            Ghost(rows as nat),
            Ghost(cols as nat),
            Ghost(exit),
            Ghost(ledger),
            Ghost(closed),
            Ghost(floor),
            Ghost(now),
        );
        proof {
            ledger = next@;
            now = offered(
                ground_of(pass@),
                now,
                u,
                ((u.0 - 1) as usize, u.1),
                MoveDirection::of_offset(1, 0),
            );
        }
    }
    assert(relaxed(pass@, field@, *sw, u, (u.0, (u.1 + 1) as usize)));
    assert(u.1 > 0 ==> relaxed(pass@, field@, *sw, u, (u.0, (u.1 - 1) as usize)));
    assert(relaxed(pass@, field@, *sw, u, ((u.0 + 1) as usize, u.1)));
    assert(u.0 > 0 ==> relaxed(pass@, field@, *sw, u, ((u.0 - 1) as usize, u.1)));
    proof {
        assert forall|n: (usize, usize)| adjacent(u, n) implies #[trigger] relaxed(
            pass@,
            field@,
            *sw,
            u,
            n,
        ) by {
            if n.0 == u.0 && n.1 == u.1 + 1 {
                assert(n == (u.0, (u.1 + 1) as usize));
            } else if n.0 == u.0 && n.1 + 1 == u.1 {
                assert(n == (u.0, (u.1 - 1) as usize));
            } else if n.1 == u.1 && n.0 == u.0 + 1 {
                assert(n == ((u.0 + 1) as usize, u.1));
            } else {
                assert(n == ((u.0 - 1) as usize, u.1));
            }
        }
    }
    Ghost(ledger)
}

/// Once nothing waits any more, no walk from a walkable cell to the exit
/// costs less than the cell does.
proof fn lemma_no_cheaper(
    pass: Seq<Vec<Pass>>,
    start: Seq<Vec<Evacuate>>,
    field: Seq<Vec<Evacuate>>,
    rows: nat,
    cols: nat,
    exit: (usize, usize),
    sw: Sweep,
    lg: Ledger,
    floor: int,
    c: (usize, usize),
    steps: Seq<(usize, usize)>,
)
    requires
        inv(pass, start, field, rows, cols, exit, sw, lg, lg.settled.len() as int, floor),
        sw.heap@.len() == 0,
        walkable(pass).contains(c),
        is_route(walkable(pass), c, exit, steps),
        toll(pass, c, steps) < u64::MAX,
    ensures
        at(sw.cost@, c) <= toll(pass, c, steps),
    decreases steps.len(),
{
    reveal(inv);
    if steps.len() > 0 {
        let n = steps[0];
        let rest = steps.drop_first();
        assert(walkable(pass).contains(n) && adjacent(before(c, steps, 0), n));
        assert forall|k: int| 0 <= k < rest.len() implies walkable(pass).contains(#[trigger] rest[k])
            && adjacent(before(n, rest, k), rest[k]) by {
            assert(rest[k] == steps[k + 1]);
            assert(before(n, rest, k) == before(c, steps, k + 1));
        }
        assert(end_of(n, rest) == exit) by {
            if rest.len() > 0 {
                assert(rest.last() == steps.last());
            }
        }
        lemma_no_cheaper(pass, start, field, rows, cols, exit, sw, lg, floor, n, rest);
        assert(pending(sw, n));
        assert(at(sw.done@, n));
        let i = lg.rank[n];
        assert(lg.settled[i] == n);
        assert(adjacent(n, c));
        assert(relaxed(pass, field, sw, lg.settled[i], c));
        assert(at(field, n) is Move);
    }
}

/// Once nothing waits any more, going where the field sends takes from a
/// cell that has a cost to the exit, and the walk costs what the cell does.
proof fn lemma_trail(
    pass: Seq<Vec<Pass>>,
    start: Seq<Vec<Evacuate>>,
    field: Seq<Vec<Evacuate>>,
    rows: nat,
    cols: nat,
    exit: (usize, usize),
    sw: Sweep,
    lg: Ledger,
    floor: int,
    c: (usize, usize),
) -> (steps: Seq<(usize, usize)>)
    requires
        inv(pass, start, field, rows, cols, exit, sw, lg, lg.settled.len() as int, floor),
        sw.heap@.len() == 0,
        in_grid(pass, c),
        at(sw.cost@, c) < u64::MAX,
    ensures
        follows(field, c, steps),
        is_route(walkable(pass), c, exit, steps),
        toll(pass, c, steps) == at(sw.cost@, c),
    decreases lg.rank[c],
{
    reveal(inv);
    assert(pending(sw, c));
    assert(at(sw.done@, c));
    if c == exit {
        Seq::empty()
    } else {
        assert(linked(pass, field, sw, lg, c));
        let p = lg.pred[c];
        assert(ranked(sw, lg, floor, lg.settled[lg.rank[p]], lg.rank[p]));
        let rest = lemma_trail(pass, start, field, rows, cols, exit, sw, lg, floor, p);
        let steps = seq![p] + rest;
        assert(steps[0] == p);
        assert(steps.drop_first() =~= rest);
        assert((at(field, p) is Move) == (at(pass, p) is Passable));
        assert(adjacent(c, p));
        assert forall|k: int| 0 <= k < steps.len() implies walkable(pass).contains(
            #[trigger] steps[k],
        ) && adjacent(before(c, steps, k), steps[k]) by {
            if k > 0 {
                assert(steps[k] == rest[k - 1]);
                assert(before(c, steps, k) == before(p, rest, k - 1));
            }
        }
        assert forall|k: int| 0 <= k < steps.len() implies leads(
            field,
            before(c, steps, k),
            #[trigger] steps[k],
        ) by {
            if k > 0 {
                assert(steps[k] == rest[k - 1]);
                assert(before(c, steps, k) == before(p, rest, k - 1));
            }
        }
        assert(end_of(c, steps) == exit) by {
            if rest.len() > 0 {
                assert(steps.last() == rest.last());
            }
        }
        steps
    }
}

/// Once nothing waits any more, every cell is as a finished sweep leaves it.
proof fn lemma_routed(
    pass: Seq<Vec<Pass>>,
    start: Seq<Vec<Evacuate>>,
    field: Seq<Vec<Evacuate>>,
    rows: nat,
    cols: nat,
    exit: (usize, usize),
    sw: Sweep,
    lg: Ledger,
    floor: int,
    c: (usize, usize),
)
    requires
        inv(pass, start, field, rows, cols, exit, sw, lg, lg.settled.len() as int, floor),
        sw.heap@.len() == 0,
        in_grid(pass, c),
    ensures
        crate::evacuate::routed(pass, start, field, exit, c),
{
    if c != exit && within_reach(pass, c, exit) {
        let near = choose|steps: Seq<(usize, usize)>| #[trigger]
            is_route(walkable(pass), c, exit, steps) && toll(pass, c, steps) < u64::MAX;
        lemma_no_cheaper(pass, start, field, rows, cols, exit, sw, lg, floor, c, near);
        let steps = lemma_trail(pass, start, field, rows, cols, exit, sw, lg, floor, c);
        assert forall|other: Seq<(usize, usize)>| #[trigger]
            is_route(walkable(pass), c, exit, other) implies toll(pass, c, steps) <= toll(
            pass,
            c,
            other,
        ) by {
            if toll(pass, c, other) < u64::MAX {
                lemma_no_cheaper(pass, start, field, rows, cols, exit, sw, lg, floor, c, other);
            }
        }
        assert(follows(field, c, steps) && is_cheapest_route(pass, c, exit, steps));
    } else {
        reveal(inv);
        if c != exit && at(sw.cost@, c) < u64::MAX {
            let steps = lemma_trail(pass, start, field, rows, cols, exit, sw, lg, floor, c);
            assert(linked(pass, field, sw, lg, c));
            assert(is_route(walkable(pass), c, exit, steps) && toll(pass, c, steps) < u64::MAX);
        }
    }
}

/// Fills `field` with the ways to `exit`: see [`routed`](crate::evacuate::routed).
pub(crate) fn sweep(field: &mut Vec<Vec<Evacuate>>, pass: &Vec<Vec<Pass>>, exit: (usize, usize))
    requires
        has_shape(pass@, pass@.len(), crate::plan::width(pass@)),
        has_shape(old(field)@, pass@.len(), crate::plan::width(pass@)),
        forall|c: (usize, usize)|
            in_grid(pass@, c) ==> (#[trigger] at(old(field)@, c) is Move) == (at(pass@, c) is Passable),
    ensures
        has_shape(final(field)@, pass@.len(), crate::plan::width(pass@)),
        forall|c: (usize, usize)|
            in_grid(pass@, c) ==> (#[trigger] at(final(field)@, c) is Move) == (at(pass@,
                c) is Passable),
        forall|c: (usize, usize)|
            in_grid(pass@, c) ==> #[trigger] crate::evacuate::routed(
                pass@,
                old(field)@,
                final(field)@,
                exit,
                c,
            ),
        in_grid(pass@, exit) ==> sweeps_to(pass@, old(field)@, final(field)@, exit),
        !in_grid(pass@, exit) ==> final(field)@ == old(field)@,
{
    let ghost start = field@;
    let rows = pass.len();
    if rows == 0 || exit.0 >= rows || exit.1 >= pass[0].len() {
        proof {
            assert forall|c: (usize, usize)| in_grid(pass@, c)
                implies #[trigger] crate::evacuate::routed(
                pass@,
                start,
                field@,
                exit,
                c,
            ) by {
                assert forall|steps: Seq<(usize, usize)>|
                    !(c != exit && #[trigger] is_route(walkable(pass@), c, exit, steps)) by {
                    if c != exit && is_route(walkable(pass@), c, exit, steps) {
                        assert(walkable(pass@).contains(steps[steps.len() - 1]));
                    }
                }
            }
        }
        return ;
    }
    let cols = pass[0].len();
    let mut sw = Sweep {
        cost: filled(rows, cols, u64::MAX),
        done: filled(rows, cols, false),
        heap: Vec::new(),
    };
    sw.cost[exit.0][exit.1] = 0;
    sw.heap.push((0, exit.0, exit.1));
    let ghost mut lg = Ledger { settled: Seq::empty(), rank: Map::empty(), pred: Map::empty() };
    let ghost mut floor: int = 0;
    let ghost ground = ground_of(pass@);
    let ghost from = outset(field_of(start), exit);
    let ghost mut state = from;
    let ghost mut steps: nat = 0;
    proof {
        assert(sw.heap@ =~= from.waiting);
    }
    proof {
        reveal(inv);
        assert forall|c: (usize, usize)| in_grid(pass@, c) implies at(sw.cost@, c) == (if c == exit {
            0
        } else {
            u64::MAX
        }) && !at(sw.done@, c) by {}
        assert(sw.heap@[0] == (0u64, exit.0, exit.1));
        assert(pending(sw, exit));
    }
    while sw.heap.len() > 0
        invariant
            rows == pass@.len(),
            cols == crate::plan::width(pass@),
            has_shape(pass@, rows as nat, cols as nat),
            inv(
                pass@,
                start,
                field@,
                rows as nat,
                cols as nat,
                exit,
                sw,
                lg,
                lg.settled.len() as int,
                floor,
            ),
            ground == ground_of(pass@),
            from == outset(field_of(start), exit),
            held_as(sw, field@, state),
            state == swept(ground, from, steps),
        decreases rows * cols - lg.settled.len(), sw.heap@.len(),
    {
        proof {
            lemma_frame(
                pass@,
                start,
                field@,
                rows as nat,
                cols as nat,
                exit,
                sw,
                lg,
                lg.settled.len() as int,
                floor,
            );
        }
        let ghost sw0 = sw;
        let ghost lg0 = lg;
        let ghost state0 = state;
        let least = pop_min(&mut sw.heap);
        let u = (least.1, least.2);
        proof {
            let e = choose|e: int| 0 <= e < sw0.heap@.len() && sw0.heap@[e] == least;
            assert(in_grid(pass@, (sw0.heap@[e].1, sw0.heap@[e].2)));
        }
        let fresh = !sw.done[u.0][u.1];
        if fresh {
            sw.done[u.0][u.1] = true;
        }
        proof {
            assert forall|c: (usize, usize)| in_grid(pass@, c) implies #[trigger] at(sw.done@, c) == (c
                == u || at(sw0.done@, c)) by {}
            let lg1 = lemma_popped(
                pass@,
                start,
                field@,
                rows as nat,
                cols as nat,
                exit,
                sw0,
                sw,
                lg,
                floor,
                least,
            );
            lg = lg1;
            floor = least.0 as int;
            lemma_one_more_step(ground, from, steps);
            steps = steps + 1;
            assert(state0.settled[u] == at(sw0.done@, u));
            assert(state0.field[u] == at(field@, u));
            state = if fresh {
                Frontier {
                    settled: state0.settled.insert(u, true),
                    waiting: left_waiting(state0.waiting),
                    ..state0
                }
            } else {
                Frontier { waiting: left_waiting(state0.waiting), ..state0 }
            };
            assert forall|c: (usize, usize)| in_grid(field@, c) implies #[trigger] state.settled[c]
                == at(sw.done@, c) by {
                assert(state0.settled[c] == at(sw0.done@, c));
            }
            assert(held_as(sw, field@, state));
        }
        if fresh {
            let ghost closed = lg0.settled.len() as int;
            assert(lg.settled[closed] == u);
            let expandable = match field[u.0][u.1] {
                Evacuate::Move(_) => true,
                Evacuate::CanNotArrive => false,
            };
            if expandable {
                let next = pass_on(
                    pass,
                    field,
                    &mut sw,
                    u,
                    Ghost(start),
                    Ghost(exit),
                    Ghost(lg),
                    Ghost(closed),
                    Ghost(floor),
                    Ghost(state),
                );
                proof {
                    lg = next@;
                    state = spread(ground_of(pass@), state, u);
                }
            }
            proof {
                assert forall|n: (usize, usize)| adjacent(u, n) implies #[trigger] relaxed(
                    pass@,
                    field@,
                    sw,
                    u,
                    n,
                ) by {}
                lemma_close(
                    pass@,
                    start,
                    field@,
                    rows as nat,
                    cols as nat,
                    exit,
                    sw,
                    lg,
                    closed,
                    floor,
                );
                lemma_frame(
                    pass@,
                    start,
                    field@,
                    rows as nat,
                    cols as nat,
                    exit,
                    sw,
                    lg,
                    closed + 1,
                    floor,
                );
            }
        }
    }
    proof {
        assert(ends_as(ground, start, field@, exit, steps)) by {
            lemma_frame(
                pass@,
                start,
                field@,
                rows as nat,
                cols as nat,
                exit,
                sw,
                lg,
                lg.settled.len() as int,
                floor,
            );
            assert forall|c: (usize, usize)| in_grid(start, c) implies #[trigger] at(field@, c)
                == state.field[c] by {
                assert(in_grid(field@, c));
            }
        }
    }
    proof {
        reveal(inv);
        assert forall|c: (usize, usize)| in_grid(pass@, c) implies #[trigger] crate::evacuate::routed(
            pass@,
            start,
            field@,
            exit,
            c,
        ) by {
            lemma_routed(
                pass@,
                start,
                field@,
                rows as nat,
                cols as nat,
                exit,
                sw,
                lg,
                floor,
                c,
            );
        }
    }
}

} // verus!
