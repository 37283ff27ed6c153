//! Shortest walks over the open cells of a grid, found breadth first.

use std::collections::VecDeque;
use vstd::prelude::*;
use vstd::set_lib::{lemma_int_range, lemma_len_subset, set_int_range};
use crate::plan::{filled, has_shape};

verus! {

/// What `grid` holds on the cell `c`.
pub open spec fn at<T>(grid: Seq<Vec<T>>, c: (usize, usize)) -> T {
    grid[c.0 as int][c.1 as int]
}

/// Whether `c` is a cell of `grid`.
pub open spec fn in_grid<T>(grid: Seq<Vec<T>>, c: (usize, usize)) -> bool {
    c.0 < grid.len() && c.1 < grid[c.0 as int].len()
}

/// Whether `c` is a cell of `grid` that can be walked on.
pub open spec fn open_at(grid: Seq<Vec<bool>>, c: (usize, usize)) -> bool {
    in_grid(grid, c) && at(grid, c)
}

/// Whether `b` is one step up, down, left or right of `a`.
pub open spec fn adjacent(a: (usize, usize), b: (usize, usize)) -> bool {
    ||| a.0 == b.0 && (a.1 + 1 == b.1 || b.1 + 1 == a.1)
    ||| a.1 == b.1 && (a.0 + 1 == b.0 || b.0 + 1 == a.0)
}

/// The cell from which step `k` of the walk `steps` is made: `from` for the
/// first step, else the cell that the step before entered.
pub open spec fn before(from: (usize, usize), steps: Seq<(usize, usize)>, k: int) -> (
    usize,
    usize,
) {
    if k == 0 {
        from
    } else {
        steps[k - 1]
    }
}

/// The cells of `grid` that can be walked on.
pub open spec fn open_cells(grid: Seq<Vec<bool>>) -> Set<(usize, usize)> {
    Set::new(|c: (usize, usize)| open_at(grid, c))
}

/// Whether `steps` lists the cells that a walk from `from` enters, one after
/// the other: each is one of `open` and lies beside the one before.
pub open spec fn is_walk(open: Set<(usize, usize)>, from: (usize, usize), steps: Seq<(usize,
    usize)>) -> bool {
    forall|k: int|
        0 <= k < steps.len() ==> open.contains(#[trigger] steps[k]) && adjacent(
            before(from, steps, k),
            steps[k],
        )
}

/// Where the walk `steps` from `from` ends.
pub open spec fn end_of(from: (usize, usize), steps: Seq<(usize, usize)>) -> (usize, usize) {
    if steps.len() == 0 {
        from
    } else {
        steps.last()
    }
}

/// Whether `steps` is a walk over `open` from `from` that ends on `to`.
pub open spec fn is_route(
    open: Set<(usize, usize)>,
    from: (usize, usize),
    to: (usize, usize),
    steps: Seq<(usize, usize)>,
) -> bool {
    is_walk(open, from, steps) && end_of(from, steps) == to
}

/// Whether some walk over `open` leads from `from` to `to`.
pub open spec fn reachable(open: Set<(usize, usize)>, from: (usize, usize), to: (usize, usize)) -> bool {
    exists|steps: Seq<(usize, usize)>| is_route(open, from, to, steps)
}

/// Whether `steps` is a walk over `open` from `from` to `to` and no such walk
/// is shorter.
pub open spec fn is_shortest_route(
    open: Set<(usize, usize)>,
    from: (usize, usize),
    to: (usize, usize),
    steps: Seq<(usize, usize)>,
) -> bool {
    &&& is_route(open, from, to, steps)
    &&& forall|other: Seq<(usize, usize)>| #[trigger]
        is_route(open, from, to, other) ==> steps.len() <= other.len()
}

/// The Manhattan distance between two cells.
pub open spec fn manhattan(a: (usize, usize), b: (usize, usize)) -> nat {
    (vstd::math::abs(a.0 - b.0) + vstd::math::abs(a.1 - b.1)) as nat
}

/// The cells found so far: which were entered, from where, and in what order.
struct Search {
    visited: Vec<Vec<bool>>,
    prev: Vec<Vec<(usize, usize)>>,
    queue: Vec<(usize, usize)>,
}

/// What the proof keeps of each found cell: the length of the walk that found
/// it, and its place in the queue.
struct Trace {
    dist: Map<(usize, usize), nat>,
    slot: Map<(usize, usize), int>,
}

/// Whether the search has dealt with the cell `n` beside the cell `u`: if `n`
/// is open it has been found, no more than one step later than `u`.
spec fn handled(grid: Seq<Vec<bool>>, s: Search, t: Trace, u: (usize, usize), n: (usize,
    usize)) -> bool {
    open_at(grid, n) ==> at(s.visited@, n) && t.dist[n] <= t.dist[u] + 1
}

/// Whether the search entered the found cell `c` from the found cell `p`.
spec fn found_from(grid: Seq<Vec<bool>>, s: Search, t: Trace, c: (usize, usize), p: (usize,
    usize)) -> bool {
    &&& open_at(grid, c)
    &&& in_grid(grid, p)
    &&& at(s.visited@, p)
    &&& adjacent(p, c)
    &&& t.dist[c] == t.dist[p] + 1
}

/// The state of a search from `from` of which the first `head` cells of the
/// queue have been expanded.
#[verifier::opaque]
spec fn inv(
    grid: Seq<Vec<bool>>,
    rows: nat,
    cols: nat,
    from: (usize, usize),
    s: Search,
    t: Trace,
    head: int,
) -> bool {
    let q = s.queue@;
    &&& has_shape(grid, rows, cols)
    &&& has_shape(s.visited@, rows, cols)
    &&& has_shape(s.prev@, rows, cols)
    &&& 0 <= head <= q.len()
    &&& q.len() > 0
    &&& q[0] == from
    &&& t.dist[from] == 0
    &&& forall|i: int|
        0 <= i < q.len() ==> in_grid(grid, #[trigger] q[i]) && at(s.visited@, q[i]) && t.slot[q[i]]
            == i
    &&& forall|c: (usize, usize)|
        in_grid(grid, c) && #[trigger] at(s.visited@, c) ==> 0 <= t.slot[c] < q.len()
            && q[t.slot[c]] == c
    &&& forall|c: (usize, usize)|
        in_grid(grid, c) && at(s.visited@, c) && c != from ==> found_from(
            grid,
            s,
            t,
            c,
            #[trigger] at(s.prev@, c),
        )
    &&& forall|i: int, j: int|
        0 <= i <= j < q.len() ==> t.dist[#[trigger] q[i]] <= t.dist[#[trigger] q[j]]
    &&& head < q.len() ==> forall|i: int|
        0 <= i < q.len() ==> t.dist[#[trigger] q[i]] <= t.dist[q[head]] + 1
    &&& forall|i: int, n: (usize, usize)|
        0 <= i < head && adjacent(q[i], n) ==> #[trigger] handled(grid, s, t, q[i], n)
}

/// Cells of a grid of `rows` by `cols` that are all different are at most
/// `rows * cols`.
pub(crate) proof fn lemma_distinct_cells(q: Seq<(usize, usize)>, rows: nat, cols: nat)
    requires
        forall|i: int| 0 <= i < q.len() ==> (#[trigger] q[i]).0 < rows && q[i].1 < cols,
        forall|i: int, j: int| 0 <= i < j < q.len() ==> #[trigger] q[i] != #[trigger] q[j],
    ensures
        q.len() <= rows * cols,
{
    let codes = Seq::new(q.len(), |i: int| (q[i].0 as int) * (cols as int) + (q[i].1 as int));
    assert forall|i: int, j: int| 0 <= i < codes.len() && 0 <= j < codes.len() && i != j implies codes[i]
        != codes[j] by {
        let a = q[i];
        let b = q[j];
        if i < j {
            assert(q[i] != q[j]);
        } else {
            assert(q[j] != q[i]);
        }
        if a.0 != b.0 {
            assert((a.0 as int) * (cols as int) + (a.1 as int) != (b.0 as int) * (cols as int)
                + (b.1 as int))
                by (nonlinear_arith)
                requires
                    a.0 != b.0,
                    0 <= a.1 < cols,
                    0 <= b.1 < cols,
            ;
        }
    }
    codes.unique_seq_to_set();
    let total = (rows * cols) as int;
    assert(0 <= total) by (nonlinear_arith)
        requires
            total == rows * cols,
    ;
    assert forall|x: int| codes.to_set().contains(x) implies set_int_range(0, total).contains(x) by {
        let i = choose|i: int| 0 <= i < codes.len() && codes[i] == x;
        let a = q[i];
        assert(0 <= (a.0 as int) * (cols as int) + (a.1 as int) < rows * cols) by (nonlinear_arith)
            requires
                0 <= a.0 < rows,
                0 <= a.1 < cols,
        ;
    }
    lemma_int_range(0, total);
    lemma_len_subset(codes.to_set(), set_int_range(0, total));
}

/// The queue of a search is never longer than the grid has cells.
proof fn lemma_queue_bounded(
    grid: Seq<Vec<bool>>,
    rows: nat,
    cols: nat,
    from: (usize, usize),
    s: Search,
    t: Trace,
    head: int,
)
    requires
        inv(grid, rows, cols, from, s, t, head),
    ensures
        s.queue@.len() <= rows * cols,
        has_shape(s.visited@, rows, cols),
        has_shape(s.prev@, rows, cols),
        0 <= head <= s.queue@.len(),
        forall|i: int| 0 <= i < s.queue@.len() ==> in_grid(grid, #[trigger] s.queue@[i]),
{
    reveal(inv);
    let q = s.queue@;
    assert forall|i: int, j: int| 0 <= i < j < q.len() implies #[trigger] q[i] != #[trigger] q[j] by {
        assert(t.slot[q[i]] == i);
        assert(t.slot[q[j]] == j);
    }
    assert forall|i: int| 0 <= i < q.len() implies (#[trigger] q[i]).0 < rows && q[i].1 < cols by {
        assert(in_grid(grid, q[i]));
    }
    lemma_distinct_cells(q, rows, cols);
}

/// Once every found cell has been expanded, a walk from `from` only enters
/// found cells, and enters none earlier than the search did.
proof fn lemma_walk_is_found(
    grid: Seq<Vec<bool>>,
    rows: nat,
    cols: nat,
    from: (usize, usize),
    s: Search,
    t: Trace,
    steps: Seq<(usize, usize)>,
    k: int,
)
    requires
        inv(grid, rows, cols, from, s, t, s.queue@.len() as int),
        is_walk(open_cells(grid), from, steps),
        0 <= k < steps.len(),
    ensures
        in_grid(grid, steps[k]),
        at(s.visited@, steps[k]),
        t.dist[steps[k]] <= k + 1,
    decreases k,
{
    reveal(inv);
    let q = s.queue@;
    let b = before(from, steps, k);
    assert(open_cells(grid).contains(steps[k]) && adjacent(b, steps[k]));
    if k > 0 {
        lemma_walk_is_found(grid, rows, cols, from, s, t, steps, k - 1);
    } else {
        assert(q[0] == from);
        assert(in_grid(grid, q[0]) && at(s.visited@, q[0]));
    }
    assert(in_grid(grid, b) && at(s.visited@, b));
    let i = t.slot[b];
    assert(q[i] == b);
    assert(handled(grid, s, t, q[i], steps[k]));
}

/// When all four cells beside the cell at the head of the queue have been
/// dealt with, the head moves on.
proof fn lemma_advance(
    grid: Seq<Vec<bool>>,
    rows: nat,
    cols: nat,
    from: (usize, usize),
    s: Search,
    t: Trace,
    head: int,
)
    requires
        inv(grid, rows, cols, from, s, t, head),
        0 <= head < s.queue@.len(),
        forall|n: (usize, usize)|
            adjacent(s.queue@[head], n) ==> #[trigger] handled(grid, s, t, s.queue@[head], n),
    ensures
        inv(grid, rows, cols, from, s, t, head + 1),
{
    reveal(inv);
    let q = s.queue@;
    if head + 1 < q.len() {
        assert forall|i: int| 0 <= i < q.len() implies t.dist[#[trigger] q[i]] <= t.dist[q[head
            + 1]] + 1 by {
            assert(t.dist[q[i]] <= t.dist[q[head]] + 1);
            assert(t.dist[q[head]] <= t.dist[q[head + 1]]);
        }
    }
}

/// Enters the cell `n` beside the cell `u` that is being expanded, if it is
/// open and was not found before.
fn visit(
    grid: &Vec<Vec<bool>>,
    search: &mut Search,
    u: (usize, usize),
    n: (usize, usize),
    Ghost(rows): Ghost<nat>,
    Ghost(cols): Ghost<nat>,
    Ghost(from): Ghost<(usize, usize)>,
    Ghost(head): Ghost<int>,
    Ghost(trace): Ghost<Trace>,
) -> (next: Ghost<Trace>)
    requires
        inv(grid@, rows, cols, from, *old(search), trace, head),
        head < old(search).queue@.len(),
        u == old(search).queue@[head],
        in_grid(grid@, n),
        adjacent(u, n),
    ensures
        inv(grid@, rows, cols, from, *final(search), next@, head),
        old(search).queue@.len() <= final(search).queue@.len(),
        final(search).queue@[head] == u,
        handled(grid@, *final(search), next@, u, n),
        forall|m: (usize, usize)| #[trigger]
            handled(grid@, *old(search), trace, u, m) ==> handled(grid@, *final(search), next@, u, m),
{
    let ghost q0 = search.queue@;
    proof {
        reveal(inv);
        assert(in_grid(grid@, q0[head]) && at(search.visited@, q0[head]));
    }
    if grid[n.0][n.1] && !search.visited[n.0][n.1] {
        search.visited[n.0][n.1] = true;
        search.prev[n.0][n.1] = u;
        search.queue.push(n);
        let ghost next = Trace {
            dist: trace.dist.insert(n, trace.dist[u] + 1),
            slot: trace.slot.insert(n, q0.len() as int),
        };
        proof {
            let s0 = *old(search);
            let s1 = *search;
            let q1 = s1.queue@;
            assert(n != from) by {
                assert(in_grid(grid@, q0[0]) && at(s0.visited@, q0[0]));
            }
            assert forall|c: (usize, usize)| in_grid(grid@, c) implies at(s1.visited@, c) == (c == n
                || at(s0.visited@, c)) by {}
            assert forall|c: (usize, usize)| in_grid(grid@, c) && c != n implies at(s1.prev@, c)
                == at(s0.prev@, c) by {}
            assert forall|i: int| 0 <= i < q1.len() implies in_grid(grid@, #[trigger] q1[i]) && at(
                s1.visited@,
                q1[i],
            ) && next.slot[q1[i]] == i by {
                if i < q0.len() {
                    assert(q1[i] == q0[i]);
                    assert(in_grid(grid@, q0[i]) && at(s0.visited@, q0[i]));
                }
            }
            assert forall|c: (usize, usize)| in_grid(grid@, c) && #[trigger] at(s1.visited@, c) implies 0
                <= next.slot[c] < q1.len() && q1[next.slot[c]] == c by {
                if c != n {
                    assert(at(s0.visited@, c));
                    assert(q1[trace.slot[c]] == q0[trace.slot[c]]);
                }
            }
            assert forall|c: (usize, usize)|
                in_grid(grid@, c) && at(s1.visited@, c) && c != from implies found_from(
                grid@,
                s1,
                next,
                c,
                #[trigger] at(s1.prev@, c),
            ) by {
                if c != n {
                    assert(at(s0.visited@, c));
                    let p = at(s0.prev@, c);
                    assert(found_from(grid@, s0, trace, c, p));
                }
            }
            assert forall|i: int| 0 <= i < q1.len() implies next.dist[#[trigger] q1[i]]
                <= next.dist[q1[head]] + 1 by {
                if i < q0.len() {
                    assert(q1[i] == q0[i]);
                    assert(trace.dist[q0[i]] <= trace.dist[q0[head]] + 1);
                    assert(at(s0.visited@, q0[i]));
                }
            }
            assert forall|i: int, j: int| 0 <= i <= j < q1.len() implies next.dist[#[trigger] q1[i]]
                <= next.dist[#[trigger] q1[j]] by {
                assert(at(s1.visited@, q1[i]) && at(s1.visited@, q1[j]));
                if j < q0.len() {
                    assert(q1[i] == q0[i] && q1[j] == q0[j]);
                    assert(at(s0.visited@, q0[i]) && at(s0.visited@, q0[j]));
                } else if i < q0.len() {
                    assert(q1[i] == q0[i]);
                    assert(at(s0.visited@, q0[i]));
                    assert(trace.dist[q0[i]] <= trace.dist[q0[head]] + 1);
                }
            }
            assert forall|i: int, m: (usize, usize)| 0 <= i < head && adjacent(q1[i], m)
                implies #[trigger] handled(
                grid@,
                s1,
                next,
                q1[i],
                m,
            ) by {
                assert(q1[i] == q0[i]);
                assert(handled(grid@, s0, trace, q0[i], m));
                assert(in_grid(grid@, q0[i]) && at(s0.visited@, q0[i]));
                if open_at(grid@, m) {
                    assert(at(s0.visited@, m));
                }
            }
            assert(q1[0] == q0[0]);
            assert(q1[head] == q0[head]);
            assert forall|m: (usize, usize)| #[trigger]
                handled(grid@, s0, trace, u, m) implies handled(grid@, s1, next, u, m) by {
                if open_at(grid@, m) {
                    assert(at(s0.visited@, m));
                    assert(at(s0.visited@, u));
                }
            }
        }
        Ghost(next)
    } else {
        proof {
            if open_at(grid@, n) {
                let i = trace.slot[n];
                assert(at(search.visited@, n));
                assert(q0[i] == n);
                assert(trace.dist[q0[i]] <= trace.dist[q0[head]] + 1);
            }
        }
        Ghost(trace)
    }
}

/// A shortest walk over the open cells of `grid` from `from` to `to`: the
/// cells that it enters, `to` last. `None` if no walk leads there. The cell
/// `from` itself need not be open.
pub fn shortest_route(grid: &Vec<Vec<bool>>, from: (usize, usize), to: (usize, usize)) -> (route:
    Option<VecDeque<(usize, usize)>>)
    requires
        crate::plan::rectangular(grid@),
        in_grid(grid@, from),
    ensures
        match route {
            Some(steps) => is_shortest_route(open_cells(grid@), from, to, steps@),
            None => !reachable(open_cells(grid@), from, to),
        },
{
    let rows = grid.len();
    let cols = grid[0].len();
    if from.0 == to.0 && from.1 == to.1 {
        let steps: VecDeque<(usize, usize)> = VecDeque::new();
        assert(is_route(open_cells(grid@), from, to, steps@));
        return Some(steps);
    }
    if to.0 >= rows || to.1 >= cols {
        assert forall|steps: Seq<(usize, usize)>| !is_route(open_cells(grid@), from, to, steps) by {
            if is_route(open_cells(grid@), from, to, steps) {
                assert(open_cells(grid@).contains(steps[steps.len() - 1]));
            }
        }
        return None;
    }
    let mut search = Search {
        visited: filled(rows, cols, false),
        prev: filled(rows, cols, (0usize, 0usize)),
        queue: Vec::new(),
    };
    search.visited[from.0][from.1] = true;
    search.queue.push(from);
    let ghost mut trace = Trace {
        dist: Map::empty().insert(from, 0nat),
        slot: Map::empty().insert(from, 0int),
    };
    let mut head: usize = 0;
    proof {
        reveal(inv);
        assert forall|c: (usize, usize)| in_grid(grid@, c) implies at(search.visited@, c) == (c
            == from) by {}
    }
    while head < search.queue.len()
        invariant
            0 < rows == grid@.len(),
            cols == grid@[0].len(),
            has_shape(grid@, rows as nat, cols as nat),
            inv(grid@, rows as nat, cols as nat, from, search, trace, head as int),
        decreases rows * cols - head,
    {
        proof {
            lemma_queue_bounded(grid@, rows as nat, cols as nat, from, search, trace, head as int);
        }
        let u = search.queue[head];
        assert(in_grid(grid@, u));
        if u.1 + 1 < cols {
            let next = visit(
                grid,
                &mut search,
                u,
                (u.0, u.1 + 1),
                Ghost(rows as nat),
                Ghost(cols as nat),
                Ghost(from),
                Ghost(head as int),
                Ghost(trace),
            );
            proof {
                trace = next@;
            }
        }
        assert(handled(grid@, search, trace, u, (u.0, (u.1 + 1) as usize)));
        if u.1 > 0 {
            let next = visit(
                grid,
                &mut search,
                u,
                (u.0, (u.1 - 1) as usize),
                Ghost(rows as nat),
                Ghost(cols as nat),
                Ghost(from),
                Ghost(head as int),
                Ghost(trace),
            );
            proof {
                trace = next@;
            }
        }
        assert(handled(grid@, search, trace, u, (u.0, (u.1 + 1) as usize)));
        assert(u.1 > 0 ==> handled(grid@, search, trace, u, (u.0, (u.1 - 1) as usize)));
        if u.0 + 1 < rows {
            let next = visit(
                grid,
                &mut search,
                u,
                (u.0 + 1, u.1),
                Ghost(rows as nat),
                Ghost(cols as nat),
                Ghost(from),
                Ghost(head as int),
                Ghost(trace),
            );
            proof {
                trace = next@;
            }
        }
        assert(handled(grid@, search, trace, u, (u.0, (u.1 + 1) as usize)));
        assert(u.1 > 0 ==> handled(grid@, search, trace, u, (u.0, (u.1 - 1) as usize)));
        assert(handled(grid@, search, trace, u, ((u.0 + 1) as usize, u.1)));
        if u.0 > 0 {
            let next = visit(
                grid,
                &mut search,
                u,
                ((u.0 - 1) as usize, u.1),
                Ghost(rows as nat),
                Ghost(cols as nat),
                Ghost(from),
                Ghost(head as int),
                Ghost(trace),
            );
            proof {
                trace = next@;
            }
        }
        proof {
            assert(handled(grid@, search, trace, u, (u.0, (u.1 + 1) as usize)));
            assert(u.1 > 0 ==> handled(grid@, search, trace, u, (u.0, (u.1 - 1) as usize)));
            assert(handled(grid@, search, trace, u, ((u.0 + 1) as usize, u.1)));
            assert(u.0 > 0 ==> handled(grid@, search, trace, u, ((u.0 - 1) as usize, u.1)));
            assert forall|n: (usize, usize)| adjacent(u, n) implies handled(
                grid@,
                search,
                trace,
                u,
                n,
            ) by {
                if n.0 == u.0 && n.1 == u.1 + 1 {
                    assert(n == (u.0, (u.1 + 1) as usize));
                } else if n.0 == u.0 && n.1 + 1 == u.1 {
                    assert(n == (u.0, (u.1 - 1) as usize));
                } else if n.1 == u.1 && n.0 == u.0 + 1 {
                    assert(n == ((u.0 + 1) as usize, u.1));
                } else {
                    assert(n == ((u.0 - 1) as usize, u.1));
                }
            }
            lemma_advance(grid@, rows as nat, cols as nat, from, search, trace, head as int);
            lemma_queue_bounded(grid@, rows as nat, cols as nat, from, search, trace, head + 1);
        }
        head += 1;
    }
    proof {
        lemma_queue_bounded(grid@, rows as nat, cols as nat, from, search, trace, head as int);
    }
    if !search.visited[to.0][to.1] {
        assert forall|steps: Seq<(usize, usize)>| !is_route(open_cells(grid@), from, to, steps) by {
            if is_route(open_cells(grid@), from, to, steps) {
                lemma_walk_is_found(
                    grid@,
                    rows as nat,
                    cols as nat,
                    from,
                    search,
                    trace,
                    steps,
                    steps.len() - 1,
                );
            }
        }
        return None;
    }
    let mut steps: VecDeque<(usize, usize)> = VecDeque::new();
    let mut cur = to;
    while cur.0 != from.0 || cur.1 != from.1
        invariant
            has_shape(grid@, rows as nat, cols as nat),
            has_shape(search.prev@, rows as nat, cols as nat),
            inv(grid@, rows as nat, cols as nat, from, search, trace, search.queue@.len() as int),
            in_grid(grid@, cur),
            at(search.visited@, cur),
            is_route(open_cells(grid@), cur, to, steps@),
            steps@.len() + trace.dist[cur] == trace.dist[to],
        decreases trace.dist[cur],
    {
        let ghost tail = steps@;
        let p = search.prev[cur.0][cur.1];
        steps.push_front(cur);
        proof {
            reveal(inv);
            assert(cur != from);
            assert(at(search.prev@, cur) == p);
            assert(found_from(grid@, search, trace, cur, p));
            assert forall|k: int| 0 <= k < steps@.len()
                implies open_cells(grid@).contains(#[trigger] steps@[k])
                && adjacent(before(p, steps@, k), steps@[k]) by {
                if k > 0 {
                    assert(steps@[k] == tail[k - 1]);
                    assert(before(p, steps@, k) == before(cur, tail, k - 1));
                }
            }
            assert(end_of(p, steps@) == to) by {
                if tail.len() > 0 {
                    assert(steps@.last() == tail.last());
                }
            }
        }
        cur = p;
    }
    proof {
        assert(cur == from);
        assert forall|other: Seq<(usize, usize)>| #[trigger]
            is_route(open_cells(grid@), from, to, other) implies steps@.len() <= other.len() by {
            if other.len() > 0 {
                lemma_walk_is_found(
                    grid@,
                    rows as nat,
                    cols as nat,
                    from,
                    search,
                    trace,
                    other,
                    other.len() - 1,
                );
            }
        }
    }
    Some(steps)
}

/// No walk is shorter than the Manhattan distance between its ends.
pub proof fn lemma_route_spans_distance(
    open: Set<(usize, usize)>,
    from: (usize, usize),
    to: (usize, usize),
    steps: Seq<(usize, usize)>,
)
    requires
        is_route(open, from, to, steps),
    ensures
        steps.len() >= manhattan(from, to),
    decreases steps.len(),
{
    if steps.len() > 0 {
        let next = steps[0];
        let rest = steps.drop_first();
        assert(open.contains(next) && adjacent(before(from, steps, 0), next));
        assert forall|k: int| 0 <= k < rest.len() implies open.contains(#[trigger] rest[k]) && adjacent(
            before(next, rest, k),
            rest[k],
        ) by {
            assert(rest[k] == steps[k + 1]);
            assert(before(next, rest, k) == before(from, steps, k + 1));
        }
        assert(end_of(next, rest) == to) by {
            if rest.len() > 0 {
                assert(rest.last() == steps.last());
            }
        }
        lemma_route_spans_distance(open, next, to, rest);
    }
}

/// Along a straight corridor the shortest walk is the straight one: where
/// the `n` cells of row `row` from column `first` on are open, a shortest
/// walk from one end of them to the other takes `n - 1` steps, whatever
/// else is open.
pub proof fn lemma_corridor(
    open: Set<(usize, usize)>,
    row: usize,
    first: usize,
    n: nat,
    steps: Seq<(usize, usize)>,
)
    requires
        n >= 1,
        first + n - 1 <= usize::MAX,
        forall|c: (usize, usize)| c.0 == row && first <= c.1 < first + n ==> #[trigger] open.contains(c),
        is_shortest_route(open, (row, first), (row, (first + n - 1) as usize),
            steps) || is_shortest_route(
            open,
            (row, (first + n - 1) as usize),
            (row, first),
            steps,
        ),
    ensures
        steps.len() == n - 1,
{
    let near = (row, first);
    let far = (row, (first + n - 1) as usize);
    let there = Seq::new((n - 1) as nat, |k: int| (row, (first + k + 1) as usize));
    let back = Seq::new((n - 1) as nat, |k: int| (row, (first + n - 2 - k) as usize));
    assert(is_route(open, near, far, there)) by {
        assert forall|k: int| 0 <= k < there.len() implies open.contains(#[trigger] there[k])
            && adjacent(
            before(near, there, k),
            there[k],
        ) by {
            assert(open.contains((row, (first + (k + 1)) as usize)));
        }
    }
    assert(is_route(open, far, near, back)) by {
        assert forall|k: int| 0 <= k < back.len() implies open.contains(#[trigger] back[k]) && adjacent(
            before(far, back, k),
            back[k],
        ) by {
            assert(open.contains((row, (first + (n - 2 - k)) as usize)));
        }
    }
    if is_shortest_route(open, near, far, steps) {
        lemma_route_spans_distance(open, near, far, steps);
    } else {
        lemma_route_spans_distance(open, far, near, steps);
    }
}

} // verus!
