//! Rooms are the enclosed regions of the grid.

use crate::sim::grid::MAX_CELLS;
use crate::sim::rooms::{
    advanced, border_cell, border_reached, expanded, flood_valid, flooded, inner_cells,
    lemma_advanced, lemma_neighbour, lemma_offered, neighbour, offered, outside_cells, regions,
    regions_from, room_fill, unseen, Flood,
};
use vstd::prelude::*;

verus! {

/// Two cells are neighbours.
pub open spec fn touches(n: int, a: usize, b: usize) -> bool {
    exists|dir: int| 0 <= dir < 4 && #[trigger] neighbour(n, a as int, dir) == Some(b)
}

/// `p` leads from `a` to `b` over marked cells, one step at a time.
pub open spec fn leads_to(marked: Seq<bool>, n: int, a: usize, b: usize, p: Seq<usize>) -> bool {
    &&& p.len() > 0
    &&& p[0] == a
    &&& p.last() == b
    &&& forall|i: int| 0 <= i < p.len() ==> (#[trigger] p[i]) < n * n && marked[p[i] as int]
    &&& forall|i: int| 1 <= i < p.len() ==> touches(n, p[i - 1], #[trigger] p[i])
}

/// Some walk over marked cells leads from `a` to `b`.
pub open spec fn connected(marked: Seq<bool>, n: int, a: usize, b: usize) -> bool {
    exists|p: Seq<usize>| leads_to(marked, n, a, b, p)
}

/// Some root is connected to `c`.
spec fn reached(marked: Seq<bool>, n: int, root: spec_fn(usize) -> bool, c: usize) -> bool {
    exists|r: usize| #[trigger] root(r) && connected(marked, n, r, c)
}

proof fn lemma_self_connected(marked: Seq<bool>, n: int, a: usize)
    requires
        a < n * n,
        marked[a as int],
    ensures
        connected(marked, n, a, a),
{
    assert(leads_to(marked, n, a, a, seq![a]));
}

proof fn lemma_extend(marked: Seq<bool>, n: int, a: usize, b: usize, c: usize)
    requires
        connected(marked, n, a, b),
        touches(n, b, c),
        c < n * n,
        marked[c as int],
    ensures
        connected(marked, n, a, c),
{
    let p = choose|p: Seq<usize>| leads_to(marked, n, a, b, p);
    let q = p.push(c);
    assert forall|i: int| 1 <= i < q.len() implies touches(n, q[i - 1], #[trigger] q[i]) by {
        if i < p.len() {
            assert(q[i] == p[i] && q[i - 1] == p[i - 1]);
        }
    }
    assert(leads_to(marked, n, a, c, q));
}

/// A flood fill in progress over the open cells, outside what `base` marks.
/// The last expanded cell has had its first `dirs` neighbours offered.
spec fn fill_holds(
    open: Seq<bool>,
    n: int,
    f: Flood,
    base: Seq<bool>,
    root: spec_fn(usize) -> bool,
    dirs: int,
) -> bool {
    &&& flood_valid(open, n, f)
    &&& base.len() == n * n
    &&& forall|k: int|
        0 <= k < f.stack.len() ==> {
            let c = #[trigger] f.stack[k];
            open[c as int] && f.seen[c as int] && !base[c as int] && reached(open, n, root, c)
        }
    &&& forall|k: int|
        0 <= k < f.order.len() ==> {
            let c = #[trigger] f.order[k];
            c < n * n && open[c as int] && f.seen[c as int] && !base[c as int] && reached(
                open,
                n,
                root,
                c,
            )
        }
    &&& forall|c: int|
        0 <= c < n * n && #[trigger] f.seen[c] ==> base[c] || f.stack.contains(c as usize)
            || f.order.contains(c as usize)
    &&& forall|c: int| 0 <= c < n * n && #[trigger] base[c] ==> f.seen[c]
    &&& forall|k: int, dir: int|
        #![trigger neighbour(n, f.order[k] as int, dir)]
        0 <= k < f.order.len() && 0 <= dir < 4 && (k < f.order.len() - 1 || dir < dirs) ==> (
        neighbour(n, f.order[k] as int, dir) matches Some(j) ==> (open[j as int]
            ==> f.seen[j as int]))
    &&& f.order.no_duplicates()
    &&& f.stack.no_duplicates()
    &&& forall|k: int, m: int|
        0 <= k < f.order.len() && 0 <= m < f.stack.len() ==> #[trigger] f.order[k]
            != #[trigger] f.stack[m]
}

proof fn lemma_fill_offer(
    open: Seq<bool>,
    n: int,
    f: Flood,
    base: Seq<bool>,
    root: spec_fn(usize) -> bool,
    dirs: int,
)
    requires
        fill_holds(open, n, f, base, root, dirs),
        0 <= dirs < 4,
        f.order.len() > 0,
    ensures
        fill_holds(
            open,
            n,
            offered(open, f, neighbour(n, f.order.last() as int, dirs)),
            base,
            root,
            dirs + 1,
        ),
        offered(open, f, neighbour(n, f.order.last() as int, dirs)).order == f.order,
{
    let c = f.order.last();
    assert(c == f.order[f.order.len() - 1]);
    let to = neighbour(n, c as int, dirs);
    lemma_neighbour(n, c as int, dirs);
    lemma_offered(open, n, f, to);
    let g = offered(open, f, to);
    if let Some(j) = to {
        if open[j as int] && !f.seen[j as int] {
            assert(touches(n, c, j));
            assert(reached(open, n, root, c));
            let r = choose|r: usize| #[trigger] root(r) && connected(open, n, r, c);
            lemma_extend(open, n, r, c, j);
            assert(reached(open, n, root, j));
            assert(!base[j as int]);
            assert forall|k: int| 0 <= k < g.stack.len() implies ({
                let c = #[trigger] g.stack[k];
                open[c as int] && g.seen[c as int] && !base[c as int] && reached(open, n, root, c)
            }) by {
                if k < f.stack.len() {
                    assert(g.stack[k] == f.stack[k]);
                }
            }
            assert forall|c: int| 0 <= c < n * n && #[trigger] g.seen[c] implies base[c]
                || g.stack.contains(c as usize) || g.order.contains(c as usize) by {
                if c == j {
                    assert(g.stack[g.stack.len() - 1] == j);
                } else {
                    assert(f.seen[c]);
                    if f.stack.contains(c as usize) {
                        let k = choose|k: int| 0 <= k < f.stack.len() && f.stack[k] == c as usize;
                        assert(g.stack[k] == c as usize);
                    }
                }
            }
            assert(g.stack.no_duplicates()) by {
                assert forall|k: int, m: int| 0 <= k < g.stack.len() && 0 <= m < g.stack.len() && k
                    != m implies g.stack[k] != g.stack[m] by {
                    if k < f.stack.len() {
                        assert(g.stack[k] == f.stack[k]);
                        assert(f.seen[f.stack[k] as int]);
                    }
                    if m < f.stack.len() {
                        assert(g.stack[m] == f.stack[m]);
                        assert(f.seen[f.stack[m] as int]);
                    }
                }
            }
            assert forall|k: int, m: int|
                0 <= k < g.order.len() && 0 <= m < g.stack.len() implies #[trigger] g.order[k]
                != #[trigger] g.stack[m] by {
                assert(f.seen[f.order[k] as int]);
                if m < f.stack.len() {
                    assert(g.stack[m] == f.stack[m]);
                }
            }
        }
    }
    assert forall|k: int, dir: int|
        #![trigger neighbour(n, g.order[k] as int, dir)]
        0 <= k < g.order.len() && 0 <= dir < 4 && (k < g.order.len() - 1 || dir < dirs
            + 1) implies (neighbour(n, g.order[k] as int, dir) matches Some(j) ==> (open[j as int]
        ==> g.seen[j as int])) by {
        lemma_neighbour(n, f.order[k] as int, dir);
        if k < f.order.len() - 1 || dir < dirs {
            assert(neighbour(n, f.order[k] as int, dir) matches Some(j) ==> (open[j as int]
                ==> f.seen[j as int]));
        }
    }
}

proof fn lemma_fill_advance(
    open: Seq<bool>,
    n: int,
    f: Flood,
    base: Seq<bool>,
    root: spec_fn(usize) -> bool,
)
    requires
        fill_holds(open, n, f, base, root, 4),
        f.stack.len() > 0,
    ensures
        fill_holds(open, n, advanced(open, n, f), base, root, 4),
{
    let c = f.stack.last();
    assert(c == f.stack[f.stack.len() - 1]);
    let f0 = Flood { stack: f.stack.drop_last(), order: f.order.push(c), ..f };
    assert forall|k: int| 0 <= k < f0.stack.len() implies #[trigger] f0.stack[k] == f.stack[k] by {}
    assert forall|c2: int| 0 <= c2 < n * n && #[trigger] f0.seen[c2] implies base[c2]
        || f0.stack.contains(c2 as usize) || f0.order.contains(c2 as usize) by {
        if f.stack.contains(c2 as usize) {
            let k = choose|k: int| 0 <= k < f.stack.len() && f.stack[k] == c2 as usize;
            if k < f.stack.len() - 1 {
                assert(f0.stack[k] == c2 as usize);
            } else {
                assert(f0.order[f.order.len() as int] == c2 as usize);
            }
        } else if f.order.contains(c2 as usize) {
            let k = choose|k: int| 0 <= k < f.order.len() && f.order[k] == c2 as usize;
            assert(f0.order[k] == c2 as usize);
        }
    }
    assert forall|k: int, dir: int|
        #![trigger neighbour(n, f0.order[k] as int, dir)]
        0 <= k < f0.order.len() && 0 <= dir < 4 && (k < f0.order.len() - 1 || dir
            < 0) implies (neighbour(n, f0.order[k] as int, dir) matches Some(j) ==> (open[j as int]
        ==> f0.seen[j as int])) by {
        assert(f0.order[k] == f.order[k]);
        assert(neighbour(n, f.order[k] as int, dir) matches Some(j) ==> (open[j as int]
            ==> f.seen[j as int]));
    }
    assert forall|k: int, m: int|
        0 <= k < f0.order.len() && 0 <= m < f0.stack.len() implies #[trigger] f0.order[k]
        != #[trigger] f0.stack[m] by {
        if k < f.order.len() {
            assert(f.order[k] != f.stack[m]);
        } else {
            assert(f.stack[f.stack.len() - 1] != f.stack[m]);
        }
    }
    assert(f0.order.no_duplicates()) by {
        assert forall|k: int, m: int| 0 <= k < f0.order.len() && 0 <= m < f0.order.len() && k
            != m implies f0.order[k] != f0.order[m] by {
            let last = f.stack.len() - 1;
            if k < f.order.len() {
                assert(f.order[k] != f.stack[last]);
            }
            if m < f.order.len() {
                assert(f.order[m] != f.stack[last]);
            }
        }
    }
    assert(fill_holds(open, n, f0, base, root, 0));
    lemma_fill_offer(open, n, f0, base, root, 0);
    let f1 = offered(open, f0, neighbour(n, c as int, 0));
    lemma_fill_offer(open, n, f1, base, root, 1);
    let f2 = offered(open, f1, neighbour(n, c as int, 1));
    lemma_fill_offer(open, n, f2, base, root, 2);
    let f3 = offered(open, f2, neighbour(n, c as int, 2));
    lemma_fill_offer(open, n, f3, base, root, 3);
}

proof fn lemma_fill(
    open: Seq<bool>,
    n: int,
    f: Flood,
    base: Seq<bool>,
    root: spec_fn(usize) -> bool,
)
    requires
        fill_holds(open, n, f, base, root, 4),
    ensures
        fill_holds(open, n, flooded(open, n, f), base, root, 4),
        flooded(open, n, f).stack.len() == 0,
        forall|c: int| 0 <= c < n * n && #[trigger] f.seen[c] ==> flooded(open, n, f).seen[c],
    decreases unseen(f.seen) + f.stack.len(),
{
    if f.stack.len() > 0 {
        lemma_advanced(open, n, f);
        lemma_fill_advance(open, n, f, base, root);
        lemma_fill(open, n, advanced(open, n, f), base, root);
        let g = advanced(open, n, f);
        lemma_seen_grows(open, n, f);
        assert forall|c: int| 0 <= c < n * n && #[trigger] f.seen[c] implies flooded(
            open,
            n,
            f,
        ).seen[c] by {
            assert(g.seen[c]);
        }
    }
}

proof fn lemma_seen_grows(open: Seq<bool>, n: int, f: Flood)
    requires
        flood_valid(open, n, f),
        f.stack.len() > 0,
    ensures
        forall|c: int| 0 <= c < n * n && #[trigger] f.seen[c] ==> advanced(open, n, f).seen[c],
{
    let c = f.stack.last();
    let f0 = Flood { stack: f.stack.drop_last(), order: f.order.push(c), ..f };
    assert(f.stack[f.stack.len() - 1] < n * n);
    lemma_neighbour(n, c as int, 0);
    lemma_neighbour(n, c as int, 1);
    lemma_neighbour(n, c as int, 2);
    lemma_neighbour(n, c as int, 3);
    let f1 = offered(open, f0, neighbour(n, c as int, 0));
    let f2 = offered(open, f1, neighbour(n, c as int, 1));
    let f3 = offered(open, f2, neighbour(n, c as int, 2));
    let f4 = offered(open, f3, neighbour(n, c as int, 3));
    assert(advanced(open, n, f) == f4);
    assert forall|i: int| 0 <= i < n * n && #[trigger] f.seen[i] implies f4.seen[i] by {
        assert(f1.seen[i]);
        assert(f2.seen[i]);
        assert(f3.seen[i]);
    }
}

/// The cell is on the border of the grid.
pub open spec fn is_border(n: int, c: int) -> bool {
    exists|i: int, k: int| 0 <= i < n && 0 <= k < 4 && c == #[trigger] border_cell(n, i, k)
}

spec fn border_root(open: Seq<bool>, n: int) -> spec_fn(usize) -> bool {
    |r: usize| is_border(n, r as int) && r < n * n && open[r as int]
}

/// An open border cell may join the reached ones.
proof fn lemma_border_offer(open: Seq<bool>, n: int, f: Flood, j: usize)
    requires
        fill_holds(open, n, f, Seq::new((n * n) as nat, |i: int| false), border_root(open, n), 4),
        f.order.len() == 0,
        j < n * n,
        is_border(n, j as int),
    ensures
        ({
            let g = offered(open, f, Some(j));
            &&& fill_holds(
                open,
                n,
                g,
                Seq::new((n * n) as nat, |i: int| false),
                border_root(open, n),
                4,
            )
            &&& g.order.len() == 0
            &&& open[j as int] ==> g.seen[j as int]
            &&& forall|c: int| 0 <= c < n * n && #[trigger] f.seen[c] ==> g.seen[c]
        }),
{
    let base = Seq::new((n * n) as nat, |i: int| false);
    let root = border_root(open, n);
    lemma_offered(open, n, f, Some(j));
    let g = offered(open, f, Some(j));
    if open[j as int] && !f.seen[j as int] {
        lemma_self_connected(open, n, j);
        assert(root(j));
        assert(reached(open, n, root, j));
        assert forall|k: int| 0 <= k < g.stack.len() implies ({
            let c = #[trigger] g.stack[k];
            open[c as int] && g.seen[c as int] && !base[c as int] && reached(open, n, root, c)
        }) by {
            if k < f.stack.len() {
                assert(g.stack[k] == f.stack[k]);
            }
        }
        assert forall|c: int| 0 <= c < n * n && #[trigger] g.seen[c] implies base[c]
            || g.stack.contains(c as usize) || g.order.contains(c as usize) by {
            if c == j {
                assert(g.stack[g.stack.len() - 1] == j);
            } else {
                assert(f.seen[c]);
                let k = choose|k: int| 0 <= k < f.stack.len() && f.stack[k] == c as usize;
                assert(g.stack[k] == c as usize);
            }
        }
        assert(g.stack.no_duplicates()) by {
            assert forall|k: int, m: int| 0 <= k < g.stack.len() && 0 <= m < g.stack.len() && k
                != m implies g.stack[k] != g.stack[m] by {
                if k < f.stack.len() {
                    assert(g.stack[k] == f.stack[k]);
                    assert(f.seen[f.stack[k] as int]);
                }
                if m < f.stack.len() {
                    assert(g.stack[m] == f.stack[m]);
                    assert(f.seen[f.stack[m] as int]);
                }
            }
        }
    }
}

proof fn lemma_border_bound(n: int, c: int, k: int)
    requires
        0 <= c < n,
        0 <= k < 4,
        n * n <= MAX_CELLS,
    ensures
        border_cell(n, c, k) < n * n,
        is_border(n, border_cell(n, c, k) as int),
{
    assert(c < n * n && 0 <= (n - 1) * n + c < n * n && 0 <= c * n < n * n && 0 <= c * n + n - 1 < n
        * n) by (nonlinear_arith)
        requires
            0 <= c < n,
    ;
}

proof fn lemma_border(open: Seq<bool>, n: int, c: nat)
    requires
        n > 0,
        n * n <= MAX_CELLS,
        open.len() == n * n,
        c <= n,
    ensures
        ({
            let f = border_reached(open, n, c);
            &&& fill_holds(
                open,
                n,
                f,
                Seq::new((n * n) as nat, |i: int| false),
                border_root(open, n),
                4,
            )
            &&& f.order.len() == 0
            &&& forall|i: int, k: int|
                0 <= i < c && 0 <= k < 4 && open[(#[trigger] border_cell(n, i, k)) as int]
                    ==> f.seen[border_cell(n, i, k) as int]
        }),
    decreases c,
{
    let base = Seq::new((n * n) as nat, |i: int| false);
    let root = border_root(open, n);
    if c > 0 {
        let f = border_reached(open, n, (c - 1) as nat);
        lemma_border(open, n, (c - 1) as nat);
        let i = c - 1;
        lemma_border_bound(n, i, 0);
        lemma_border_bound(n, i, 1);
        lemma_border_bound(n, i, 2);
        lemma_border_bound(n, i, 3);
        lemma_border_offer(open, n, f, border_cell(n, i, 0));
        let f1 = offered(open, f, Some(border_cell(n, i, 0)));
        lemma_border_offer(open, n, f1, border_cell(n, i, 1));
        let f2 = offered(open, f1, Some(border_cell(n, i, 1)));
        lemma_border_offer(open, n, f2, border_cell(n, i, 2));
        let f3 = offered(open, f2, Some(border_cell(n, i, 2)));
        lemma_border_offer(open, n, f3, border_cell(n, i, 3));
        let f4 = offered(open, f3, Some(border_cell(n, i, 3)));
        assert(border_reached(open, n, c) == f4);
        assert forall|m: int, k: int|
            0 <= m < c && 0 <= k < 4 && open[(#[trigger] border_cell(n, m, k)) as int] implies
            f4.seen[border_cell(n, m, k) as int] by {
            let b = border_cell(n, m, k) as int;
            lemma_border_bound(n, m, k);
            if m < c - 1 {
                assert(f.seen[b]);
            }
            assert(f1.seen[b] || k > 0 || m < c - 1);
            if m < c - 1 || k == 0 {
                assert(f1.seen[b]);
            }
            if m < c - 1 || k <= 1 {
                assert(f2.seen[b]);
            }
            if m < c - 1 || k <= 2 {
                assert(f3.seen[b]);
            }
        }
    } else {
        let f = border_reached(open, n, 0);
        assert(fill_holds(open, n, f, base, root, 4));
    }
}

/// A set of cells that no step over marked cells leaves.
spec fn is_closed(marked: Seq<bool>, n: int, set: Seq<bool>) -> bool {
    forall|c: int, dir: int|
        #![trigger neighbour(n, c, dir)]
        0 <= c < n * n && set[c] && 0 <= dir < 4 ==> (neighbour(n, c, dir) matches Some(j) ==> (
        marked[j as int] ==> set[j as int]))
}

/// A walk cannot leave a closed set.
proof fn lemma_closed_walk(
    marked: Seq<bool>,
    n: int,
    set: Seq<bool>,
    a: usize,
    b: usize,
    p: Seq<usize>,
    i: int,
)
    requires
        is_closed(marked, n, set),
        leads_to(marked, n, a, b, p),
        set[a as int],
        0 <= i < p.len(),
    ensures
        set[p[i] as int],
    decreases i,
{
    if i > 0 {
        lemma_closed_walk(marked, n, set, a, b, p, i - 1);
        assert(p[i - 1] < n * n);
        assert(touches(n, p[i - 1], p[i]));
        let dir = choose|dir: int|
            0 <= dir < 4 && #[trigger] neighbour(n, p[i - 1] as int, dir) == Some(p[i]);
        assert(marked[p[i] as int]);
    }
}

/// The outside is exactly what the border reaches: a cell is outside when
/// some open border cell is connected to it over open cells.
pub proof fn law_outside_is_border_reachable(open: Seq<bool>, n: int, c: usize)
    requires
        n > 0,
        n * n <= MAX_CELLS,
        open.len() == n * n,
        c < n * n,
    ensures
        outside_cells(open, n)[c as int] <==> exists|b: usize|
            is_border(n, b as int) && b < n * n && #[trigger] connected(open, n, b, c),
        outside_cells(open, n).len() == n * n,
{
    let base = Seq::new((n * n) as nat, |i: int| false);
    let root = border_root(open, n);
    let f = border_reached(open, n, n as nat);
    lemma_border(open, n, n as nat);
    lemma_fill(open, n, f, base, root);
    let g = flooded(open, n, f);
    lemma_filled_closed(open, n, g, base, root);
    if g.seen[c as int] {
        assert(g.order.contains(c));
        let k = choose|k: int| 0 <= k < g.order.len() && g.order[k] == c;
        assert(reached(open, n, root, g.order[k]));
        let b = choose|b: usize| #[trigger] root(b) && connected(open, n, b, c);
        assert(is_border(n, b as int) && b < n * n && connected(open, n, b, c));
    }
    if exists|b: usize| is_border(n, b as int) && b < n * n && #[trigger] connected(open, n, b, c) {
        let b = choose|b: usize|
            is_border(n, b as int) && b < n * n && #[trigger] connected(open, n, b, c);
        let p = choose|p: Seq<usize>| leads_to(open, n, b, c, p);
        let (i, k) = choose|i: int, k: int|
            0 <= i < n && 0 <= k < 4 && b as int == #[trigger] border_cell(n, i, k);
        assert(open[p[0] as int]);
        assert(f.seen[b as int]);
        assert(g.seen[b as int]);
        lemma_closed_walk(open, n, g.seen, b, c, p, p.len() - 1);
    }
}

/// What a finished fill has reached is closed, where its base was.
proof fn lemma_filled_closed(
    open: Seq<bool>,
    n: int,
    g: Flood,
    base: Seq<bool>,
    root: spec_fn(usize) -> bool,
)
    requires
        fill_holds(open, n, g, base, root, 4),
        g.stack.len() == 0,
        is_closed(open, n, base),
    ensures
        is_closed(open, n, g.seen),
{
    assert forall|c: int, dir: int|
        #![trigger neighbour(n, c, dir)]
        0 <= c < n * n && g.seen[c] && 0 <= dir < 4 implies (neighbour(n, c, dir) matches Some(j)
        ==> (open[j as int] ==> g.seen[j as int])) by {
        lemma_neighbour(n, c, dir);
        if base[c] {
            if let Some(j) = neighbour(n, c, dir) {
                if open[j as int] {
                    assert(base[j as int]);
                    assert(g.seen[j as int]);
                }
            }
        } else {
            assert(g.order.contains(c as usize));
            let k = choose|k: int| 0 <= k < g.order.len() && g.order[k] == c as usize;
            assert(neighbour(n, g.order[k] as int, dir) == neighbour(n, c, dir));
        }
    }
}

/// A region: distinct marked cells outside `seen`, all connected to the
/// first, and closed under steps over marked cells.
pub open spec fn is_region(marked: Seq<bool>, n: int, r: Seq<usize>) -> bool {
    &&& r.len() > 0
    &&& r.no_duplicates()
    &&& forall|k: int|
        0 <= k < r.len() ==> (#[trigger] r[k]) < n * n && marked[r[k] as int] && connected(
            marked,
            n,
            r[0],
            r[k],
        )
    &&& forall|k: int, dir: int|
        #![trigger neighbour(n, r[k] as int, dir)]
        0 <= k < r.len() && 0 <= dir < 4 ==> (neighbour(n, r[k] as int, dir) matches Some(j) ==> (
        marked[j as int] ==> r.contains(j)))
}

/// Some region of the list holds the cell.
pub open spec fn holds(list: Seq<Seq<usize>>, c: usize) -> bool {
    exists|k: int| 0 <= k < list.len() && (#[trigger] list[k]).contains(c)
}

/// The regions found from cell `i` on are regions, disjoint, outside `seen`,
/// and hold every marked cell that was not seen.
spec fn regions_hold(
    marked: Seq<bool>,
    n: int,
    seen: Seq<bool>,
    list: Seq<Seq<usize>>,
) -> bool {
    &&& forall|k: int| 0 <= k < list.len() ==> is_region(marked, n, #[trigger] list[k])
    &&& forall|k: int, c: usize|
        0 <= k < list.len() && #[trigger] list[k].contains(c) ==> !seen[c as int]
    &&& forall|k: int, m: int, c: usize|
        0 <= k < list.len() && 0 <= m < list.len() && #[trigger] list[k].contains(c)
            && #[trigger] list[m].contains(c) ==> k == m
    &&& forall|c: usize|
        c < n * n && marked[c as int] && !seen[c as int] ==> #[trigger] holds(list, c)
}

/// The fill from one unseen cell gives its region.
proof fn lemma_room_fill(marked: Seq<bool>, n: int, seen: Seq<bool>, i: int)
    requires
        n > 0,
        n * n <= MAX_CELLS,
        marked.len() == n * n,
        seen.len() == n * n,
        is_closed(marked, n, seen),
        0 <= i < n * n,
        marked[i],
        !seen[i],
    ensures
        ({
            let g = room_fill(marked, n, seen, i);
            &&& g.seen.len() == n * n
            &&& is_closed(marked, n, g.seen)
            &&& is_region(marked, n, g.order)
            &&& g.order.contains(i as usize)
            &&& forall|c: int| 0 <= c < n * n ==> (#[trigger] g.seen[c] <==> seen[c]
                || g.order.contains(c as usize))
            &&& forall|c: usize| #[trigger] g.order.contains(c) ==> c < n * n && !seen[c as int]
        }),
{
    let start = i as usize;
    let root = |r: usize| r == start;
    let f = Flood { seen: seen.update(i, true), stack: seq![start], order: Seq::empty() };
    lemma_self_connected(marked, n, start);
    assert(root(start));
    assert(reached(marked, n, root, start));
    assert forall|c: int| 0 <= c < n * n && #[trigger] f.seen[c] implies seen[c] || f.stack.contains(
        c as usize,
    ) || f.order.contains(c as usize) by {
        if c == i {
            assert(f.stack[0] == c as usize);
        }
    }
    assert(fill_holds(marked, n, f, seen, root, 4));
    lemma_fill(marked, n, f, seen, root);
    let g = flooded(marked, n, f);
    lemma_filled_closed(marked, n, g, seen, root);
    assert(f.seen[i]);
    assert(g.seen[i]);
    assert(g.order.contains(start));
    assert forall|c: int| 0 <= c < n * n implies (#[trigger] g.seen[c] <==> seen[c]
        || g.order.contains(c as usize)) by {
        if g.order.contains(c as usize) {
            let k = choose|k: int| 0 <= k < g.order.len() && g.order[k] == c as usize;
            assert(g.seen[g.order[k] as int]);
        }
    }
    assert forall|c: usize| #[trigger] g.order.contains(c) implies c < n * n && !seen[c as int] by {
        let k = choose|k: int| 0 <= k < g.order.len() && g.order[k] == c;
        assert(g.order[k] < n * n);
    }
    lemma_starts(marked, n, f);
    assert(g.order[0] == start);
    assert forall|k: int| 0 <= k < g.order.len() implies (#[trigger] g.order[k]) < n * n
        && marked[g.order[k] as int] && connected(marked, n, g.order[0], g.order[k]) by {
        assert(reached(marked, n, root, g.order[k]));
    }
    assert forall|k: int, dir: int|
        #![trigger neighbour(n, g.order[k] as int, dir)]
        0 <= k < g.order.len() && 0 <= dir < 4 implies (neighbour(
        n,
        g.order[k] as int,
        dir,
    ) matches Some(j) ==> (marked[j as int] ==> g.order.contains(j))) by {
        assert(g.order[k] < n * n);
        lemma_neighbour(n, g.order[k] as int, dir);
        if let Some(j) = neighbour(n, g.order[k] as int, dir) {
            if marked[j as int] {
                assert(g.seen[j as int]);
                if seen[j as int] {
                    lemma_back(n, g.order[k], j, dir);
                    let back = choose|back: int|
                        0 <= back < 4 && #[trigger] neighbour(n, j as int, back) == Some(
                            g.order[k],
                        );
                    assert(seen[g.order[k] as int]);
                }
            }
        }
    }
}

/// The cell that a fill starts with is the first it expands.
proof fn lemma_starts(open: Seq<bool>, n: int, f: Flood)
    requires
        flood_valid(open, n, f),
        f.order.len() > 0 || f.stack.len() > 0,
    ensures
        flooded(open, n, f).order.len() > 0,
        flooded(open, n, f).order[0] == if f.order.len() > 0 {
            f.order[0]
        } else {
            f.stack.last()
        },
    decreases unseen(f.seen) + f.stack.len(),
{
    if f.stack.len() > 0 {
        lemma_advanced(open, n, f);
        lemma_starts(open, n, advanced(open, n, f));
    }
}

/// Neighbours are mutual.
proof fn lemma_back(n: int, a: usize, b: usize, dir: int)
    requires
        n > 0,
        n * n <= MAX_CELLS,
        a < n * n,
        0 <= dir < 4,
        neighbour(n, a as int, dir) == Some(b),
    ensures
        touches(n, b, a),
{
    lemma_neighbour(n, a as int, dir);
    let c = a as int;
    vstd::arithmetic::div_mod::lemma_fundamental_div_mod(c, n);
    let q = c / n;
    let r = c % n;
    if dir == 0 {
        assert(c + 1 == q * n + (r + 1)) by (nonlinear_arith)
            requires
                c == n * q + r,
        ;
        vstd::arithmetic::div_mod::lemma_fundamental_div_mod_converse(c + 1, n, q, r + 1);
        assert(neighbour(n, b as int, 1) == Some(a));
    } else if dir == 1 {
        assert(c - 1 == q * n + (r - 1)) by (nonlinear_arith)
            requires
                c == n * q + r,
        ;
        vstd::arithmetic::div_mod::lemma_fundamental_div_mod_converse(c - 1, n, q, r - 1);
        assert(neighbour(n, b as int, 0) == Some(a));
    } else if dir == 2 {
        assert(neighbour(n, b as int, 3) == Some(a));
    } else {
        assert(neighbour(n, b as int, 2) == Some(a));
    }
}

proof fn lemma_regions(marked: Seq<bool>, n: int, seen: Seq<bool>, i: int)
    requires
        n > 0,
        n * n <= MAX_CELLS,
        marked.len() == n * n,
        seen.len() == n * n,
        is_closed(marked, n, seen),
        0 <= i <= n * n,
        forall|c: int| 0 <= c < i && #[trigger] marked[c] ==> seen[c],
    ensures
        regions_hold(marked, n, seen, regions_from(marked, n, seen, i)),
    decreases n * n - i,
{
    let list = regions_from(marked, n, seen, i);
    if i >= n * n {
        assert forall|c: usize| c < n * n && marked[c as int] && !seen[c as int] implies #[trigger]
            holds(list, c) by {
            assert(marked[c as int]);
        }
    } else if marked[i] && !seen[i] {
        let g = room_fill(marked, n, seen, i);
        lemma_room_fill(marked, n, seen, i);
        assert forall|c: int| 0 <= c < i + 1 && #[trigger] marked[c] implies g.seen[c] by {
            if c == i {
                assert(g.seen[c]);
            }
        }
        lemma_regions(marked, n, g.seen, i + 1);
        let rest = regions_from(marked, n, g.seen, i + 1);
        assert(list == seq![g.order] + rest);
        assert(list[0] == g.order);
        assert forall|k: int| 1 <= k < list.len() implies #[trigger] list[k] == rest[k - 1] by {}
        assert forall|k: int| 0 <= k < list.len() implies is_region(
            marked,
            n,
            #[trigger] list[k],
        ) by {
            if k > 0 {
                assert(is_region(marked, n, rest[k - 1]));
            }
        }
        assert forall|k: int, c: usize|
            0 <= k < list.len() && #[trigger] list[k].contains(c) implies !seen[c as int] && c < n
            * n && (k > 0 ==> !g.seen[c as int]) by {
            if k > 0 {
                assert(rest[k - 1].contains(c));
                assert(is_region(marked, n, rest[k - 1]));
                let region = rest[k - 1];
                let m = choose|m: int| 0 <= m < region.len() && region[m] == c;
                assert(region[m] < n * n);
                assert(!g.seen[c as int]);
            }
        }
        assert forall|k: int, m: int, c: usize|
            0 <= k < list.len() && 0 <= m < list.len() && #[trigger] list[k].contains(c)
                && #[trigger] list[m].contains(c) implies k == m by {
            if k > 0 && m > 0 {
                assert(rest[k - 1].contains(c) && rest[m - 1].contains(c));
            } else if k == 0 && m > 0 {
                assert(g.seen[c as int]);
                assert(!g.seen[c as int]);
            } else if m == 0 && k > 0 {
                assert(g.seen[c as int]);
                assert(!g.seen[c as int]);
            }
        }
        assert forall|c: usize| c < n * n && marked[c as int] && !seen[c as int] implies #[trigger]
            holds(list, c) by {
            if g.seen[c as int] {
                assert(list[0].contains(c));
            } else {
                assert(holds(rest, c));
                let k = choose|k: int| 0 <= k < rest.len() && (#[trigger] rest[k]).contains(c);
                assert(list[k + 1] == rest[k]);
                assert(list[k + 1].contains(c));
            }
        }
    } else {
        lemma_regions(marked, n, seen, i + 1);
    }
}

/// The rooms are the enclosed regions of the grid: each consists of open
/// cells that the border does not reach, all connected with each other and
/// closed off from everything else; no cell is in two rooms; and every open
/// cell that the border does not reach is in a room.
pub proof fn law_rooms_are_enclosed_regions(blocked: Seq<bool>, n: int)
    requires
        n > 0,
        n * n <= MAX_CELLS,
        blocked.len() == n * n,
    ensures
        ({
            let inner = inner_cells(blocked, n);
            let list = regions(blocked, n);
            &&& forall|k: int| 0 <= k < list.len() ==> is_region(inner, n, #[trigger] list[k])
            &&& forall|k: int, m: int, c: usize|
                0 <= k < list.len() && 0 <= m < list.len() && #[trigger] list[k].contains(c)
                    && #[trigger] list[m].contains(c) ==> k == m
            &&& forall|c: usize| c < n * n && inner[c as int] ==> #[trigger] holds(list, c)
        }),
{
    let inner = inner_cells(blocked, n);
    let none = Seq::new((n * n) as nat, |i: int| false);
    lemma_regions(inner, n, none, 0);
}

/// Two cells are in the same room exactly when a walk over inner cells
/// connects them.
pub proof fn law_room_is_a_component(marked: Seq<bool>, n: int, r: Seq<usize>, a: usize, b: usize)
    requires
        n > 0,
        n * n <= MAX_CELLS,
        is_region(marked, n, r),
        r.contains(a),
    ensures
        connected(marked, n, a, b) <==> r.contains(b),
{
    let flags = Seq::new((n * n) as nat, |c: int| r.contains(c as usize));
    let ka = choose|k: int| 0 <= k < r.len() && r[k] == a;
    assert(r[ka] < n * n && connected(marked, n, r[0], r[ka]));
    if connected(marked, n, a, b) {
        let p = choose|p: Seq<usize>| leads_to(marked, n, a, b, p);
        assert(is_closed(marked, n, flags)) by {
            assert forall|c: int, dir: int|
                #![trigger neighbour(n, c, dir)]
                0 <= c < n * n && flags[c] && 0 <= dir < 4 implies (neighbour(
                n,
                c,
                dir,
            ) matches Some(j) ==> (marked[j as int] ==> flags[j as int])) by {
                lemma_neighbour(n, c, dir);
                let k = choose|k: int| 0 <= k < r.len() && r[k] == c as usize;
                assert(neighbour(n, r[k] as int, dir) == neighbour(n, c, dir));
            }
        }
        lemma_closed_walk(marked, n, flags, a, b, p, p.len() - 1);
        assert(p[p.len() - 1] < n * n);
    }
    if r.contains(b) {
        let kb = choose|k: int| 0 <= k < r.len() && r[k] == b;
        assert(connected(marked, n, r[0], r[kb]));
        let p = choose|p: Seq<usize>| leads_to(marked, n, r[0], a, p);
        lemma_reverse(marked, n, r[0], a, p);
        lemma_join(marked, n, a, r[0], b);
    }
}

proof fn lemma_reverse(marked: Seq<bool>, n: int, a: usize, b: usize, p: Seq<usize>)
    requires
        n > 0,
        n * n <= MAX_CELLS,
        leads_to(marked, n, a, b, p),
    ensures
        connected(marked, n, b, a),
{
    let q = p.reverse();
    assert forall|i: int| 0 <= i < q.len() implies (#[trigger] q[i]) < n * n
        && marked[q[i] as int] by {
        assert(q[i] == p[p.len() - 1 - i]);
    }
    assert forall|i: int| 1 <= i < q.len() implies touches(n, q[i - 1], #[trigger] q[i]) by {
        let k = p.len() - i;
        assert(q[i - 1] == p[k] && q[i] == p[k - 1]);
        assert(touches(n, p[k - 1], p[k]));
        let dir = choose|dir: int|
            0 <= dir < 4 && #[trigger] neighbour(n, p[k - 1] as int, dir) == Some(p[k]);
        assert(p[k - 1] < n * n);
        lemma_back(n, p[k - 1], p[k], dir);
    }
    assert(leads_to(marked, n, b, a, q));
}

proof fn lemma_join(marked: Seq<bool>, n: int, a: usize, b: usize, c: usize)
    requires
        connected(marked, n, a, b),
        connected(marked, n, b, c),
    ensures
        connected(marked, n, a, c),
{
    let p = choose|p: Seq<usize>| leads_to(marked, n, a, b, p);
    let q = choose|q: Seq<usize>| leads_to(marked, n, b, c, q);
    let r = p + q.drop_first();
    assert forall|i: int| 0 <= i < r.len() implies (#[trigger] r[i]) < n * n
        && marked[r[i] as int] by {
        if i < p.len() {
            assert(r[i] == p[i]);
        } else {
            assert(r[i] == q[i - p.len() + 1]);
        }
    }
    assert forall|i: int| 1 <= i < r.len() implies touches(n, r[i - 1], #[trigger] r[i]) by {
        if i < p.len() {
            assert(r[i] == p[i] && r[i - 1] == p[i - 1]);
        } else {
            let k = i - p.len() + 1;
            assert(r[i] == q[k]);
            assert(touches(n, q[k - 1], q[k]));
            if k == 1 {
                assert(r[i - 1] == p[p.len() - 1]);
            } else {
                assert(r[i - 1] == q[k - 1]);
            }
        }
    }
    assert(r.last() == c) by {
        if q.len() == 1 {
            assert(r =~= p);
        } else {
            assert(r[r.len() - 1] == q[q.len() - 1]);
        }
    }
    assert(leads_to(marked, n, a, c, r));
}

} // verus!
