//! Breadth-first pathfinding over one floor of the grid: the search returns
//! a path of minimal length through walkable cells, or nothing when the
//! target cannot be reached.

use vstd::prelude::*;
use vstd::seq_lib::*;
use vstd::set_lib::{lemma_int_range, lemma_len_subset, set_int_range};

use crate::mmo_map::{MapElement, MmoMap};
use crate::types::{loc_in_bounds, Location, MAP_HEIGHT, MAP_WIDTH};

verus! {

/// The flat index of a cell inside one floor's walkability mask.
pub open spec fn flat2(c: Location) -> int {
    c.y * MAP_WIDTH + c.x
}

/// The cell lies on the floor `z` of the grid.
pub open spec fn cell2_ok(c: Location, z: u32) -> bool {
    c.x < MAP_WIDTH && c.y < MAP_HEIGHT && c.z == z
}

/// The mask allows walking over `c`.
pub open spec fn walk_at(m: Seq<bool>, c: Location) -> bool {
    m[flat2(c)]
}

/// Two cells on the same floor, exactly one step apart along one axis.
pub open spec fn adj4(a: Location, b: Location) -> bool {
    &&& a.z == b.z
    &&& ((a.x == b.x && (a.y + 1 == b.y || b.y + 1 == a.y)) || (a.y == b.y && (a.x + 1 == b.x
        || b.x + 1 == a.x)))
}

/// `p` walks from `s` to `t` on floor `z`: it starts at `s`, ends at `t`,
/// moves one step at a time, and every cell but the first is an in-bounds
/// walkable cell.
pub open spec fn is_grid_path(
    m: Seq<bool>,
    p: Seq<Location>,
    s: Location,
    t: Location,
    z: u32,
) -> bool {
    &&& p.len() >= 1
    &&& p[0] == s
    &&& p[p.len() - 1] == t
    &&& forall|i: int| 0 <= i < p.len() - 1 ==> adj4(p[i], #[trigger] p[i + 1])
    &&& forall|i: int| 1 <= i < p.len() ==> cell2_ok(#[trigger] p[i], z) && walk_at(m, p[i])
}

/// Cell `c` occurs in the queue.
pub open spec fn in_queue(q: Seq<Location>, c: Location) -> bool {
    exists|i: int| 0 <= i < q.len() && q[i] == c
}

/// Cell `c` occurs among the first `h` queue entries.
pub open spec fn seen_before(q: Seq<Location>, h: int, c: Location) -> bool {
    exists|j: int| 0 <= j < h && q[j] == c
}

/// The stored level of cell `c`.
pub open spec fn dist_of(dist: Seq<u32>, c: Location) -> int {
    dist[flat2(c)] as int
}

/// Every processed cell has all its walkable in-bounds neighbours in the
/// queue, at a level at most one above its own.
pub open spec fn closed_under(
    q: Seq<Location>,
    h: int,
    m: Seq<bool>,
    z: u32,
    dist: Seq<u32>,
) -> bool {
    forall|i: int, w: Location|
        0 <= i < h && #[trigger] adj4(q[i], w) && cell2_ok(w, z) && walk_at(m, w) ==> in_queue(
            q,
            w,
        ) && dist_of(dist, w) <= dist_of(dist, q[i]) + 1
}

/// The parent pointer of `c` names an earlier queue cell one step away and
/// one level down.
pub open spec fn parent_ok(
    parent: Seq<Location>,
    dist: Seq<u32>,
    q: Seq<Location>,
    c: Location,
    z: u32,
) -> bool {
    let pc = parent[flat2(c)];
    &&& in_queue(q, pc)
    &&& cell2_ok(pc, z)
    &&& adj4(pc, c)
    &&& dist_of(dist, pc) + 1 == dist_of(dist, c)
}

/// Everything the search keeps true of its arrays and queue, from the
/// first enqueued cell to the current head.
pub open spec fn bfs_inv(
    walk: Seq<bool>,
    visited: Seq<bool>,
    dist: Seq<u32>,
    parent: Seq<Location>,
    q: Seq<Location>,
    head: int,
    z: u32,
) -> bool {
    &&& walk.len() == MAP_WIDTH * MAP_HEIGHT
    &&& visited.len() == MAP_WIDTH * MAP_HEIGHT
    &&& dist.len() == MAP_WIDTH * MAP_HEIGHT
    &&& parent.len() == MAP_WIDTH * MAP_HEIGHT
    &&& q.len() >= 1
    &&& 0 <= head <= q.len()
    &&& q.len() <= MAP_WIDTH * MAP_HEIGHT
    &&& forall|i: int| 0 <= i < q.len() ==> cell2_ok(#[trigger] q[i], z)
    &&& forall|i: int, j: int| 0 <= i < j < q.len() ==> q[i] != q[j]
    &&& forall|i: int| 0 <= i < q.len() ==> visited[flat2(#[trigger] q[i])]
    &&& forall|g: int|
        0 <= g < visited.len() && #[trigger] visited[g] ==> exists|i: int|
            0 <= i < q.len() && flat2(#[trigger] q[i]) == g
    &&& dist_of(dist, q[0]) == 0
    &&& forall|i: int| 0 <= i < q.len() ==> dist_of(dist, #[trigger] q[i]) <= i
    &&& forall|i: int, j: int|
        0 <= i <= j < q.len() ==> dist_of(dist, #[trigger] q[i]) <= dist_of(dist, #[trigger] q[j])
    &&& (head < q.len() ==> forall|i: int|
        head <= i < q.len() ==> dist_of(dist, #[trigger] q[i]) <= dist_of(dist, q[head]) + 1)
    &&& forall|i: int| 1 <= i < q.len() ==> walk_at(walk, #[trigger] q[i])
    &&& closed_under(q, head, walk, z, dist)
    &&& forall|i: int| 1 <= i < q.len() ==> parent_ok(parent, dist, q, #[trigger] q[i], z)
}

/// Distinct in-bounds cells of one floor have distinct flat indices.
pub(crate) proof fn lemma_flat2_injective(a: Location, b: Location, z: u32)
    requires
        cell2_ok(a, z),
        cell2_ok(b, z),
        a != b,
    ensures
        flat2(a) != flat2(b),
{
    assert(flat2(a) != flat2(b)) by (nonlinear_arith)
        requires
            a.x < MAP_WIDTH && a.y < MAP_HEIGHT && b.x < MAP_WIDTH && b.y < MAP_HEIGHT,
            a.z == b.z,
            a != b,
            flat2(a) == a.y * MAP_WIDTH + a.x,
            flat2(b) == b.y * MAP_WIDTH + b.x,
            MAP_WIDTH == 30,
    {
    }
}

/// The flat index of an in-bounds cell stays inside one floor's mask.
pub(crate) proof fn lemma_flat2_bounds(c: Location, z: u32)
    requires
        cell2_ok(c, z),
    ensures
        0 <= flat2(c) < MAP_WIDTH * MAP_HEIGHT,
{
    assert(0 <= flat2(c) < MAP_WIDTH * MAP_HEIGHT) by (nonlinear_arith)
        requires
            c.x < MAP_WIDTH && c.y < MAP_HEIGHT,
            flat2(c) == c.y * MAP_WIDTH + c.x,
            MAP_WIDTH == 30 && MAP_HEIGHT == 20,
    {
    }
}

/// A duplicate-free queue of in-bounds cells of one floor holds at most
/// one entry per cell of that floor.
proof fn lemma_queue_len_bound(q: Seq<Location>, z: u32)
    requires
        forall|i: int| 0 <= i < q.len() ==> cell2_ok(#[trigger] q[i], z),
        forall|i: int, j: int| 0 <= i < j < q.len() ==> q[i] != q[j],
    ensures
        q.len() <= MAP_WIDTH * MAP_HEIGHT,
{
    let f = |c: Location| flat2(c);
    let fs = q.map_values(f);
    assert(fs.no_duplicates()) by {
        assert forall|i: int, j: int|
            0 <= i < fs.len() && 0 <= j < fs.len() && i != j implies fs[i] != fs[j] by {
            if i < j {
                lemma_flat2_injective(q[i], q[j], z);
            } else {
                lemma_flat2_injective(q[j], q[i], z);
            }
        }
    }
    fs.unique_seq_to_set();
    let range = set_int_range(0, MAP_WIDTH * MAP_HEIGHT as int);
    lemma_int_range(0, MAP_WIDTH * MAP_HEIGHT as int);
    assert(fs.to_set().subset_of(range)) by {
        assert forall|e: int| fs.to_set().contains(e) implies range.contains(e) by {
            let i = choose|i: int| 0 <= i < fs.len() && fs[i] == e;
            lemma_flat2_bounds(q[i], z);
        }
    }
    lemma_len_subset(fs.to_set(), range);
}

/// Along any path whose first `k` cells are all processed, levels grow by
/// at most one per step: the cell at `k` is in the queue at level at most
/// `k`.
proof fn lemma_prefix_dist(
    q: Seq<Location>,
    h: int,
    m: Seq<bool>,
    z: u32,
    dist: Seq<u32>,
    p: Seq<Location>,
    k: int,
)
    requires
        0 <= h <= q.len(),
        q.len() >= 1,
        closed_under(q, h, m, z, dist),
        dist_of(dist, q[0]) == 0,
        0 <= k < p.len(),
        p[0] == q[0],
        forall|i: int| 0 <= i < p.len() - 1 ==> adj4(p[i], #[trigger] p[i + 1]),
        forall|i: int| 1 <= i < p.len() ==> cell2_ok(#[trigger] p[i], z) && walk_at(m, p[i]),
        forall|i: int| 0 <= i < k ==> seen_before(q, h, #[trigger] p[i]),
    ensures
        in_queue(q, p[k]),
        dist_of(dist, p[k]) <= k,
    decreases k,
{
    if k == 0 {
        assert(q[0] == p[0]);
    } else {
        lemma_prefix_dist(q, h, m, z, dist, p, k - 1);
        assert(seen_before(q, h, p[k - 1]));
        let j = choose|j: int| 0 <= j < h && q[j] == p[k - 1];
        let ki = k - 1;
        assert(adj4(p[ki], p[ki + 1]));
        assert(adj4(q[j], p[k]));
        assert(cell2_ok(p[k], z) && walk_at(m, p[k]));
        assert(in_queue(q, p[k]) && dist_of(dist, p[k]) <= dist_of(dist, q[j]) + 1);
        assert(dist_of(dist, q[j]) == dist_of(dist, p[k - 1]));
    }
}

/// When the target is popped at the head of the queue, no path from the
/// start reaches it in fewer steps than its level.
proof fn lemma_path_lower_bound(
    q: Seq<Location>,
    h: int,
    m: Seq<bool>,
    z: u32,
    dist: Seq<u32>,
    p: Seq<Location>,
    t: Location,
)
    requires
        0 <= h < q.len(),
        closed_under(q, h, m, z, dist),
        dist_of(dist, q[0]) == 0,
        forall|i: int, j: int| 0 <= i < j < q.len() ==> q[i] != q[j],
        forall|i: int, j: int|
            0 <= i <= j < q.len() ==> dist_of(dist, #[trigger] q[i]) <= dist_of(
                dist,
                #[trigger] q[j],
            ),
        q[h] == t,
        is_grid_path(m, p, q[0], t, z),
    ensures
        p.len() >= dist_of(dist, t) + 1,
{
    assert(!seen_before(q, h, p[p.len() - 1])) by {
        if seen_before(q, h, t) {
            let j = choose|j: int| 0 <= j < h && q[j] == t;
            assert(q[j] == q[h]);
        }
    }
    let jj = lemma_first_unprocessed(q, h, p);
    lemma_prefix_dist(q, h, m, z, dist, p, jj);
    let pos = choose|i: int| 0 <= i < q.len() && q[i] == p[jj];
    if pos < h {
        assert(seen_before(q, h, p[jj]));
        assert(false);
    }
    assert(dist_of(dist, q[h]) <= dist_of(dist, q[pos]));
    assert(dist_of(dist, t) <= dist_of(dist, p[jj]) <= jj <= p.len() - 1);
}

/// The least index of a path cell that is not among the first `h` queue
/// entries; one exists because the last cell is not.
proof fn lemma_first_unprocessed(q: Seq<Location>, h: int, p: Seq<Location>) -> (jj: int)
    requires
        p.len() >= 1,
        0 <= h,
        !seen_before(q, h, p[p.len() - 1]),
    ensures
        0 <= jj < p.len(),
        !seen_before(q, h, p[jj]),
        forall|i: int| 0 <= i < jj ==> seen_before(q, h, #[trigger] p[i]),
{
    lemma_first_unprocessed_from(q, h, p, 0)
}

proof fn lemma_first_unprocessed_from(q: Seq<Location>, h: int, p: Seq<Location>, k: int) -> (
    jj: int)
    requires
        p.len() >= 1,
        0 <= h,
        0 <= k < p.len(),
        !seen_before(q, h, p[p.len() - 1]),
        forall|i: int| 0 <= i < k ==> seen_before(q, h, #[trigger] p[i]),
    ensures
        k <= jj < p.len(),
        !seen_before(q, h, p[jj]),
        forall|i: int| 0 <= i < jj ==> seen_before(q, h, #[trigger] p[i]),
    decreases p.len() - k,
{
    if seen_before(q, h, p[k]) {
        assert(k < p.len() - 1);
        lemma_first_unprocessed_from(q, h, p, k + 1)
    } else {
        k
    }
}

/// A search that exhausted its queue has seen every cell reachable from
/// the start: the target of any path from the start is a queue entry.
proof fn lemma_no_path_when_exhausted(
    q: Seq<Location>,
    h: int,
    m: Seq<bool>,
    z: u32,
    dist: Seq<u32>,
    p: Seq<Location>,
    t: Location,
)
    requires
        h == q.len(),
        q.len() >= 1,
        closed_under(q, h, m, z, dist),
        dist_of(dist, q[0]) == 0,
        is_grid_path(m, p, q[0], t, z),
    ensures
        seen_before(q, h, t),
{
    lemma_all_processed(q, h, m, z, dist, p, p.len() - 1);
    assert(seen_before(q, h, p[p.len() - 1]));
}

/// With the queue exhausted, every cell of a path from the start is a
/// processed queue entry.
proof fn lemma_all_processed(
    q: Seq<Location>,
    h: int,
    m: Seq<bool>,
    z: u32,
    dist: Seq<u32>,
    p: Seq<Location>,
    k: int,
)
    requires
        h == q.len(),
        q.len() >= 1,
        closed_under(q, h, m, z, dist),
        0 <= k < p.len(),
        p[0] == q[0],
        forall|i: int| 0 <= i < p.len() - 1 ==> adj4(p[i], #[trigger] p[i + 1]),
        forall|i: int| 1 <= i < p.len() ==> cell2_ok(#[trigger] p[i], z) && walk_at(m, p[i]),
    ensures
        seen_before(q, h, p[k]),
    decreases k,
{
    if k == 0 {
        assert(q[0] == p[0]);
    } else {
        lemma_all_processed(q, h, m, z, dist, p, k - 1);
        let j = choose|j: int| 0 <= j < h && q[j] == p[k - 1];
        let ki = k - 1;
        assert(adj4(p[ki], p[ki + 1]));
        assert(adj4(q[j], p[k]));
        assert(cell2_ok(p[k], z) && walk_at(m, p[k]));
        assert(in_queue(q, p[k]));
        let i = choose|i: int| 0 <= i < q.len() && q[i] == p[k];
    }
}

/// The flat index of an in-bounds cell.
fn flat_index(c: Location) -> (r: usize)
    requires
        c.x < MAP_WIDTH,
        c.y < MAP_HEIGHT,
    ensures
        r == flat2(c),
        r < MAP_WIDTH * MAP_HEIGHT,
{
    let x = c.x as usize;
    let y = c.y as usize;
    proof {
        assert(y * (MAP_WIDTH as usize) + x < 600) by (nonlinear_arith)
            requires
                x < 30 && y < 20 && MAP_WIDTH == 30,
        {
        }
    }
    y * MAP_WIDTH as usize + x
}

/// Takes one neighbour `w` of the cell `u` under the head: a walkable,
/// unseen one is enqueued one level above `u`; anything else leaves the
/// state alone. Either way, a walkable `w` is in the queue afterwards, at
/// most one level above `u`.
#[verifier::rlimit(60)]
fn visit_neighbor(
    walk: &Vec<bool>,
    visited: &mut Vec<bool>,
    dist: &mut Vec<u32>,
    parent: &mut Vec<Location>,
    queue: &mut Vec<Location>,
    head: usize,
    u: Location,
    udist: u32,
    w: Location,
)
    requires
        bfs_inv(
            walk@,
            old(visited)@,
            old(dist)@,
            old(parent)@,
            old(queue)@,
            head as int,
            u.z,
        ),
        head < old(queue)@.len(),
        old(queue)@[head as int] == u,
        udist == old(dist)@[flat2(u)],
        adj4(u, w),
        cell2_ok(w, u.z),
    ensures
        bfs_inv(walk@, final(visited)@, final(dist)@, final(parent)@, final(queue)@, head as int, u.z),
        final(queue)@.len() >= old(queue)@.len(),
        forall|i: int| 0 <= i < old(queue)@.len() ==> final(queue)@[i] == old(queue)@[i],
        walk_at(walk@, w) ==> in_queue(final(queue)@, w) && dist_of(final(dist)@, w) <= udist + 1,
        dist_of(final(dist)@, u) == dist_of(old(dist)@, u),
        forall|w2: Location|
            cell2_ok(w2, u.z) && in_queue(old(queue)@, w2) && dist_of(old(dist)@, w2) <= udist + 1
                ==> in_queue(final(queue)@, w2) && dist_of(final(dist)@, w2) <= udist + 1,
{
    let ghost z = u.z;
    proof {
        lemma_flat2_bounds(w, z);
        lemma_flat2_bounds(u, z);
    }
    let wflat = flat_index(w);
    if !walk[wflat] {
        return ;
    }
    if visited[wflat] {
        proof {
            let i = choose|i: int|
                0 <= i < queue@.len() && flat2(#[trigger] queue@[i]) == wflat as int;
            if queue@[i] != w {
                lemma_flat2_injective(queue@[i], w, z);
            }
            assert(queue@[i] == w);
            assert(in_queue(queue@, w));
            if i <= head as int {
                assert(dist_of(dist@, queue@[i]) <= dist_of(dist@, queue@[head as int]));
            } else {
                assert(dist_of(dist@, queue@[i]) <= dist_of(dist@, queue@[head as int]) + 1);
            }
        }
        return ;
    }
    let ghost pre_q = queue@;
    let ghost pre_v = visited@;
    let ghost pre_d = dist@;
    let ghost pre_p = parent@;
    proof {
        assert(dist_of(pre_d, u) <= head as int);
        assert(head as int <= pre_q.len() <= MAP_WIDTH * MAP_HEIGHT);
        assert(udist < 600);
    }
    visited.set(wflat, true);
    dist.set(wflat, udist + 1);
    parent.set(wflat, u);
    queue.push(w);
    proof {
        let n = queue@.len() - 1;
        // w was not in the queue before
        assert(!in_queue(pre_q, w)) by {
            if in_queue(pre_q, w) {
                let i = choose|i: int| 0 <= i < pre_q.len() && pre_q[i] == w;
                assert(pre_v[flat2(pre_q[i])]);
            }
        }
        // flat indices of old queue cells differ from w's
        assert forall|i: int| 0 <= i < n implies flat2(#[trigger] queue@[i]) != flat2(w) by {
            assert(queue@[i] == pre_q[i]);
            lemma_flat2_injective(pre_q[i], w, z);
        }
        assert forall|i: int, j: int| 0 <= i < j < queue@.len() implies queue@[i]
            != queue@[j] by {
            if j == n {
                assert(queue@[i] == pre_q[i]);
            }
        }
        lemma_queue_len_bound(queue@, z);
        // visited matches the queue in both directions
        assert forall|g: int|
            0 <= g < visited@.len() && #[trigger] visited@[g] implies exists|i: int|
            0 <= i < queue@.len() && flat2(#[trigger] queue@[i]) == g by {
            if g == wflat as int {
                assert(flat2(queue@[n]) == g);
            } else {
                assert(pre_v[g]);
                let i = choose|i: int| 0 <= i < pre_q.len() && flat2(#[trigger] pre_q[i]) == g;
                assert(flat2(queue@[i]) == g);
            }
        }
        // levels are still monotone, and within a band of the head
        assert forall|i: int| 0 <= i < queue@.len() implies dist_of(dist@, #[trigger] queue@[i])
            <= i by {
            if i < n {
                assert(dist_of(dist@, queue@[i]) == dist_of(pre_d, pre_q[i]));
            } else {
                assert(dist_of(dist@, w) == udist + 1);
                assert(dist_of(pre_d, u) <= head as int);
            }
        }
        assert forall|i: int, j: int|
            0 <= i <= j < queue@.len() implies dist_of(dist@, #[trigger] queue@[i]) <= dist_of(
            dist@,
            #[trigger] queue@[j],
        ) by {
            if j == n {
                if i < n {
                    assert(dist_of(dist@, queue@[i]) == dist_of(pre_d, pre_q[i]));
                    assert(dist_of(pre_d, pre_q[i]) <= dist_of(pre_d, pre_q[head as int]) + 1);
                }
            } else {
                assert(dist_of(dist@, queue@[i]) == dist_of(pre_d, pre_q[i]));
                assert(dist_of(dist@, queue@[j]) == dist_of(pre_d, pre_q[j]));
            }
        }
        assert forall|i: int|
            head as int <= i < queue@.len() implies dist_of(dist@, #[trigger] queue@[i])
            <= dist_of(dist@, queue@[head as int]) + 1 by {
            assert(queue@[head as int] == pre_q[head as int]);
            if i < n {
                assert(dist_of(dist@, queue@[i]) == dist_of(pre_d, pre_q[i]));
            }
        }
        // closedness: the processed part saw no fresh cell as a neighbour
        assert forall|i: int, w2: Location|
            0 <= i < head as int && #[trigger] adj4(queue@[i], w2) && cell2_ok(w2, z) && walk_at(
                walk@,
                w2,
            ) implies in_queue(queue@, w2) && dist_of(dist@, w2) <= dist_of(
            dist@,
            queue@[i],
        ) + 1 by {
            assert(queue@[i] == pre_q[i]);
            assert(adj4(pre_q[i], w2));
            assert(in_queue(pre_q, w2));
            let j = choose|j: int| 0 <= j < pre_q.len() && pre_q[j] == w2;
            assert(queue@[j] == w2);
            assert(w2 != w);
            lemma_flat2_injective(w2, w, z);
            assert(dist_of(dist@, w2) == dist_of(pre_d, w2));
            assert(dist_of(dist@, queue@[i]) == dist_of(pre_d, pre_q[i]));
        }
        // parent pointers still point one level down
        assert forall|i: int| 1 <= i < queue@.len() implies parent_ok(
            parent@,
            dist@,
            queue@,
            #[trigger] queue@[i],
            z,
        ) by {
            if i == n {
                assert(parent@[flat2(w)] == u);
                assert(queue@[head as int] == u);
                assert(in_queue(queue@, u));
                assert(dist_of(dist@, u) == dist_of(pre_d, u));
            } else {
                assert(queue@[i] == pre_q[i]);
                assert(parent_ok(pre_p, pre_d, pre_q, pre_q[i], z));
                let pc = pre_p[flat2(pre_q[i])];
                assert(flat2(queue@[i]) != flat2(w));
                assert(parent@[flat2(queue@[i])] == pc);
                let j = choose|j: int| 0 <= j < pre_q.len() && pre_q[j] == pc;
                assert(queue@[j] == pc);
                if pc != w {
                    lemma_flat2_injective(pc, w, z);
                }
                assert(dist_of(dist@, pc) == dist_of(pre_d, pc));
                assert(dist_of(dist@, queue@[i]) == dist_of(pre_d, pre_q[i]));
            }
        }
        assert(dist_of(dist@, w) == udist + 1);
        assert(queue@[queue@.len() - 1] == w);
        assert(in_queue(queue@, w));
        assert(u != w);
        lemma_flat2_injective(u, w, z);
        assert(dist_of(dist@, u) == dist_of(pre_d, u));
        assert forall|w2: Location|
            cell2_ok(w2, z) && in_queue(pre_q, w2) && dist_of(pre_d, w2) <= udist + 1 implies
            in_queue(queue@, w2) && dist_of(dist@, w2) <= udist + 1 by {
            let i = choose|i: int| 0 <= i < pre_q.len() && pre_q[i] == w2;
            assert(queue@[i] == w2);
            assert(w2 != w);
            lemma_flat2_injective(w2, w, z);
            assert(dist_of(dist@, w2) == dist_of(pre_d, w2));
        }
    }
}

/// Breadth-first search for `end` from `start` over the walkability mask
/// of one floor. A non-empty result is a path from `start` to `end`, both
/// included, of minimal length among all such paths; an empty result means
/// no path exists.
#[verifier::rlimit(100)]
#[verifier::spinoff_prover]
pub fn bfs_grid(walk: &Vec<bool>, start: Location, end: Location) -> (r: Vec<Location>)
    requires
        walk@.len() == MAP_WIDTH * MAP_HEIGHT,
        cell2_ok(start, start.z),
        cell2_ok(end, start.z),
    ensures
        r@.len() > 0 ==> is_grid_path(walk@, r@, start, end, start.z),
        r@.len() > 0 ==> forall|p: Seq<Location>|
            is_grid_path(walk@, p, start, end, start.z) ==> p.len() >= r@.len(),
        r@.len() == 0 ==> forall|p: Seq<Location>|
            !is_grid_path(walk@, p, start, end, start.z),
{
    let ghost z = start.z;
    let total: usize = (MAP_WIDTH * MAP_HEIGHT) as usize;
    let mut visited: Vec<bool> = Vec::new();
    let mut dist: Vec<u32> = Vec::new();
    let mut parent: Vec<Location> = Vec::new();
    let mut f: usize = 0;
    while f < total
        invariant
            0 <= f <= total,
            total == MAP_WIDTH * MAP_HEIGHT,
            visited@.len() == f,
            dist@.len() == f,
            parent@.len() == f,
            forall|k: int| 0 <= k < f ==> !visited@[k],
            forall|k: int| 0 <= k < f ==> dist@[k] == 0,
        decreases total - f,
    {
        visited.push(false);
        dist.push(0);
        parent.push(start);
        f = f + 1;
    }
    let mut queue: Vec<Location> = Vec::new();
    queue.push(start);
    proof {
        lemma_flat2_bounds(start, z);
    }
    let sflat = flat_index(start);
    visited.set(sflat, true);
    proof {
        assert forall|g: int|
            0 <= g < visited@.len() && #[trigger] visited@[g] implies exists|i: int|
            0 <= i < queue@.len() && flat2(#[trigger] queue@[i]) == g by {
            assert(g == sflat as int);
            assert(flat2(queue@[0]) == g);
        }
        assert(bfs_inv(walk@, visited@, dist@, parent@, queue@, 0, z));
    }
    let mut head: usize = 0;
    while head < queue.len()
        invariant
            bfs_inv(walk@, visited@, dist@, parent@, queue@, head as int, z),
            start.z == z,
            cell2_ok(start, z),
            cell2_ok(end, z),
            queue@[0] == start,
            forall|i: int| 0 <= i < head ==> queue@[i] != end,
        decreases MAP_WIDTH * MAP_HEIGHT - head,
    {
        let found = process_head(
            walk,
            &mut visited,
            &mut dist,
            &mut parent,
            &mut queue,
            head,
            start,
            end,
        );
        if let Some(r) = found {
            return r;
        }
        head = head + 1;
    }
    proof {
        assert forall|p: Seq<Location>| !is_grid_path(walk@, p, start, end, z) by {
            if is_grid_path(walk@, p, start, end, z) {
                lemma_no_path_when_exhausted(queue@, head as int, walk@, z, dist@, p, end);
                let j = choose|j: int| 0 <= j < head as int && queue@[j] == end;
            }
        }
    }
    Vec::new()
}

/// Whether the neighbour `w` of `u` lies in a direction already tried
/// after `step` rounds: left, then right, then up, then down.
pub open spec fn spec_step_covers(u: Location, w: Location, step: int) -> bool {
    ||| (step >= 1 && w.y == u.y && w.x + 1 == u.x)
    ||| (step >= 2 && w.y == u.y && w.x == u.x + 1)
    ||| (step >= 3 && w.x == u.x && w.y + 1 == u.y)
    ||| (step >= 4 && w.x == u.x && w.y == u.y + 1)
}

/// Once every walkable neighbour of the head cell sits in the queue within
/// one level of it, the head may move on by one.
proof fn lemma_advance_head(
    walk: Seq<bool>,
    visited: Seq<bool>,
    dist: Seq<u32>,
    parent: Seq<Location>,
    q: Seq<Location>,
    head: int,
    z: u32,
)
    requires
        bfs_inv(walk, visited, dist, parent, q, head, z),
        head < q.len(),
        forall|w: Location|
            #[trigger] adj4(q[head], w) && cell2_ok(w, z) && walk_at(walk, w) ==> in_queue(q, w)
                && dist_of(dist, w) <= dist_of(dist, q[head]) + 1,
    ensures
        bfs_inv(walk, visited, dist, parent, q, head + 1, z),
{
    assert forall|i: int, w: Location|
        0 <= i < head + 1 && #[trigger] adj4(q[i], w) && cell2_ok(w, z) && walk_at(walk, w)
        implies in_queue(q, w) && dist_of(dist, w) <= dist_of(dist, q[i]) + 1 by {
        if i < head {
            assert(closed_under(q, head, walk, z, dist));
        }
    }
    if head + 1 < q.len() {
        assert forall|i: int| head + 1 <= i < q.len() implies dist_of(dist, #[trigger] q[i])
            <= dist_of(dist, q[head + 1]) + 1 by {
            assert(dist_of(dist, q[i]) <= dist_of(dist, q[head]) + 1);
            assert(dist_of(dist, q[head]) <= dist_of(dist, q[head + 1]));
        }
    }
}

/// A cell adjacent to `u` lies in one of the four axis directions.
proof fn lemma_neighbor_cases(u: Location, w: Location, z: u32)
    requires
        adj4(u, w),
        cell2_ok(u, z),
        cell2_ok(w, z),
    ensures
        (w.x + 1 == u.x && w.y == u.y) || (w.x == u.x + 1 && w.y == u.y) || (w.y + 1 == u.y && w.x
            == u.x) || (w.y == u.y + 1 && w.x == u.x),
{
}

/// Walks the parent pointers back from the target and returns the found
/// path, start first, of length one more than the target's level.
#[verifier::rlimit(60)]
fn reconstruct(
    walk: &Vec<bool>,
    queue: &Vec<Location>,
    Ghost(head): Ghost<int>,
    Ghost(vis): Ghost<Seq<bool>>,
    dist: &Vec<u32>,
    parent: &Vec<Location>,
    start: Location,
    end: Location,
) -> (r: Vec<Location>)
    requires
        bfs_inv(walk@, vis, dist@, parent@, queue@, head, start.z),
        cell2_ok(start, start.z),
        cell2_ok(end, start.z),
        queue@[0] == start,
        0 <= head < queue@.len(),
        queue@[head] == end,
    ensures
        r@.len() > 0,
        is_grid_path(walk@, r@, start, end, start.z),
        r@.len() == dist_of(dist@, end) + 1,
        forall|p: Seq<Location>|
            is_grid_path(walk@, p, start, end, start.z) ==> p.len() >= r@.len(),
{
    let ghost z = start.z;
    let mut rev: Vec<Location> = Vec::new();
    rev.push(end);
    let mut c = end;
    while !(c.x == start.x && c.y == start.y && c.z == start.z)
        invariant
            bfs_inv(walk@, vis, dist@, parent@, queue@, head, z),
            cell2_ok(start, z),
            start.z == z,
            queue@[0] == start,
            in_queue(queue@, c),
            cell2_ok(c, z),
            rev@.len() >= 1,
            rev@[0] == end,
            rev@[rev@.len() - 1] == c,
            rev@.len() == dist_of(dist@, end) - dist_of(dist@, c) + 1,
            forall|i: int| 0 <= i < rev@.len() - 1 ==> adj4(rev@[i + 1], #[trigger] rev@[i]),
            forall|i: int|
                0 <= i < rev@.len() - 1 ==> cell2_ok(#[trigger] rev@[i], z) && walk_at(
                    walk@,
                    rev@[i],
                ),
        decreases dist_of(dist@, c),
    {
        proof {
            let pos = choose|i: int| 0 <= i < queue@.len() && queue@[i] == c;
            if pos == 0 {
                assert(c == start);
                assert(false);
            }
            assert(parent_ok(parent@, dist@, queue@, queue@[pos], z));
            lemma_flat2_bounds(c, z);
        }
        let cflat = flat_index(c);
        let pc = parent[cflat];
        proof {
            let pos = choose|i: int| 0 <= i < queue@.len() && queue@[i] == c;
            assert(queue@[pos] == c);
            assert(parent@[flat2(queue@[pos])] == pc);
            let ppos = choose|i: int| 0 <= i < queue@.len() && queue@[i] == pc;
            if ppos != 0 {
                assert(walk_at(walk@, queue@[ppos]));
            }
            if ppos == 0 {
                assert(dist_of(dist@, pc) == 0);
            }
            assert(cell2_ok(c, z) && walk_at(walk@, c)) by {
                if pos != 0 {
                    assert(walk_at(walk@, queue@[pos]));
                } else {
                    assert(false);
                }
            }
        }
        rev.push(pc);
        c = pc;
    }
    proof {
        assert(c == start);
    }
    let n = rev.len();
    let mut r: Vec<Location> = Vec::new();
    let mut i: usize = n;
    while i > 0
        invariant
            n == rev@.len(),
            0 <= i <= n,
            r@.len() == n - i,
            forall|k: int| 0 <= k < r@.len() ==> r@[k] == rev@[n - 1 - k],
        decreases i,
    {
        i = i - 1;
        r.push(rev[i]);
    }
    proof {
        assert(r@.len() == rev@.len());
        assert(r@[0] == rev@[rev@.len() - 1]);
        assert(r@[r@.len() - 1] == rev@[0]);
        assert forall|k: int| 0 <= k < r@.len() - 1 implies adj4(r@[k], #[trigger] r@[k + 1]) by {
            assert(r@[k] == rev@[n - 1 - k]);
            assert(r@[k + 1] == rev@[n - 1 - (k + 1)]);
            let ri = n - 2 - k;
            assert(adj4(rev@[ri + 1], rev@[ri]));
        }
        assert forall|k: int| 1 <= k < r@.len() implies cell2_ok(#[trigger] r@[k], z) && walk_at(
            walk@,
            r@[k],
        ) by {
            let ri = n - 1 - k;
            assert(r@[k] == rev@[ri]);
            assert(0 <= ri < rev@.len() - 1);
            assert(cell2_ok(rev@[ri], z) && walk_at(walk@, rev@[ri]));
        }
        assert(is_grid_path(walk@, r@, start, end, z));
        assert forall|p: Seq<Location>|
            is_grid_path(walk@, p, start, end, z) implies p.len() >= r@.len() by {
            lemma_path_lower_bound(queue@, head, walk@, z, dist@, p, end);
        }
    }
    r
}


/// Handles the cell under the head: the target ends the search with the
/// reconstructed shortest path; any other cell has its four neighbours
/// visited and releases the head to move on.
#[verifier::rlimit(100)]
#[verifier::spinoff_prover]
fn process_head(
    walk: &Vec<bool>,
    visited: &mut Vec<bool>,
    dist: &mut Vec<u32>,
    parent: &mut Vec<Location>,
    queue: &mut Vec<Location>,
    head: usize,
    start: Location,
    end: Location,
) -> (found: Option<Vec<Location>>)
    requires
        bfs_inv(
            walk@,
            old(visited)@,
            old(dist)@,
            old(parent)@,
            old(queue)@,
            head as int,
            start.z,
        ),
        head < old(queue)@.len(),
        old(queue)@[0] == start,
        cell2_ok(start, start.z),
        cell2_ok(end, start.z),
    ensures
        match found {
            Some(r) => {
                &&& r@.len() > 0
                &&& is_grid_path(walk@, r@, start, end, start.z)
                &&& forall|p: Seq<Location>|
                    is_grid_path(walk@, p, start, end, start.z) ==> p.len() >= r@.len()
            },
            None => {
                &&& old(queue)@[head as int] != end
                &&& bfs_inv(
                    walk@,
                    final(visited)@,
                    final(dist)@,
                    final(parent)@,
                    final(queue)@,
                    head as int + 1,
                    start.z,
                )
                &&& final(queue)@.len() >= old(queue)@.len()
                &&& forall|i: int| 0 <= i < old(queue)@.len() ==> final(queue)@[i] == old(queue)@[i]
            },
        },
{
    let ghost z = start.z;
        let u = queue[head];
        if u.x == end.x && u.y == end.y && u.z == end.z {
            return Some(
                reconstruct(
                    walk,
                    queue,
                    Ghost(head as int),
                    Ghost(visited@),
                    dist,
                    parent,
                    start,
                    end,
                ),
            );
        }
        proof {
            lemma_flat2_bounds(u, z);
        }
        let uflat = flat_index(u);
        let udist = dist[uflat];
        let ghost q0 = queue@;
        // left, right, up and down, in that order
        let mut step: u8 = 0;
        while step < 4
            invariant
                bfs_inv(walk@, visited@, dist@, parent@, queue@, head as int, z),
                0 <= step <= 4,
                head < q0.len(),
                q0[head as int] == u,
                cell2_ok(u, z),
                u.z == z,
                queue@.len() >= q0.len(),
                forall|i: int| 0 <= i < q0.len() ==> queue@[i] == q0[i],
                dist_of(dist@, u) == udist,
                forall|w: Location|
                    (#[trigger] adj4(u, w)) && cell2_ok(w, z) && walk_at(walk@, w)
                        && spec_step_covers(u, w, step as int) ==> in_queue(queue@, w) && dist_of(
                        dist@,
                        w,
                    ) <= udist + 1,
            decreases 4 - step,
        {
            let ghost qs = queue@;
            let ghost ds = dist@;
            let cand: Option<Location> = if step == 0 {
                if u.x > 0 {
                    Some(Location { x: u.x - 1, y: u.y, z: u.z })
                } else {
                    None
                }
            } else if step == 1 {
                if u.x + 1 < MAP_WIDTH {
                    Some(Location { x: u.x + 1, y: u.y, z: u.z })
                } else {
                    None
                }
            } else if step == 2 {
                if u.y > 0 {
                    Some(Location { x: u.x, y: u.y - 1, z: u.z })
                } else {
                    None
                }
            } else {
                if u.y + 1 < MAP_HEIGHT {
                    Some(Location { x: u.x, y: u.y + 1, z: u.z })
                } else {
                    None
                }
            };
            if let Some(w) = cand {
                visit_neighbor(
                    walk,
                    visited,
                    dist,
                    parent,
                    queue,
                    head,
                    u,
                    udist,
                    w,
                );
            }
            proof {
                assert forall|w: Location|
                    (#[trigger] adj4(u, w)) && cell2_ok(w, z) && walk_at(walk@, w)
                        && spec_step_covers(u, w, step as int + 1) implies in_queue(queue@, w)
                    && dist_of(dist@, w) <= udist + 1 by {
                    if spec_step_covers(u, w, step as int) {
                        assert(in_queue(qs, w) && dist_of(ds, w) <= udist + 1);
                    } else {
                        if step == 0 {
                            assert(w.y == u.y && w.x + 1 == u.x);
                        } else if step == 1 {
                            assert(w.y == u.y && w.x == u.x + 1);
                        } else if step == 2 {
                            assert(w.x == u.x && w.y + 1 == u.y);
                        } else {
                            assert(w.x == u.x && w.y == u.y + 1);
                        }
                        assert(cand == Some(w));
                    }
                }
            }
            step = step + 1;
        }
        proof {
            assert forall|w: Location|
                #[trigger] adj4(u, w) && cell2_ok(w, z) && walk_at(walk@, w) implies in_queue(
                queue@,
                w,
            ) && dist_of(dist@, w) <= dist_of(dist@, u) + 1 by {
                lemma_neighbor_cases(u, w, z);
                assert(spec_step_covers(u, w, 4));
            }
            assert(queue@[head as int] == u);
            lemma_advance_head(walk@, visited@, dist@, parent@, queue@, head as int, z);
        }
    None
}



/// `p` walks from `s` to `t` across empty map cells: every cell but the
/// first is in bounds and empty, and each step moves to a 4-neighbour.
pub open spec fn is_map_path(m: MmoMap, p: Seq<Location>, s: Location, t: Location) -> bool {
    &&& p.len() >= 1
    &&& p[0] == s
    &&& p[p.len() - 1] == t
    &&& forall|i: int| 0 <= i < p.len() - 1 ==> adj4(p[i], #[trigger] p[i + 1])
    &&& forall|i: int|
        1 <= i < p.len() ==> cell2_ok(#[trigger] p[i], s.z) && m.spec_at(p[i]) is Empty
}

/// A mask that marks exactly the empty cells of floor `z`.
pub open spec fn mask_matches(mask: Seq<bool>, m: MmoMap, z: u32) -> bool {
    &&& mask.len() == MAP_WIDTH * MAP_HEIGHT
    &&& forall|c: Location| cell2_ok(c, z) ==> (walk_at(mask, c) <==> m.spec_at(c) is Empty)
}

/// Over a mask of exactly the empty cells, grid paths and map paths agree.
proof fn lemma_mask_path_equiv(
    mask: Seq<bool>,
    m: MmoMap,
    p: Seq<Location>,
    s: Location,
    t: Location,
)
    requires
        mask_matches(mask, m, s.z),
    ensures
        is_grid_path(mask, p, s, t, s.z) <==> is_map_path(m, p, s, t),
{
    if is_grid_path(mask, p, s, t, s.z) {
        assert forall|i: int| 1 <= i < p.len() implies cell2_ok(#[trigger] p[i], s.z)
            && m.spec_at(p[i]) is Empty by {
            assert(walk_at(mask, p[i]));
        }
    }
    if is_map_path(m, p, s, t) {
        assert forall|i: int| 1 <= i < p.len() implies cell2_ok(#[trigger] p[i], s.z) && walk_at(
            mask,
            p[i],
        ) by {
            assert(m.spec_at(p[i]) is Empty);
        }
    }
}

impl MmoMap {
    /// The walkability mask of floor `z`: true exactly over empty cells.
    fn empty_mask(&self, zf: u32) -> (mask: Vec<bool>)
        requires
            self.wf(),
            zf < crate::types::Z_LEVELS,
        ensures
            mask_matches(mask@, *self, zf),
    {
        let mut mask: Vec<bool> = Vec::new();
        let mut y: u32 = 0;
        while y < MAP_HEIGHT
            invariant
                self.wf(),
                zf < crate::types::Z_LEVELS,
                0 <= y <= MAP_HEIGHT,
                mask@.len() == y * MAP_WIDTH,
                forall|c: Location|
                    cell2_ok(c, zf) && c.y < y ==> (#[trigger] walk_at(mask@, c) <==> self.spec_at(
                        c,
                    ) is Empty),
            decreases MAP_HEIGHT - y,
        {
            let mut x: u32 = 0;
            while x < MAP_WIDTH
                invariant
                    self.wf(),
                    zf < crate::types::Z_LEVELS,
                    0 <= y < MAP_HEIGHT,
                    0 <= x <= MAP_WIDTH,
                    mask@.len() == y * MAP_WIDTH + x,
                    forall|c: Location|
                        cell2_ok(c, zf) && (c.y < y || (c.y == y && c.x < x)) ==> (#[trigger] walk_at(
                            mask@,
                            c,
                        ) <==> self.spec_at(c) is Empty),
                decreases MAP_WIDTH - x,
            {
                let cell = Location { x, y, z: zf };
                let walkable = match self.get(cell) {
                    MapElement::Empty => true,
                    _ => false,
                };
                let ghost pre_mask = mask@;
                mask.push(walkable);
                proof {
                    assert(flat2(cell) == mask@.len() - 1);
                    assert forall|c: Location|
                        cell2_ok(c, zf) && (c.y < y || (c.y == y && c.x < x + 1)) implies (
                    #[trigger] walk_at(mask@, c) <==> self.spec_at(c) is Empty) by {
                        if c == cell {
                            assert(walk_at(mask@, c) == walkable);
                        } else {
                            lemma_flat2_injective(c, cell, zf);
                            lemma_flat2_bounds(c, zf);
                            assert(flat2(c) < y * MAP_WIDTH + x) by (nonlinear_arith)
                                requires
                                    c.x < MAP_WIDTH && MAP_WIDTH == 30,
                                    c.y < y || (c.y == y && c.x < x),
                                    flat2(c) == c.y * MAP_WIDTH + c.x,
                            {
                            }
                            assert(mask@[flat2(c)] == pre_mask[flat2(c)]);
                            assert(walk_at(pre_mask, c) <==> self.spec_at(c) is Empty);
                        }
                    }
                }
                x = x + 1;
            }
            y = y + 1;
        }
        proof {
            assert(mask@.len() == MAP_HEIGHT * MAP_WIDTH);
        }
        mask
    }

    /// The shortest path from `from` to `to` across empty cells of the
    /// floor they share, both endpoints included; empty when `to` cannot
    /// be reached. Any path through empty cells is at least as long.
    pub fn shortest_path(&self, from: Location, to: Location) -> (r: Vec<Location>)
        requires
            self.wf(),
            loc_in_bounds(from),
            loc_in_bounds(to),
            from.z == to.z,
        ensures
            r@.len() > 0 ==> is_map_path(*self, r@, from, to),
            r@.len() > 0 ==> forall|p: Seq<Location>|
                is_map_path(*self, p, from, to) ==> p.len() >= r@.len(),
            r@.len() == 0 ==> forall|p: Seq<Location>| !is_map_path(*self, p, from, to),
    {
        let mask = self.empty_mask(from.z);
        let r = bfs_grid(&mask, from, to);
        proof {
            if r@.len() > 0 {
                lemma_mask_path_equiv(mask@, *self, r@, from, to);
                assert forall|p: Seq<Location>| is_map_path(*self, p, from, to) implies p.len()
                    >= r@.len() by {
                    lemma_mask_path_equiv(mask@, *self, p, from, to);
                }
            } else {
                assert forall|p: Seq<Location>| !is_map_path(*self, p, from, to) by {
                    lemma_mask_path_equiv(mask@, *self, p, from, to);
                }
            }
        }
        r
    }
}

} // verus!
