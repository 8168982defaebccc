//! Breadth-first search over the 4-connected tile grid.

use vstd::prelude::*;

use crate::dimensions::TilePoint;
use crate::map::{lemma_index_in_grid, GridMap, GridTile};

verus! {

/// Tile (x, y) lies on the map and is empty, so units may walk on it.
pub open spec fn passable(m: &GridMap, x: int, y: int) -> bool {
    m.tile_at(x, y) == Some(GridTile::Empty)
}

pub open spec fn tile_in_map(m: &GridMap, t: TilePoint) -> bool {
    m.in_bounds(t.x as int, t.y as int)
}

pub open spec fn tile_passable(m: &GridMap, t: TilePoint) -> bool {
    passable(m, t.x as int, t.y as int)
}

/// `a` and `b` share an edge: they differ by one in exactly one coordinate.
pub open spec fn adjacent(a: TilePoint, b: TilePoint) -> bool {
    let dx = b.x as int - a.x as int;
    let dy = b.y as int - a.y as int;
    (dx == 0 && (dy == 1 || dy == -1)) || (dy == 0 && (dx == 1 || dx == -1))
}

/// `path` is a walk from `src`: each tile of it is passable and shares an edge
/// with the tile before it (`src` before the first).
pub open spec fn is_walk(m: &GridMap, src: TilePoint, path: Seq<TilePoint>) -> bool {
    forall|i: int|
        0 <= i < path.len() ==> tile_passable(m, #[trigger] path[i]) && adjacent(
            if i == 0 {
                src
            } else {
                path[i - 1]
            },
            path[i],
        )
}

/// The walk `path` from `src` ends at `dest` (an empty walk stays at `src`).
pub open spec fn walk_ends_at(src: TilePoint, path: Seq<TilePoint>, dest: TilePoint) -> bool {
    if path.len() == 0 {
        src == dest
    } else {
        path.last() == dest
    }
}

/// A unit standing on map tile `src` can walk to the empty tile `dest`.
pub open spec fn path_exists(m: &GridMap, src: TilePoint, dest: TilePoint) -> bool {
    &&& tile_in_map(m, src)
    &&& tile_passable(m, dest)
    &&& exists|q: Seq<TilePoint>| #[trigger] is_walk(m, src, q) && walk_ends_at(src, q, dest)
}

/// `path` is a walk from `src` to `dest` and no such walk is shorter.
pub open spec fn is_shortest_path(
    m: &GridMap,
    src: TilePoint,
    dest: TilePoint,
    path: Seq<TilePoint>,
) -> bool {
    &&& is_walk(m, src, path)
    &&& walk_ends_at(src, path, dest)
    &&& forall|q: Seq<TilePoint>|
        #[trigger] is_walk(m, src, q) && walk_ends_at(src, q, dest) ==> path.len() <= q.len()
}

pub open spec fn west(t: TilePoint) -> TilePoint {
    TilePoint { x: (t.x - 1) as u32, y: t.y }
}

pub open spec fn east(t: TilePoint) -> TilePoint {
    TilePoint { x: (t.x + 1) as u32, y: t.y }
}

pub open spec fn north(t: TilePoint) -> TilePoint {
    TilePoint { x: t.x, y: (t.y - 1) as u32 }
}

pub open spec fn south(t: TilePoint) -> TilePoint {
    TilePoint { x: t.x, y: (t.y + 1) as u32 }
}

/// Tile `t` can be reached from `src` in at most `k` steps over passable tiles.
pub open spec fn reach_in(m: &GridMap, src: TilePoint, t: TilePoint, k: nat) -> bool
    decreases k,
{
    if k == 0 {
        t == src
    } else {
        ||| reach_in(m, src, t, (k - 1) as nat)
        ||| tile_passable(m, t) && {
            ||| (t.x > 0 && reach_in(m, src, west(t), (k - 1) as nat))
            ||| reach_in(m, src, east(t), (k - 1) as nat)
            ||| (t.y > 0 && reach_in(m, src, north(t), (k - 1) as nat))
            ||| reach_in(m, src, south(t), (k - 1) as nat)
        }
    }
}

/// `t` is first reached in exactly `k` steps.
pub open spec fn fresh_at(m: &GridMap, src: TilePoint, t: TilePoint, k: nat) -> bool {
    reach_in(m, src, t, k) && (k == 0 || !reach_in(m, src, t, (k - 1) as nat))
}

pub open spec fn count_true(s: Seq<bool>) -> nat
    decreases s.len(),
{
    if s.len() == 0 {
        0
    } else {
        count_true(s.drop_last()) + if s.last() {
            1nat
        } else {
            0nat
        }
    }
}

proof fn lemma_count_true_set(s: Seq<bool>, i: int)
    requires
        0 <= i < s.len(),
        !s[i],
    ensures
        count_true(s.update(i, true)) == count_true(s) + 1,
    decreases s.len(),
{
    if i == s.len() - 1 {
        assert(s.update(i, true).drop_last() =~= s.drop_last());
    } else {
        lemma_count_true_set(s.drop_last(), i);
        assert(s.update(i, true).drop_last() =~= s.drop_last().update(i, true));
    }
}

proof fn lemma_count_true_bound(s: Seq<bool>)
    ensures
        count_true(s) <= s.len(),
    decreases s.len(),
{
    if s.len() > 0 {
        lemma_count_true_bound(s.drop_last());
    }
}

/// A tile reached from a tile of the map is the start or a passable tile.
proof fn lemma_reached_is_start_or_passable(m: &GridMap, src: TilePoint, t: TilePoint, k: nat)
    requires
        reach_in(m, src, t, k),
    ensures
        t == src || tile_passable(m, t),
    decreases k,
{
    if k > 0 && reach_in(m, src, t, (k - 1) as nat) {
        lemma_reached_is_start_or_passable(m, src, t, (k - 1) as nat);
    }
}

/// Reaching in `j` steps implies reaching in any larger number of steps.
proof fn lemma_reach_monotone(m: &GridMap, src: TilePoint, t: TilePoint, j: nat, k: nat)
    requires
        j <= k,
        reach_in(m, src, t, j),
    ensures
        reach_in(m, src, t, k),
    decreases k,
{
    if j < k {
        lemma_reach_monotone(m, src, t, j, (k - 1) as nat);
    }
}

/// The tiles that share an edge with `t` are its four named neighbours.
proof fn lemma_adjacent_cases(p: TilePoint, t: TilePoint)
    requires
        adjacent(p, t),
    ensures
        (t.x > 0 && p == west(t)) || p == east(t) || (t.y > 0 && p == north(t)) || p == south(t),
{
}

/// One more step reaches what a neighbour reached, when the tile is passable.
proof fn lemma_step(m: &GridMap, src: TilePoint, p: TilePoint, t: TilePoint, k: nat)
    requires
        reach_in(m, src, p, k),
        adjacent(p, t),
        tile_passable(m, t),
    ensures
        reach_in(m, src, t, k + 1),
{
    lemma_adjacent_cases(p, t);
}

/// What is reached at step `k + 1` but not before is a passable tile next to a
/// tile first reached at step `k`.
proof fn lemma_new_level(m: &GridMap, src: TilePoint, t: TilePoint, k: nat)
    requires
        reach_in(m, src, t, k + 1),
        !reach_in(m, src, t, k),
    ensures
        tile_passable(m, t),
        exists|p: TilePoint| #[trigger] adjacent(p, t) && fresh_at(m, src, p, k),
{
    let p = if t.x > 0 && reach_in(m, src, west(t), k) {
        west(t)
    } else if reach_in(m, src, east(t), k) {
        east(t)
    } else if t.y > 0 && reach_in(m, src, north(t), k) {
        north(t)
    } else {
        south(t)
    };
    assert(adjacent(p, t));
    if k > 0 && reach_in(m, src, p, (k - 1) as nat) {
        lemma_step(m, src, p, t, (k - 1) as nat);
    }
    assert(fresh_at(m, src, p, k));
}

/// A walk of length `L` reaches its end within `L` steps.
proof fn lemma_walk_reaches(m: &GridMap, src: TilePoint, q: Seq<TilePoint>, t: TilePoint)
    requires
        is_walk(m, src, q),
        walk_ends_at(src, q, t),
    ensures
        reach_in(m, src, t, q.len()),
    decreases q.len(),
{
    if q.len() > 0 {
        let q0 = q.drop_last();
        let prev = if q0.len() == 0 {
            src
        } else {
            q0.last()
        };
        assert(is_walk(m, src, q0)) by {
            assert forall|i: int| 0 <= i < q0.len() implies tile_passable(m, #[trigger] q0[i])
                && adjacent(
                if i == 0 {
                    src
                } else {
                    q0[i - 1]
                },
                q0[i],
            ) by {
                assert(q0[i] == q[i]);
                assert(tile_passable(m, q[i]));
            }
        }
        lemma_walk_reaches(m, src, q0, prev);
        assert(tile_passable(m, q[q.len() - 1]));
        lemma_step(m, src, prev, t, q0.len());
    }
}

/// When no tile is first reached at step `k`, nothing new is ever reached.
proof fn lemma_closed(m: &GridMap, src: TilePoint, t: TilePoint, k: nat, j: nat)
    requires
        k >= 1,
        forall|u: TilePoint| #[trigger] reach_in(m, src, u, k) ==> reach_in(m, src, u, (k - 1) as nat),
        reach_in(m, src, t, j),
    ensures
        reach_in(m, src, t, (k - 1) as nat),
    decreases j,
{
    if j >= k {
        if reach_in(m, src, t, (j - 1) as nat) {
            lemma_closed(m, src, t, k, (j - 1) as nat);
        } else {
            lemma_new_level(m, src, t, (j - 1) as nat);
            let p = choose|p: TilePoint| #[trigger] adjacent(p, t) && fresh_at(m, src, p, (j - 1) as nat);
            lemma_closed(m, src, p, k, (j - 1) as nat);
            lemma_step(m, src, p, t, (k - 1) as nat);
            assert(reach_in(m, src, t, k));
        }
    } else {
        lemma_reach_monotone(m, src, t, j, (k - 1) as nat);
    }
}

/// Position of tile `t` in the grid of `m`.
fn tile_index(m: &GridMap, t: TilePoint) -> (i: usize)
    requires
        m.wf(),
        tile_in_map(m, t),
    ensures
        i as int == m.index_of(t.x as int, t.y as int),
        i < m.grid_tiles@.len(),
{
    proof {
        lemma_index_in_grid(m.width as int, m.height as int, t.x as int, t.y as int);
        assert(m.grid_tiles@.len() == m.grid_tiles.len());
    }
    (t.y as usize) * (m.width as usize) + (t.x as usize)
}

/// Two tiles of the map are stored at the same place only if they are the same tile.
proof fn lemma_index_injective(m: &GridMap, a: TilePoint, b: TilePoint)
    requires
        tile_in_map(m, a),
        tile_in_map(m, b),
        m.index_of(a.x as int, a.y as int) == m.index_of(b.x as int, b.y as int),
    ensures
        a == b,
{
    let w = m.width as int;
    vstd::arithmetic::div_mod::lemma_fundamental_div_mod_converse(
        m.index_of(a.x as int, a.y as int),
        w,
        a.y as int,
        a.x as int,
    );
    vstd::arithmetic::div_mod::lemma_fundamental_div_mod_converse(
        m.index_of(b.x as int, b.y as int),
        w,
        b.y as int,
        b.x as int,
    );
}

/// The search state: which tiles were reached, from where, and at what cost.
pub open spec fn search_ok(
    m: &GridMap,
    src: TilePoint,
    visited: Seq<bool>,
    parent: Seq<TilePoint>,
    cost: Seq<usize>,
    k: nat,
) -> bool {
    &&& visited.len() == m.grid_tiles@.len()
    &&& parent.len() == m.grid_tiles@.len()
    &&& cost.len() == m.grid_tiles@.len()
    &&& forall|t: TilePoint|
        tile_in_map(m, t) && #[trigger] visited[m.index_of(t.x as int, t.y as int)] ==> {
            let i = m.index_of(t.x as int, t.y as int);
            let p = parent[i];
            &&& cost[i] <= k
            &&& fresh_at(m, src, t, cost[i] as nat)
            &&& (t != src ==> {
                &&& tile_in_map(m, p)
                &&& visited[m.index_of(p.x as int, p.y as int)]
                &&& adjacent(p, t)
                &&& tile_passable(m, t)
                &&& cost[m.index_of(p.x as int, p.y as int)] + 1 == cost[i]
            })
        }
}

/// Being first reached happens at one step count only.
proof fn lemma_fresh_unique(m: &GridMap, src: TilePoint, t: TilePoint, a: nat, b: nat)
    requires
        fresh_at(m, src, t, a),
        fresh_at(m, src, t, b),
    ensures
        a == b,
{
    if a < b {
        lemma_reach_monotone(m, src, t, a, (b - 1) as nat);
    } else if b < a {
        lemma_reach_monotone(m, src, t, b, (a - 1) as nat);
    }
}

proof fn lemma_count_true_none(s: Seq<bool>)
    requires
        forall|i: int| 0 <= i < s.len() ==> !s[i],
    ensures
        count_true(s) == 0,
    decreases s.len(),
{
    if s.len() > 0 {
        lemma_count_true_none(s.drop_last());
    }
}

/// The search tables: which tiles were reached, from where, at what cost, and
/// the list of tiles most recently reached.
pub type SearchTables = (Seq<bool>, Seq<TilePoint>, Seq<usize>, Seq<TilePoint>);

/// The tables after `to`, a neighbour of `from`, is looked at: when it is
/// passable and not yet reached, it is reached from `from` at cost `level` and
/// joins the list.
pub open spec fn visit_step(m: &GridMap, st: SearchTables, from: TilePoint, to: TilePoint, level: int) -> SearchTables {
    let i = m.index_of(to.x as int, to.y as int);
    if tile_passable(m, to) && !st.0[i] {
        (st.0.update(i, true), st.1.update(i, from), st.2.update(i, level as usize), st.3.push(to))
    } else {
        st
    }
}

/// The tables after the first `d` neighbours of `f` (west, north, east, south)
/// are looked at.
pub open spec fn expand_dirs(m: &GridMap, st: SearchTables, f: TilePoint, level: int, d: nat) -> SearchTables
    decreases d,
{
    if d == 0 {
        st
    } else {
        let before = expand_dirs(m, st, f, level, (d - 1) as nat);
        match neighbor_at(m, f, d - 1) {
            Some(t) => visit_step(m, before, f, t, level),
            None => before,
        }
    }
}

/// The tables after the first `j` tiles of `frontier`, reached at step `level`,
/// are expanded.
pub open spec fn expand_prefix(
    m: &GridMap,
    st: SearchTables,
    frontier: Seq<TilePoint>,
    j: nat,
    level: int,
) -> SearchTables
    decreases j,
{
    if j == 0 {
        st
    } else {
        expand_dirs(m, expand_prefix(m, st, frontier, (j - 1) as nat, level), frontier[j - 1], level + 1, 4)
    }
}

/// The search before its first step: only `src` is reached, at cost 0.
pub open spec fn search_start(m: &GridMap, src: TilePoint) -> SearchTables {
    let n = m.grid_tiles@.len();
    let si = m.index_of(src.x as int, src.y as int);
    (Seq::new(n, |i: int| i == si), Seq::new(n, |i: int| src), Seq::new(n, |i: int| 0usize), seq![src])
}

/// One step of the search from the tables `s` of step `level`: every tile of
/// the list is expanded in order, and the tiles reached make the next list. A
/// search whose list is empty, or which has reached `dest`, has stopped.
pub open spec fn search_step(m: &GridMap, di: int, s: SearchTables, level: int) -> SearchTables {
    if s.3.len() == 0 || s.0[di] {
        s
    } else {
        expand_prefix(m, (s.0, s.1, s.2, Seq::empty()), s.3, s.3.len(), level)
    }
}

/// The search tables after `k` steps from `src` toward the tile stored at `di`.
pub open spec fn search_after(m: &GridMap, src: TilePoint, di: int, k: nat) -> SearchTables
    decreases k,
{
    if k == 0 {
        search_start(m, src)
    } else {
        search_step(m, di, search_after(m, src, di, (k - 1) as nat), k - 1)
    }
}

/// The tiles from `src` to `cur`, after `src`, found by following `parent` back
/// at most `fuel` times.
pub open spec fn trace_path(m: &GridMap, src: TilePoint, parent: Seq<TilePoint>, cur: TilePoint, fuel: nat) -> Seq<TilePoint>
    decreases fuel,
{
    if fuel == 0 || cur == src {
        Seq::empty()
    } else {
        trace_path(m, src, parent, parent[m.index_of(cur.x as int, cur.y as int)], (fuel - 1) as nat).push(cur)
    }
}

/// The path that the breadth-first search finds: neighbours are expanded west,
/// north, east, south, level by level, until `dest` is reached or nothing new
/// is; the path then follows the recorded parents back from `dest`.
pub open spec fn bfs_path(m: &GridMap, src: TilePoint, dest: TilePoint) -> Option<Seq<TilePoint>> {
    let di = m.index_of(dest.x as int, dest.y as int);
    let s = search_after(m, src, di, m.grid_tiles@.len());
    if !tile_in_map(m, src) || !tile_in_map(m, dest) || !tile_passable(m, dest) || !s.0[di] {
        None
    } else {
        Some(trace_path(m, src, s.1, dest, s.2[di] as nat))
    }
}

/// A search that has stopped stays as it is.
proof fn lemma_search_settles(m: &GridMap, src: TilePoint, di: int, a: nat, b: nat)
    requires
        a <= b,
        search_after(m, src, di, a).3.len() == 0 || search_after(m, src, di, a).0[di],
    ensures
        search_after(m, src, di, b) == search_after(m, src, di, a),
    decreases b,
{
    if a < b {
        lemma_search_settles(m, src, di, a, (b - 1) as nat);
    }
}

/// Marks `to`, a neighbour of `from`, as reached at cost `level` when it is
/// passable and was not reached before, and adds it to `next`.
fn visit(
    m: &GridMap,
    Ghost(src): Ghost<TilePoint>,
    visited: &mut Vec<bool>,
    parent: &mut Vec<TilePoint>,
    cost: &mut Vec<usize>,
    next: &mut Vec<TilePoint>,
    from: TilePoint,
    to: TilePoint,
    level: usize,
)
    requires
        m.wf(),
        tile_in_map(m, from),
        tile_in_map(m, to),
        adjacent(from, to),
        level >= 1,
        search_ok(m, src, old(visited)@, old(parent)@, old(cost)@, level as nat),
        old(visited)@[m.index_of(from.x as int, from.y as int)],
        old(cost)@[m.index_of(from.x as int, from.y as int)] + 1 == level,
        forall|t: TilePoint|
            tile_in_map(m, t) && reach_in(m, src, t, (level - 1) as nat) ==> #[trigger] old(visited)@[m.index_of(t.x as int, t.y as int)],
    ensures
        search_ok(m, src, final(visited)@, final(parent)@, final(cost)@, level as nat),
        (final(visited)@, final(parent)@, final(cost)@, final(next)@) == visit_step(
            m,
            (old(visited)@, old(parent)@, old(cost)@, old(next)@),
            from,
            to,
            level as int,
        ),
        forall|t: TilePoint|
            tile_in_map(m, t) && reach_in(m, src, t, (level - 1) as nat) ==> #[trigger] final(visited)@[m.index_of(t.x as int, t.y as int)],
        final(visited)@[m.index_of(to.x as int, to.y as int)] == (old(visited)@[m.index_of(
            to.x as int,
            to.y as int,
        )] || tile_passable(m, to)),
        forall|i: int|
            0 <= i < old(visited)@.len() && old(visited)@[i] ==> final(visited)@[i] && final(cost)@[i] == old(cost)@[i],
        forall|i: int|
            0 <= i < old(visited)@.len() && i != m.index_of(to.x as int, to.y as int) ==> final(visited)@[i] == old(visited)@[i],
        ({
            let i = m.index_of(to.x as int, to.y as int);
            if tile_passable(m, to) && !old(visited)@[i] {
                &&& final(next)@ == old(next)@.push(to)
                &&& fresh_at(m, src, to, level as nat)
                &&& count_true(final(visited)@) == count_true(old(visited)@) + 1
            } else {
                &&& final(next)@ == old(next)@
                &&& count_true(final(visited)@) == count_true(old(visited)@)
            }
        }),
{
    let i = tile_index(m, to);
    let ghost fi = m.index_of(from.x as int, from.y as int);
    let ghost vv = visited@;
    proof {
        lemma_index_in_grid(m.width as int, m.height as int, from.x as int, from.y as int);
        assert(reach_in(m, src, to, (level - 1) as nat) ==> vv[i as int]);
    }
    if m.grid_tiles[i] == GridTile::Empty && !visited[i] {
        let ghost v0 = visited@;
        let ghost p0 = parent@;
        let ghost c0 = cost@;
        proof {
            lemma_count_true_set(visited@, i as int);
            assert(fresh_at(m, src, from, c0[fi] as nat));
            lemma_step(m, src, from, to, (level - 1) as nat);
        }
        visited.set(i, true);
        parent.set(i, from);
        cost.set(i, level);
        next.push(to);
        assert forall|t: TilePoint|
            tile_in_map(m, t) && #[trigger] visited@[m.index_of(t.x as int, t.y as int)] implies {
            let k = m.index_of(t.x as int, t.y as int);
            let p = parent@[k];
            &&& cost@[k] <= level
            &&& fresh_at(m, src, t, cost@[k] as nat)
            &&& (t != src ==> {
                &&& tile_in_map(m, p)
                &&& visited@[m.index_of(p.x as int, p.y as int)]
                &&& adjacent(p, t)
                &&& tile_passable(m, t)
                &&& cost@[m.index_of(p.x as int, p.y as int)] + 1 == cost@[k]
            })
        } by {
            let k = m.index_of(t.x as int, t.y as int);
            lemma_index_in_grid(m.width as int, m.height as int, t.x as int, t.y as int);
            if k == i {
                lemma_index_injective(m, t, to);
            } else {
                assert(v0[k]);
                let p = p0[k];
                if t != src {
                    lemma_index_in_grid(m.width as int, m.height as int, p.x as int, p.y as int);
                }
            }
        }
    }
    assert forall|t: TilePoint|
        tile_in_map(m, t) && reach_in(m, src, t, (level - 1) as nat) implies #[trigger] visited@[m.index_of(
            t.x as int,
            t.y as int,
        )] by {
        lemma_index_in_grid(m.width as int, m.height as int, t.x as int, t.y as int);
        assert(vv[m.index_of(t.x as int, t.y as int)]);
    }
}

/// Neighbour number `d` of `f` on the map, in the order west, north, east, south.
pub open spec fn neighbor_at(m: &GridMap, f: TilePoint, d: int) -> Option<TilePoint> {
    if d == 0 {
        if f.x > 0 {
            Some(west(f))
        } else {
            None
        }
    } else if d == 1 {
        if f.y > 0 {
            Some(north(f))
        } else {
            None
        }
    } else if d == 2 {
        if f.x + 1 < m.width {
            Some(east(f))
        } else {
            None
        }
    } else {
        if f.y + 1 < m.height {
            Some(south(f))
        } else {
            None
        }
    }
}

fn neighbor(m: &GridMap, f: TilePoint, d: usize) -> (r: Option<TilePoint>)
    requires
        m.wf(),
        tile_in_map(m, f),
        d < 4,
    ensures
        r == neighbor_at(m, f, d as int),
        r matches Some(t) ==> tile_in_map(m, t) && adjacent(f, t),
{
    if d == 0 {
        if f.x > 0 {
            Some(TilePoint { x: f.x - 1, y: f.y })
        } else {
            None
        }
    } else if d == 1 {
        if f.y > 0 {
            Some(TilePoint { x: f.x, y: f.y - 1 })
        } else {
            None
        }
    } else if d == 2 {
        if f.x + 1 < m.width {
            Some(TilePoint { x: f.x + 1, y: f.y })
        } else {
            None
        }
    } else {
        if f.y + 1 < m.height {
            Some(TilePoint { x: f.x, y: f.y + 1 })
        } else {
            None
        }
    }
}

/// Neighbour number `d` of `f`, when it exists and is passable, is marked in `visited`.
pub open spec fn neighbor_marked(m: &GridMap, visited: Seq<bool>, f: TilePoint, d: int) -> bool {
    match neighbor_at(m, f, d) {
        Some(t) => tile_passable(m, t) ==> visited[m.index_of(t.x as int, t.y as int)],
        None => true,
    }
}

/// A passable tile next to `f` is one of its four numbered neighbours.
proof fn lemma_neighbor_listed(m: &GridMap, f: TilePoint, t: TilePoint)
    requires
        tile_passable(m, t),
        adjacent(f, t),
    ensures
        exists|d: int| 0 <= d < 4 && #[trigger] neighbor_at(m, f, d) == Some(t),
{
    lemma_adjacent_cases(t, f);
    if f.x > 0 && t == west(f) {
        assert(neighbor_at(m, f, 0) == Some(t));
    } else if f.y > 0 && t == north(f) {
        assert(neighbor_at(m, f, 1) == Some(t));
    } else if t == east(f) {
        assert(neighbor_at(m, f, 2) == Some(t));
    } else {
        assert(neighbor_at(m, f, 3) == Some(t));
    }
}

/// Visits the neighbours of `f`, a tile first reached at step `level`, in the
/// order west, north, east, south.
fn expand_tile(
    m: &GridMap,
    Ghost(src): Ghost<TilePoint>,
    visited: &mut Vec<bool>,
    parent: &mut Vec<TilePoint>,
    cost: &mut Vec<usize>,
    next: &mut Vec<TilePoint>,
    f: TilePoint,
    level: usize,
)
    requires
        m.wf(),
        level < usize::MAX,
        tile_in_map(m, f),
        fresh_at(m, src, f, level as nat),
        search_ok(m, src, old(visited)@, old(parent)@, old(cost)@, (level + 1) as nat),
        forall|t: TilePoint|
            tile_in_map(m, t) && reach_in(m, src, t, level as nat) ==> #[trigger] old(visited)@[m.index_of(
                t.x as int,
                t.y as int,
            )],
    ensures
        search_ok(m, src, final(visited)@, final(parent)@, final(cost)@, (level + 1) as nat),
        forall|i: int| 0 <= i < old(visited)@.len() && old(visited)@[i] ==> final(visited)@[i],
        forall|t: TilePoint|
            tile_passable(m, t) && #[trigger] adjacent(f, t) ==> final(visited)@[m.index_of(
                t.x as int,
                t.y as int,
            )],
        old(next)@.len() <= final(next)@.len(),
        final(next)@.subrange(0, old(next)@.len() as int) == old(next)@,
        forall|jj: int|
            old(next)@.len() <= jj < final(next)@.len() ==> tile_in_map(m, #[trigger] final(next)@[jj])
                && fresh_at(m, src, final(next)@[jj], (level + 1) as nat),
        forall|t: TilePoint|
            tile_in_map(m, t) && #[trigger] final(visited)@[m.index_of(t.x as int, t.y as int)]
                && !old(visited)@[m.index_of(t.x as int, t.y as int)] ==> final(next)@.contains(t),
        count_true(final(visited)@) == count_true(old(visited)@) + final(next)@.len() - old(next)@.len(),
        (final(visited)@, final(parent)@, final(cost)@, final(next)@) == expand_dirs(
            m,
            (old(visited)@, old(parent)@, old(cost)@, old(next)@),
            f,
            level + 1,
            4,
        ),
{
    let ghost v0 = visited@;
    let ghost n0 = next@;
    let ghost st0 = (visited@, parent@, cost@, next@);
    let ghost c0 = count_true(visited@);
    proof {
        lemma_index_in_grid(m.width as int, m.height as int, f.x as int, f.y as int);
        assert(reach_in(m, src, f, level as nat));
        assert(visited@[m.index_of(f.x as int, f.y as int)]);
        let cf = cost@[m.index_of(f.x as int, f.y as int)] as nat;
        lemma_fresh_unique(m, src, f, cf, level as nat);
        assert(next@.subrange(0, n0.len() as int) =~= n0);
    }
    let mut d: usize = 0;
    while d < 4
        invariant
            m.wf(),
            level < usize::MAX,
            tile_in_map(m, f),
            d <= 4,
            (visited@, parent@, cost@, next@) == expand_dirs(m, st0, f, level + 1, d as nat),
            v0.len() == visited@.len(),
            visited@[m.index_of(f.x as int, f.y as int)],
            cost@[m.index_of(f.x as int, f.y as int)] == level,
            search_ok(m, src, visited@, parent@, cost@, (level + 1) as nat),
            forall|i: int| 0 <= i < v0.len() && v0[i] ==> visited@[i],
            forall|t: TilePoint|
                tile_in_map(m, t) && reach_in(m, src, t, level as nat) ==> #[trigger] visited@[m.index_of(
                    t.x as int,
                    t.y as int,
                )],
            forall|dd: int| 0 <= dd < d ==> #[trigger] neighbor_marked(m, visited@, f, dd),
            n0.len() <= next@.len(),
            next@.subrange(0, n0.len() as int) == n0,
            forall|jj: int|
                n0.len() <= jj < next@.len() ==> tile_in_map(m, #[trigger] next@[jj]) && fresh_at(
                    m,
                    src,
                    next@[jj],
                    (level + 1) as nat,
                ),
            forall|t: TilePoint|
                tile_in_map(m, t) && #[trigger] visited@[m.index_of(t.x as int, t.y as int)]
                    && !v0[m.index_of(t.x as int, t.y as int)] ==> next@.contains(t),
            count_true(visited@) == c0 + next@.len() - n0.len(),
        decreases 4 - d,
    {
        let nb = neighbor(m, f, d);
        match nb {
            Some(to) => {
                let ghost v1 = visited@;
                let ghost n1 = next@;
                let ghost c1 = cost@;
                visit(m, Ghost(src), visited, parent, cost, next, f, to, level + 1);
                proof {
                    let ti = m.index_of(to.x as int, to.y as int);
                    lemma_index_in_grid(m.width as int, m.height as int, to.x as int, to.y as int);
                    assert(next@.subrange(0, n0.len() as int) =~= n0) by {
                        assert(n1.subrange(0, n0.len() as int) == n0);
                    }
                    assert forall|jj: int|
                        n0.len() <= jj < next@.len() implies tile_in_map(m, #[trigger] next@[jj])
                        && fresh_at(m, src, next@[jj], (level + 1) as nat) by {
                        if jj < n1.len() {
                            assert(next@[jj] == n1[jj]);
                        }
                    }
                    assert forall|t: TilePoint|
                        tile_in_map(m, t) && #[trigger] visited@[m.index_of(t.x as int, t.y as int)]
                            && !v0[m.index_of(t.x as int, t.y as int)] implies next@.contains(t) by {
                        lemma_index_in_grid(m.width as int, m.height as int, t.x as int, t.y as int);
                        let k = m.index_of(t.x as int, t.y as int);
                        if k == ti {
                            lemma_index_injective(m, t, to);
                            if v1[k] {
                                let w = choose|w: int| 0 <= w < n1.len() && n1[w] == t;
                                assert(next@[w] == n1[w]);
                            } else {
                                assert(next@[next@.len() - 1] == to);
                            }
                        } else {
                            assert(v1[k]);
                            let w = choose|w: int| 0 <= w < n1.len() && n1[w] == t;
                            assert(next@[w] == n1[w]);
                        }
                    }
                    assert forall|dd: int| 0 <= dd < d + 1 implies #[trigger] neighbor_marked(
                        m,
                        visited@,
                        f,
                        dd,
                    ) by {
                        if dd < d {
                            assert(neighbor_marked(m, v1, f, dd));
                            if let Some(t) = neighbor_at(m, f, dd) {
                                lemma_index_in_grid(m.width as int, m.height as int, t.x as int, t.y as int);
                            }
                        }
                    }
                    assert forall|i: int| 0 <= i < v0.len() && v0[i] implies visited@[i] by {
                        assert(v1[i]);
                    }
                    lemma_index_in_grid(m.width as int, m.height as int, f.x as int, f.y as int);
                    assert(v1[m.index_of(f.x as int, f.y as int)]);
                }
            },
            None => {},
        }
        d = d + 1;
    }
    proof {
        assert forall|t: TilePoint| tile_passable(m, t) && #[trigger] adjacent(f, t) implies visited@[m.index_of(
            t.x as int,
            t.y as int,
        )] by {
            lemma_neighbor_listed(m, f, t);
            let dd = choose|dd: int| 0 <= dd < 4 && #[trigger] neighbor_at(m, f, dd) == Some(t);
            assert(neighbor_marked(m, visited@, f, dd));
        }
    }
}

/// The walk to the reached tile `dest` that the search recorded, found by
/// following parents back to `src`.
fn trace_back(
    m: &GridMap,
    src: TilePoint,
    visited: &Vec<bool>,
    parent: &Vec<TilePoint>,
    cost: &Vec<usize>,
    dest: TilePoint,
    Ghost(level): Ghost<nat>,
) -> (path: Vec<TilePoint>)
    requires
        m.wf(),
        tile_in_map(m, src),
        tile_in_map(m, dest),
        search_ok(m, src, visited@, parent@, cost@, level),
        visited@[m.index_of(dest.x as int, dest.y as int)],
        cost@[m.index_of(src.x as int, src.y as int)] == 0,
    ensures
        is_walk(m, src, path@),
        walk_ends_at(src, path@, dest),
        path@.len() == cost@[m.index_of(dest.x as int, dest.y as int)],
        path@ == trace_path(m, src, parent@, dest, cost@[m.index_of(dest.x as int, dest.y as int)] as nat),
{
    let ghost cd = cost@[m.index_of(dest.x as int, dest.y as int)];
    let mut back: Vec<TilePoint> = Vec::new();
    let mut cur = dest;
    while cur != src
        invariant
            m.wf(),
            tile_in_map(m, src),
            search_ok(m, src, visited@, parent@, cost@, level),
            cd == cost@[m.index_of(dest.x as int, dest.y as int)],
            tile_in_map(m, cur),
            visited@[m.index_of(cur.x as int, cur.y as int)],
            back@.len() + cost@[m.index_of(cur.x as int, cur.y as int)] == cd,
            back@.len() == 0 ==> cur == dest,
            trace_path(m, src, parent@, dest, cd as nat) == trace_path(
                m,
                src,
                parent@,
                cur,
                cost@[m.index_of(cur.x as int, cur.y as int)] as nat,
            ) + Seq::new(back@.len(), |i: int| back@[back@.len() - 1 - i]),
            back@.len() > 0 ==> back@[0] == dest,
            forall|i: int|
                0 <= i < back@.len() ==> tile_passable(m, #[trigger] back@[i]) && adjacent(
                    if i + 1 < back@.len() {
                        back@[i + 1]
                    } else {
                        cur
                    },
                    back@[i],
                ),
        decreases cost@[m.index_of(cur.x as int, cur.y as int)],
    {
        let ci = tile_index(m, cur);
        let ghost b0 = back@;
        let ghost c0 = cur;
        back.push(cur);
        cur = parent[ci];
        proof {
            let cc = cost@[ci as int] as nat;
            let tp = trace_path(m, src, parent@, cur, (cc - 1) as nat);
            assert(trace_path(m, src, parent@, c0, cc) == tp.push(c0));
            assert(tp.push(c0) + Seq::new(b0.len(), |i: int| b0[b0.len() - 1 - i]) =~= tp + Seq::new(
                back@.len(),
                |i: int| back@[back@.len() - 1 - i],
            ));
        }
        assert forall|i: int|
            0 <= i < back@.len() implies tile_passable(m, #[trigger] back@[i]) && adjacent(
                if i + 1 < back@.len() {
                    back@[i + 1]
                } else {
                    cur
                },
                back@[i],
            ) by {
            if i < b0.len() {
                assert(back@[i] == b0[i]);
            }
        }
    }
    let mut path: Vec<TilePoint> = Vec::new();
    let mut k: usize = back.len();
    while k > 0
        invariant
            k <= back@.len(),
            path@.len() + k == back@.len(),
            forall|j: int| 0 <= j < path@.len() ==> #[trigger] path@[j] == back@[back@.len() - 1 - j],
        decreases k,
    {
        k = k - 1;
        path.push(back[k]);
    }
    assert(path@ =~= Seq::new(back@.len(), |i: int| back@[back@.len() - 1 - i]));
    assert forall|j: int| 0 <= j < path@.len() implies tile_passable(m, #[trigger] path@[j])
        && adjacent(
        if j == 0 {
            src
        } else {
            path@[j - 1]
        },
        path@[j],
    ) by {
        let b = back@.len() - 1 - j;
        assert(tile_passable(m, back@[b]));
    }
    path
}

/// The search state before the first step: only `src` is reached, at cost 0.
fn start_search(m: &GridMap, src: TilePoint) -> (r: (Vec<bool>, Vec<TilePoint>, Vec<usize>))
    requires
        m.wf(),
        tile_in_map(m, src),
    ensures
        search_ok(m, src, r.0@, r.1@, r.2@, 0),
        forall|t: TilePoint|
            tile_in_map(m, t) ==> (#[trigger] r.0@[m.index_of(t.x as int, t.y as int)] <==> reach_in(
                m,
                src,
                t,
                0,
            )),
        count_true(r.0@) == 1,
        (r.0@, r.1@, r.2@, seq![src]) == search_start(m, src),
{
    let si = tile_index(m, src);
    let n = m.grid_tiles.len();
    let mut visited: Vec<bool> = Vec::new();
    let mut parent: Vec<TilePoint> = Vec::new();
    let mut cost: Vec<usize> = Vec::new();
    let mut i: usize = 0;
    while i < n
        invariant
            i <= n,
            n == m.grid_tiles@.len(),
            visited@.len() == i,
            parent@.len() == i,
            cost@.len() == i,
            forall|j: int| 0 <= j < i ==> !visited@[j] && cost@[j] == 0 && parent@[j] == src,
        decreases n - i,
    {
        visited.push(false);
        parent.push(src);
        cost.push(0);
        i = i + 1;
    }
    let ghost v_init = visited@;
    proof {
        lemma_count_true_none(visited@);
        lemma_count_true_set(visited@, si as int);
    }
    visited.set(si, true);
    proof {
        assert forall|t: TilePoint| tile_in_map(m, t) implies (#[trigger] visited@[m.index_of(
            t.x as int,
            t.y as int,
        )] <==> reach_in(m, src, t, 0)) by {
            lemma_index_in_grid(m.width as int, m.height as int, t.x as int, t.y as int);
            if visited@[m.index_of(t.x as int, t.y as int)] {
                lemma_index_injective(m, t, src);
            }
        }
    }
    proof {
        assert forall|t: TilePoint|
            tile_in_map(m, t) && #[trigger] visited@[m.index_of(t.x as int, t.y as int)] implies {
            let k = m.index_of(t.x as int, t.y as int);
            &&& cost@[k] <= 0
            &&& fresh_at(m, src, t, cost@[k] as nat)
            &&& t == src
        } by {
            lemma_index_in_grid(m.width as int, m.height as int, t.x as int, t.y as int);
            let k = m.index_of(t.x as int, t.y as int);
            if k != si {
                assert(!v_init[k]);
            }
            lemma_index_injective(m, t, src);
        }
        assert(search_ok(m, src, visited@, parent@, cost@, 0));
    }
    proof {
        let st = search_start(m, src);
        assert(visited@ =~= st.0);
        assert(parent@ =~= st.1);
        assert(cost@ =~= st.2);
    }
    (visited, parent, cost)
}

/// Expands every tile of `frontier`, the tiles first reached at step `level`,
/// and returns the tiles first reached at step `level + 1`.
fn expand_level(
    m: &GridMap,
    Ghost(src): Ghost<TilePoint>,
    visited: &mut Vec<bool>,
    parent: &mut Vec<TilePoint>,
    cost: &mut Vec<usize>,
    frontier: &Vec<TilePoint>,
    level: usize,
) -> (next: Vec<TilePoint>)
    requires
        m.wf(),
        tile_in_map(m, src),
        search_ok(m, src, old(visited)@, old(parent)@, old(cost)@, level as nat),
        forall|t: TilePoint|
            tile_in_map(m, t) ==> (#[trigger] old(visited)@[m.index_of(t.x as int, t.y as int)]
                <==> reach_in(m, src, t, level as nat)),
        forall|j: int|
            0 <= j < frontier@.len() ==> tile_in_map(m, #[trigger] frontier@[j]) && fresh_at(
                m,
                src,
                frontier@[j],
                level as nat,
            ),
        forall|t: TilePoint|
            tile_in_map(m, t) && #[trigger] fresh_at(m, src, t, level as nat) ==> frontier@.contains(t),
        level < count_true(old(visited)@),
        count_true(old(visited)@) <= m.grid_tiles@.len(),
    ensures
        search_ok(m, src, final(visited)@, final(parent)@, final(cost)@, (level + 1) as nat),
        forall|t: TilePoint|
            tile_in_map(m, t) ==> (#[trigger] final(visited)@[m.index_of(t.x as int, t.y as int)]
                <==> reach_in(m, src, t, (level + 1) as nat)),
        forall|j: int|
            0 <= j < next@.len() ==> tile_in_map(m, #[trigger] next@[j]) && fresh_at(
                m,
                src,
                next@[j],
                (level + 1) as nat,
            ),
        forall|t: TilePoint|
            tile_in_map(m, t) && #[trigger] fresh_at(m, src, t, (level + 1) as nat)
                ==> next@.contains(t),
        count_true(final(visited)@) == count_true(old(visited)@) + next@.len(),
        count_true(final(visited)@) <= m.grid_tiles@.len(),
        (final(visited)@, final(parent)@, final(cost)@, next@) == expand_prefix(
            m,
            (old(visited)@, old(parent)@, old(cost)@, Seq::empty()),
            frontier@,
            frontier@.len(),
            level as int,
        ),
{
    let ghost n = m.grid_tiles@.len();
    assert(m.grid_tiles@.len() == m.grid_tiles.len());
    let ghost count0 = count_true(visited@);
    let ghost st0: SearchTables = (visited@, parent@, cost@, Seq::empty());
    let mut next: Vec<TilePoint> = Vec::new();
    let mut j: usize = 0;
    while j < frontier.len()
        invariant
            m.wf(),
            tile_in_map(m, src),
            n == m.grid_tiles@.len(),
            n <= usize::MAX,
            level < count0,
            count0 <= n,
            (visited@, parent@, cost@, next@) == expand_prefix(m, st0, frontier@, j as nat, level as int),
            search_ok(m, src, visited@, parent@, cost@, (level + 1) as nat),
            j <= frontier@.len(),
            forall|jj: int|
                0 <= jj < frontier@.len() ==> tile_in_map(m, #[trigger] frontier@[jj])
                    && fresh_at(m, src, frontier@[jj], level as nat),
            forall|t: TilePoint|
                tile_in_map(m, t) && reach_in(m, src, t, level as nat) ==> #[trigger] visited@[m.index_of(
                    t.x as int,
                    t.y as int,
                )],
            forall|t: TilePoint, jj: int|
                0 <= jj < j && tile_passable(m, t) && #[trigger] adjacent(frontier@[jj], t)
                    ==> visited@[m.index_of(t.x as int, t.y as int)],
            forall|jj: int|
                0 <= jj < next@.len() ==> tile_in_map(m, #[trigger] next@[jj]) && fresh_at(
                    m,
                    src,
                    next@[jj],
                    (level + 1) as nat,
                ),
            forall|t: TilePoint|
                tile_in_map(m, t) && #[trigger] visited@[m.index_of(t.x as int, t.y as int)]
                    && !reach_in(m, src, t, level as nat) ==> next@.contains(t),
            count_true(visited@) == count0 + next@.len(),
        decreases frontier@.len() - j,
    {
        let f = frontier[j];
        let ghost nx0 = next@;
        let ghost vx0 = visited@;
        expand_tile(m, Ghost(src), visited, parent, cost, &mut next, f, level);
        proof {
            lemma_count_true_bound(visited@);
            assert forall|jj: int| 0 <= jj < next@.len() implies tile_in_map(m, #[trigger] next@[jj])
                && fresh_at(m, src, next@[jj], (level + 1) as nat) by {
                if jj < nx0.len() {
                    assert(next@[jj] == next@.subrange(0, nx0.len() as int)[jj]);
                }
            }
            assert forall|t: TilePoint|
                tile_in_map(m, t) && #[trigger] visited@[m.index_of(t.x as int, t.y as int)]
                    && !reach_in(m, src, t, level as nat) implies next@.contains(t) by {
                lemma_index_in_grid(m.width as int, m.height as int, t.x as int, t.y as int);
                if vx0[m.index_of(t.x as int, t.y as int)] {
                    let w = choose|w: int| 0 <= w < nx0.len() && nx0[w] == t;
                    assert(next@[w] == next@.subrange(0, nx0.len() as int)[w]);
                }
            }
            assert forall|t: TilePoint, jj: int|
                0 <= jj < j + 1 && tile_passable(m, t) && #[trigger] adjacent(frontier@[jj], t)
                implies visited@[m.index_of(t.x as int, t.y as int)] by {
                lemma_index_in_grid(m.width as int, m.height as int, t.x as int, t.y as int);
                if jj < j {
                    assert(vx0[m.index_of(t.x as int, t.y as int)]);
                }
            }
            assert forall|t: TilePoint|
                tile_in_map(m, t) && reach_in(m, src, t, level as nat) implies #[trigger] visited@[m.index_of(
                    t.x as int,
                    t.y as int,
                )] by {
                lemma_index_in_grid(m.width as int, m.height as int, t.x as int, t.y as int);
                assert(vx0[m.index_of(t.x as int, t.y as int)]);
            }
        }
        j = j + 1;
    }
    proof {
        assert forall|t: TilePoint|
            tile_in_map(m, t) implies (#[trigger] visited@[m.index_of(t.x as int, t.y as int)]
                <==> reach_in(m, src, t, (level + 1) as nat)) by {
            lemma_index_in_grid(m.width as int, m.height as int, t.x as int, t.y as int);
            let k = m.index_of(t.x as int, t.y as int);
            if visited@[k] {
                lemma_reach_monotone(m, src, t, cost@[k] as nat, (level + 1) as nat);
            } else if reach_in(m, src, t, (level + 1) as nat) {
                if !reach_in(m, src, t, level as nat) {
                    lemma_new_level(m, src, t, level as nat);
                    let p = choose|p: TilePoint| #[trigger] adjacent(p, t) && fresh_at(m, src, p, level as nat);
                    lemma_reached_is_start_or_passable(m, src, p, level as nat);
                    let jj = choose|jj: int| 0 <= jj < frontier@.len() && frontier@[jj] == p;
                    assert(adjacent(frontier@[jj], t));
                }
            }
        }
        assert forall|t: TilePoint|
            tile_in_map(m, t) && #[trigger] fresh_at(m, src, t, (level + 1) as nat)
                implies next@.contains(t) by {
            lemma_index_in_grid(m.width as int, m.height as int, t.x as int, t.y as int);
            assert(visited@[m.index_of(t.x as int, t.y as int)]);
        }
    }
    proof {
        lemma_count_true_bound(visited@);
    }
    next
}

/// A shortest walk over passable tiles from `src` to `dest`, listing the tiles
/// after `src` up to and including `dest`; `None` when `src` is off the map,
/// `dest` is not an empty tile, or no walk joins them. Neighbours are expanded
/// in the order west, north, east, south, which fixes the choice among walks
/// of equal length.
pub fn find_path(m: &GridMap, src: TilePoint, dest: TilePoint) -> (r: Option<Vec<TilePoint>>)
    requires
        m.wf(),
    ensures
        r is Some <==> path_exists(m, src, dest),
        r matches Some(p) ==> is_shortest_path(m, src, dest, p@),
        match r {
            Some(p) => bfs_path(m, src, dest) == Some(p@),
            None => bfs_path(m, src, dest) is None,
        },
{
    if src.x >= m.width || src.y >= m.height || dest.x >= m.width || dest.y >= m.height {
        return None;
    }
    let di = tile_index(m, dest);
    if m.grid_tiles[di] != GridTile::Empty {
        return None;
    }
    let si = tile_index(m, src);
    let (mut visited, mut parent, mut cost) = start_search(m, src);
    let ghost n = m.grid_tiles@.len();
    proof {
        lemma_count_true_bound(visited@);
        assert(m.grid_tiles@.len() == m.grid_tiles.len());
    }
    let mut frontier: Vec<TilePoint> = Vec::new();
    frontier.push(src);
    let mut level: usize = 0;
    assert(frontier@[0] == src);
    assert(frontier@ =~= seq![src]);
    while frontier.len() > 0 && !visited[di]
        invariant
            m.wf(),
            tile_in_map(m, src),
            tile_in_map(m, dest),
            si as int == m.index_of(src.x as int, src.y as int),
            di as int == m.index_of(dest.x as int, dest.y as int),
            n == m.grid_tiles@.len(),
            n <= usize::MAX,
            di < n,
            search_ok(m, src, visited@, parent@, cost@, level as nat),
            forall|t: TilePoint|
                tile_in_map(m, t) ==> (#[trigger] visited@[m.index_of(t.x as int, t.y as int)]
                    <==> reach_in(m, src, t, level as nat)),
            forall|j: int|
                0 <= j < frontier@.len() ==> tile_in_map(m, #[trigger] frontier@[j]) && fresh_at(
                    m,
                    src,
                    frontier@[j],
                    level as nat,
                ),
            forall|t: TilePoint|
                tile_in_map(m, t) && #[trigger] fresh_at(m, src, t, level as nat)
                    ==> frontier@.contains(t),
            count_true(visited@) <= n,
            (visited@, parent@, cost@, frontier@) == search_after(m, src, di as int, level as nat),
            level <= count_true(visited@),
            frontier@.len() > 0 ==> level < count_true(visited@),
        decreases n - count_true(visited@) + frontier@.len(),
    {
        let next = expand_level(m, Ghost(src), &mut visited, &mut parent, &mut cost, &frontier, level);
        frontier = next;
        level = level + 1;
    }
    proof {
        lemma_search_settles(m, src, di as int, level as nat, n as nat);
    }
    if !visited[di] {
        proof {
            if level == 0 {
                assert(fresh_at(m, src, src, 0));
                assert(frontier@.contains(src));
            }
            assert forall|u: TilePoint| #[trigger] reach_in(m, src, u, level as nat) implies reach_in(
                m,
                src,
                u,
                (level - 1) as nat,
            ) by {
                lemma_reached_is_start_or_passable(m, src, u, level as nat);
                if u == src {
                    lemma_reach_monotone(m, src, u, 0, (level - 1) as nat);
                } else if !reach_in(m, src, u, (level - 1) as nat) {
                    assert(fresh_at(m, src, u, level as nat));
                    assert(frontier@.contains(u));
                }
            }
            assert forall|q: Seq<TilePoint>| #[trigger] is_walk(m, src, q) implies !walk_ends_at(
                src,
                q,
                dest,
            ) by {
                if walk_ends_at(src, q, dest) {
                    lemma_walk_reaches(m, src, q, dest);
                    lemma_closed(m, src, dest, level as nat, q.len());
                    lemma_reach_monotone(m, src, dest, (level - 1) as nat, level as nat);
                }
            }
        }
        return None;
    }
    let ghost cd = cost@[di as int];
    proof {
        let sc = cost@[si as int] as nat;
        lemma_reach_monotone(m, src, src, 0, level as nat);
        assert(visited@[m.index_of(src.x as int, src.y as int)]);
        lemma_fresh_unique(m, src, src, sc, 0);
    }
    let path = trace_back(m, src, &visited, &parent, &cost, dest, Ghost(level as nat));
    proof {
        assert(path@.len() == cd);
        assert(fresh_at(m, src, dest, cd as nat));
        assert forall|q: Seq<TilePoint>|
            #[trigger] is_walk(m, src, q) && walk_ends_at(src, q, dest) implies path@.len()
            <= q.len() by {
            lemma_walk_reaches(m, src, q, dest);
            if q.len() < cd {
                lemma_reach_monotone(m, src, dest, q.len(), (cd - 1) as nat);
            }
        }
    }
    Some(path)
}

/// The number of single steps between `a` and `b` when no tile is in the way.
pub open spec fn manhattan(a: TilePoint, b: TilePoint) -> nat {
    let dx = a.x as int - b.x as int;
    let dy = a.y as int - b.y as int;
    ((if dx < 0 {
        -dx
    } else {
        dx
    }) + (if dy < 0 {
        -dy
    } else {
        dy
    })) as nat
}

/// One step from `a` toward `b`: along x first, then along y.
pub open spec fn step_toward(a: TilePoint, b: TilePoint) -> TilePoint {
    if a.x < b.x {
        east(a)
    } else if a.x > b.x {
        west(a)
    } else if a.y < b.y {
        south(a)
    } else {
        north(a)
    }
}

/// The walk from `a` to `b` that goes along x first and then along y.
pub open spec fn straight_walk(a: TilePoint, b: TilePoint) -> Seq<TilePoint>
    decreases manhattan(a, b),
{
    if a == b {
        Seq::empty()
    } else {
        let s = step_toward(a, b);
        seq![s] + straight_walk(s, b)
    }
}

/// Every tile of the map is empty.
pub open spec fn obstacle_free(m: &GridMap) -> bool {
    forall|x: int, y: int| m.in_bounds(x, y) ==> #[trigger] m.tile_at(x, y) == Some(GridTile::Empty)
}

proof fn lemma_walk_cons(m: &GridMap, a: TilePoint, s: TilePoint, rest: Seq<TilePoint>)
    requires
        tile_passable(m, s),
        adjacent(a, s),
        is_walk(m, s, rest),
    ensures
        is_walk(m, a, seq![s] + rest),
{
    let q = seq![s] + rest;
    assert forall|i: int| 0 <= i < q.len() implies tile_passable(m, #[trigger] q[i]) && adjacent(
        if i == 0 {
            a
        } else {
            q[i - 1]
        },
        q[i],
    ) by {
        if i > 0 {
            assert(q[i] == rest[i - 1]);
            assert(tile_passable(m, rest[i - 1]));
        }
    }
}

proof fn lemma_straight_walk(m: &GridMap, a: TilePoint, b: TilePoint)
    requires
        m.wf(),
        obstacle_free(m),
        tile_in_map(m, a),
        tile_in_map(m, b),
    ensures
        is_walk(m, a, straight_walk(a, b)),
        walk_ends_at(a, straight_walk(a, b), b),
        straight_walk(a, b).len() == manhattan(a, b),
    decreases manhattan(a, b),
{
    if a != b {
        let s = step_toward(a, b);
        assert(m.tile_at(s.x as int, s.y as int) == Some(GridTile::Empty));
        lemma_straight_walk(m, s, b);
        lemma_walk_cons(m, a, s, straight_walk(s, b));
        let rest = straight_walk(s, b);
        if rest.len() > 0 {
            assert((seq![s] + rest).last() == rest.last());
        }
    }
}

/// A walk cannot be shorter than the Manhattan distance it covers.
proof fn lemma_walk_at_least_manhattan(m: &GridMap, src: TilePoint, q: Seq<TilePoint>, t: TilePoint)
    requires
        is_walk(m, src, q),
        walk_ends_at(src, q, t),
    ensures
        manhattan(src, t) <= q.len(),
    decreases q.len(),
{
    if q.len() > 0 {
        let q0 = q.drop_last();
        let prev = if q0.len() == 0 {
            src
        } else {
            q0.last()
        };
        assert(is_walk(m, src, q0)) by {
            assert forall|i: int| 0 <= i < q0.len() implies tile_passable(m, #[trigger] q0[i])
                && adjacent(
                if i == 0 {
                    src
                } else {
                    q0[i - 1]
                },
                q0[i],
            ) by {
                assert(q0[i] == q[i]);
                assert(tile_passable(m, q[i]));
            }
        }
        lemma_walk_at_least_manhattan(m, src, q0, prev);
        assert(tile_passable(m, q[q.len() - 1]));
    }
}

/// On a map without obstacles, any two tiles of the map are joined, and a
/// shortest path between them has as many steps as their Manhattan distance:
/// the walk never takes a diagonal shortcut and never detours.
pub proof fn lemma_open_map_path_is_manhattan(
    m: &GridMap,
    src: TilePoint,
    dest: TilePoint,
    p: Seq<TilePoint>,
)
    requires
        m.wf(),
        obstacle_free(m),
        tile_in_map(m, src),
        tile_in_map(m, dest),
    ensures
        path_exists(m, src, dest),
        is_shortest_path(m, src, dest, p) ==> p.len() == manhattan(src, dest),
{
    lemma_straight_walk(m, src, dest);
    assert(m.tile_at(dest.x as int, dest.y as int) == Some(GridTile::Empty));
    let w = straight_walk(src, dest);
    assert(is_walk(m, src, w) && walk_ends_at(src, w, dest));
    if is_shortest_path(m, src, dest, p) {
        lemma_walk_at_least_manhattan(m, src, p, dest);
    }
}

/// No path leads to a tile that is not empty, however the map is laid out.
pub proof fn lemma_no_path_to_obstacle(m: &GridMap, src: TilePoint, dest: TilePoint)
    requires
        m.tile_at(dest.x as int, dest.y as int) == Some(GridTile::Obstacle),
    ensures
        !path_exists(m, src, dest),
{
}

} // verus!
