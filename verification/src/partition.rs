//! Alliance clusters: the connected components of the alliance relation,
//! computed with a union-find over the boards.

use vstd::prelude::*;

use crate::board::{keys_with, Board, Relation};
use crate::world::{boards_in_range, boards_wf, rel_of, WarWorld};

verus! {

/// A path `p[0] - p[1] - ... ` whose consecutive members are related by `step`.
pub open spec fn is_path(step: spec_fn(u64, u64) -> bool, p: Seq<u64>) -> bool {
    p.len() >= 1 && forall|i: int| 0 <= i < p.len() - 1 ==> #[trigger] step(p[i], p[i + 1])
}

/// `b` is reachable from `a` through `step`.
pub open spec fn reach(step: spec_fn(u64, u64) -> bool, a: u64, b: u64) -> bool {
    exists|p: Seq<u64>| is_path(step, p) && p[0] == a && p.last() == b
}

/// `a` records an alliance with `b`, both being countries.
pub open spec fn dir_edge(boards: Seq<Board>, a: u64, b: u64) -> bool {
    a < boards.len() && b < boards.len() && rel_of(boards, a, b) == Relation::Alliance
}

/// The undirected alliance link: either side records an alliance.
pub open spec fn alliance_step(boards: Seq<Board>) -> spec_fn(u64, u64) -> bool {
    |a: u64, b: u64| dir_edge(boards, a, b) || dir_edge(boards, b, a)
}

/// `a` and `b` belong to the same alliance cluster (transitive closure of
/// the alliance links).
pub open spec fn allied(boards: Seq<Board>, a: u64, b: u64) -> bool {
    reach(alliance_step(boards), a, b)
}

proof fn lemma_reach_refl(step: spec_fn(u64, u64) -> bool, a: u64)
    ensures
        reach(step, a, a),
{
    let p = seq![a];
    assert(is_path(step, p) && p[0] == a && p.last() == a);
}

proof fn lemma_reach_trans(step: spec_fn(u64, u64) -> bool, a: u64, b: u64, c: u64)
    requires
        reach(step, a, b),
        reach(step, b, c),
    ensures
        reach(step, a, c),
{
    let p = choose|p: Seq<u64>| is_path(step, p) && p[0] == a && p.last() == b;
    let q = choose|q: Seq<u64>| is_path(step, q) && q[0] == b && q.last() == c;
    let r = p + q.drop_first();
    assert forall|i: int| 0 <= i < r.len() - 1 implies #[trigger] step(r[i], r[i + 1]) by {
        if i < p.len() - 1 {
            assert(r[i] == p[i] && r[i + 1] == p[i + 1]);
        } else if i == p.len() - 1 {
            assert(r[i] == b);
            assert(r[i + 1] == q[1]);
            assert(step(q[0], q[1]));
        } else {
            let k = i - p.len() + 1;
            assert(r[i] == q[k]);
            assert(r[i + 1] == q[k + 1]);
        }
    }
    if q.len() == 1 {
        assert(r =~= p);
    } else {
        assert(r.last() == q.last());
    }
    assert(is_path(step, r));
}

proof fn lemma_reach_sym(step: spec_fn(u64, u64) -> bool, a: u64, b: u64)
    requires
        forall|x: u64, y: u64| #[trigger] step(x, y) ==> step(y, x),
        reach(step, a, b),
    ensures
        reach(step, b, a),
{
    let p = choose|p: Seq<u64>| is_path(step, p) && p[0] == a && p.last() == b;
    let r = p.reverse();
    assert forall|i: int| 0 <= i < r.len() - 1 implies #[trigger] step(r[i], r[i + 1]) by {
        let k = p.len() - 2 - i;
        assert(r[i] == p[k + 1]);
        assert(r[i + 1] == p[k]);
        assert(step(p[k], p[k + 1]));
    }
    assert(is_path(step, r));
    assert(r[0] == b);
    assert(r.last() == a);
}

proof fn lemma_reach_edge(step: spec_fn(u64, u64) -> bool, a: u64, b: u64)
    requires
        step(a, b),
    ensures
        reach(step, a, b),
{
    let p = seq![a, b];
    assert(p[0] == a && p[1] == b);
    assert(step(p[0int], p[0int + 1]));
    assert(is_path(step, p) && p[0] == a && p.last() == b);
}

proof fn lemma_reach_mono(s1: spec_fn(u64, u64) -> bool, s2: spec_fn(u64, u64) -> bool, a: u64, b: u64)
    requires
        forall|x: u64, y: u64| #[trigger] s1(x, y) ==> s2(x, y),
        reach(s1, a, b),
    ensures
        reach(s2, a, b),
{
    let p = choose|p: Seq<u64>| is_path(s1, p) && p[0] == a && p.last() == b;
    assert forall|i: int| 0 <= i < p.len() - 1 implies #[trigger] s2(p[i], p[i + 1]) by {
        assert(s1(p[i], p[i + 1]));
    }
    assert(is_path(s2, p));
}

/// Reachability never leaves a class of `f`, when every step stays in one.
proof fn lemma_reach_keeps(step: spec_fn(u64, u64) -> bool, f: spec_fn(u64) -> int, a: u64, b: u64)
    requires
        forall|x: u64, y: u64| #[trigger] step(x, y) ==> f(x) == f(y),
        reach(step, a, b),
    ensures
        f(a) == f(b),
{
    let p = choose|p: Seq<u64>| is_path(step, p) && p[0] == a && p.last() == b;
    assert forall|i: int| 0 <= i < p.len() implies #[trigger] f(p[i]) == f(a) by {
        lemma_path_prefix_keeps(step, f, p, i);
    }
}

proof fn lemma_path_prefix_keeps(step: spec_fn(u64, u64) -> bool, f: spec_fn(u64) -> int, p: Seq<u64>, i: int)
    requires
        forall|x: u64, y: u64| #[trigger] step(x, y) ==> f(x) == f(y),
        is_path(step, p),
        0 <= i < p.len(),
    ensures
        f(p[i]) == f(p[0]),
    decreases i,
{
    if i > 0 {
        lemma_path_prefix_keeps(step, f, p, i - 1);
        let k = i - 1;
        assert(step(p[k], p[k + 1]));
    }
}

// ---------------------------------------------------------------------------
// Union-find
// ---------------------------------------------------------------------------

/// Parent links point inside the array, and every non-root's rank is below
/// its parent's rank, which is at most `bound`.
pub open spec fn uf_ok(p: Seq<usize>, rank: Seq<nat>, bound: nat) -> bool {
    &&& rank.len() == p.len()
    &&& forall|i: int| 0 <= i < p.len() ==> (#[trigger] p[i]) < p.len()
    &&& forall|i: int|
        0 <= i < p.len() && p[i] != i ==> rank[i] < rank[p[i] as int] && rank[p[i] as int] <= bound
}

/// The root reached from `i` by following parent links.
pub open spec fn uf_root(p: Seq<usize>, rank: Seq<nat>, bound: nat, i: int) -> int
    decreases bound - rank[i],
{
    if 0 <= i < p.len() && p[i] != i && (p[i] as int) < p.len() && rank[i] < rank[p[i] as int]
        && rank[p[i] as int] <= bound {
        uf_root(p, rank, bound, p[i] as int)
    } else {
        i
    }
}

proof fn lemma_root(p: Seq<usize>, rank: Seq<nat>, bound: nat, i: int)
    requires
        uf_ok(p, rank, bound),
        0 <= i < p.len(),
    ensures
        0 <= uf_root(p, rank, bound, i) < p.len(),
        p[uf_root(p, rank, bound, i)] == uf_root(p, rank, bound, i),
        p[i] == i ==> uf_root(p, rank, bound, i) == i,
        p[i] != i ==> uf_root(p, rank, bound, i) == uf_root(p, rank, bound, p[i] as int),
    decreases bound - rank[i],
{
    if p[i] != i {
        lemma_root(p, rank, bound, p[i] as int);
    }
}

/// Linking root `ri` under root `rj` moves exactly `ri`'s class to `rj`.
proof fn lemma_link(p: Seq<usize>, rank: Seq<nat>, bound: nat, ri: int, rj: int, x: int)
    requires
        uf_ok(p, rank, bound),
        0 <= ri < p.len(),
        0 <= rj < p.len(),
        ri != rj,
        p[ri] == ri,
        p[rj] == rj,
        0 <= x < p.len(),
    ensures
        ({
            let p2 = p.update(ri, rj as usize);
            let nr = if rank[rj] > rank[ri] { rank[rj] } else { rank[ri] + 1 };
            let rank2 = rank.update(rj, nr);
            let bound2 = if bound > nr { bound } else { nr };
            &&& uf_ok(p2, rank2, bound2)
            &&& uf_root(p2, rank2, bound2, x) == if uf_root(p, rank, bound, x) == ri {
                rj
            } else {
                uf_root(p, rank, bound, x)
            }
        }),
    decreases bound - rank[x],
{
    let p2 = p.update(ri, rj as usize);
    let nr = if rank[rj] > rank[ri] { rank[rj] } else { rank[ri] + 1 };
    let rank2 = rank.update(rj, nr);
    let bound2 = if bound > nr { bound } else { nr };
    assert forall|i: int| 0 <= i < p2.len() && p2[i] != i implies rank2[i] < rank2[p2[i] as int]
        && rank2[p2[i] as int] <= bound2 by {
        if i == ri {
        } else {
            assert(p2[i] == p[i]);
            assert(i != rj);
        }
    }
    assert(uf_ok(p2, rank2, bound2));
    lemma_root(p, rank, bound, x);
    lemma_root(p2, rank2, bound2, x);
    if p[x] == x {
        if x == ri {
            lemma_root(p2, rank2, bound2, rj);
        }
    } else {
        lemma_link(p, rank, bound, ri, rj, p[x] as int);
    }
}

/// The alliance edges already merged: all edges of owners below `o`, and the
/// edges of `o` toward the members of `cur`.
pub open spec fn done_edge(boards: Seq<Board>, o: u64, cur: Seq<u64>, a: u64, b: u64) -> bool {
    dir_edge(boards, a, b) && (a < o || (a == o && cur.contains(b)))
}

pub open spec fn done_step(boards: Seq<Board>, o: u64, cur: Seq<u64>) -> spec_fn(u64, u64) -> bool {
    |a: u64, b: u64| done_edge(boards, o, cur, a, b) || done_edge(boards, o, cur, b, a)
}

/// The union-find invariant: merged edges join classes (`I1`), and every
/// country reaches its class root through merged edges (`I2`).
pub open spec fn uf_inv(
    boards: Seq<Board>,
    p: Seq<usize>,
    rank: Seq<nat>,
    bound: nat,
    o: u64,
    cur: Seq<u64>,
) -> bool {
    &&& p.len() == boards.len()
    &&& uf_ok(p, rank, bound)
    &&& forall|a: u64, b: u64| #[trigger]
        done_step(boards, o, cur)(a, b) ==> uf_root(p, rank, bound, a as int) == uf_root(
            p,
            rank,
            bound,
            b as int,
        )
    &&& forall|x: u64|
        x < boards.len() ==> reach(
            done_step(boards, o, cur),
            x,
            #[trigger] uf_root(p, rank, bound, x as int) as u64,
        )
}

fn find(p: &Vec<usize>, Ghost(rank): Ghost<Seq<nat>>, Ghost(bound): Ghost<nat>, x: usize) -> (r: usize)
    requires
        uf_ok(p@, rank, bound),
        x < p@.len(),
    ensures
        r == uf_root(p@, rank, bound, x as int),
        r < p@.len(),
        p@[r as int] == r,
{
    let mut r = x;
    proof {
        lemma_root(p@, rank, bound, x as int);
    }
    while p[r] != r
        invariant
            uf_ok(p@, rank, bound),
            r < p@.len(),
            uf_root(p@, rank, bound, r as int) == uf_root(p@, rank, bound, x as int),
        decreases bound - rank[r as int],
    {
        proof {
            lemma_root(p@, rank, bound, r as int);
        }
        r = p[r];
    }
    proof {
        lemma_root(p@, rank, bound, r as int);
    }
    r
}

/// Merges the classes of `i` and `j` after the edge `(i, j)` is added.
proof fn lemma_union_step(
    boards: Seq<Board>,
    p: Seq<usize>,
    rank: Seq<nat>,
    bound: nat,
    o: u64,
    cur: Seq<u64>,
    j: u64,
    p2: Seq<usize>,
    rank2: Seq<nat>,
    bound2: nat,
)
    requires
        uf_inv(boards, p, rank, bound, o, cur),
        o < boards.len(),
        j < boards.len(),
        dir_edge(boards, o, j),
        uf_ok(p2, rank2, bound2),
        p2.len() == p.len(),
        // the new roots: the class of root(o) moved to root(j), or nothing changed
        forall|x: int|
            0 <= x < p.len() ==> #[trigger] uf_root(p2, rank2, bound2, x) == if uf_root(
                p,
                rank,
                bound,
                x,
            ) == uf_root(p, rank, bound, o as int) {
                uf_root(p, rank, bound, j as int)
            } else {
                uf_root(p, rank, bound, x)
            },
    ensures
        uf_inv(boards, p2, rank2, bound2, o, cur.push(j)),
{
    let s1 = done_step(boards, o, cur);
    let s2 = done_step(boards, o, cur.push(j));
    let ro = uf_root(p, rank, bound, o as int);
    let rj = uf_root(p, rank, bound, j as int);
    assert forall|x: u64, y: u64| #[trigger] s1(x, y) implies s2(x, y) by {
        if cur.contains(y) {
            assert(cur.push(j)[cur.index_of(y)] == y);
        }
        if cur.contains(x) {
            assert(cur.push(j)[cur.index_of(x)] == x);
        }
    }
    assert(cur.push(j)[cur.len() as int] == j);
    assert(s2(o, j));
    assert forall|a: u64, b: u64| #[trigger] s2(a, b) implies uf_root(p2, rank2, bound2, a as int)
        == uf_root(p2, rank2, bound2, b as int) by {
        if s1(a, b) {
        } else {
            assert((a == o && b == j) || (a == j && b == o)) by {
                if done_edge(boards, o, cur.push(j), a, b) && a == o {
                    let k = choose|k: int| 0 <= k < cur.push(j).len() && cur.push(j)[k] == b;
                    if k < cur.len() {
                        assert(cur[k] == b);
                    }
                }
                if done_edge(boards, o, cur.push(j), b, a) && b == o {
                    let k = choose|k: int| 0 <= k < cur.push(j).len() && cur.push(j)[k] == a;
                    if k < cur.len() {
                        assert(cur[k] == a);
                    }
                }
            }
        }
    }
    assert forall|x: u64| x < boards.len() implies reach(
        s2,
        x,
        #[trigger] uf_root(p2, rank2, bound2, x as int) as u64,
    ) by {
        let rx = uf_root(p, rank, bound, x as int);
        assert(reach(s1, x, rx as u64));
        lemma_reach_mono(s1, s2, x, rx as u64);
        if rx == ro {
            // x ~ ro ~ o - j ~ rj
            assert(reach(s1, o, ro as u64));
            lemma_reach_mono(s1, s2, o, ro as u64);
            lemma_reach_sym(s2, o, ro as u64);
            lemma_reach_edge(s2, o, j);
            assert(reach(s1, j, rj as u64));
            lemma_reach_mono(s1, s2, j, rj as u64);
            lemma_reach_trans(s2, x, ro as u64, o);
            lemma_reach_trans(s2, x, o, j);
            lemma_reach_trans(s2, x, j, rj as u64);
        }
    }
}

/// Countries `i`, ascending, whose class root is `r`.
fn members_of(p: &Vec<usize>, Ghost(rank): Ghost<Seq<nat>>, Ghost(bound): Ghost<nat>, r: usize) -> (m: Vec<u64>)
    requires
        uf_ok(p@, rank, bound),
    ensures
        forall|x: u64| #[trigger] m@.contains(x) <==> (x < p@.len() && uf_root(p@, rank, bound, x as int) == r),
        forall|a: int, b: int| 0 <= a < b < m@.len() ==> m@[a] < m@[b],
{
    let mut m: Vec<u64> = Vec::new();
    let mut i: usize = 0;
    while i < p.len()
        invariant
            uf_ok(p@, rank, bound),
            0 <= i <= p@.len(),
            forall|x: u64| #[trigger] m@.contains(x) <==> (x < i && uf_root(p@, rank, bound, x as int) == r),
            forall|a: int, b: int| 0 <= a < b < m@.len() ==> m@[a] < m@[b],
            forall|a: int| 0 <= a < m@.len() ==> m@[a] < i,
        decreases p@.len() - i,
    {
        let ri = find(p, Ghost(rank), Ghost(bound), i);
        let ghost old_m = m@;
        if ri == r {
            m.push(i as u64);
        }
        proof {
            assert forall|x: u64| #[trigger] m@.contains(x) <==> (x < i + 1 && uf_root(p@, rank, bound, x as int) == r) by {
                if old_m.contains(x) {
                    let k = choose|k: int| 0 <= k < old_m.len() && old_m[k] == x;
                    assert(m@[k] == x);
                }
                if m@.contains(x) && !old_m.contains(x) {
                    assert(x == i);
                }
                if x == i && ri == r {
                    assert(m@[m@.len() - 1] == x);
                }
            }
        }
        i = i + 1;
    }
    m
}

/// Some group holds `x`.
pub open spec fn in_some_group(groups: Seq<Vec<u64>>, x: u64) -> bool {
    exists|g: int| 0 <= g < groups.len() && (#[trigger] groups[g])@.contains(x)
}

/// `groups` lists the alliance clusters of the countries `0..boards.len()`:
/// non-empty ascending groups of country ids, every country in exactly one
/// group, two countries in one group exactly when they are allied.
pub open spec fn is_cluster_partition(boards: Seq<Board>, groups: Seq<Vec<u64>>) -> bool {
    &&& forall|g: int| 0 <= g < groups.len() ==> (#[trigger] groups[g])@.len() > 0
    &&& forall|g: int, a: int, b: int|
        0 <= g < groups.len() && 0 <= a < b < groups[g]@.len() ==> #[trigger] groups[g]@[a]
            < #[trigger] groups[g]@[b]
    &&& forall|g: int, a: int|
        0 <= g < groups.len() && 0 <= a < groups[g]@.len() ==> #[trigger] groups[g]@[a]
            < boards.len()
    &&& forall|x: u64| x < boards.len() ==> #[trigger] in_some_group(groups, x)
    &&& forall|g1: int, g2: int, x: u64|
        0 <= g1 < groups.len() && 0 <= g2 < groups.len() && #[trigger] groups[g1]@.contains(x)
            && #[trigger] groups[g2]@.contains(x) ==> g1 == g2
    &&& forall|g: int, x: u64, y: u64|
        0 <= g < groups.len() && #[trigger] groups[g]@.contains(x) && #[trigger] groups[g]@.contains(y)
            ==> allied(boards, x, y)
    &&& forall|g: int, x: u64, y: u64|
        0 <= g < groups.len() && #[trigger] groups[g]@.contains(x) && y < boards.len()
            && #[trigger] allied(boards, x, y) ==> groups[g]@.contains(y)
}

/// `x` is the smallest country of its alliance cluster.
pub open spec fn cluster_head(boards: Seq<Board>, x: u64) -> bool {
    x < boards.len() && forall|y: u64| y < boards.len() && #[trigger] allied(boards, x, y) ==> x
        <= y
}

/// The first (smallest) member of each group.
pub open spec fn heads(groups: Seq<Vec<u64>>) -> Seq<u64> {
    groups.map_values(|grp: Vec<u64>| grp@[0])
}

/// The number of alliance clusters of the countries `0..boards.len()`.
pub open spec fn cluster_count(boards: Seq<Board>) -> nat {
    Set::new(|x: u64| cluster_head(boards, x)).len()
}

proof fn lemma_heads(boards: Seq<Board>, groups: Seq<Vec<u64>>)
    requires
        is_cluster_partition(boards, groups),
    ensures
        heads(groups).no_duplicates(),
        heads(groups).to_set() == Set::new(|x: u64| cluster_head(boards, x)),
{
    let h = heads(groups);
    assert forall|i: int, j: int| 0 <= i < h.len() && 0 <= j < h.len() && i != j implies h[i]
        != h[j] by {
        assert(groups[i]@.contains(h[i]));
        assert(groups[j]@.contains(h[j]));
    }
    assert forall|x: u64| h.to_set().contains(x) <==> cluster_head(boards, x) by {
        if h.to_set().contains(x) {
            let k = choose|k: int| 0 <= k < h.len() && h[k] == x;
            assert(groups[k]@.contains(x));
            assert forall|y: u64| y < boards.len() && #[trigger] allied(boards, x, y) implies x
                <= y by {
                assert(groups[k]@.contains(y));
                let j = choose|j: int| 0 <= j < groups[k]@.len() && groups[k]@[j] == y;
                if j > 0 {
                    assert(groups[k]@[0] < groups[k]@[j]);
                }
            }
        }
        if cluster_head(boards, x) {
            assert(in_some_group(groups, x));
            let k = choose|k: int| 0 <= k < groups.len() && (#[trigger] groups[k])@.contains(x);
            let hd = groups[k]@[0];
            assert(groups[k]@.contains(hd));
            assert(allied(boards, x, hd));
            let j = choose|j: int| 0 <= j < groups[k]@.len() && groups[k]@[j] == x;
            if j > 0 {
                assert(groups[k]@[0] < groups[k]@[j]);
            }
            assert(hd < boards.len());
            assert(h[k] == x);
        }
    }
    assert(h.to_set() =~= Set::new(|x: u64| cluster_head(boards, x)));
}

/// Every cluster partition of the same boards has one group per cluster:
/// its length is the number of clusters.
pub proof fn lemma_cluster_partition_len(boards: Seq<Board>, groups: Seq<Vec<u64>>)
    requires
        is_cluster_partition(boards, groups),
    ensures
        groups.len() == cluster_count(boards),
{
    lemma_heads(boards, groups);
    heads(groups).unique_seq_to_set();
}

/// The alliance clusters: the connected components of the alliance links
/// (either side recording M), every country in exactly one cluster, each
/// cluster in ascending id order.
pub fn alliance_partition(world: &WarWorld) -> (groups: Vec<Vec<u64>>)
    requires
        world.wf(),
    ensures
        is_cluster_partition(world.boards@, groups@),
        groups@.len() == cluster_count(world.boards@),
{
    let ghost boards = world.boards@;
    let n = world.boards.len();
    let mut p: Vec<usize> = Vec::new();
    let mut k: usize = 0;
    while k < n
        invariant
            0 <= k <= n,
            p@.len() == k,
            forall|i: int| 0 <= i < k ==> p@[i] == i,
        decreases n - k,
    {
        p.push(k);
        k = k + 1;
    }
    let ghost mut rank: Seq<nat> = Seq::new(n as nat, |i: int| 0nat);
    let ghost mut bound: nat = 0;
    proof {
        assert forall|x: u64| x < n implies reach(
            done_step(boards, 0, Seq::empty()),
            x,
            #[trigger] uf_root(p@, rank, bound, x as int) as u64,
        ) by {
            lemma_root(p@, rank, bound, x as int);
            lemma_reach_refl(done_step(boards, 0, Seq::empty()), x);
        }
    }
    let mut o: usize = 0;
    while o < n
        invariant
            world.wf(),
            boards == world.boards@,
            n == boards.len(),
            0 <= o <= n,
            uf_inv(boards, p@, rank, bound, o as u64, Seq::empty()),
        decreases n - o,
    {
        let allies = world.boards[o].counterparts(Relation::Alliance);
        proof {
            crate::board::lemma_keys_with(boards[o as int].entries(), Relation::Alliance);
        }
        assert(allies@.take(0) =~= Seq::<u64>::empty());
        let mut j: usize = 0;
        while j < allies.len()
            invariant
                world.wf(),
                boards == world.boards@,
                n == boards.len(),
                0 <= o < n,
                allies@ == keys_with(boards[o as int].entries(), Relation::Alliance),
                forall|x: u64| #[trigger] allies@.contains(x) <==> boards[o as int].rel(x) == Relation::Alliance,
                0 <= j <= allies@.len(),
                uf_inv(boards, p@, rank, bound, o as u64, allies@.take(j as int)),
            decreases allies@.len() - j,
        {
            let other = allies[j];
            proof {
                assert(allies@.contains(other));
                let e = choose|e: int| 0 <= e < boards[o as int].entries().len()
                    && boards[o as int].entries()[e].0 == other;
                assert(boards[o as int].entries()[e].0 < n);
                assert(allies@.take(j + 1) =~= allies@.take(j as int).push(other));
            }
            let ri = find(&p, Ghost(rank), Ghost(bound), o);
            let rj = find(&p, Ghost(rank), Ghost(bound), other as usize);
            let ghost p0 = p@;
            let ghost rank0 = rank;
            let ghost bound0 = bound;
            if ri != rj {
                p.set(ri, rj);
                proof {
                    let nr = if rank[rj as int] > rank[ri as int] { rank[rj as int] } else { rank[ri as int] + 1 };
                    rank = rank.update(rj as int, nr);
                    bound = if bound > nr { bound } else { nr };
                    assert forall|x: int| 0 <= x < p0.len() implies #[trigger] uf_root(p@, rank, bound, x) == if uf_root(
                        p0, rank0, bound0, x) == uf_root(p0, rank0, bound0, o as int) {
                        uf_root(p0, rank0, bound0, other as int)
                    } else {
                        uf_root(p0, rank0, bound0, x)
                    } by {
                        lemma_link(p0, rank0, bound0, ri as int, rj as int, x);
                    }
                    lemma_link(p0, rank0, bound0, ri as int, rj as int, 0);
                }
            }
            proof {
                lemma_union_step(boards, p0, rank0, bound0, o as u64, allies@.take(j as int), other, p@, rank, bound);
            }
            j = j + 1;
        }
        proof {
            assert(allies@.take(allies@.len() as int) =~= allies@);
            let s_a = done_step(boards, o as u64, allies@);
            let s_b = done_step(boards, (o + 1) as u64, Seq::empty());
            assert forall|a: u64, b: u64| #[trigger] s_a(a, b) == s_b(a, b) by {
                if dir_edge(boards, a, b) && a == o {
                    assert(allies@.contains(b));
                }
                if dir_edge(boards, b, a) && b == o {
                    assert(allies@.contains(a));
                }
            }
            assert forall|a: u64, b: u64| #[trigger] s_b(a, b) implies uf_root(p@, rank, bound, a as int)
                == uf_root(p@, rank, bound, b as int) by {
                assert(s_a(a, b));
            }
            assert forall|x: u64| x < n implies reach(s_b, x, #[trigger] uf_root(p@, rank, bound, x as int) as u64) by {
                lemma_reach_mono(s_a, s_b, x, uf_root(p@, rank, bound, x as int) as u64);
            }
        }
        o = o + 1;
    }
    // Collect the classes, one per root, in ascending root order.
    let ghost fin = done_step(boards, n as u64, Seq::empty());
    proof {
        assert forall|a: u64, b: u64| #[trigger] fin(a, b) == alliance_step(boards)(a, b) by {}
    }
    let ghost root_of = |x: u64| uf_root(p@, rank, bound, x as int);
    let mut groups: Vec<Vec<u64>> = Vec::new();
    let ghost mut roots: Seq<int> = Seq::empty();
    let mut r: usize = 0;
    while r < n
        invariant
            world.wf(),
            boards == world.boards@,
            n == boards.len(),
            0 <= r <= n,
            uf_inv(boards, p@, rank, bound, n as u64, Seq::empty()),
            roots.len() == groups@.len(),
            forall|g: int| 0 <= g < roots.len() ==> 0 <= #[trigger] roots[g] < r && p@[roots[g]] == roots[g],
            forall|g1: int, g2: int| 0 <= g1 < g2 < roots.len() ==> roots[g1] < roots[g2],
            forall|g: int, x: u64| 0 <= g < groups@.len() ==> (#[trigger] groups@[g]@.contains(x) <==> (
                x < n && uf_root(p@, rank, bound, x as int) == roots[g])),
            forall|g: int, a: int, b: int|
                0 <= g < groups@.len() && 0 <= a < b < groups@[g]@.len() ==> #[trigger] groups@[g]@[a]
                    < #[trigger] groups@[g]@[b],
            forall|x: u64| x < n && 0 <= #[trigger] uf_root(p@, rank, bound, x as int) < r ==> exists|g: int| 0 <= g < groups@.len()
                && #[trigger] roots[g] == uf_root(p@, rank, bound, x as int),
        decreases n - r,
    {
        let ghost old_roots = roots;
        let ghost old_groups = groups@;
        if p[r] == r {
            let m = members_of(&p, Ghost(rank), Ghost(bound), r);
            proof {
                lemma_root(p@, rank, bound, r as int);
            }
            groups.push(m);
            proof {
                roots = roots.push(r as int);
                assert(roots[roots.len() - 1] == r);
                assert forall|g: int, x: u64| 0 <= g < groups@.len() implies (#[trigger] groups@[g]@.contains(x) <==> (
                    x < n && uf_root(p@, rank, bound, x as int) == roots[g])) by {
                    if g < old_groups.len() {
                        assert(groups@[g] == old_groups[g]);
                        assert(roots[g] == old_roots[g]);
                    }
                }
            }
        }
        proof {
            assert forall|x: u64| x < n && 0 <= #[trigger] uf_root(p@, rank, bound, x as int) < r + 1 implies exists|g: int| 0 <= g < groups@.len()
                && #[trigger] roots[g] == uf_root(p@, rank, bound, x as int) by {
                lemma_root(p@, rank, bound, x as int);
                if uf_root(p@, rank, bound, x as int) < r {
                    let g = choose|g: int| 0 <= g < old_groups.len() && #[trigger] old_roots[g] == uf_root(p@, rank, bound, x as int);
                    assert(roots[g] == old_roots[g]);
                } else {
                    assert(roots[roots.len() - 1] == r);
                }
            }
        }
        r = r + 1;
    }
    proof {
        assert forall|g: int| 0 <= g < groups@.len() implies (#[trigger] groups@[g])@.len() > 0 by {
            lemma_root(p@, rank, bound, roots[g]);
            assert(groups@[g]@.contains(roots[g] as u64));
        }
        assert forall|g: int, a: int| 0 <= g < groups@.len() && 0 <= a < groups@[g]@.len() implies #[trigger] groups@[g]@[a]
            < n by {
            assert(groups@[g]@.contains(groups@[g]@[a]));
        }
        assert forall|x: u64| x < n implies #[trigger] in_some_group(groups@, x) by {
            lemma_root(p@, rank, bound, x as int);
            let g = choose|g: int| 0 <= g < groups@.len() && #[trigger] roots[g] == uf_root(p@, rank, bound, x as int);
            assert(groups@[g]@.contains(x));
        }
        assert forall|g1: int, g2: int, x: u64|
            0 <= g1 < groups@.len() && 0 <= g2 < groups@.len() && #[trigger] groups@[g1]@.contains(x)
                && #[trigger] groups@[g2]@.contains(x) implies g1 == g2 by {
            if g1 < g2 {
                assert(roots[g1] < roots[g2]);
            } else if g2 < g1 {
                assert(roots[g2] < roots[g1]);
            }
        }
        let sym = alliance_step(boards);
        assert forall|g: int, x: u64, y: u64|
            0 <= g < groups@.len() && #[trigger] groups@[g]@.contains(x) && #[trigger] groups@[g]@.contains(y)
                implies allied(boards, x, y) by {
            let rt = roots[g] as u64;
            assert(reach(fin, x, uf_root(p@, rank, bound, x as int) as u64));
            assert(reach(fin, y, uf_root(p@, rank, bound, y as int) as u64));
            lemma_reach_mono(fin, sym, x, rt);
            lemma_reach_mono(fin, sym, y, rt);
            lemma_reach_sym(sym, y, rt);
            lemma_reach_trans(sym, x, rt, y);
        }
        assert forall|g: int, x: u64, y: u64|
            0 <= g < groups@.len() && #[trigger] groups@[g]@.contains(x) && y < n
                && #[trigger] allied(boards, x, y) implies groups@[g]@.contains(y) by {
            lemma_reach_mono(sym, fin, x, y);
            lemma_reach_keeps(fin, root_of, x, y);
        }
    }
    proof {
        lemma_cluster_partition_len(world.boards@, groups@);
    }
    groups
}

} // verus!
