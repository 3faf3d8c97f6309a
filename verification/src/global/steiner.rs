//! Decomposes a multi-pin net into two-pin edges by a minimum rectilinear
//! spanning tree (Prim's algorithm over Manhattan distance): a simple
//! approximation to the rectilinear Steiner tree that adds no Steiner
//! points.

use vstd::prelude::*;

use crate::detail::astar::{count_true, lemma_count_bound, lemma_count_update, lemma_count_zero};
use crate::geom::point::Point;
use crate::model::connection::Endpoint;

verus! {

/// One edge of a decomposed multi-pin net: a two-pin connection between
/// two of its endpoints.
#[derive(Debug, PartialEq, Eq)]
pub struct SteinerEdge {
    pub from: Endpoint,
    pub to: Endpoint,
}

impl View for SteinerEdge {
    type V = ((Point, Seq<crate::model::items::LayerId>), (Point, Seq<crate::model::items::LayerId>));

    open spec fn view(&self) -> Self::V {
        (self.from@, self.to@)
    }
}

pub open spec fn abs_i(v: int) -> int {
    if v < 0 {
        -v
    } else {
        v
    }
}

pub open spec fn spec_manhattan(a: Point, b: Point) -> int {
    abs_i(a.x - b.x) + abs_i(a.y - b.y)
}

fn manhattan_distance(a: Point, b: Point) -> (d: i64)
    requires
        a.in_range(),
        b.in_range(),
    ensures
        d == spec_manhattan(a, b),
{
    let dx = if a.x >= b.x { a.x - b.x } else { b.x - a.x };
    let dy = if a.y >= b.y { a.y - b.y } else { b.y - a.y };
    dx + dy
}

/// `ord` lists the `n` vertices in the order they join the tree, starting
/// at vertex 0, and `par[k]` is a vertex already in the tree when
/// `ord[k + 1]` joins it: the edges `(par[k], ord[k + 1])` form a spanning
/// tree.
pub open spec fn tree_order(n: int, ord: Seq<int>, par: Seq<int>) -> bool {
    &&& ord.len() == n
    &&& n >= 1 ==> ord[0] == 0
    &&& forall|k: int| 0 <= k < n ==> 0 <= #[trigger] ord[k] < n
    &&& forall|a: int, b: int| 0 <= a < b < n ==> ord[a] != ord[b]
    &&& par.len() == if n >= 1 { n - 1 } else { 0 }
    &&& forall|k: int| 0 <= k < par.len() ==> #[trigger] joined_by(ord, par[k], k)
}

/// `v` is among `ord[0..=k]`.
pub open spec fn joined_by(ord: Seq<int>, v: int, k: int) -> bool {
    exists|j: int| 0 <= j <= k && ord[j] == v
}

/// The spanning-tree edges `(par[k], ord[k + 1])`, in joining order.
pub open spec fn tree_edges(
    eps: Seq<Endpoint>,
    edges: Seq<SteinerEdge>,
    ord: Seq<int>,
    par: Seq<int>,
) -> bool {
    &&& edges.len() == par.len()
    &&& forall|k: int|
        0 <= k < edges.len() ==> (#[trigger] edges[k]).from@ == eps[par[k]]@ && edges[k].to@ == eps[ord[k
            + 1]]@
}

/// The Manhattan distance between endpoints `i` and `j`.
pub open spec fn dist(eps: Seq<Endpoint>, i: int, j: int) -> int {
    spec_manhattan(eps[i].position, eps[j].position)
}

/// The distance from endpoint `j` to the nearest of the first `k`
/// endpoints in joining order `ord`.
pub open spec fn nearest(eps: Seq<Endpoint>, ord: Seq<int>, k: int, j: int) -> int
    decreases k,
{
    if k <= 1 {
        dist(eps, ord[0], j)
    } else {
        let a = nearest(eps, ord, k - 1, j);
        let b = dist(eps, ord[k - 1], j);
        if b < a {
            b
        } else {
            a
        }
    }
}

/// The earliest-joined of the first `k` endpoints at that nearest
/// distance from `j`.
pub open spec fn nearest_from(eps: Seq<Endpoint>, ord: Seq<int>, k: int, j: int) -> int
    decreases k,
{
    if k <= 1 {
        ord[0]
    } else if dist(eps, ord[k - 1], j) < nearest(eps, ord, k - 1, j) {
        ord[k - 1]
    } else {
        nearest_from(eps, ord, k - 1, j)
    }
}

/// Step `k` of Prim's algorithm: `ord[k]` is, of the endpoints not among
/// the first `k`, the lowest-numbered one nearest to them, and it joins
/// the tree through `par[k - 1]`, the earliest-joined endpoint at that
/// distance.
pub open spec fn prim_step(eps: Seq<Endpoint>, ord: Seq<int>, par: Seq<int>, k: int) -> bool {
    let v = ord[k];
    &&& forall|j: int|
        0 <= j < eps.len() && !joined_by(ord, j, k - 1) ==> nearest(eps, ord, k, v) <= #[trigger] nearest(eps, ord, k, j)
    &&& forall|j: int|
        0 <= j < v && !joined_by(ord, j, k - 1) ==> nearest(eps, ord, k, v) < #[trigger] nearest(eps, ord, k, j)
    &&& par[k - 1] == nearest_from(eps, ord, k, v)
}

proof fn lemma_nearest_push(eps: Seq<Endpoint>, ord: Seq<int>, x: int, k: int, j: int)
    requires
        1 <= k <= ord.len(),
    ensures
        nearest(eps, ord.push(x), k, j) == nearest(eps, ord, k, j),
        nearest_from(eps, ord.push(x), k, j) == nearest_from(eps, ord, k, j),
    decreases k,
{
    if k > 1 {
        lemma_nearest_push(eps, ord, x, k - 1, j);
    }
}

proof fn lemma_joined_push(ord: Seq<int>, x: int, v: int, k: int)
    requires
        0 <= k < ord.len(),
    ensures
        joined_by(ord.push(x), v, k) == joined_by(ord, v, k),
{
    if joined_by(ord, v, k) {
        let m = choose|m: int| 0 <= m <= k && ord[m] == v;
        assert(ord.push(x)[m] == v);
    }
    if joined_by(ord.push(x), v, k) {
        let m = choose|m: int| 0 <= m <= k && ord.push(x)[m] == v;
        assert(ord[m] == v);
    }
}

/// Decomposes a multi-pin net into `n - 1` two-pin edges that connect
/// every endpoint into one tree by Prim's algorithm over Manhattan
/// distance: starting from endpoint 0, each step joins the outside
/// endpoint nearest to the tree (the lowest-numbered on a tie) to its
/// nearest tree endpoint (the earliest joined on a tie). Fewer than two
/// endpoints give no edges.
pub fn minimum_spanning_tree(endpoints: &[Endpoint]) -> (r: Vec<SteinerEdge>)
    requires
        forall|i: int| 0 <= i < endpoints@.len() ==> (#[trigger] endpoints@[i]).position.in_range(),
    ensures
        endpoints@.len() < 2 ==> r@.len() == 0,
        endpoints@.len() >= 2 ==> exists|ord: Seq<int>, par: Seq<int>|
            {
                &&& tree_order(endpoints@.len() as int, ord, par)
                &&& forall|k: int| 1 <= k < endpoints@.len() ==> #[trigger] prim_step(endpoints@, ord, par, k)
                &&& tree_edges(endpoints@, r@, ord, par)
            },
{
    let n = endpoints.len();
    if n < 2 {
        return Vec::new();
    }
    let ghost eps = endpoints@;
    let mut in_tree: Vec<bool> = Vec::new();
    let mut best_distance: Vec<i64> = Vec::new();
    let mut best_from: Vec<usize> = Vec::new();
    let mut j: usize = 0;
    while j < n
        invariant
            j <= n,
            n == endpoints@.len(),
            eps == endpoints@,
            in_tree@.len() == j,
            best_distance@.len() == j,
            best_from@.len() == j,
            forall|i: int| 0 <= i < j ==> in_tree@[i] == (i == 0),
            forall|i: int| 0 <= i < j ==> best_from@[i] == 0,
            forall|i: int| 1 <= i < j ==> best_distance@[i] == dist(eps, 0, i),
            forall|i: int| 0 <= i < endpoints@.len() ==> (#[trigger] endpoints@[i]).position.in_range(),
        decreases n - j,
    {
        in_tree.push(j == 0);
        let d = if j == 0 { 0 } else { manhattan_distance(endpoints[0].position, endpoints[j].position) };
        best_distance.push(d);
        best_from.push(0);
        j += 1;
    }
    let ghost mut ord: Seq<int> = seq![0];
    let ghost mut par: Seq<int> = Seq::empty();
    proof {
        lemma_count_zero(in_tree@.update(0, false), n as int);
        lemma_count_update(in_tree@.update(0, false), n as int, 0);
        assert(in_tree@.update(0, false).update(0, true) =~= in_tree@);
        assert forall|i: int| 0 <= i < n && in_tree@[i] implies #[trigger] joined_by(ord, i, 0) by {
            assert(ord[0] == i);
        }
        assert forall|i: int| 0 <= i < n && !in_tree@[i] implies #[trigger] joined_by(ord, best_from@[i] as int, 0) by {
            assert(ord[0] == best_from@[i] as int);
        }
        assert forall|i: int| 0 <= i < n && joined_by(ord, i, 0) implies in_tree@[i] by {
            let m = choose|m: int| 0 <= m <= 0 && ord[m] == i;
        }
    }
    let mut edges: Vec<SteinerEdge> = Vec::new();
    let mut step: usize = 1;
    while step < n
        invariant
            1 <= step <= n,
            n == endpoints@.len(),
            eps == endpoints@,
            in_tree@.len() == n,
            best_distance@.len() == n,
            best_from@.len() == n,
            forall|i: int| 0 <= i < endpoints@.len() ==> (#[trigger] endpoints@[i]).position.in_range(),
            ord.len() == step,
            ord[0] == 0,
            count_true(in_tree@, n as int) == step,
            forall|k: int| 0 <= k < step ==> 0 <= #[trigger] ord[k] < n && in_tree@[ord[k]],
            forall|i: int| 0 <= i < n && in_tree@[i] ==> #[trigger] joined_by(ord, i, step - 1),
            forall|i: int| 0 <= i < n && joined_by(ord, i, step - 1) ==> #[trigger] in_tree@[i],
            forall|a: int, b: int| 0 <= a < b < step ==> ord[a] != ord[b],
            par.len() == step - 1,
            forall|k: int| 0 <= k < par.len() ==> #[trigger] joined_by(ord, par[k], k),
            forall|i: int| 0 <= i < n && !in_tree@[i] ==> #[trigger] joined_by(ord, best_from@[i] as int, step - 1),
            forall|i: int| 0 <= i < n && !in_tree@[i] ==> #[trigger] best_distance@[i] == nearest(eps, ord, step as int, i),
            forall|i: int| 0 <= i < n && !in_tree@[i] ==> #[trigger] best_from@[i] == nearest_from(eps, ord, step as int, i),
            forall|k: int| 1 <= k < step ==> #[trigger] prim_step(eps, ord, par, k),
            tree_edges(endpoints@, edges@, ord, par),
        decreases n - step,
    {
        proof {
            lemma_count_bound(in_tree@, n as int);
            lemma_some_false(in_tree@, n as int);
        }
        let mut next: usize = 0;
        let mut found = false;
        let mut k: usize = 0;
        while k < n
            invariant
                k <= n,
                n == in_tree@.len(),
                n == best_distance@.len(),
                found ==> next < k && !in_tree@[next as int],
                !found ==> forall|i: int| 0 <= i < k ==> in_tree@[i],
                found ==> forall|i: int| 0 <= i < k && !in_tree@[i] ==> best_distance@[next as int] <= best_distance@[i],
                found ==> forall|i: int| 0 <= i < next && !in_tree@[i] ==> best_distance@[next as int] < best_distance@[i],
            decreases n - k,
        {
            if !in_tree[k] && (!found || best_distance[k] < best_distance[next]) {
                next = k;
                found = true;
            }
            k += 1;
        }
        proof {
            assert(found);
        }
        let ghost in0 = in_tree@;
        let ghost bf0 = best_from@;
        let ghost bd0 = best_distance@;
        let ghost ord0 = ord;
        in_tree.set(next, true);
        proof {
            lemma_count_update(in0, n as int, next as int);
        }
        let from = best_from[next];
        proof {
            assert(joined_by(ord, from as int, step - 1));
            let m = choose|m: int| 0 <= m <= step - 1 && ord[m] == from as int;
            assert(ord[m] < n);
        }
        edges.push(SteinerEdge { from: endpoints[from].duplicate(), to: endpoints[next].duplicate() });
        let ghost par0 = par;
        proof {
            assert(joined_by(ord, best_from@[next as int] as int, step - 1));
            let m = choose|m: int| 0 <= m <= step - 1 && ord[m] == best_from@[next as int] as int;
            par = par.push(from as int);
            ord = ord.push(next as int);
            assert(ord[m] == par[par.len() - 1]);
            assert forall|q: int| 0 <= q < step implies ord[q] != next as int by {
                if ord[q] == next as int {
                    assert(in0[ord0[q]]);
                }
            }
        }
        proof {
            assert forall|k: int| 0 <= k < par.len() implies #[trigger] joined_by(ord, par[k], k) by {
                if k < par0.len() {
                    assert(joined_by(ord0, par0[k], k));
                    let m = choose|m: int| 0 <= m <= k && ord0[m] == par0[k];
                    assert(ord[m] == ord0[m] && par[k] == par0[k]);
                } else {
                    assert(joined_by(ord0, bf0[next as int] as int, step - 1));
                    let m = choose|m: int| 0 <= m <= step - 1 && ord0[m] == bf0[next as int] as int;
                    assert(ord[m] == ord0[m]);
                }
            }
            assert forall|i: int| 0 <= i < n && in_tree@[i] implies #[trigger] joined_by(ord, i, step as int) by {
                if i == next {
                    assert(ord[step as int] == i);
                } else {
                    assert(in0[i]);
                    assert(joined_by(ord0, i, step - 1));
                    let k = choose|k: int| 0 <= k <= step - 1 && ord0[k] == i;
                    assert(ord[k] == ord0[k]);
                }
            }
            assert forall|i: int| 0 <= i < n && joined_by(ord, i, step as int) implies #[trigger] in_tree@[i] by {
                let m = choose|m: int| 0 <= m <= step && ord[m] == i;
                if m < step {
                    assert(ord0[m] == i);
                    assert(joined_by(ord0, i, step - 1));
                }
            }
            assert forall|i: int| 0 <= i < n && !in_tree@[i] implies #[trigger] joined_by(ord, bf0[i] as int, step as int) by {
                assert(!in0[i]);
                assert(joined_by(ord0, bf0[i] as int, step - 1));
                let m = choose|m: int| 0 <= m <= step - 1 && ord0[m] == bf0[i] as int;
                assert(ord[m] == ord0[m]);
            }
            assert forall|k: int| 1 <= k < step implies #[trigger] prim_step(eps, ord, par, k) by {
                lemma_prim_step_push(eps, ord0, par0, next as int, from as int, k);
            }
            assert(prim_step(eps, ord, par, step as int)) by {
                lemma_nearest_push(eps, ord0, next as int, step as int, next as int);
                assert(!in0[next as int]);
                assert(bf0[next as int] == nearest_from(eps, ord0, step as int, next as int));
                assert forall|j: int| 0 <= j < eps.len() && !joined_by(ord, j, step - 1) implies nearest(eps, ord, step as int, next as int)
                    <= #[trigger] nearest(eps, ord, step as int, j) by {
                    lemma_nearest_push(eps, ord0, next as int, step as int, j);
                    lemma_joined_push(ord0, next as int, j, step - 1);
                    assert(!in0[j]);
                    assert(bd0[j] == nearest(eps, ord0, step as int, j));
                    assert(bd0[next as int] == nearest(eps, ord0, step as int, next as int));
                }
                assert forall|j: int| 0 <= j < next && !joined_by(ord, j, step - 1) implies nearest(eps, ord, step as int, next as int)
                    < #[trigger] nearest(eps, ord, step as int, j) by {
                    lemma_nearest_push(eps, ord0, next as int, step as int, j);
                    lemma_joined_push(ord0, next as int, j, step - 1);
                    assert(!in0[j]);
                    assert(bd0[j] == nearest(eps, ord0, step as int, j));
                    assert(bd0[next as int] == nearest(eps, ord0, step as int, next as int));
                }
            }
        }
        update_best(endpoints, &in_tree, &mut best_distance, &mut best_from, next);
        proof {
            assert forall|i: int| 0 <= i < n && !in_tree@[i] implies #[trigger] joined_by(ord, best_from@[i] as int, step as int) by {
                if best_from@[i] == next {
                    assert(ord[step as int] == best_from@[i] as int);
                } else {
                    assert(best_from@[i] == bf0[i]);
                    assert(joined_by(ord, bf0[i] as int, step as int));
                }
            }
            assert forall|i: int| 0 <= i < n && !in_tree@[i] implies #[trigger] best_distance@[i] == nearest(eps, ord, step + 1, i) by {
                lemma_nearest_push(eps, ord0, next as int, step as int, i);
                assert(!in0[i]);
                assert(bd0[i] == nearest(eps, ord0, step as int, i));
                assert(ord[step as int] == next as int);
            }
            assert forall|i: int| 0 <= i < n && !in_tree@[i] implies #[trigger] best_from@[i] == nearest_from(eps, ord, step + 1, i) by {
                lemma_nearest_push(eps, ord0, next as int, step as int, i);
                assert(!in0[i]);
                assert(bd0[i] == nearest(eps, ord0, step as int, i));
                assert(bf0[i] == nearest_from(eps, ord0, step as int, i));
                assert(ord[step as int] == next as int);
            }
        }
        step += 1;
    }
    proof {
        assert(tree_order(n as int, ord, par));
    }
    edges
}

proof fn lemma_prim_step_push(eps: Seq<Endpoint>, ord: Seq<int>, par: Seq<int>, x: int, y: int, k: int)
    requires
        1 <= k < ord.len(),
        k <= par.len(),
        prim_step(eps, ord, par, k),
    ensures
        prim_step(eps, ord.push(x), par.push(y), k),
{
    let o2 = ord.push(x);
    let v = ord[k];
    assert(o2[k] == v);
    lemma_nearest_push(eps, ord, x, k, v);
    assert forall|j: int| 0 <= j < eps.len() && !joined_by(o2, j, k - 1) implies nearest(eps, o2, k, v) <= #[trigger] nearest(
        eps,
        o2,
        k,
        j,
    ) by {
        lemma_nearest_push(eps, ord, x, k, j);
        lemma_joined_push(ord, x, j, k - 1);
    }
    assert forall|j: int| 0 <= j < v && !joined_by(o2, j, k - 1) implies nearest(eps, o2, k, v) < #[trigger] nearest(
        eps,
        o2,
        k,
        j,
    ) by {
        lemma_nearest_push(eps, ord, x, k, j);
        lemma_joined_push(ord, x, j, k - 1);
    }
    assert(par.push(y)[k - 1] == par[k - 1]);
}

/// Lowers each outside vertex's best distance to the tree when `next`,
/// just joined, is nearer.
fn update_best(
    endpoints: &[Endpoint],
    in_tree: &Vec<bool>,
    best_distance: &mut Vec<i64>,
    best_from: &mut Vec<usize>,
    next: usize,
)
    requires
        next < endpoints@.len(),
        in_tree@.len() == endpoints@.len(),
        old(best_distance)@.len() == endpoints@.len(),
        old(best_from)@.len() == endpoints@.len(),
        forall|i: int| 0 <= i < endpoints@.len() ==> (#[trigger] endpoints@[i]).position.in_range(),
    ensures
        final(best_distance)@.len() == endpoints@.len(),
        final(best_from)@.len() == endpoints@.len(),
        forall|i: int|
            0 <= i < endpoints@.len() ==> #[trigger] final(best_from)@[i] == old(best_from)@[i] || final(best_from)@[i]
                == next,
        forall|i: int|
            0 <= i < endpoints@.len() && !in_tree@[i] ==> #[trigger] final(best_distance)@[i] == if dist(endpoints@, next as int, i)
                < old(best_distance)@[i] {
                dist(endpoints@, next as int, i)
            } else {
                old(best_distance)@[i] as int
            },
        forall|i: int|
            0 <= i < endpoints@.len() && !in_tree@[i] ==> #[trigger] final(best_from)@[i] == if dist(endpoints@, next as int, i)
                < old(best_distance)@[i] {
                next
            } else {
                old(best_from)@[i]
            },
{
    let n = endpoints.len();
    let mut q: usize = 0;
    while q < n
        invariant
            q <= n,
            n == endpoints@.len(),
            n == in_tree@.len(),
            n == best_distance@.len(),
            n == best_from@.len(),
            next < n,
            forall|i: int| 0 <= i < endpoints@.len() ==> (#[trigger] endpoints@[i]).position.in_range(),
            forall|i: int| 0 <= i < n ==> #[trigger] best_from@[i] == old(best_from)@[i] || best_from@[i] == next,
            forall|i: int| q <= i < n ==> #[trigger] best_distance@[i] == old(best_distance)@[i],
            forall|i: int| q <= i < n ==> #[trigger] best_from@[i] == old(best_from)@[i],
            forall|i: int|
                0 <= i < q && !in_tree@[i] ==> #[trigger] best_distance@[i] == if dist(endpoints@, next as int, i)
                    < old(best_distance)@[i] {
                    dist(endpoints@, next as int, i)
                } else {
                    old(best_distance)@[i] as int
                },
            forall|i: int|
                0 <= i < q && !in_tree@[i] ==> #[trigger] best_from@[i] == if dist(endpoints@, next as int, i)
                    < old(best_distance)@[i] {
                    next
                } else {
                    old(best_from)@[i]
                },
        decreases n - q,
    {
        if !in_tree[q] {
            let distance = manhattan_distance(endpoints[next].position, endpoints[q].position);
            if distance < best_distance[q] {
                best_distance.set(q, distance);
                best_from.set(q, next);
            }
        }
        q += 1;
    }
}

/// With fewer than `n` entries set, some entry is unset.
proof fn lemma_some_false(s: Seq<bool>, n: int)
    requires
        0 <= n <= s.len(),
        count_true(s, n) < n,
    ensures
        exists|i: int| 0 <= i < n && !s[i],
    decreases n,
{
    if n > 0 {
        if s[n - 1] {
            lemma_some_false(s, n - 1);
        }
    }
}

} // verus!
