//! Graph partitioning for multi-GPU road network distribution.
//!
//! Balanced k-way partitioning by recursive bisection. Each bisection runs a
//! breadth-first search from the first node and assigns nodes to the first
//! half until half of the nodes are reached; the rest form the second half.
//! Edges are assigned to the partition of their source node, and edges whose
//! endpoints lie in different partitions are boundary edges.
use std::collections::{HashMap, HashSet, VecDeque};

use vstd::prelude::*;

use crate::sorting::{lemma_sorted_is_permutation, stable_order_by_key};
use vstd::std_specs::iter::IteratorSpec;

verus! {

broadcast use vstd::std_specs::hash::group_hash_axioms;

/// `y` is listed among the neighbours of `x`.
pub open spec fn adjacent(adj: Map<u32, HashSet<u32>>, x: u32, y: u32) -> bool {
    adj.contains_key(x) && adj[x]@.contains(y)
}

/// The unvisited members of `node_set` adjacent to `x`, each listed once.
fn unvisited_neighbors(
    adj: &HashMap<u32, HashSet<u32>>,
    x: u32,
    node_set: &HashSet<u32>,
    visited: &HashSet<u32>,
) -> (r: Vec<u32>)
    ensures
        r@.no_duplicates(),
        forall|y: u32| #[trigger] r@.contains(y) <==> (adjacent(adj@, x, y) && node_set@.contains(y) && !visited@.contains(y)),
{
    let mut cand: Vec<u32> = Vec::new();
    match adj.get(&x) {
        None => {
            return cand;
        },
        Some(neigh) => {
            let ghost g = vstd::std_specs::hash::spec_hash_keys_iter(neigh).remaining();
            let ghost mut seen: int = 0;
            for y in it: neigh.iter()
                invariant
                    adj@.contains_key(x),
                    *neigh == adj@[x],
                    it.seq() == g,
                    seen == it.index(),
                    g.unref().to_set() == neigh@,
                    cand@.no_duplicates(),
                    forall|z: u32| #[trigger] cand@.contains(z) ==> (neigh@.contains(z) && node_set@.contains(z) && !visited@.contains(z)),
                    forall|z: u32| #[trigger] cand@.contains(z) ==> exists|j: int| 0 <= j < seen && *g[j] == z,
                    forall|j: int| 0 <= j < seen && node_set@.contains(*g[j]) && !visited@.contains(*g[j])
                        ==> cand@.contains(#[trigger] *g[j]),
                    g.no_duplicates(),
            {
                let yy: u32 = *y;
                let ghost before = cand@;
                proof {
                    assert(g[seen] == y);
                }
                if node_set.contains(&yy) && !visited.contains(&yy) {
                    proof {
                        assert(g.unref().to_set().contains(yy)) by {
                            assert(g.unref()[seen] == yy);
                        }
                        if cand@.contains(yy) {
                            let j = choose|j: int| 0 <= j < seen && *g[j] == yy;
                            assert(g[j] == g[seen]);
                            assert(false);
                        }
                    }
                    let ghost old_cand = cand@;
                    cand.push(yy);
                    proof {
                        assert forall|z: u32| #[trigger] cand@.contains(z) implies (neigh@.contains(z) && node_set@.contains(z)
                            && !visited@.contains(z) && exists|j: int| 0 <= j < seen + 1 && *g[j] == z) by {
                            if z != yy {
                                let k = choose|k: int| 0 <= k < cand@.len() && cand@[k] == z;
                                assert(old_cand[k] == z);
                                assert(old_cand.contains(z));
                            } else {
                                assert(*g[seen] == z);
                            }
                        }
                    }
                }
                proof {
                    assert forall|j: int| 0 <= j < seen + 1 && node_set@.contains(*g[j]) && !visited@.contains(*g[j])
                        implies cand@.contains(#[trigger] *g[j]) by {
                        if j < seen {
                            assert(before.contains(*g[j]));
                            let k = choose|k: int| 0 <= k < before.len() && before[k] == *g[j];
                            assert(cand@[k] == before[k]);
                        } else {
                            assert(cand@[cand@.len() - 1] == yy);
                        }
                    }
                    seen = seen + 1;
                }
            }
            proof {
                assert forall|z: u32| neigh@.contains(z) && node_set@.contains(z) && !visited@.contains(z) implies #[trigger] cand@.contains(z) by {
                    assert(g.unref().to_set().contains(z));
                    let j = choose|j: int| 0 <= j < g.unref().len() && g.unref()[j] == z;
                    assert(*g[j] == z);
                }
            }
            return cand;
        },
    }
}

/// The values of `v` in ascending order.
fn sort_ascending(v: Vec<u32>) -> (r: Vec<u32>)
    requires
        v@.no_duplicates(),
    ensures
        r@.no_duplicates(),
        r@.len() == v@.len(),
        forall|z: u32| #[trigger] r@.contains(z) <==> v@.contains(z),
        forall|a: int, b: int| 0 <= a < b < r@.len() ==> r@[a] < r@[b],
{
    let n = v.len();
    let mut keys: Vec<u128> = Vec::new();
    let mut i: usize = 0;
    while i < n
        invariant
            n == v@.len(),
            i <= n,
            keys@.len() == i,
            forall|k: int| 0 <= k < i ==> keys@[k] == v@[k] as u128,
        decreases n - i,
    {
        keys.push(v[i] as u128);
        i = i + 1;
    }
    let order = stable_order_by_key(&keys);
    proof {
        lemma_sorted_is_permutation(keys@, order@, n);
    }
    let mut r: Vec<u32> = Vec::new();
    let mut t: usize = 0;
    while t < n
        invariant
            n == v@.len(),
            keys@.len() == n,
            forall|k: int| 0 <= k < n ==> keys@[k] == v@[k] as u128,
            order@.len() == n,
            crate::sorting::within(order@, 0, n as int),
            crate::sorting::sorted_by_key(keys@, order@),
            t <= n,
            r@.len() == t,
            forall|k: int| 0 <= k < t ==> r@[k] == v@[order@[k] as int],
        decreases n - t,
    {
        r.push(v[order[t]]);
        t = t + 1;
    }
    proof {
        assert forall|a: int, b: int| 0 <= a < b < r@.len() implies r@[a] < r@[b] by {
            assert(crate::sorting::key_lt(keys@, order@[a], order@[b]));
            assert(order@[a] != order@[b]) by {
                assert(order@.no_duplicates());
            }
            assert(v@[order@[a] as int] != v@[order@[b] as int]);
        }
        assert forall|z: u32| #[trigger] r@.contains(z) <==> v@.contains(z) by {
            if v@.contains(z) {
                let k = choose|k: int| 0 <= k < n && v@[k] == z;
                assert(order@.contains(k as usize));
                let p = choose|p: int| 0 <= p < n && order@[p] == k as usize;
                assert(r@[p] == z);
            }
            if r@.contains(z) {
                let p = choose|p: int| 0 <= p < n && r@[p] == z;
                assert(v@[order@[p] as int] == z);
            }
        }
    }
    r
}

/// No neighbour inside `nodes` of a member of `a` lies outside `a`.
pub open spec fn closed_within(adj: Map<u32, HashSet<u32>>, nodes: Seq<u32>, a: Seq<u32>) -> bool {
    forall|x: u32, y: u32| #![trigger a.contains(x), a.contains(y)] a.contains(x) && adjacent(adj, x, y) && nodes.contains(y) ==> a.contains(y)
}

/// Every member of `a` after the first is adjacent to an earlier member.
pub open spec fn grown_by_adjacency(adj: Map<u32, HashSet<u32>>, a: Seq<u32>) -> bool {
    forall|i: int| 0 < i < a.len() ==> #[trigger] adjacent_to_prefix(adj, a, i, a[i])
}

/// `y` is adjacent to one of the first `i` members of `a`.
pub open spec fn adjacent_to_prefix(adj: Map<u32, HashSet<u32>>, a: Seq<u32>, i: int, y: u32) -> bool {
    exists|j: int| 0 <= j < i && #[trigger] adjacent(adj, a[j], y)
}

/// The members of `nodes` not in `a`, in their order in `nodes`.
pub open spec fn nodes_outside(nodes: Seq<u32>, a: Seq<u32>) -> Seq<u32>
    decreases nodes.len(),
{
    if nodes.len() == 0 {
        Seq::empty()
    } else {
        let rest = nodes_outside(nodes.drop_last(), a);
        if a.contains(nodes.last()) {
            rest
        } else {
            rest.push(nodes.last())
        }
    }
}

/// `q` is strictly increasing.
pub open spec fn ascending(q: Seq<u32>) -> bool {
    forall|a: int, b: int| 0 <= a < b < q.len() ==> q[a] < q[b]
}

/// The adjacency relation of neighbour sets.
pub open spec fn linked(adj: Map<u32, HashSet<u32>>) -> spec_fn(u32, u32) -> bool {
    |x: u32, y: u32| adjacent(adj, x, y)
}

/// The members of `ns` related to `x` that are not yet visited.
pub open spec fn fresh_set(rel: spec_fn(u32, u32) -> bool, x: u32, ns: Set<u32>, visited: Set<u32>) -> Set<u32> {
    Set::new(|y: u32| rel(x, y) && ns.contains(y) && !visited.contains(y))
}

/// The members of `fresh_set(rel, x, ns, visited)` in ascending order.
pub open spec fn fresh(rel: spec_fn(u32, u32) -> bool, x: u32, ns: Set<u32>, visited: Set<u32>) -> Seq<u32> {
    choose|q: Seq<u32>| ascending(q) && forall|y: u32| #[trigger] q.contains(y) <==> fresh_set(rel, x, ns, visited).contains(y)
}

/// Breadth-first search within `ns` from the state `(queue, visited, a)`:
/// while `a` holds fewer than `target` nodes and the queue is not empty,
/// the front of the queue joins `a` and its fresh neighbours, ascending,
/// join the queue. The final `a`.
pub open spec fn bfs_run(
    rel: spec_fn(u32, u32) -> bool,
    ns: Set<u32>,
    target: nat,
    queue: Seq<u32>,
    visited: Set<u32>,
    a: Seq<u32>,
) -> Seq<u32>
    decreases target - a.len(),
{
    if queue.len() == 0 || a.len() >= target {
        a
    } else {
        let x = queue[0];
        let nb = fresh(rel, x, ns, visited);
        bfs_run(rel, ns, target, queue.drop_first() + nb, visited.union(nb.to_set()), a.push(x))
    }
}

/// The first group of the bisection of `nodes`: the first half (rounded
/// down) of the breadth-first order from `nodes[0]` within `nodes`, or the
/// whole search when it reaches fewer nodes.
pub open spec fn bfs_group(nodes: Seq<u32>, rel: spec_fn(u32, u32) -> bool) -> Seq<u32> {
    if nodes.len() == 0 {
        Seq::empty()
    } else {
        bfs_run(rel, nodes.to_set(), nodes.len() / 2, seq![nodes[0]], set![nodes[0]], Seq::empty())
    }
}

proof fn lemma_ascending_unique(p: Seq<u32>, q: Seq<u32>)
    requires
        ascending(p),
        ascending(q),
        forall|y: u32| #[trigger] p.contains(y) <==> q.contains(y),
    ensures
        p == q,
{
    if p.len() < q.len() {
        let y = q[p.len() as int];
        assert(q.contains(y));
        assert(p.contains(y));
        let j = choose|j: int| 0 <= j < p.len() && p[j] == y;
        lemma_ascending_prefix(p, q, p.len() - 1);
        assert(q[j] == p[j]);
        assert(q[j] < q[p.len() as int]);
    } else if q.len() < p.len() {
        let y = p[q.len() as int];
        assert(p.contains(y));
        assert(q.contains(y));
        let j = choose|j: int| 0 <= j < q.len() && q[j] == y;
        lemma_ascending_prefix(p, q, q.len() - 1);
        assert(q[j] == p[j]);
        assert(p[j] < p[q.len() as int]);
    }
    if p.len() > 0 {
        lemma_ascending_prefix(p, q, p.len() - 1);
    }
    assert(p =~= q);
}

proof fn lemma_ascending_prefix(p: Seq<u32>, q: Seq<u32>, k: int)
    requires
        ascending(p),
        ascending(q),
        forall|y: u32| #[trigger] p.contains(y) <==> q.contains(y),
        0 <= k < p.len(),
        k < q.len(),
    ensures
        forall|i: int| 0 <= i <= k ==> #[trigger] p[i] == q[i],
    decreases k,
{
    if k > 0 {
        lemma_ascending_prefix(p, q, k - 1);
    }
    if p[k] < q[k] {
        let y = p[k];
        assert(p.contains(y));
        assert(q.contains(y));
        let j = choose|j: int| 0 <= j < q.len() && q[j] == y;
        if j < k {
            assert(p[j] == q[j]);
            assert(p[j] < p[k]);
        } else if j > k {
            assert(q[k] < q[j]);
        }
    } else if q[k] < p[k] {
        let y = q[k];
        assert(q.contains(y));
        assert(p.contains(y));
        let j = choose|j: int| 0 <= j < p.len() && p[j] == y;
        if j < k {
            assert(p[j] == q[j]);
            assert(q[j] < q[k]);
        } else if j > k {
            assert(p[k] < p[j]);
        }
    }
}

/// BFS-based balanced bisection of a node set.
///
/// Starts the search from `nodes[0]` and visits neighbours in ascending id
/// order, staying within `nodes`. The first group takes visited nodes until
/// it holds half of `nodes` (rounded down) or the search runs out; the
/// second group is every other node, in the order of `nodes`.
pub fn bfs_bisect(nodes: &[u32], adj: &HashMap<u32, HashSet<u32>>) -> (r: (Vec<u32>, Vec<u32>))
    ensures
        nodes@.len() == 0 ==> r.0@.len() == 0 && r.1@.len() == 0,
        nodes@.len() > 0 ==> {
            &&& r.0@.no_duplicates()
            &&& forall|i: int| 0 <= i < r.0@.len() ==> nodes@.contains(#[trigger] r.0@[i])
            &&& r.0@.len() <= nodes@.len() / 2
            &&& nodes@.len() >= 2 ==> r.0@.len() > 0 && r.0@[0] == nodes@[0]
            &&& grown_by_adjacency(adj@, r.0@)
            &&& r.0@.len() == nodes@.len() / 2 || closed_within(adj@, nodes@, r.0@)
            &&& r.1@ == nodes_outside(nodes@, r.0@)
        },
        r.0@ == bfs_group(nodes@, linked(adj@)),
{
    let n = nodes.len();
    if n == 0 {
        return (Vec::new(), Vec::new());
    }
    let mut node_set: HashSet<u32> = HashSet::new();
    let mut i: usize = 0;
    while i < n
        invariant
            n == nodes@.len(),
            i <= n,
            forall|z: u32| #[trigger] node_set@.contains(z) <==> nodes@.take(i as int).contains(z),
        decreases n - i,
    {
        let ghost before = node_set@;
        node_set.insert(nodes[i]);
        i = i + 1;
        proof {
            let cur = nodes@.take(i as int);
            let prev = nodes@.take(i - 1);
            assert forall|z: u32| #[trigger] node_set@.contains(z) <==> cur.contains(z) by {
                if cur.contains(z) {
                    let k = choose|k: int| 0 <= k < cur.len() && cur[k] == z;
                    if k < i - 1 {
                        assert(prev[k] == z);
                    }
                }
                if before.contains(z) {
                    let k = choose|k: int| 0 <= k < prev.len() && prev[k] == z;
                    assert(cur[k] == z);
                }
                if z == nodes@[i - 1] {
                    assert(cur[i - 1] == z);
                }
            }
        }
    }
    proof {
        assert(nodes@.take(n as int) =~= nodes@);
    }
    let target_a = n / 2;
    let first = nodes[0];
    let mut visited: HashSet<u32> = HashSet::new();
    let mut queue: VecDeque<u32> = VecDeque::new();
    let mut group_a: Vec<u32> = Vec::new();
    queue.push_back(first);
    visited.insert(first);
    proof {
        assert(nodes@.contains(first)) by {
            assert(nodes@[0] == first);
        }
        assert(queue@ == seq![first]);
        assert forall|x: u32| #[trigger] visited@.contains(x) <==> (group_a@.contains(x) || queue@.contains(x)) by {
            if queue@.contains(x) {
                let k = choose|k: int| 0 <= k < queue@.len() && queue@[k] == x;
                assert(k == 0);
            }
            if x == first {
                assert(queue@[0] == x);
            }
        }
    }
    proof {
        assert(visited@ =~= set![first]);
        assert(node_set@ =~= nodes@.to_set());
    }
    let ghost ns = nodes@.to_set();
    let ghost rel = linked(adj@);
    let ghost goal = bfs_group(nodes@, rel);
    loop
        invariant_except_break
            bfs_run(rel, ns, target_a as nat, queue@, visited@, group_a@) == goal,
            forall|x: u32| #[trigger] visited@.contains(x) <==> (group_a@.contains(x) || queue@.contains(x)),
            forall|k: int| 0 <= k < queue@.len() ==> group_a@.len() == 0
                || #[trigger] adjacent_to_prefix(adj@, group_a@, group_a@.len() as int, queue@[k]),
            group_a@.len() == 0 ==> queue@ == seq![first],
            forall|x: u32, y: u32| #![trigger group_a@.contains(x), visited@.contains(y)] group_a@.contains(x) && adjacent(adj@, x, y)
                && nodes@.contains(y) ==> visited@.contains(y),
            queue@.no_duplicates(),
            forall|x: u32| #[trigger] group_a@.contains(x) ==> !queue@.contains(x),
            forall|x: u32| #[trigger] visited@.contains(x) ==> nodes@.contains(x),
        invariant
            n == nodes@.len(),
            n > 0,
            target_a == n / 2,
            first == nodes@[0],
            forall|z: u32| #[trigger] node_set@.contains(z) <==> nodes@.contains(z),
            group_a@.len() <= target_a,
            group_a@.no_duplicates(),
            forall|i: int| 0 <= i < group_a@.len() ==> nodes@.contains(#[trigger] group_a@[i]),
            group_a@.len() > 0 ==> group_a@[0] == first,
            grown_by_adjacency(adj@, group_a@),
            ns == nodes@.to_set(),
            node_set@ == ns,
            rel == linked(adj@),
            goal == bfs_group(nodes@, rel),
        ensures
            group_a@ == goal,
            group_a@.len() == target_a || (queue@.len() == 0 && closed_within(adj@, nodes@, group_a@)),
            target_a > 0 ==> group_a@.len() > 0,
        decreases target_a - group_a@.len(),
    {
        let ghost q0 = queue@;
        match queue.pop_front() {
            None => {
                proof {
                    assert forall|x: u32, y: u32| #![trigger group_a@.contains(x), group_a@.contains(y)]
                        group_a@.contains(x) && adjacent(adj@, x, y) && nodes@.contains(y) implies group_a@.contains(y) by {
                        assert(visited@.contains(y));
                    }
                }
                break;
            },
            Some(node) => {
                if group_a.len() >= target_a {
                    break;
                }
                let ghost a0 = group_a@;
                let ghost v0 = visited@;
                proof {
                    assert(q0[0] == node);
                    assert(visited@.contains(node));
                    assert(!a0.contains(node));
                    assert(queue@ =~= q0.drop_first());
                }
                group_a.push(node);
                proof {
                    assert(group_a@.last() == node);
                    assert forall|x: u32| #[trigger] group_a@.contains(x) <==> (a0.contains(x) || x == node) by {
                        if group_a@.contains(x) {
                            let k = choose|k: int| 0 <= k < group_a@.len() && group_a@[k] == x;
                            if k < a0.len() {
                                assert(a0[k] == x);
                            }
                        }
                        if a0.contains(x) {
                            let k = choose|k: int| 0 <= k < a0.len() && a0[k] == x;
                            assert(group_a@[k] == x);
                        }
                    }
                    assert forall|x: u32| #[trigger] queue@.contains(x) implies q0.contains(x) && x != node by {
                        {
                            let k = choose|k: int| 0 <= k < queue@.len() && queue@[k] == x;
                            assert(q0[k + 1] == x);
                            assert(q0.no_duplicates());
                        }
                    }
                    assert(group_a@.no_duplicates()) by {
                        assert forall|p: int, q: int| 0 <= p < q < group_a@.len() implies group_a@[p] != group_a@[q] by {
                            if q == group_a@.len() - 1 {
                                assert(a0.contains(group_a@[p])) by {
                                    assert(a0[p] == group_a@[p]);
                                }
                            } else {
                                assert(a0[p] == group_a@[p]);
                                assert(a0[q] == group_a@[q]);
                            }
                        }
                    }
                    assert(group_a@.len() > 0 ==> group_a@[0] == first) by {
                        if a0.len() == 0 {
                            assert(q0 == seq![first]);
                        } else {
                            assert(group_a@[0] == a0[0]);
                        }
                    }
                    assert(grown_by_adjacency(adj@, group_a@)) by {
                        assert forall|i: int| 0 < i < group_a@.len() implies #[trigger] adjacent_to_prefix(adj@, group_a@, i, group_a@[i]) by {
                            if i < a0.len() {
                                assert(adjacent_to_prefix(adj@, a0, i, a0[i]));
                                let j = choose|j: int| 0 <= j < i && #[trigger] adjacent(adj@, a0[j], a0[i]);
                                assert(group_a@[j] == a0[j]);
                                assert(group_a@[i] == a0[i]);
                                assert(adjacent(adj@, group_a@[j], group_a@[i]));
                            } else {
                                assert(a0.len() > 0);
                                assert(adjacent_to_prefix(adj@, a0, a0.len() as int, q0[0]));
                                let j = choose|j: int| 0 <= j < a0.len() && #[trigger] adjacent(adj@, a0[j], q0[0]);
                                assert(group_a@[j] == a0[j]);
                                assert(adjacent(adj@, group_a@[j], group_a@[i]));
                            }
                        }
                    }
                }
                let cand = unvisited_neighbors(adj, node, &node_set, &visited);
                let sorted = sort_ascending(cand);
                proof {
                    let fs = fresh_set(rel, node, ns, v0);
                    assert(ascending(sorted@));
                    assert forall|y: u32| #[trigger] sorted@.contains(y) <==> fs.contains(y) by {}
                    let f = fresh(rel, node, ns, v0);
                    assert(ascending(f) && forall|y: u32| #[trigger] f.contains(y) <==> fs.contains(y));
                    lemma_ascending_unique(f, sorted@);
                }
                let ghost qa = queue@;
                let mut t: usize = 0;
                while t < sorted.len()
                    invariant
                        t <= sorted@.len(),
                        sorted@.no_duplicates(),
                        forall|y: u32| #[trigger] sorted@.contains(y) <==> (adjacent(adj@, node, y) && node_set@.contains(y) && !v0.contains(y)),
                        forall|x: u32| #[trigger] visited@.contains(x) <==> (v0.contains(x) || sorted@.take(t as int).contains(x)),
                        queue@ == qa + sorted@.take(t as int),
                    decreases sorted@.len() - t,
                {
                    let c = sorted[t];
                    let ghost vb = visited@;
                    proof {
                        let cur = sorted@.take(t as int);
                        assert(!cur.contains(c)) by {
                            if cur.contains(c) {
                                let k = choose|k: int| 0 <= k < cur.len() && cur[k] == c;
                                assert(sorted@[k] == sorted@[t as int]);
                            }
                        }
                        assert(sorted@.contains(c));
                    }
                    if !visited.contains(&c) {
                        visited.insert(c);
                        queue.push_back(c);
                    }
                    t = t + 1;
                    proof {
                        assert(sorted@.take(t as int) =~= sorted@.take(t - 1).push(c));
                        let cur = sorted@.take(t as int);
                        let prev = sorted@.take(t - 1);
                        assert forall|x: u32| #[trigger] visited@.contains(x) <==> (v0.contains(x) || cur.contains(x)) by {
                            if cur.contains(x) && x != c {
                                let k = choose|k: int| 0 <= k < cur.len() && cur[k] == x;
                                assert(prev[k] == x);
                            }
                            if prev.contains(x) {
                                let k = choose|k: int| 0 <= k < prev.len() && prev[k] == x;
                                assert(cur[k] == x);
                            }
                            assert(cur[t - 1] == c);
                        }
                    }
                }
                proof {
                    assert(sorted@.take(sorted@.len() as int) =~= sorted@);
                    let sq = sorted@;
                    assert forall|x: u32| #[trigger] sq.contains(x) implies !v0.contains(x) && x != node && nodes@.contains(x) by {}
                    assert forall|x: u32| #[trigger] visited@.contains(x) <==> (group_a@.contains(x) || queue@.contains(x)) by {
                        if queue@.contains(x) {
                            let k = choose|k: int| 0 <= k < queue@.len() && queue@[k] == x;
                            if k < qa.len() {
                                assert(qa[k] == x);
                                assert(qa.contains(x));
                            } else {
                                assert(sq[k - qa.len()] == x);
                                assert(sq.contains(x));
                            }
                        }
                        if qa.contains(x) {
                            let k = choose|k: int| 0 <= k < qa.len() && qa[k] == x;
                            assert(queue@[k] == x);
                        }
                        if sq.contains(x) {
                            let k = choose|k: int| 0 <= k < sq.len() && sq[k] == x;
                            assert(queue@[qa.len() + k] == x);
                        }
                        if v0.contains(x) {
                            if a0.contains(x) {
                            } else {
                                assert(q0.contains(x));
                                if x != node {
                                    let k = choose|k: int| 0 <= k < q0.len() && q0[k] == x;
                                    assert(k != 0);
                                    assert(qa[k - 1] == x);
                                    assert(qa.contains(x));
                                }
                            }
                        }
                    }
                    assert(queue@.no_duplicates()) by {
                        assert forall|p: int, q: int| 0 <= p < q < queue@.len() implies queue@[p] != queue@[q] by {
                            if q < qa.len() {
                                assert(qa[p] == queue@[p]);
                                assert(qa[q] == queue@[q]);
                                assert(q0[p + 1] == qa[p]);
                                assert(q0[q + 1] == qa[q]);
                            } else if p < qa.len() {
                                assert(qa[p] == queue@[p]);
                                assert(qa.contains(queue@[p]));
                                assert(sq[q - qa.len()] == queue@[q]);
                                assert(sq.contains(queue@[q]));
                            } else {
                                assert(sq[p - qa.len()] == queue@[p]);
                                assert(sq[q - qa.len()] == queue@[q]);
                            }
                        }
                    }
                    assert forall|x: u32| #[trigger] group_a@.contains(x) implies !queue@.contains(x) by {
                        if queue@.contains(x) {
                            let k = choose|k: int| 0 <= k < queue@.len() && queue@[k] == x;
                            if k < qa.len() {
                                assert(qa[k] == x);
                                assert(qa.contains(x));
                            } else {
                                assert(sq[k - qa.len()] == x);
                                assert(sq.contains(x));
                            }
                        }
                    }
                    let al = a0.len() as int;
                    assert forall|k: int| 0 <= k < queue@.len() implies group_a@.len() == 0
                        || #[trigger] adjacent_to_prefix(adj@, group_a@, group_a@.len() as int, queue@[k]) by {
                        if k < qa.len() {
                            assert(qa[k] == queue@[k]);
                            assert(q0[k + 1] == qa[k]);
                            assert(a0.len() > 0) by {
                                if a0.len() == 0 {
                                    assert(q0.len() == 1);
                                }
                            }
                            assert(adjacent_to_prefix(adj@, a0, a0.len() as int, q0[k + 1]));
                            let j = choose|j: int| 0 <= j < a0.len() && #[trigger] adjacent(adj@, a0[j], q0[k + 1]);
                            assert(group_a@[j] == a0[j]);
                            assert(adjacent(adj@, group_a@[j], queue@[k]));
                        } else {
                            assert(sq[k - qa.len()] == queue@[k]);
                            assert(sq.contains(queue@[k]));
                            assert(group_a@[al] == node);
                            assert(adjacent(adj@, group_a@[al], queue@[k]));
                        }
                    }
                    assert forall|x: u32, y: u32| #![trigger group_a@.contains(x), visited@.contains(y)]
                        group_a@.contains(x) && adjacent(adj@, x, y) && nodes@.contains(y) implies visited@.contains(y) by {
                        if x == node {
                            if !v0.contains(y) {
                                assert(sq.contains(y));
                            }
                        } else {
                            assert(a0.contains(x));
                        }
                    }
                    assert forall|x: u32| #[trigger] visited@.contains(x) implies nodes@.contains(x) by {
                        if sq.contains(x) {
                        } else {
                            assert(v0.contains(x));
                        }
                    }
                    {
                        assert(visited@ =~= v0.union(sq.to_set())) by {
                            assert forall|x: u32| #[trigger] visited@.contains(x) <==> v0.union(sq.to_set()).contains(x) by {
                                if sq.contains(x) {
                                    assert(sq.to_set().contains(x));
                                }
                            }
                        }
                        assert(queue@ =~= q0.drop_first() + sq);
                        assert(group_a@ =~= a0.push(node));
                        assert(q0.len() > 0 && a0.len() < target_a);
                        assert(fresh(rel, node, ns, v0) == sq);
                        assert(bfs_run(rel, ns, target_a as nat, q0, v0, a0) == bfs_run(rel, ns, target_a as nat, queue@, visited@, group_a@));
                    }
                }
            },
        }
    }
    let ghost ga = group_a@;
    while group_a.len() < target_a
        invariant
            n == nodes@.len(),
            target_a == n / 2,
            group_a@ == ga,
            group_a@.len() <= target_a,
            group_a@.len() < target_a ==> queue@.len() == 0,
        decreases target_a - group_a@.len(),
    {
        match queue.pop_front() {
            Some(x) => {
                group_a.push(x);
            },
            None => {
                break;
            },
        }
    }
    let mut a_set: HashSet<u32> = HashSet::new();
    let mut k: usize = 0;
    while k < group_a.len()
        invariant
            k <= group_a@.len(),
            forall|z: u32| #[trigger] a_set@.contains(z) <==> group_a@.take(k as int).contains(z),
        decreases group_a@.len() - k,
    {
        let ghost before = a_set@;
        a_set.insert(group_a[k]);
        k = k + 1;
        proof {
            let cur = group_a@.take(k as int);
            let prev = group_a@.take(k - 1);
            assert forall|z: u32| #[trigger] a_set@.contains(z) <==> cur.contains(z) by {
                if cur.contains(z) {
                    let j = choose|j: int| 0 <= j < cur.len() && cur[j] == z;
                    if j < k - 1 {
                        assert(prev[j] == z);
                    }
                }
                if before.contains(z) {
                    let j = choose|j: int| 0 <= j < prev.len() && prev[j] == z;
                    assert(cur[j] == z);
                }
                if z == group_a@[k - 1] {
                    assert(cur[k - 1] == z);
                }
            }
        }
    }
    proof {
        assert(group_a@.take(group_a@.len() as int) =~= group_a@);
    }
    let mut group_b: Vec<u32> = Vec::new();
    let mut m: usize = 0;
    while m < n
        invariant
            n == nodes@.len(),
            m <= n,
            forall|z: u32| #[trigger] a_set@.contains(z) <==> group_a@.contains(z),
            group_b@ == nodes_outside(nodes@.take(m as int), group_a@),
        decreases n - m,
    {
        let x = nodes[m];
        if !a_set.contains(&x) {
            group_b.push(x);
        }
        m = m + 1;
        proof {
            assert(nodes@.take(m as int).drop_last() =~= nodes@.take(m - 1));
        }
    }
    proof {
        assert(nodes@.take(n as int) =~= nodes@);
    }
    (group_a, group_b)
}

/// The nodes outside a group are exactly the members of `nodes` not in it,
/// and fewer than `nodes` when the group holds one of them.
pub proof fn lemma_nodes_outside(nodes: Seq<u32>, a: Seq<u32>)
    ensures
        forall|x: u32| #[trigger] nodes_outside(nodes, a).contains(x) <==> (nodes.contains(x) && !a.contains(x)),
        nodes_outside(nodes, a).len() <= nodes.len(),
        (exists|i: int| 0 <= i < nodes.len() && a.contains(#[trigger] nodes[i])) ==> nodes_outside(nodes, a).len() < nodes.len(),
    decreases nodes.len(),
{
    if nodes.len() > 0 {
        let init = nodes.drop_last();
        lemma_nodes_outside(init, a);
        let rest = nodes_outside(init, a);
        assert forall|x: u32| #[trigger] nodes_outside(nodes, a).contains(x) <==> (nodes.contains(x) && !a.contains(x)) by {
            if nodes.contains(x) && !a.contains(x) {
                let k = choose|k: int| 0 <= k < nodes.len() && nodes[k] == x;
                if k < nodes.len() - 1 {
                    assert(init[k] == x);
                    assert(rest.contains(x));
                    let m = choose|m: int| 0 <= m < rest.len() && rest[m] == x;
                    if !a.contains(nodes.last()) {
                        assert(rest.push(nodes.last())[m] == x);
                    }
                } else {
                    assert(rest.push(nodes.last())[rest.len() as int] == x);
                }
            }
            if nodes_outside(nodes, a).contains(x) {
                let m = choose|m: int| 0 <= m < nodes_outside(nodes, a).len() && nodes_outside(nodes, a)[m] == x;
                if m < rest.len() {
                    assert(rest[m] == x);
                    assert(rest.contains(x));
                    let k = choose|k: int| 0 <= k < init.len() && init[k] == x;
                    assert(nodes[k] == x);
                } else {
                    assert(x == nodes.last());
                }
            }
        }
        if exists|i: int| 0 <= i < nodes.len() && a.contains(#[trigger] nodes[i]) {
            let i = choose|i: int| 0 <= i < nodes.len() && a.contains(#[trigger] nodes[i]);
            if i < nodes.len() - 1 {
                assert(init[i] == nodes[i]);
                assert(a.contains(init[i]));
            }
        }
    }
}

/// The search only appends to its group, and never past the target size;
/// with work left it adds at least one node.
pub proof fn lemma_bfs_run_grows(
    rel: spec_fn(u32, u32) -> bool,
    ns: Set<u32>,
    target: nat,
    queue: Seq<u32>,
    visited: Set<u32>,
    a: Seq<u32>,
)
    requires
        a.len() <= target,
    ensures
        a.len() <= bfs_run(rel, ns, target, queue, visited, a).len() <= target,
        forall|i: int| 0 <= i < a.len() ==> #[trigger] bfs_run(rel, ns, target, queue, visited, a)[i] == a[i],
        queue.len() > 0 && a.len() < target ==> bfs_run(rel, ns, target, queue, visited, a).len() > a.len(),
    decreases target - a.len(),
{
    if !(queue.len() == 0 || a.len() >= target) {
        let x = queue[0];
        let nb = fresh(rel, x, ns, visited);
        lemma_bfs_run_grows(rel, ns, target, queue.drop_first() + nb, visited.union(nb.to_set()), a.push(x));
        let r = bfs_run(rel, ns, target, queue, visited, a);
        assert forall|i: int| 0 <= i < a.len() implies #[trigger] r[i] == a[i] by {
            assert(a.push(x)[i] == a[i]);
        }
    }
}

/// The first group of a bisection of two or more nodes is not empty, holds
/// at most half of them, and starts with the first node.
pub proof fn lemma_bfs_group_size(nodes: Seq<u32>, rel: spec_fn(u32, u32) -> bool)
    requires
        nodes.len() >= 2,
    ensures
        0 < bfs_group(nodes, rel).len() <= nodes.len() / 2,
        bfs_group(nodes, rel)[0] == nodes[0],
{
    let ns = nodes.to_set();
    let target = (nodes.len() / 2) as nat;
    let x = nodes[0];
    let q = seq![x];
    let nb = fresh(rel, x, ns, set![x]);
    lemma_bfs_run_grows(rel, ns, target, q.drop_first() + nb, set![x].union(nb.to_set()), Seq::<u32>::empty().push(x));
    assert(Seq::<u32>::empty().push(x)[0] == x);
}

/// `m` with `offset` added to every value.
pub open spec fn shifted(m: Map<u32, u32>, offset: u32) -> Map<u32, u32> {
    Map::new(|x: u32| m.contains_key(x), |x: u32| (m[x] + offset) as u32)
}

/// The partition of `nodes` into `k` parts by recursive bisection under
/// adjacency `rel`: with `k <= 1` or at most one node, every node is in
/// part 0; otherwise the nodes are bisected, and with `k == 2` the halves
/// are parts 0 and 1, while with more the first half is split into
/// `ceil(k / 2)` parts and the second half into the rest, numbered after.
pub open spec fn bisect_parts(nodes: Seq<u32>, rel: spec_fn(u32, u32) -> bool, k: u32) -> Map<u32, u32>
    decreases nodes.len(),
{
    if k <= 1 || nodes.len() <= 1 {
        Map::new(|x: u32| nodes.contains(x), |x: u32| 0u32)
    } else {
        let a = bfs_group(nodes, rel);
        let b = nodes_outside(nodes, a);
        proof {
            lemma_bfs_group_size(nodes, rel);
            lemma_nodes_outside(nodes, a);
            assert(a.contains(nodes[0]));
            assert(a.contains(nodes[0 as int]));
        }
        if k == 2 {
            Map::new(|x: u32| a.contains(x) || b.contains(x), |x: u32| if b.contains(x) { 1u32 } else { 0u32 })
        } else {
            let ka = (k / 2 + k % 2) as u32;
            let kb = (k - ka) as u32;
            let kb1: u32 = if kb > 1 { kb } else { 1 };
            bisect_parts(a, rel, ka).union_prefer_right(shifted(bisect_parts(b, rel, kb1), ka))
        }
    }
}

/// Copy every entry of `src` into `dst`, adding `offset` to its value.
fn insert_shifted(dst: &mut HashMap<u32, u32>, src: &HashMap<u32, u32>, offset: u32, Ghost(bound): Ghost<int>)
    requires
        forall|x: u32| #[trigger] src@.contains_key(x) ==> src@[x] + offset < bound,
        bound <= u32::MAX + 1,
    ensures
        final(dst)@.dom() == old(dst)@.dom().union(src@.dom()),
        forall|x: u32| #[trigger] src@.contains_key(x) ==> final(dst)@[x] == src@[x] + offset,
        forall|x: u32| old(dst)@.contains_key(x) && !src@.contains_key(x) ==> #[trigger] final(dst)@[x] == old(dst)@[x],
{
    let ghost g = vstd::std_specs::hash::spec_hash_map_iter(src).remaining();
    let ghost d0 = dst@;
    let ghost mut seen: int = 0;
    proof {
        assert(g.len() == src@.dom().len());
    }
    for e in it: src.iter()
        invariant
            it.seq() == g,
            seen == it.index(),
            forall|x: u32| #[trigger] src@.contains_key(x) ==> src@[x] + offset < bound,
            bound <= u32::MAX + 1,
            g.no_duplicates(),
            forall|i: int| 0 <= i < g.len() ==> src@.contains_key(*g[i].0) && src@[*g[i].0] == *g[i].1,
            forall|x: u32| #[trigger] src@.contains_key(x) ==> g.contains((&x, &src@[x])),
            dst@.dom() == d0.dom().union(Set::new(|x: u32| exists|i: int| 0 <= i < seen && *g[i].0 == x)),
            forall|i: int| 0 <= i < seen ==> #[trigger] dst@[*g[i].0] == *g[i].1 + offset,
            forall|x: u32| #[trigger] d0.contains_key(x) && !src@.contains_key(x) ==> dst@[x] == d0[x],
    {
        let key: u32 = *e.0;
        let val: u32 = *e.1;
        proof {
            assert(g[seen] == e);
            assert(src@.contains_key(key));
        }
        let ghost before = dst@;
        dst.insert(key, val + offset);
        proof {
            assert forall|i: int| 0 <= i < seen + 1 implies #[trigger] dst@[*g[i].0] == *g[i].1 + offset by {
                if i < seen && *g[i].0 != key {
                    assert(before[*g[i].0] == *g[i].1 + offset);
                } else if i < seen {
                    assert(g[i].1 == g[seen].1);
                }
            }
            assert(dst@.dom() =~= d0.dom().union(Set::new(|x: u32| exists|i: int| 0 <= i < seen + 1 && *g[i].0 == x))) by {
                assert forall|x: u32| dst@.dom().contains(x) implies d0.dom().union(Set::new(|x: u32| exists|i: int| 0 <= i < seen + 1 && *g[i].0 == x)).contains(x) by {
                    if x != key {
                        assert(before.dom().contains(x));
                        if !d0.dom().contains(x) {
                            let i = choose|i: int| 0 <= i < seen && *g[i].0 == x;
                            assert(exists|i: int| 0 <= i < seen + 1 && *g[i].0 == x);
                        }
                    } else {
                        assert(*g[seen].0 == x);
                    }
                }
                assert forall|x: u32| d0.dom().union(Set::new(|x: u32| exists|i: int| 0 <= i < seen + 1 && *g[i].0 == x)).contains(x) implies dst@.dom().contains(x) by {
                    if x != key && !d0.dom().contains(x) {
                        let i = choose|i: int| 0 <= i < seen + 1 && *g[i].0 == x;
                        assert(i < seen);
                        assert(Set::new(|x: u32| exists|i: int| 0 <= i < seen && *g[i].0 == x).contains(x));
                    }
                }
            }
            seen = seen + 1;
        }
    }
    proof {
        assert forall|x: u32| #[trigger] src@.contains_key(x) implies dst@[x] == src@[x] + offset by {
            assert(g.contains((&x, &src@[x])));
            let i = choose|i: int| 0 <= i < g.len() && g[i] == (&x, &src@[x]);
            assert(dst@[*g[i].0] == *g[i].1 + offset);
        }
        assert(dst@.dom() =~= d0.dom().union(src@.dom())) by {
            assert forall|x: u32| src@.dom().contains(x) implies dst@.dom().contains(x) by {
                assert(g.contains((&x, &src@[x])));
                let i = choose|i: int| 0 <= i < g.len() && g[i] == (&x, &src@[x]);
                assert(Set::new(|x: u32| exists|i: int| 0 <= i < seen && *g[i].0 == x).contains(x));
            }
            assert forall|x: u32| dst@.dom().contains(x) && !d0.dom().contains(x) implies src@.dom().contains(x) by {
                assert(Set::new(|x: u32| exists|i: int| 0 <= i < seen && *g[i].0 == x).contains(x));
                let i = choose|i: int| 0 <= i < seen && *g[i].0 == x;
            }
        }
    }
}

/// Map every node of `nodes` to `value`.
fn assign_all(dst: &mut HashMap<u32, u32>, nodes: &[u32], value: u32)
    ensures
        final(dst)@.dom() == old(dst)@.dom().union(nodes@.to_set()),
        forall|x: u32| #[trigger] nodes@.contains(x) ==> final(dst)@[x] == value,
        forall|x: u32| old(dst)@.contains_key(x) && !nodes@.contains(x) ==> #[trigger] final(dst)@[x] == old(dst)@[x],
{
    let ghost d0 = dst@;
    let mut i: usize = 0;
    while i < nodes.len()
        invariant
            i <= nodes@.len(),
            dst@.dom() == d0.dom().union(nodes@.take(i as int).to_set()),
            forall|x: u32| #[trigger] nodes@.take(i as int).contains(x) ==> dst@[x] == value,
            forall|x: u32| d0.contains_key(x) && !nodes@.take(i as int).contains(x) ==> #[trigger] dst@[x] == d0[x],
        decreases nodes@.len() - i,
    {
        let ghost prev = nodes@.take(i as int);
        dst.insert(nodes[i], value);
        i = i + 1;
        proof {
            let cur = nodes@.take(i as int);
            assert(cur =~= prev.push(nodes@[i - 1]));
            assert forall|x: u32| #[trigger] cur.contains(x) <==> (prev.contains(x) || x == nodes@[i - 1]) by {
                if cur.contains(x) {
                    let k = choose|k: int| 0 <= k < cur.len() && cur[k] == x;
                    if k < prev.len() {
                        assert(prev[k] == x);
                    }
                }
                if prev.contains(x) {
                    let k = choose|k: int| 0 <= k < prev.len() && prev[k] == x;
                    assert(cur[k] == x);
                }
                if x == nodes@[i - 1] {
                    assert(cur[i - 1] == x);
                }
            }
            assert(dst@.dom() =~= d0.dom().union(cur.to_set()));
        }
    }
    proof {
        assert(nodes@.take(nodes@.len() as int) =~= nodes@);
    }
}

/// Recursively bisect `nodes` into `k` partitions (at least one).
///
/// Returns node id -> partition id. With `k <= 1` or at most one node every
/// node goes to partition 0. Otherwise the nodes are bisected; with `k == 2`
/// the halves are partitions 0 and 1, and with more the first half gets
/// `ceil(k / 2)` partitions and the second half the rest, numbered after them.
pub fn recursive_bisect(nodes: &[u32], adj: &HashMap<u32, HashSet<u32>>, k: u32) -> (r: HashMap<u32, u32>)
    ensures
        r@.dom() == nodes@.to_set(),
        k <= 1 || nodes@.len() <= 1 ==> forall|x: u32| #[trigger] r@.contains_key(x) ==> r@[x] == 0,
        k >= 1 ==> forall|x: u32| #[trigger] r@.contains_key(x) ==> r@[x] < k,
        r@ == bisect_parts(nodes@, linked(adj@), k),
    decreases nodes@.len(),
{
    let mut result: HashMap<u32, u32> = HashMap::new();
    if k <= 1 || nodes.len() <= 1 {
        assign_all(&mut result, nodes, 0);
        proof {
            assert(result@.dom() =~= nodes@.to_set());
            assert(result@ =~= Map::new(|x: u32| nodes@.contains(x), |x: u32| 0u32));
        }
        return result;
    }
    let (group_a, group_b) = bfs_bisect(nodes, adj);
    proof {
        lemma_nodes_outside(nodes@, group_a@);
        assert(group_a@.contains(nodes@[0])) by {
            assert(group_a@[0] == nodes@[0]);
        }
        assert forall|x: u32| #[trigger] nodes@.contains(x) <==> (group_a@.contains(x) || group_b@.contains(x)) by {
            if group_a@.contains(x) {
                let i = choose|i: int| 0 <= i < group_a@.len() && group_a@[i] == x;
            }
        }
        assert(group_b@.len() < nodes@.len());
    }
    if k == 2 {
        assign_all(&mut result, group_a.as_slice(), 0);
        assign_all(&mut result, group_b.as_slice(), 1);
        proof {
            assert(result@.dom() =~= nodes@.to_set());
            {
                let a = bfs_group(nodes@, linked(adj@));
                let b = nodes_outside(nodes@, a);
                assert(result@ =~= Map::new(|x: u32| a.contains(x) || b.contains(x), |x: u32| if b.contains(x) { 1u32 } else { 0u32 }));
            }
        }
        return result;
    }
    let k_a = k / 2 + k % 2;
    let k_b = k - k_a;
    let sub_a = recursive_bisect(group_a.as_slice(), adj, k_a);
    insert_shifted(&mut result, &sub_a, 0, Ghost(k as int));
    let k_b1 = if k_b > 1 { k_b } else { 1 };
    let sub_b = recursive_bisect(group_b.as_slice(), adj, k_b1);
    insert_shifted(&mut result, &sub_b, k_a, Ghost(k as int));
    proof {
        assert(result@.dom() =~= nodes@.to_set()) by {
            assert(sub_a@.dom() == group_a@.to_set());
            assert(sub_b@.dom() == group_b@.to_set());
        }
        {
            assert(result@ =~= sub_a@.union_prefer_right(shifted(sub_b@, k_a)));
        }
    }
    result
}

/// The road network's topology: node ids are `0..node_count`, and edge `i`
/// (its id) runs from `edges[i].0` to `edges[i].1`.
#[derive(Debug, Clone)]
pub struct RoadTopology {
    /// Number of nodes; node ids are `0..node_count`.
    pub node_count: u32,
    /// `(source, target)` of each edge, indexed by edge id.
    pub edges: Vec<(u32, u32)>,
}

impl RoadTopology {
    /// Every edge joins two existing nodes, and edge ids fit in a `u32`.
    pub open spec fn wf(&self) -> bool {
        &&& self.edges@.len() <= u32::MAX
        &&& forall|i: int| 0 <= i < self.edges@.len() ==> (#[trigger] self.edges@[i]).0 < self.node_count
            && self.edges@[i].1 < self.node_count
    }
}

/// Assignment of edges to partitions with boundary information.
#[derive(Debug, Clone)]
pub struct PartitionAssignment {
    /// Map from edge id to partition id.
    pub edge_to_partition: HashMap<u32, u32>,
    /// Boundary edges: (edge_id, source_partition, dest_partition), for edges
    /// whose source and target nodes are in different partitions.
    pub boundary_edges: Vec<(u32, u32, u32)>,
    /// Number of partitions.
    pub partition_count: u32,
}

/// The boundary map built from a list of boundary edges: a later entry for
/// the same edge replaces an earlier one.
pub open spec fn boundary_map_of(edges: Seq<(u32, u32, u32)>) -> Map<u32, (u32, u32)>
    decreases edges.len(),
{
    if edges.len() == 0 {
        Map::empty()
    } else {
        let e = edges.last();
        boundary_map_of(edges.drop_last()).insert(e.0, (e.1, e.2))
    }
}

impl PartitionAssignment {
    /// Build a boundary map: edge_id -> (src_partition, dst_partition).
    /// Only includes edges that cross partition boundaries.
    pub fn boundary_map(&self) -> (r: HashMap<u32, (u32, u32)>)
        ensures
            r@ == boundary_map_of(self.boundary_edges@),
    {
        let mut m: HashMap<u32, (u32, u32)> = HashMap::new();
        let mut i: usize = 0;
        while i < self.boundary_edges.len()
            invariant
                i <= self.boundary_edges@.len(),
                m@ == boundary_map_of(self.boundary_edges@.take(i as int)),
            decreases self.boundary_edges@.len() - i,
        {
            let (eid, sp, dp) = self.boundary_edges[i];
            m.insert(eid, (sp, dp));
            i = i + 1;
            proof {
                assert(self.boundary_edges@.take(i as int).drop_last() =~= self.boundary_edges@.take(i - 1));
            }
        }
        proof {
            assert(self.boundary_edges@.take(i as int) =~= self.boundary_edges@);
        }
        m
    }
}

/// Get all edge ids belonging to a specific partition, each once.
pub fn partition_edges(assignment: &PartitionAssignment, partition_id: u32) -> (r: Vec<u32>)
    ensures
        r@.no_duplicates(),
        forall|e: u32| #[trigger] r@.contains(e) <==> (assignment.edge_to_partition@.contains_key(e)
            && assignment.edge_to_partition@[e] == partition_id),
{
    let m = &assignment.edge_to_partition;
    let ghost g = vstd::std_specs::hash::spec_hash_map_iter(m).remaining();
    let ghost mut seen: int = 0;
    let mut r: Vec<u32> = Vec::new();
    for e in it: m.iter()
        invariant
            it.seq() == g,
            seen == it.index(),
            g.no_duplicates(),
            forall|i: int| 0 <= i < g.len() ==> m@.contains_key(*g[i].0) && m@[*g[i].0] == *g[i].1,
            forall|x: u32| #[trigger] m@.contains_key(x) ==> g.contains((&x, &m@[x])),
            r@.no_duplicates(),
            forall|x: u32| #[trigger] r@.contains(x) ==> m@.contains_key(x) && m@[x] == partition_id
                && exists|i: int| 0 <= i < seen && *g[i].0 == x,
            forall|i: int| 0 <= i < seen && *g[i].1 == partition_id ==> r@.contains(#[trigger] *g[i].0),
    {
        let key: u32 = *e.0;
        let val: u32 = *e.1;
        let ghost before = r@;
        proof {
            assert(g[seen] == e);
        }
        if val == partition_id {
            proof {
                if before.contains(key) {
                    let i = choose|i: int| 0 <= i < seen && *g[i].0 == key;
                    assert(*g[i].1 == m@[key]);
                    assert(g[i] == g[seen]);
                }
            }
            r.push(key);
        }
        proof {
            assert forall|x: u32| #[trigger] r@.contains(x) implies m@.contains_key(x) && m@[x] == partition_id
                && exists|i: int| 0 <= i < seen + 1 && *g[i].0 == x by {
                if x != key || val != partition_id {
                    assert(before.contains(x)) by {
                        let k = choose|k: int| 0 <= k < r@.len() && r@[k] == x;
                        assert(before[k] == x);
                    }
                } else {
                    assert(*g[seen].0 == x);
                }
            }
            assert forall|i: int| 0 <= i < seen + 1 && *g[i].1 == partition_id implies r@.contains(#[trigger] *g[i].0) by {
                if i < seen {
                    assert(before.contains(*g[i].0));
                    let k = choose|k: int| 0 <= k < before.len() && before[k] == *g[i].0;
                    assert(r@[k] == before[k]);
                } else {
                    assert(r@[r@.len() - 1] == key);
                }
            }
            seen = seen + 1;
        }
    }
    proof {
        assert forall|x: u32| m@.contains_key(x) && m@[x] == partition_id implies #[trigger] r@.contains(x) by {
            assert(g.contains((&x, &m@[x])));
            let i = choose|i: int| 0 <= i < g.len() && g[i] == (&x, &m@[x]);
            assert(*g[i].1 == partition_id);
        }
    }
    r
}

/// The boundary edges among the first `n` edges under node partition `np`,
/// in edge id order.
pub open spec fn boundary_list(edges: Seq<(u32, u32)>, np: Map<u32, u32>, n: nat) -> Seq<(u32, u32, u32)>
    decreases n,
{
    if n == 0 {
        Seq::empty()
    } else {
        let rest = boundary_list(edges, np, (n - 1) as nat);
        let e = edges[n - 1];
        if np[e.0] != np[e.1] {
            rest.push(((n - 1) as u32, np[e.0], np[e.1]))
        } else {
            rest
        }
    }
}

/// Edge assignment `a` follows node partition `np` of `graph` into `k`
/// partitions: each edge goes to its source node's partition, and the
/// boundary edges are those whose endpoints lie in different partitions.
pub open spec fn follows_node_partition(graph: &RoadTopology, a: &PartitionAssignment, np: Map<u32, u32>, k: u32) -> bool {
    let n = graph.edges@.len();
    &&& forall|v: u32| v < graph.node_count ==> #[trigger] np.contains_key(v) && np[v] < k
    &&& a.edge_to_partition@.dom() == Set::new(|e: u32| e < n)
    &&& forall|e: u32| e < n ==> #[trigger] a.edge_to_partition@[e] == np[graph.edges@[e as int].0]
    &&& a.boundary_edges@ == boundary_list(graph.edges@, np, n as nat)
}

/// Every boundary edge listed runs between two existing partitions.
pub open spec fn boundary_within(boundary: Seq<(u32, u32, u32)>, k: u32) -> bool {
    forall|i: int| 0 <= i < boundary.len() ==> (#[trigger] boundary[i]).1 < k && boundary[i].2 < k
}

proof fn lemma_boundary_list_within(edges: Seq<(u32, u32)>, np: Map<u32, u32>, node_count: u32, k: u32, n: nat)
    requires
        n <= edges.len(),
        forall|i: int| 0 <= i < edges.len() ==> (#[trigger] edges[i]).0 < node_count && edges[i].1 < node_count,
        forall|v: u32| v < node_count ==> #[trigger] np.contains_key(v) && np[v] < k,
    ensures
        boundary_within(boundary_list(edges, np, n), k),
    decreases n,
{
    if n > 0 {
        lemma_boundary_list_within(edges, np, node_count, k, (n - 1) as nat);
        let e = edges[n - 1];
        assert(np.contains_key(e.0) && np.contains_key(e.1));
    }
}

/// Law: the boundary edges of a partition that follows a node partition of
/// a well-formed graph all run between existing partitions.
pub proof fn lemma_boundary_targets_exist(graph: &RoadTopology, a: &PartitionAssignment, np: Map<u32, u32>)
    requires
        graph.wf(),
        follows_node_partition(graph, a, np, a.partition_count),
    ensures
        boundary_within(a.boundary_edges@, a.partition_count),
{
    lemma_boundary_list_within(graph.edges@, np, graph.node_count, a.partition_count, graph.edges@.len());
}

/// Law: partitioning is deterministic. Two assignments that both follow
/// the same node partition of the same graph assign every edge alike and
/// list the same boundary edges in the same order; `partition_network`
/// always follows `node_parts(graph, k)`.
pub proof fn lemma_partition_deterministic(
    graph: &RoadTopology,
    a1: &PartitionAssignment,
    a2: &PartitionAssignment,
    np: Map<u32, u32>,
    k: u32,
)
    requires
        follows_node_partition(graph, a1, np, k),
        follows_node_partition(graph, a2, np, k),
    ensures
        a1.edge_to_partition@ == a2.edge_to_partition@,
        a1.boundary_edges@ == a2.boundary_edges@,
{
    assert(a1.edge_to_partition@ =~= a2.edge_to_partition@);
}

/// Nodes `x` and `y` are joined by one of the first `n` edges, in either
/// direction.
pub open spec fn joined(edges: Seq<(u32, u32)>, n: int, x: u32, y: u32) -> bool {
    exists|i: int| 0 <= i < n && (#[trigger] edges[i] == (x, y) || edges[i] == (y, x))
}

/// The undirected adjacency of a road network: joined by an edge in either
/// direction.
pub open spec fn edge_rel(edges: Seq<(u32, u32)>) -> spec_fn(u32, u32) -> bool {
    |x: u32, y: u32| joined(edges, edges.len() as int, x, y)
}

/// Law: the adjacency that the bisection searches is undirected. Two nodes
/// are related exactly when some edge runs from one to the other in either
/// direction, so the relation is symmetric and relates both ends of every
/// edge both ways, whichever way the edge points.
pub proof fn lemma_edge_rel_undirected(edges: Seq<(u32, u32)>)
    ensures
        forall|x: u32, y: u32| #[trigger] edge_rel(edges)(x, y) <==> exists|i: int|
            0 <= i < edges.len() && ((#[trigger] edges[i]) == (x, y) || edges[i] == (y, x)),
        forall|x: u32, y: u32| #[trigger] edge_rel(edges)(x, y) == edge_rel(edges)(y, x),
        forall|i: int| #![trigger edges[i]] 0 <= i < edges.len() ==> edge_rel(edges)(edges[i].0, edges[i].1)
            && edge_rel(edges)(edges[i].1, edges[i].0),
{
    assert forall|i: int| #![trigger edges[i]] 0 <= i < edges.len() implies edge_rel(edges)(edges[i].0, edges[i].1)
        && edge_rel(edges)(edges[i].1, edges[i].0) by {
        assert(edges[i] == (edges[i].0, edges[i].1));
        assert(joined(edges, edges.len() as int, edges[i].0, edges[i].1));
        assert(joined(edges, edges.len() as int, edges[i].1, edges[i].0));
    }
    assert forall|x: u32, y: u32| #[trigger] edge_rel(edges)(x, y) == edge_rel(edges)(y, x) by {
        if joined(edges, edges.len() as int, x, y) {
            let i = choose|i: int| 0 <= i < edges.len() && (#[trigger] edges[i] == (x, y) || edges[i] == (y, x));
            assert(joined(edges, edges.len() as int, y, x));
        }
        if joined(edges, edges.len() as int, y, x) {
            let i = choose|i: int| 0 <= i < edges.len() && (#[trigger] edges[i] == (y, x) || edges[i] == (x, y));
            assert(joined(edges, edges.len() as int, x, y));
        }
    }
}

/// Build undirected neighbour sets from the directed edges.
fn undirected_adjacency(graph: &RoadTopology) -> (adj: HashMap<u32, HashSet<u32>>)
    ensures
        forall|x: u32, y: u32| #[trigger] adjacent(adj@, x, y) <==> joined(graph.edges@, graph.edges@.len() as int, x, y),
        forall|x: u32, y: u32| #[trigger] adjacent(adj@, x, y) <==> exists|i: int|
            0 <= i < graph.edges@.len() && ((#[trigger] graph.edges@[i]) == (x, y) || graph.edges@[i] == (y, x)),
        forall|x: u32, y: u32| #[trigger] adjacent(adj@, x, y) == adjacent(adj@, y, x),
{
    let mut adj: HashMap<u32, HashSet<u32>> = HashMap::new();
    let mut i: usize = 0;
    while i < graph.edges.len()
        invariant
            i <= graph.edges@.len(),
            forall|x: u32, y: u32| #[trigger] adjacent(adj@, x, y) <==> joined(graph.edges@, i as int, x, y),
        decreases graph.edges@.len() - i,
    {
        let (s, t) = graph.edges[i];
        let ghost a0 = adj@;
        let mut out = match adj.remove(&s) {
            Some(set) => set,
            None => HashSet::new(),
        };
        let ghost out0 = out@;
        proof {
            assert(out0 == if a0.contains_key(s) { a0[s]@ } else { Set::<u32>::empty() });
        }
        out.insert(t);
        adj.insert(s, out);
        let ghost a1 = adj@;
        let mut inc = match adj.remove(&t) {
            Some(set) => set,
            None => HashSet::new(),
        };
        let ghost inc0 = inc@;
        proof {
            assert(inc0 == if a1.contains_key(t) { a1[t]@ } else { Set::<u32>::empty() });
        }
        inc.insert(s);
        adj.insert(t, inc);
        proof {
            let e = graph.edges@;
            assert(e[i as int] == (s, t));
            assert forall|x: u32, y: u32| #[trigger] adjacent(adj@, x, y) <==> joined(e, i + 1, x, y) by {
                let before = adjacent(a0, x, y);
                assert(before <==> joined(e, i as int, x, y));
                assert(adjacent(adj@, x, y) <==> (before || (x == s && y == t) || (x == t && y == s)));
                if joined(e, i + 1, x, y) {
                    let j = choose|j: int| 0 <= j < i + 1 && (#[trigger] e[j] == (x, y) || e[j] == (y, x));
                    if j < i {
                        assert(joined(e, i as int, x, y));
                    }
                }
                if joined(e, i as int, x, y) {
                    let j = choose|j: int| 0 <= j < i && (#[trigger] e[j] == (x, y) || e[j] == (y, x));
                    assert(joined(e, i + 1, x, y));
                }
                if (x == s && y == t) || (x == t && y == s) {
                    assert(e[i as int] == (x, y) || e[i as int] == (y, x));
                    assert(joined(e, i + 1, x, y));
                }
            }
        }
        i = i + 1;
    }
    proof {
        lemma_edge_rel_undirected(graph.edges@);
        assert forall|x: u32, y: u32| #[trigger] adjacent(adj@, x, y) == adjacent(adj@, y, x) by {
            assert(edge_rel(graph.edges@)(x, y) == edge_rel(graph.edges@)(y, x));
        }
    }
    adj
}

/// Nodes `0..n` in order.
pub open spec fn node_ids(n: u32) -> Seq<u32> {
    Seq::new(n as nat, |i: int| i as u32)
}

/// The node partition that `partition_network` assigns edges by: with no
/// nodes or `k <= 1` every node in part 0, otherwise the recursive
/// bisection of the nodes in id order under undirected edge adjacency.
pub open spec fn node_parts(graph: RoadTopology, k: u32) -> Map<u32, u32> {
    if graph.node_count == 0 || k <= 1 {
        Map::new(|x: u32| x < graph.node_count, |x: u32| 0u32)
    } else {
        bisect_parts(node_ids(graph.node_count), edge_rel(graph.edges@), k)
    }
}

/// The node partition behind `partition_network`: every node of
/// `0..node_count` gets a part below `max(k, 1)`; all in part 0 when
/// there is nothing to split.
fn partition_nodes(graph: &RoadTopology, k: u32) -> (np: HashMap<u32, u32>)
    ensures
        np@ == node_parts(*graph, k),
        forall|x: u32| x < graph.node_count ==> #[trigger] np@.contains_key(x),
        forall|x: u32| #[trigger] np@.contains_key(x) ==> np@[x] < (if k <= 1 { 1 } else { k }),
{
    let mut all_nodes: Vec<u32> = Vec::new();
    let mut v: u32 = 0;
    while v < graph.node_count
        invariant
            v <= graph.node_count,
            all_nodes@.len() == v,
            forall|j: int| 0 <= j < v ==> all_nodes@[j] == j,
        decreases graph.node_count - v,
    {
        all_nodes.push(v);
        v = v + 1;
    }
    proof {
        assert forall|x: u32| x < graph.node_count implies #[trigger] all_nodes@.to_set().contains(x) by {
            assert(all_nodes@[x as int] == x);
            assert(all_nodes@.contains(x));
        }
        assert(all_nodes@ =~= node_ids(graph.node_count));
    }
    if graph.node_count == 0 || k <= 1 {
        let mut m: HashMap<u32, u32> = HashMap::new();
        assign_all(&mut m, all_nodes.as_slice(), 0);
        proof {
            assert forall|x: u32| x < graph.node_count implies #[trigger] m@.contains_key(x) by {
                assert(all_nodes@.to_set().contains(x));
            }
            assert forall|x: u32| #[trigger] m@.contains_key(x) implies m@[x] < (if k <= 1 { 1 } else { k }) by {
                assert(all_nodes@.to_set().contains(x));
                assert(all_nodes@.contains(x));
            }
            assert forall|x: u32| #[trigger] m@.contains_key(x) <==> x < graph.node_count by {
                if m@.contains_key(x) {
                    assert(all_nodes@.to_set().contains(x));
                    let j = choose|j: int| 0 <= j < all_nodes@.len() && all_nodes@[j] == x;
                }
            }
            assert(m@ =~= Map::new(|x: u32| x < graph.node_count, |x: u32| 0u32)) by {
                assert forall|x: u32| #[trigger] m@.contains_key(x) implies m@[x] == 0u32 by {
                    assert(all_nodes@.to_set().contains(x));
                    assert(all_nodes@.contains(x));
                }
            }
        }
        m
    } else {
        let adj = undirected_adjacency(graph);
        let m = recursive_bisect(all_nodes.as_slice(), &adj, k);
        proof {
            assert(linked(adj@) =~= edge_rel(graph.edges@)) by {
                assert forall|x: u32, y: u32| #[trigger] linked(adj@)(x, y) == edge_rel(graph.edges@)(x, y) by {
                    assert(adjacent(adj@, x, y) <==> joined(graph.edges@, graph.edges@.len() as int, x, y));
                }
            }
            assert forall|x: u32| x < graph.node_count implies #[trigger] m@.contains_key(x) by {
                assert(all_nodes@.to_set().contains(x));
            }
        }
        m
    }
}

/// Partition the road network into `k` balanced partitions.
///
/// Uses recursive BFS bisection of the nodes. Deterministic for the same
/// graph and k. Each edge is assigned to the partition of its source node.
/// Boundary edges are those whose source and target nodes are in different
/// partitions. With no nodes or `k <= 1` every edge is in partition 0.
pub fn partition_network(graph: &RoadTopology, k: u32) -> (r: PartitionAssignment)
    requires
        graph.wf(),
    ensures
        r.partition_count == if k <= 1 { 1 } else { k },
        follows_node_partition(graph, &r, node_parts(*graph, k), r.partition_count),
        graph.node_count == 0 || k <= 1 ==> r.boundary_edges@.len() == 0,
        boundary_within(r.boundary_edges@, r.partition_count),
{
    let n = graph.edges.len();
    let node_partitions = partition_nodes(graph, k);
    let pc: u32 = if k <= 1 { 1 } else { k };
    proof {
        if graph.node_count == 0 && n > 0 {
            assert(graph.edges@[0].0 < graph.node_count);
        }
    }
    let mut edge_to_partition: HashMap<u32, u32> = HashMap::new();
    let mut boundary_edges: Vec<(u32, u32, u32)> = Vec::new();
    let mut i: usize = 0;
    while i < n
        invariant
            n == graph.edges@.len(),
            graph.wf(),
            i <= n,
            forall|x: u32| x < graph.node_count ==> #[trigger] node_partitions@.contains_key(x),
            forall|x: u32| #[trigger] node_partitions@.contains_key(x) ==> node_partitions@[x] < pc,
            edge_to_partition@.dom() == Set::new(|e: u32| e < i),
            forall|e: u32| e < i ==> #[trigger] edge_to_partition@[e] == node_partitions@[graph.edges@[e as int].0],
            boundary_edges@ == boundary_list(graph.edges@, node_partitions@, i as nat),
            pc == 1 ==> boundary_edges@.len() == 0,
        decreases n - i,
    {
        let (s, t) = graph.edges[i];
        proof {
            assert(s < graph.node_count && t < graph.node_count) by {
                assert(graph.edges@[i as int] == (s, t));
            }
            assert(node_partitions@.contains_key(s));
            assert(node_partitions@.contains_key(t));
        }
        let sp: u32 = *node_partitions.get(&s).unwrap();
        let tp: u32 = *node_partitions.get(&t).unwrap();
        let ghost m0 = edge_to_partition@;
        edge_to_partition.insert(i as u32, sp);
        if sp != tp {
            boundary_edges.push((i as u32, sp, tp));
        }
        i = i + 1;
        proof {
            assert(edge_to_partition@.dom() =~= Set::new(|e: u32| e < i));
            assert forall|e: u32| e < i implies #[trigger] edge_to_partition@[e] == node_partitions@[graph.edges@[e as int].0] by {
                if e < i - 1 {
                    assert(m0[e] == node_partitions@[graph.edges@[e as int].0]);
                }
            }
        }
    }
    let r = PartitionAssignment { edge_to_partition, boundary_edges, partition_count: pc };
    proof {
        assert forall|v: u32| v < graph.node_count implies #[trigger] node_partitions@.contains_key(v)
            && node_partitions@[v] < pc by {
        }
        assert(follows_node_partition(graph, &r, node_partitions@, pc));
        lemma_boundary_targets_exist(graph, &r, node_partitions@);
    }
    r
}

} // verus!
