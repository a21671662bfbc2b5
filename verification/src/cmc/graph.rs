use vstd::prelude::*;
use vstd::string::StringExecFns;
use super::validate::DependencyNode;

verus! {

/// A node of the dependency graph as a value: whether it is an environment
/// (or else a child), and its name.
pub open spec fn node_view(n: DependencyNode) -> (bool, Seq<char>) {
    match n {
        DependencyNode::Child(s) => (false, s@),
        DependencyNode::Environment(s) => (true, s@),
    }
}

/// The edges of a dependency graph as values: each from a source that the
/// target depends on.
pub open spec fn edges_view(es: Seq<(DependencyNode, DependencyNode)>) -> Seq<((bool, Seq<char>), (bool, Seq<char>))> {
    es.map_values(|e: (DependencyNode, DependencyNode)| (node_view(e.0), node_view(e.1)))
}

/// Whether `rank` puts the source of every edge below its target.
pub open spec fn ranks_edges(es: Seq<((bool, Seq<char>), (bool, Seq<char>))>, rank: spec_fn((bool, Seq<char>)) -> int) -> bool {
    forall|k: int| #![trigger es[k]] 0 <= k < es.len() ==> rank(es[k].0) < rank(es[k].1)
}

/// Whether a graph has no cycle: some ranking of its nodes puts the source
/// of every edge below its target.
pub open spec fn strong_dependencies_acyclic(es: Seq<((bool, Seq<char>), (bool, Seq<char>))>) -> bool {
    exists|rank: spec_fn((bool, Seq<char>)) -> int| #[trigger] ranks_edges(es, rank)
}

/// Whether two nodes are the same.
fn same_node(a: &DependencyNode, b: &DependencyNode) -> (r: bool)
    ensures
        r == (node_view(*a) == node_view(*b)),
{
    match (a, b) {
        (DependencyNode::Child(x), DependencyNode::Child(y)) => *x == *y,
        (DependencyNode::Environment(x), DependencyNode::Environment(y)) => *x == *y,
        _ => false,
    }
}

/// Whether the edge `e` may be taken away: no edge still in the graph
/// (`alive`) ends at its source.
pub open spec fn free(es: Seq<((bool, Seq<char>), (bool, Seq<char>))>, alive: Seq<bool>, e: int) -> bool {
    forall|f: int| 0 <= f < es.len() && alive[f] ==> #[trigger] es[f].1 != es[e].0
}

/// The number of edges still in the graph among the first `k`.
pub open spec fn count_alive(alive: Seq<bool>, k: int) -> int
    decreases k,
{
    if k <= 0 {
        0
    } else {
        count_alive(alive, k - 1) + if alive[k - 1] {
            1int
        } else {
            0int
        }
    }
}

/// Taking one edge away lowers the count by one.
proof fn lemma_count_remove(alive: Seq<bool>, e: int, k: int)
    requires
        0 <= e < alive.len(),
        alive[e],
        0 <= k <= alive.len(),
    ensures
        count_alive(alive.update(e, false), k) == count_alive(alive, k) - if e < k {
            1int
        } else {
            0int
        },
        count_alive(alive, k) >= 0,
    decreases k,
{
    if k > 0 {
        lemma_count_remove(alive, e, k - 1);
    }
}

proof fn lemma_count_nonneg(alive: Seq<bool>, k: int)
    ensures
        count_alive(alive, k) >= 0,
    decreases k,
{
    if k > 0 {
        lemma_count_nonneg(alive, k - 1);
    }
}

/// The first position, from `q` on, of an edge of `ord` whose source is
/// `v`; the length of `ord` where there is none.
pub open spec fn first_from(ord: Seq<int>, es: Seq<((bool, Seq<char>), (bool, Seq<char>))>, v: (bool, Seq<char>), q: int) -> int
    decreases ord.len() - q,
{
    if q < 0 || q >= ord.len() {
        ord.len() as int
    } else if es[ord[q]].0 == v {
        q
    } else {
        first_from(ord, es, v, q + 1)
    }
}

proof fn lemma_first_at_most(ord: Seq<int>, es: Seq<((bool, Seq<char>), (bool, Seq<char>))>, v: (bool, Seq<char>), q: int, p: int)
    requires
        0 <= q <= p < ord.len(),
        es[ord[p]].0 == v,
    ensures
        first_from(ord, es, v, q) <= p,
    decreases p - q,
{
    if q < p && es[ord[q]].0 != v {
        lemma_first_at_most(ord, es, v, q + 1, p);
    }
}

proof fn lemma_first_beyond(ord: Seq<int>, es: Seq<((bool, Seq<char>), (bool, Seq<char>))>, v: (bool, Seq<char>), q: int, p: int)
    requires
        0 <= q,
        p < ord.len(),
        forall|j: int| q <= j <= p ==> es[ord[j]].0 != v,
    ensures
        first_from(ord, es, v, q) > p,
    decreases ord.len() - q,
{
    if q < ord.len() {
        lemma_first_beyond(ord, es, v, q + 1, p);
    }
}

/// Among the edges still in the graph, one whose source ranks lowest.
proof fn lemma_min_rank(es: Seq<((bool, Seq<char>), (bool, Seq<char>))>, alive: Seq<bool>, rank: spec_fn((bool, Seq<char>)) -> int, k: int) -> (m: int)
    requires
        0 < k <= es.len(),
        alive.len() == es.len(),
        exists|e: int| 0 <= e < k && alive[e],
    ensures
        0 <= m < k,
        alive[m],
        forall|e: int| 0 <= e < k && alive[e] ==> rank(es[m].0) <= rank(es[e].0),
    decreases k,
{
    if k == 1 {
        0
    } else if exists|e: int| 0 <= e < k - 1 && alive[e] {
        let m = lemma_min_rank(es, alive, rank, k - 1);
        if alive[k - 1] && rank(es[k - 1].0) < rank(es[m].0) {
            k - 1
        } else {
            m
        }
    } else {
        k - 1
    }
}

/// An edge still in the graph, if there is one that may be taken away.
fn find_free(edges: &Vec<(DependencyNode, DependencyNode)>, alive: &Vec<bool>) -> (r: Option<usize>)
    requires
        alive@.len() == edges@.len(),
    ensures
        match r {
            Some(e) => e < edges@.len() && alive@[e as int] && free(edges_view(edges@), alive@, e as int),
            None => forall|e: int| 0 <= e < edges@.len() && alive@[e] ==> !free(edges_view(edges@), alive@, e),
        },
{
    let ghost es = edges_view(edges@);
    let n = edges.len();
    let mut e: usize = 0;
    while e < n
        invariant
            n == edges@.len(),
            alive@.len() == n,
            es == edges_view(edges@),
            e <= n,
            forall|x: int| 0 <= x < e && alive@[x] ==> !free(es, alive@, x),
        decreases n - e,
    {
        if alive[e] {
            let mut f: usize = 0;
            let mut ok = true;
            while f < n
                invariant
                    n == edges@.len(),
                    alive@.len() == n,
                    es == edges_view(edges@),
                    e < n,
                    f <= n,
                    ok == forall|y: int| 0 <= y < f && alive@[y] ==> es[y].1 != es[e as int].0,
                decreases n - f,
            {
                if alive[f] && same_node(&edges[f].1, &edges[e].0) {
                    ok = false;
                }
                f = f + 1;
            }
            if ok {
                return Some(e);
            }
        }
        e = e + 1;
    }
    None
}

/// Whether the graph with the edges `edges` has no cycle.
///
/// Edges whose source no remaining edge ends at are taken away one by one;
/// the graph has no cycle exactly when all edges go.
pub fn is_acyclic(edges: &Vec<(DependencyNode, DependencyNode)>) -> (r: bool)
    ensures
        r == strong_dependencies_acyclic(edges_view(edges@)),
{
    let ghost es = edges_view(edges@);
    let n = edges.len();
    let mut alive: Vec<bool> = Vec::new();
    let mut i: usize = 0;
    while i < n
        invariant
            i <= n,
            alive@.len() == i,
            forall|j: int| 0 <= j < i ==> alive@[j],
        decreases n - i,
    {
        alive.push(true);
        i = i + 1;
    }
    let ghost mut order: Seq<int> = Seq::empty();
    loop
        invariant
            n == edges@.len(),
            es == edges_view(edges@),
            alive@.len() == n,
            forall|j: int| 0 <= j < order.len() ==> 0 <= #[trigger] order[j] < n,
            forall|j1: int, j2: int| 0 <= j1 < j2 < order.len() ==> order[j1] != order[j2],
            forall|e: int| 0 <= e < n ==> (alive@[e] <==> !order.contains(e)),
            forall|j: int, f: int|
                #![trigger order[j], es[f]]
                0 <= j < order.len() && 0 <= f < n && es[f].1 == es[order[j]].0 ==> exists|j2: int|
                    0 <= j2 < j && order[j2] == f,
        decreases count_alive(alive@, n as int),
    {
        match find_free(edges, &alive) {
            Some(e) => {
                let ghost old_alive = alive@;
                proof {
                    lemma_count_remove(alive@, e as int, n as int);
                    let old_order = order;
                    assert(!old_order.contains(e as int));
                    assert forall|j: int| 0 <= j < old_order.len() implies old_order[j] != e as int by {
                        if old_order[j] == e as int {
                            assert(old_order.contains(e as int));
                        }
                    }
                    order = order.push(e as int);
                    assert forall|j: int, f: int|
                        #![trigger order[j], es[f]]
                        0 <= j < order.len() && 0 <= f < n && es[f].1 == es[order[j]].0 implies exists|j2: int|
                            0 <= j2 < j && order[j2] == f by {
                        if j < old_order.len() {
                            assert(old_order[j] == order[j]);
                            let j2 = choose|j2: int| 0 <= j2 < j && old_order[j2] == f;
                            assert(order[j2] == f);
                        } else {
                            assert(!alive@[f]);
                            assert(old_order.contains(f));
                            let j2 = choose|j2: int| 0 <= j2 < old_order.len() && old_order[j2] == f;
                            assert(order[j2] == f);
                        }
                    }
                    assert forall|x: int| 0 <= x < n implies (alive@.update(e as int, false)[x] <==> !order.contains(x)) by {
                        if x == e {
                            assert(order[order.len() - 1] == x);
                        } else {
                            if order.contains(x) {
                                let j = choose|j: int| 0 <= j < order.len() && order[j] == x;
                                assert(old_order[j] == x);
                            }
                            if old_order.contains(x) {
                                let j = choose|j: int| 0 <= j < old_order.len() && old_order[j] == x;
                                assert(order[j] == x);
                            }
                        }
                    }
                }
                alive.set(e, false);
                assert(alive@ == old_alive.update(e as int, false));
                proof {
                    lemma_count_nonneg(alive@, n as int);
                    assert(count_alive(alive@, n as int) < count_alive(old_alive, n as int));
                }
            },
            None => {
                let mut k: usize = 0;
                while k < n
                    invariant
                        n == edges@.len(),
                        alive@.len() == n,
                        k <= n,
                        es == edges_view(edges@),
                        forall|x: int| 0 <= x < k ==> !alive@[x],
                        forall|e: int| 0 <= e < n && alive@[e] ==> !free(es, alive@, e),
                        forall|j: int| 0 <= j < order.len() ==> 0 <= #[trigger] order[j] < n,
                        forall|j1: int, j2: int| 0 <= j1 < j2 < order.len() ==> order[j1] != order[j2],
                        forall|e: int| 0 <= e < n ==> (alive@[e] <==> !order.contains(e)),
                        forall|j: int, f: int|
                            #![trigger order[j], es[f]]
                            0 <= j < order.len() && 0 <= f < n && es[f].1 == es[order[j]].0 ==> exists|j2: int|
                                0 <= j2 < j && order[j2] == f,
                    decreases n - k,
                {
                    if alive[k] {
                        proof {
                            if strong_dependencies_acyclic(es) {
                                let rank = choose|rank: spec_fn((bool, Seq<char>)) -> int| #[trigger] ranks_edges(es, rank);
                                assert(alive@[k as int]);
                                let m = lemma_min_rank(es, alive@, rank, n as int);
                                assert(!free(es, alive@, m));
                                let f = choose|f: int| 0 <= f < es.len() && alive@[f] && #[trigger] es[f].1 == es[m].0;
                                assert(rank(es[f].0) < rank(es[f].1));
                                assert(rank(es[m].0) <= rank(es[f].0));
                            }
                        }
                        return false;
                    }
                    k = k + 1;
                }
                proof {
                    let rank = |v: (bool, Seq<char>)| first_from(order, es, v, 0);
                    assert forall|q: int| #![trigger es[q]] 0 <= q < es.len() implies rank(es[q].0) < rank(es[q].1) by {
                        assert(order.contains(q));
                        let p = choose|p: int| 0 <= p < order.len() && order[p] == q;
                        lemma_first_at_most(order, es, es[q].0, 0, p);
                        assert forall|j: int| 0 <= j <= p implies es[order[j]].0 != es[q].1 by {
                            if es[order[j]].0 == es[q].1 {
                                assert(es[q].1 == es[order[j]].0);
                                let j2 = choose|j2: int| 0 <= j2 < j && order[j2] == q;
                                assert(order[j2] == order[p]);
                            }
                        }
                        lemma_first_beyond(order, es, es[q].1, 0, p);
                    }
                    assert(ranks_edges(es, rank));
                }
                return true;
            },
        }
    }
}

/// Whether the graph has an edge from `a` to `b`.
pub open spec fn is_edge(es: Seq<((bool, Seq<char>), (bool, Seq<char>))>, a: (bool, Seq<char>), b: (bool, Seq<char>)) -> bool {
    exists|k: int| 0 <= k < es.len() && #[trigger] es[k] == (a, b)
}

/// Whether the graph has an edge from the node at position `i` of `c` to the next one.
pub open spec fn cycle_step(es: Seq<((bool, Seq<char>), (bool, Seq<char>))>, c: Seq<(bool, Seq<char>)>, i: int) -> bool {
    is_edge(es, c[i], c[i + 1])
}

/// Whether `c` is a cycle of the graph: a walk along its edges, of at least
/// one edge, that ends where it starts.
pub open spec fn is_cycle(es: Seq<((bool, Seq<char>), (bool, Seq<char>))>, c: Seq<(bool, Seq<char>)>) -> bool {
    &&& c.len() >= 2
    &&& c[0] == c[c.len() - 1]
    &&& forall|i: int| 0 <= i < c.len() - 1 ==> #[trigger] cycle_step(es, c, i)
}

/// The nodes of `c` as values.
pub open spec fn nodes_view(c: Seq<DependencyNode>) -> Seq<(bool, Seq<char>)> {
    c.map_values(|n: DependencyNode| node_view(n))
}

/// Whether the graph has an edge from node `a` of `nodes` to node `b`.
pub open spec fn idx_edge(es: Seq<((bool, Seq<char>), (bool, Seq<char>))>, nodes: Seq<DependencyNode>, a: int, b: int) -> bool {
    is_edge(es, node_view(nodes[a]), node_view(nodes[b]))
}

/// Whether the graph has an edge from the node at position `i` of the walk
/// `c`, given by positions in `nodes`, to the next one.
pub open spec fn idx_step(es: Seq<((bool, Seq<char>), (bool, Seq<char>))>, nodes: Seq<DependencyNode>, c: Seq<usize>, i: int) -> bool {
    idx_edge(es, nodes, c[i] as int, c[i + 1] as int)
}

/// Whether the positions `c` in `nodes` walk along edges of the graph.
pub open spec fn idx_walk(es: Seq<((bool, Seq<char>), (bool, Seq<char>))>, nodes: Seq<DependencyNode>, c: Seq<usize>) -> bool {
    &&& forall|i: int| 0 <= i < c.len() ==> #[trigger] c[i] < nodes.len()
    &&& forall|i: int| 0 <= i < c.len() - 1 ==> #[trigger] idx_step(es, nodes, c, i)
}

/// Whether the positions `c` in `nodes` form a cycle of the graph.
pub open spec fn idx_cycle(es: Seq<((bool, Seq<char>), (bool, Seq<char>))>, nodes: Seq<DependencyNode>, c: Seq<usize>) -> bool {
    &&& c.len() >= 2
    &&& c[0] == c[c.len() - 1]
    &&& idx_walk(es, nodes, c)
}

/// A copy of a node.
fn copy_node(n: &DependencyNode) -> (r: DependencyNode)
    ensures
        node_view(r) == node_view(*n),
{
    match n {
        DependencyNode::Child(s) => DependencyNode::Child(s.clone()),
        DependencyNode::Environment(s) => DependencyNode::Environment(s.clone()),
    }
}

/// The position of a node equal to `x` in `nodes`, if there is one.
fn find_node(nodes: &Vec<DependencyNode>, x: &DependencyNode) -> (r: Option<usize>)
    ensures
        match r {
            Some(i) => i < nodes@.len() && node_view(nodes@[i as int]) == node_view(*x),
            None => forall|i: int| 0 <= i < nodes@.len() ==> node_view(#[trigger] nodes@[i]) != node_view(*x),
        },
{
    let mut i: usize = 0;
    while i < nodes.len()
        invariant
            i <= nodes@.len(),
            forall|j: int| 0 <= j < i ==> node_view(#[trigger] nodes@[j]) != node_view(*x),
        decreases nodes@.len() - i,
    {
        if same_node(&nodes[i], x) {
            return Some(i);
        }
        i = i + 1;
    }
    None
}

/// Whether node `a` comes before node `b`: children before environments,
/// each kind by the bytes of its name.
fn node_less(a: &DependencyNode, b: &DependencyNode) -> bool {
    match (a, b) {
        (DependencyNode::Child(_), DependencyNode::Environment(_)) => true,
        (DependencyNode::Environment(_), DependencyNode::Child(_)) => false,
        (DependencyNode::Child(x), DependencyNode::Child(y)) => bytes_less(x.as_str().as_bytes(), y.as_str().as_bytes()),
        (DependencyNode::Environment(x), DependencyNode::Environment(y)) => bytes_less(x.as_str().as_bytes(), y.as_str().as_bytes()),
    }
}

/// Whether `x` comes before `y` in lexicographic order.
fn bytes_less(x: &[u8], y: &[u8]) -> bool {
    let mut i: usize = 0;
    while i < x.len() && i < y.len()
        invariant
            i <= x@.len(),
            i <= y@.len(),
        decreases x@.len() - i,
    {
        if x[i] < y[i] {
            return true;
        }
        if x[i] > y[i] {
            return false;
        }
        i = i + 1;
    }
    x.len() < y.len()
}

/// Sorts the positions `ps` by the order of the nodes they stand for; what
/// holds of every position before (`good`) holds of every one after.
fn sort_positions(nodes: &Vec<DependencyNode>, ps: &mut Vec<usize>, good: Ghost<spec_fn(usize) -> bool>)
    requires
        forall|i: int| 0 <= i < old(ps)@.len() ==> #[trigger] old(ps)@[i] < nodes@.len() && good@(old(ps)@[i]),
    ensures
        final(ps)@.len() == old(ps)@.len(),
        forall|i: int| 0 <= i < final(ps)@.len() ==> #[trigger] final(ps)@[i] < nodes@.len() && good@(final(ps)@[i]),
        forall|x: usize| old(ps)@.contains(x) ==> final(ps)@.contains(x),
{
    let ghost orig = ps@;
    let n = ps.len();
    let mut i: usize = 0;
    while i < n
        invariant
            n == ps@.len(),
            i <= n,
            forall|k: int| 0 <= k < n ==> #[trigger] ps@[k] < nodes@.len() && good@(ps@[k]),
            forall|x: usize| orig.contains(x) ==> ps@.contains(x),
        decreases n - i,
    {
        let mut m: usize = i;
        let mut k: usize = i + 1;
        while k < n
            invariant
                n == ps@.len(),
                i <= m < n,
                i < k <= n,
                forall|k2: int| 0 <= k2 < n ==> #[trigger] ps@[k2] < nodes@.len() && good@(ps@[k2]),
                forall|x: usize| orig.contains(x) ==> ps@.contains(x),
            decreases n - k,
        {
            if node_less(&nodes[ps[k]], &nodes[ps[m]]) {
                m = k;
            }
            k = k + 1;
        }
        let a = ps[i];
        let b = ps[m];
        let ghost before = ps@;
        ps.set(i, b);
        ps.set(m, a);
        assert forall|k2: int| 0 <= k2 < n implies #[trigger] ps@[k2] < nodes@.len() && good@(ps@[k2]) by {
            if k2 == i as int {
                assert(ps@[k2] == before[m as int]);
            } else if k2 == m as int {
                assert(ps@[k2] == before[i as int]);
            } else {
                assert(ps@[k2] == before[k2]);
            }
        }
        assert forall|x: usize| orig.contains(x) implies ps@.contains(x) by {
            assert(before.contains(x));
            let j = choose|j: int| 0 <= j < before.len() && before[j] == x;
            if j == i as int {
                assert(ps@[m as int] == x);
            } else if j == m as int {
                assert(ps@[i as int] == x);
            } else {
                assert(ps@[j] == x);
            }
        }
        i = i + 1;
    }
}

/// The number of nodes not yet visited among the first `k` of `state`.
pub open spec fn count_unvisited(state: Seq<u8>, k: int) -> int
    decreases k,
{
    if k <= 0 {
        0
    } else {
        count_unvisited(state, k - 1) + if state[k - 1] == 0 {
            1int
        } else {
            0int
        }
    }
}

proof fn lemma_count_unvisited_nonneg(state: Seq<u8>, k: int)
    ensures
        count_unvisited(state, k) >= 0,
    decreases k,
{
    if k > 0 {
        lemma_count_unvisited_nonneg(state, k - 1);
    }
}

/// Marking an unvisited node lowers the count by one; changing a visited
/// node to another visited mark leaves it.
proof fn lemma_count_mark(state: Seq<u8>, v: int, x: u8, k: int)
    requires
        0 <= v < state.len(),
        x != 0,
        0 <= k <= state.len(),
    ensures
        count_unvisited(state.update(v, x), k) == count_unvisited(state, k) - if v < k && state[v] == 0 {
            1int
        } else {
            0int
        },
    decreases k,
{
    if k > 0 {
        lemma_count_mark(state, v, x, k - 1);
    }
}

/// Whether some node of `nodes` is `x`.
pub open spec fn has_node(nodes: Seq<DependencyNode>, x: (bool, Seq<char>)) -> bool {
    exists|i: int| 0 <= i < nodes.len() && #[trigger] node_view(nodes[i]) == x
}

/// Whether no node occurs twice in `nodes`.
pub open spec fn distinct_nodes(nodes: Seq<DependencyNode>) -> bool {
    forall|i: int, j: int| 0 <= i < j < nodes.len() ==> node_view(#[trigger] nodes[i]) != node_view(#[trigger] nodes[j])
}

/// Whether `done` lists distinct positions below `n`.
pub open spec fn finish_list(n: nat, done: Seq<usize>) -> bool {
    &&& forall|p: int| 0 <= p < done.len() ==> #[trigger] done[p] < n
    &&& forall|p1: int, p2: int| 0 <= p1 < p2 < done.len() ==> #[trigger] done[p1] != #[trigger] done[p2]
}

/// Whether `x` is listed in `done` before place `p`.
pub open spec fn listed_before(done: Seq<usize>, p: int, x: usize) -> bool {
    exists|q: int| 0 <= q < p && done[q] == x
}

/// Whether every node listed in `done` comes after all of its successors.
pub open spec fn successors_first(adj: Seq<Vec<usize>>, done: Seq<usize>) -> bool {
    forall|p: int, i: int|
        #![trigger adj[done[p] as int]@[i]]
        0 <= p < done.len() && 0 <= i < adj[done[p] as int]@.len() ==> listed_before(done, p, adj[done[p] as int]@[i])
}

/// Whether the marks of `state` are 0 (unvisited), 1 (on the walk) or 2
/// (finished), the finished nodes being those listed in `done`.
pub open spec fn marks_match(state: Seq<u8>, done: Seq<usize>) -> bool {
    forall|x: int| 0 <= x < state.len() ==> #[trigger] state[x] <= 2 && (state[x] == 2 <==> done.contains(x as usize))
}

/// Growing the list `d` at its end keeps what it lists.
proof fn lemma_finish_prefix(d: Seq<usize>, d2: Seq<usize>)
    requires
        d.len() <= d2.len(),
        d2.subrange(0, d.len() as int) == d,
    ensures
        forall|x: usize| d.contains(x) ==> d2.contains(x),
{
    assert forall|x: usize| d.contains(x) implies d2.contains(x) by {
        let j = choose|j: int| 0 <= j < d.len() && d[j] == x;
        assert(d2.subrange(0, d.len() as int)[j] == x);
    }
}

/// A cycle climbs in every ranking of the edges, so a graph that some
/// ranking orders has no cycle.
proof fn lemma_ranked_no_cycle(
    es: Seq<((bool, Seq<char>), (bool, Seq<char>))>,
    rank: spec_fn((bool, Seq<char>)) -> int,
    c: Seq<(bool, Seq<char>)>,
    i: int,
)
    requires
        ranks_edges(es, rank),
        c.len() >= 2,
        forall|j: int| 0 <= j < c.len() - 1 ==> #[trigger] cycle_step(es, c, j),
        0 <= i < c.len(),
    ensures
        rank(c[i]) >= rank(c[0]) + i,
    decreases i,
{
    if i > 0 {
        lemma_ranked_no_cycle(es, rank, c, i - 1);
        assert(cycle_step(es, c, i - 1));
        let k = choose|k: int| 0 <= k < es.len() && #[trigger] es[k] == (c[i - 1], c[i]);
        assert(rank(es[k].0) < rank(es[k].1));
    }
}

/// When every node is listed in `done` after its successors, ranking each
/// node by minus its place in `done` orders every edge: the graph has no cycle.
proof fn lemma_finished_ranks(
    es: Seq<((bool, Seq<char>), (bool, Seq<char>))>,
    nodes: Seq<DependencyNode>,
    adj: Seq<Vec<usize>>,
    done: Seq<usize>,
)
    requires
        adj.len() == nodes.len(),
        nodes.len() <= usize::MAX,
        distinct_nodes(nodes),
        forall|k: int| #![trigger es[k]] 0 <= k < es.len() ==> has_node(nodes, es[k].0) && has_node(nodes, es[k].1),
        forall|a: int, b: int| 0 <= a < nodes.len() && 0 <= b < nodes.len() && idx_edge(es, nodes, a, b) ==> #[trigger] adj[a]@.contains(b as usize),
        finish_list(nodes.len(), done),
        successors_first(adj, done),
        forall|x: int| 0 <= x < nodes.len() ==> #[trigger] done.contains(x as usize),
    ensures
        strong_dependencies_acyclic(es),
{
    let place = |y: (bool, Seq<char>)| choose|p: int| 0 <= p < done.len() && node_view(nodes[done[p] as int]) == y;
    let rank = |y: (bool, Seq<char>)| -place(y);
    assert forall|k: int| #![trigger es[k]] 0 <= k < es.len() implies rank(es[k].0) < rank(es[k].1) by {
        assert(has_node(nodes, es[k].0));
        let a = choose|a: int| 0 <= a < nodes.len() && #[trigger] node_view(nodes[a]) == es[k].0;
        let b = choose|b: int| 0 <= b < nodes.len() && #[trigger] node_view(nodes[b]) == es[k].1;
        assert(es[k] == (node_view(nodes[a]), node_view(nodes[b])));
        assert(idx_edge(es, nodes, a, b));
        assert(adj[a]@.contains(b as usize));
        let i = choose|i: int| 0 <= i < adj[a]@.len() && adj[a]@[i] == b as usize;
        assert(done.contains(a as usize));
        let pa = choose|p: int| 0 <= p < done.len() && done[p] == a as usize;
        assert(adj[done[pa] as int]@[i] == b as usize);
        assert(listed_before(done, pa, adj[done[pa] as int]@[i]));
        let q = choose|q: int| 0 <= q < pa && done[q] == adj[done[pa] as int]@[i];
        assert(node_view(nodes[done[pa] as int]) == es[k].0);
        assert(node_view(nodes[done[q] as int]) == es[k].1);
        let p1 = place(es[k].0);
        let q1 = place(es[k].1);
        assert(0 <= p1 < done.len() && node_view(nodes[done[p1] as int]) == es[k].0);
        assert(0 <= q1 < done.len() && node_view(nodes[done[q1] as int]) == es[k].1);
        if done[p1] != done[pa] {
            if done[p1] < done[pa] {
                assert(node_view(nodes[done[p1] as int]) != node_view(nodes[done[pa] as int]));
            } else {
                assert(node_view(nodes[done[pa] as int]) != node_view(nodes[done[p1] as int]));
            }
        }
        if p1 != pa {
            if p1 < pa {
                assert(done[p1] != done[pa]);
            } else {
                assert(done[pa] != done[p1]);
            }
        }
        if done[q1] != done[q] {
            if done[q1] < done[q] {
                assert(node_view(nodes[done[q1] as int]) != node_view(nodes[done[q] as int]));
            } else {
                assert(node_view(nodes[done[q] as int]) != node_view(nodes[done[q1] as int]));
            }
        }
        if q1 != q {
            if q1 < q {
                assert(done[q1] != done[q]);
            } else {
                assert(done[q] != done[q1]);
            }
        }
    }
    assert(ranks_edges(es, rank));
}

/// Explores the graph from the unvisited node `v`, reached by the walk
/// `path`, recording as a cycle each edge back to a node of the walk, and
/// listing in `done` each node it finishes, after the nodes it leads to.
fn explore(
    es: Ghost<Seq<((bool, Seq<char>), (bool, Seq<char>))>>,
    nodes: &Vec<DependencyNode>,
    adj: &Vec<Vec<usize>>,
    v: usize,
    state: &mut Vec<u8>,
    path: &mut Vec<usize>,
    cycles: &mut Vec<Vec<usize>>,
    done: &mut Vec<usize>,
)
    requires
        adj@.len() == nodes@.len(),
        old(state)@.len() == nodes@.len(),
        v < nodes@.len(),
        old(state)@[v as int] == 0,
        forall|a: int, i: int| #![trigger adj@[a]@[i]]
            0 <= a < adj@.len() && 0 <= i < adj@[a]@.len() ==> adj@[a]@[i] < nodes@.len() && idx_edge(es@, nodes@, a, adj@[a]@[i] as int),
        idx_walk(es@, nodes@, old(path)@),
        old(path)@.len() > 0 ==> idx_edge(es@, nodes@, old(path)@[old(path)@.len() - 1] as int, v as int),
        forall|x: int| 0 <= x < nodes@.len() ==> (old(state)@[x] == 1 <==> old(path)@.contains(x as usize)),
        forall|c: int| 0 <= c < old(cycles)@.len() ==> idx_cycle(es@, nodes@, #[trigger] old(cycles)@[c]@),
        finish_list(nodes@.len(), old(done)@),
        marks_match(old(state)@, old(done)@),
        old(cycles)@.len() > 0 || successors_first(adj@, old(done)@),
    ensures
        final(path)@ == old(path)@,
        finish_list(nodes@.len(), final(done)@),
        marks_match(final(state)@, final(done)@),
        old(done)@.len() <= final(done)@.len(),
        final(done)@.subrange(0, old(done)@.len() as int) == old(done)@,
        final(done)@.contains(v),
        final(cycles)@.len() >= old(cycles)@.len(),
        final(cycles)@.len() > 0 || successors_first(adj@, final(done)@),
        final(state)@.len() == nodes@.len(),
        forall|x: int| 0 <= x < nodes@.len() ==> (final(state)@[x] == 1 <==> old(state)@[x] == 1),
        final(state)@[v as int] != 0,
        count_unvisited(final(state)@, nodes@.len() as int) < count_unvisited(old(state)@, nodes@.len() as int),
        forall|x: int| 0 <= x < nodes@.len() && old(state)@[x] != 0 ==> #[trigger] final(state)@[x] != 0,
        forall|c: int| 0 <= c < final(cycles)@.len() ==> idx_cycle(es@, nodes@, #[trigger] final(cycles)@[c]@),
    decreases count_unvisited(old(state)@, nodes@.len() as int),
{
    let n = nodes.len();
    let ghost entry_state = state@;
    let ghost entry_path = path@;
    let ghost entry_done = done@;
    let ghost entry_cycles = cycles@.len();
    proof {
        lemma_count_mark(state@, v as int, 1u8, n as int);
        lemma_count_unvisited_nonneg(state@, n as int);
    }
    state.set(v, 1);
    path.push(v);
    proof {
        assert forall|i: int| 0 <= i < path@.len() - 1 implies #[trigger] idx_step(es@, nodes@, path@, i) by {
            if i < entry_path.len() - 1 {
                assert(idx_step(es@, nodes@, entry_path, i));
            }
        }
        assert forall|x: int| 0 <= x < n implies (state@[x] == 1 <==> path@.contains(x as usize)) by {
            if x != v as int {
                if path@.contains(x as usize) {
                    let j = choose|j: int| 0 <= j < path@.len() && path@[j] == x as usize;
                    assert(entry_path[j] == x as usize);
                }
                if entry_path.contains(x as usize) {
                    let j = choose|j: int| 0 <= j < entry_path.len() && entry_path[j] == x as usize;
                    assert(path@[j] == x as usize);
                }
            } else {
                assert(path@[path@.len() - 1] == v);
            }
        }
    }
    let row = &adj[v];
    let mut k: usize = 0;
    while k < row.len()
        invariant
            n == nodes@.len(),
            adj@.len() == n,
            v < n,
            *row == adj@[v as int],
            state@.len() == n,
            path@ == entry_path.push(v),
            entry_state == old(state)@,
            entry_state.len() == n,
            idx_walk(es@, nodes@, path@),
            forall|a: int, i: int| #![trigger adj@[a]@[i]]
                0 <= a < adj@.len() && 0 <= i < adj@[a]@.len() ==> adj@[a]@[i] < nodes@.len() && idx_edge(es@, nodes@, a, adj@[a]@[i] as int),
            forall|x: int| 0 <= x < n ==> (state@[x] == 1 <==> path@.contains(x as usize)),
            forall|x: int| 0 <= x < n && x != v ==> (state@[x] == 1 <==> entry_state[x] == 1),
            state@[v as int] == 1,
            count_unvisited(state@, n as int) < count_unvisited(entry_state, n as int),
            forall|x: int| 0 <= x < n && entry_state[x] != 0 ==> #[trigger] state@[x] != 0,
            forall|c: int| 0 <= c < cycles@.len() ==> idx_cycle(es@, nodes@, #[trigger] cycles@[c]@),
            finish_list(n as nat, done@),
            marks_match(state@, done@),
            entry_done.len() <= done@.len(),
            done@.subrange(0, entry_done.len() as int) == entry_done,
            cycles@.len() >= entry_cycles,
            k <= row@.len(),
            cycles@.len() > 0 || successors_first(adj@, done@),
            cycles@.len() > 0 || forall|i: int| 0 <= i < k ==> #[trigger] done@.contains(row@[i]),
        decreases row@.len() - k,
    {
        let w = row[k];
        assert(w < n && idx_edge(es@, nodes@, v as int, w as int)) by {
            assert(adj@[v as int]@[k as int] == w);
        }
        if state[w] == 1 {
            let mut j: usize = 0;
            while j < path.len() && path[j] != w
                invariant
                    j <= path@.len(),
                    forall|j2: int| 0 <= j2 < j ==> path@[j2] != w,
                decreases path@.len() - j,
            {
                j = j + 1;
            }
            if j < path.len() {
                let mut c: Vec<usize> = Vec::new();
                let mut q: usize = j;
                while q < path.len()
                    invariant
                        j < path@.len(),
                        path@[j as int] == w,
                        j <= q <= path@.len(),
                        c@ == path@.subrange(j as int, q as int),
                    decreases path@.len() - q,
                {
                    c.push(path[q]);
                    assert(c@ =~= path@.subrange(j as int, q + 1));
                    q = q + 1;
                }
                c.push(w);
                proof {
                    let p = path@;
                    let cs = c@;
                    assert(cs.len() >= 2);
                    assert(cs[0] == p[j as int]);
                    assert forall|i: int| 0 <= i < cs.len() implies #[trigger] cs[i] < nodes@.len() by {
                        if i < cs.len() - 1 {
                            assert(cs[i] == p[j + i]);
                        }
                    }
                    assert forall|i: int| 0 <= i < cs.len() - 1 implies #[trigger] idx_step(es@, nodes@, cs, i) by {
                        if i < cs.len() - 2 {
                            assert(cs[i] == p[j + i]);
                            assert(cs[i + 1] == p[j + i + 1]);
                            assert(idx_step(es@, nodes@, p, j + i));
                        } else {
                            assert(cs[i] == p[p.len() - 1]);
                            assert(p[p.len() - 1] == v);
                        }
                    }
                }
                cycles.push(c);
            } else {
                proof {
                    assert(path@.contains(w));
                    let j2 = choose|j2: int| 0 <= j2 < path@.len() && path@[j2] == w;
                    assert(path@[j2] != w);
                }
            }
        } else if state[w] == 0 {
            proof {
                assert(path@[path@.len() - 1] == v);
                lemma_count_unvisited_nonneg(state@, n as int);
                assert(entry_state == old(state)@);
            }
            let ghost before_done = done@;
            explore(es, nodes, adj, w, state, path, cycles, done);
            proof {
                lemma_finish_prefix(before_done, done@);
                assert(done@.subrange(0, entry_done.len() as int) =~= before_done.subrange(0, entry_done.len() as int));
            }
        } else {
            assert(state@[w as int] == 2);
        }
        assert(cycles@.len() > 0 || forall|i: int| 0 <= i < k + 1 ==> #[trigger] done@.contains(row@[i]));
        k = k + 1;
    }
    path.pop();
    assert(path@ =~= entry_path);
    proof {
        lemma_count_mark(state@, v as int, 2u8, n as int);
    }
    let ghost loop_done = done@;
    let ghost loop_state = state@;
    assert(!loop_done.contains(v));
    state.set(v, 2);
    done.push(v);
    assert forall|x: int| 0 <= x < n implies (state@[x] == 1 <==> entry_state[x] == 1) by {}
    proof {
        assert(done@.subrange(0, loop_done.len() as int) =~= loop_done);
        lemma_finish_prefix(loop_done, done@);
        assert(done@.subrange(0, entry_done.len() as int) =~= loop_done.subrange(0, entry_done.len() as int));
        assert(done@[loop_done.len() as int] == v);
        assert forall|p1: int, p2: int| 0 <= p1 < p2 < done@.len() implies #[trigger] done@[p1] != #[trigger] done@[p2] by {
            if p2 == loop_done.len() {
                assert(loop_done[p1] == done@[p1]);
                if done@[p1] == v {
                    assert(loop_done.contains(v));
                }
            } else {
                assert(loop_done[p1] != loop_done[p2]);
            }
        }
        assert forall|x: int| 0 <= x < state@.len() implies #[trigger] state@[x] <= 2 && (state@[x] == 2
            <==> done@.contains(x as usize)) by {
            if x != v as int {
                assert(loop_state[x] == state@[x]);
                if done@.contains(x as usize) {
                    let p = choose|p: int| 0 <= p < done@.len() && done@[p] == x as usize;
                    assert(p < loop_done.len());
                    assert(loop_done[p] == x as usize);
                }
            }
        }
        if cycles@.len() == 0 {
            assert(successors_first(adj@, loop_done));
            assert forall|i: int| 0 <= i < row@.len() implies #[trigger] loop_done.contains(row@[i]) by {}
            assert forall|p: int, i: int|
                #![trigger adj@[done@[p] as int]@[i]]
                0 <= p < done@.len() && 0 <= i < adj@[done@[p] as int]@.len() implies listed_before(
                    done@,
                    p,
                    adj@[done@[p] as int]@[i],
                ) by {
                if p < loop_done.len() {
                    assert(done@[p] == loop_done[p]);
                    assert(adj@[loop_done[p] as int]@[i] == adj@[done@[p] as int]@[i]);
                    assert(listed_before(loop_done, p, adj@[loop_done[p] as int]@[i]));
                    let q = choose|q: int| 0 <= q < p && loop_done[q] == adj@[loop_done[p] as int]@[i];
                    assert(done@[q] == loop_done[q]);
                } else {
                    assert(done@[p] == v);
                    assert(row@[i] == adj@[v as int]@[i]);
                    assert(loop_done.contains(row@[i]));
                    let q = choose|q: int| 0 <= q < loop_done.len() && loop_done[q] == row@[i];
                    assert(done@[q] == loop_done[q]);
                }
            }
        }
    }
}

/// Adding a node to `nodes` keeps the nodes it has and adds the new one.
proof fn lemma_push_node(nodes: Seq<DependencyNode>, y: DependencyNode)
    ensures
        forall|x: (bool, Seq<char>)| has_node(nodes, x) ==> has_node(nodes.push(y), x),
        has_node(nodes.push(y), node_view(y)),
        distinct_nodes(nodes) && !has_node(nodes, node_view(y)) ==> distinct_nodes(nodes.push(y)),
{
    let ns = nodes.push(y);
    assert forall|x: (bool, Seq<char>)| has_node(nodes, x) implies has_node(ns, x) by {
        let i = choose|i: int| 0 <= i < nodes.len() && #[trigger] node_view(nodes[i]) == x;
        assert(ns[i] == nodes[i]);
    }
    assert(ns[nodes.len() as int] == y);
    if distinct_nodes(nodes) && !has_node(nodes, node_view(y)) {
        assert forall|i: int, j: int| 0 <= i < j < ns.len() implies node_view(#[trigger] ns[i]) != node_view(#[trigger] ns[j]) by {
            assert(ns[i] == nodes[i]);
            if j < nodes.len() {
                assert(ns[j] == nodes[j]);
            } else if node_view(ns[i]) == node_view(ns[j]) {
                assert(node_view(nodes[i]) == node_view(y));
            }
        }
    }
}

/// Returns cycles of the graph with the edges `edges`: exploring its nodes
/// depth first, children before environments and each kind by name, every
/// edge back to a node on the current walk closes a cycle, listed from that
/// node. Each listed cycle is a cycle of the graph, and the listing is
/// empty exactly when the graph has no cycle.
pub fn find_cycles(edges: &Vec<(DependencyNode, DependencyNode)>) -> (r: Vec<Vec<DependencyNode>>)
    ensures
        forall|i: int| 0 <= i < r@.len() ==> is_cycle(edges_view(edges@), nodes_view(#[trigger] r@[i]@)),
        r@.len() == 0 <==> strong_dependencies_acyclic(edges_view(edges@)),
{
    let ghost es = edges_view(edges@);
    let mut nodes: Vec<DependencyNode> = Vec::new();
    let mut k: usize = 0;
    while k < edges.len()
        invariant
            k <= edges@.len(),
            es == edges_view(edges@),
            distinct_nodes(nodes@),
            forall|k2: int| #![trigger es[k2]] 0 <= k2 < k ==> has_node(nodes@, es[k2].0) && has_node(nodes@, es[k2].1),
        decreases edges@.len() - k,
    {
        assert(es[k as int] == (node_view(edges@[k as int].0), node_view(edges@[k as int].1)));
        let ghost n0 = nodes@;
        if find_node(&nodes, &edges[k].0).is_none() {
            let y = copy_node(&edges[k].0);
            proof {
                lemma_push_node(nodes@, y);
            }
            nodes.push(y);
        }
        assert(has_node(nodes@, es[k as int].0));
        assert(forall|x: (bool, Seq<char>)| has_node(n0, x) ==> has_node(nodes@, x));
        let ghost n1 = nodes@;
        if find_node(&nodes, &edges[k].1).is_none() {
            let y = copy_node(&edges[k].1);
            proof {
                lemma_push_node(nodes@, y);
            }
            nodes.push(y);
        }
        assert(has_node(nodes@, es[k as int].1));
        assert(forall|x: (bool, Seq<char>)| has_node(n1, x) ==> has_node(nodes@, x));
        k = k + 1;
    }
    assert(es.len() == edges@.len());
    let n = nodes.len();
    let mut adj: Vec<Vec<usize>> = Vec::new();
    let mut a: usize = 0;
    while a < n
        invariant
            n == nodes@.len(),
            es == edges_view(edges@),
            a <= n,
            adj@.len() == a,
            distinct_nodes(nodes@),
            forall|k2: int| #![trigger es[k2]] 0 <= k2 < es.len() ==> has_node(nodes@, es[k2].0) && has_node(nodes@, es[k2].1),
            forall|a2: int, i: int| #![trigger adj@[a2]@[i]]
                0 <= a2 < adj@.len() && 0 <= i < adj@[a2]@.len() ==> adj@[a2]@[i] < n && idx_edge(es, nodes@, a2, adj@[a2]@[i] as int),
            forall|a2: int, b: usize|
                0 <= a2 < adj@.len() && b < n && idx_edge(es, nodes@, a2, b as int) ==> #[trigger] adj@[a2]@.contains(b),
        decreases n - a,
    {
        let mut row: Vec<usize> = Vec::new();
        let mut e: usize = 0;
        while e < edges.len()
            invariant
                n == nodes@.len(),
                es == edges_view(edges@),
                a < n,
                e <= edges@.len(),
                distinct_nodes(nodes@),
                forall|k2: int| #![trigger es[k2]] 0 <= k2 < es.len() ==> has_node(nodes@, es[k2].0) && has_node(nodes@, es[k2].1),
                forall|i: int| 0 <= i < row@.len() ==> #[trigger] row@[i] < n && idx_edge(es, nodes@, a as int, row@[i] as int),
                forall|b: usize|
                    b < n && (exists|k2: int| 0 <= k2 < e && #[trigger] es[k2] == (node_view(nodes@[a as int]), node_view(nodes@[b as int])))
                        ==> #[trigger] row@.contains(b),
            decreases edges@.len() - e,
        {
            assert(es[e as int] == (node_view(edges@[e as int].0), node_view(edges@[e as int].1)));
            let ghost row0 = row@;
            if same_node(&edges[e].0, &nodes[a]) {
                assert(has_node(nodes@, es[e as int].1));
                if let Some(b) = find_node(&nodes, &edges[e].1) {
                    let mut seen = false;
                    let mut q: usize = 0;
                    while q < row.len()
                        invariant
                            q <= row@.len(),
                            seen ==> row@.contains(b),
                        decreases row@.len() - q,
                    {
                        if row[q] == b {
                            seen = true;
                            assert(row@[q as int] == b);
                        }
                        q = q + 1;
                    }
                    if !seen {
                        proof {
                            assert(es[e as int] == (node_view(nodes@[a as int]), node_view(nodes@[b as int])));
                        }
                        row.push(b);
                        assert(row@[row@.len() - 1] == b);
                        assert forall|x: usize| row0.contains(x) implies row@.contains(x) by {
                            let j = choose|j: int| 0 <= j < row0.len() && row0[j] == x;
                            assert(row@[j] == x);
                        }
                    }
                    assert(row@.contains(b));
                    assert forall|b2: usize|
                        b2 < n && (exists|k2: int| 0 <= k2 < e + 1 && #[trigger] es[k2] == (node_view(nodes@[a as int]), node_view(nodes@[b2 as int])))
                        implies #[trigger] row@.contains(b2) by {
                        let k2 = choose|k2: int| 0 <= k2 < e + 1 && #[trigger] es[k2] == (node_view(nodes@[a as int]), node_view(nodes@[b2 as int]));
                        if k2 < e {
                            assert(row0.contains(b2));
                        } else if b2 != b {
                            if b2 < b {
                                assert(node_view(nodes@[b2 as int]) != node_view(nodes@[b as int]));
                            } else {
                                assert(node_view(nodes@[b as int]) != node_view(nodes@[b2 as int]));
                            }
                        }
                    }
                }
            }
            e = e + 1;
        }
        assert forall|b: usize| b < n && idx_edge(es, nodes@, a as int, b as int) implies #[trigger] row@.contains(b) by {
            let k2 = choose|k2: int| 0 <= k2 < es.len() && #[trigger] es[k2] == (node_view(nodes@[a as int]), node_view(nodes@[b as int]));
            assert(0 <= k2 < edges@.len());
        }
        let ghost ns = nodes@;
        let ghost aa = a as int;
        let ghost row1 = row@;
        sort_positions(&nodes, &mut row, Ghost(|x: usize| idx_edge(es, ns, aa, x as int)));
        let ghost before = adj@;
        adj.push(row);
        assert forall|a2: int, i: int| #![trigger adj@[a2]@[i]]
            0 <= a2 < adj@.len() && 0 <= i < adj@[a2]@.len() implies adj@[a2]@[i] < n && idx_edge(es, nodes@, a2, adj@[a2]@[i] as int) by {
            if a2 < before.len() {
                assert(adj@[a2] == before[a2]);
            }
        }
        assert forall|a2: int, b: usize|
            0 <= a2 < adj@.len() && b < n && idx_edge(es, nodes@, a2, b as int) implies #[trigger] adj@[a2]@.contains(b) by {
            if a2 < before.len() {
                assert(adj@[a2] == before[a2]);
            } else {
                assert(row1.contains(b));
            }
        }
        a = a + 1;
    }
    let mut order: Vec<usize> = Vec::new();
    let mut i: usize = 0;
    while i < n
        invariant
            i <= n,
            order@.len() == i,
            forall|j: int| 0 <= j < i ==> #[trigger] order@[j] == j,
        decreases n - i,
    {
        order.push(i);
        i = i + 1;
    }
    let ghost order0 = order@;
    sort_positions(&nodes, &mut order, Ghost(|x: usize| true));
    assert forall|x: usize| x < n implies #[trigger] order@.contains(x) by {
        assert(order0[x as int] == x);
        assert(order0.contains(x));
    }
    let mut state: Vec<u8> = Vec::new();
    let mut i: usize = 0;
    while i < n
        invariant
            i <= n,
            state@.len() == i,
            forall|j: int| 0 <= j < i ==> state@[j] == 0,
        decreases n - i,
    {
        state.push(0);
        i = i + 1;
    }
    let mut path: Vec<usize> = Vec::new();
    let mut cycles: Vec<Vec<usize>> = Vec::new();
    let mut done: Vec<usize> = Vec::new();
    let mut i: usize = 0;
    while i < n
        invariant
            n == nodes@.len(),
            es == edges_view(edges@),
            adj@.len() == n,
            order@.len() == n,
            forall|j: int| 0 <= j < n ==> #[trigger] order@[j] < n,
            forall|a2: int, i2: int| #![trigger adj@[a2]@[i2]]
                0 <= a2 < adj@.len() && 0 <= i2 < adj@[a2]@.len() ==> adj@[a2]@[i2] < n && idx_edge(es, nodes@, a2, adj@[a2]@[i2] as int),
            state@.len() == n,
            path@.len() == 0,
            forall|x: int| 0 <= x < n ==> state@[x] != 1,
            forall|c: int| 0 <= c < cycles@.len() ==> idx_cycle(es, nodes@, #[trigger] cycles@[c]@),
            i <= n,
            finish_list(n as nat, done@),
            marks_match(state@, done@),
            cycles@.len() > 0 || successors_first(adj@, done@),
            forall|x: usize| x < n ==> #[trigger] order@.contains(x),
            forall|j: int| 0 <= j < i ==> #[trigger] state@[order@[j] as int] != 0,
        decreases n - i,
    {
        let v = order[i];
        if state[v] == 0 {
            proof {
                assert forall|x: int| 0 <= x < n implies (state@[x] == 1 <==> path@.contains(x as usize)) by {}
                assert(idx_walk(es, nodes@, path@));
            }
            let ghost st0 = state@;
            explore(Ghost(es), &nodes, &adj, v, &mut state, &mut path, &mut cycles, &mut done);
            assert forall|j: int| 0 <= j < i + 1 implies #[trigger] state@[order@[j] as int] != 0 by {
                if j < i {
                    assert(st0[order@[j] as int] != 0);
                }
            }
        }
        i = i + 1;
    }
    proof {
        if cycles@.len() == 0 {
            assert forall|x: int| 0 <= x < n implies #[trigger] done@.contains(x as usize) by {
                assert(order@.contains(x as usize));
                let j = choose|j: int| 0 <= j < order@.len() && order@[j] == x as usize;
                assert(state@[order@[j] as int] != 0);
                assert(state@[x] <= 2);
            }
            lemma_finished_ranks(es, nodes@, adj@, done@);
        }
    }
    let mut out: Vec<Vec<DependencyNode>> = Vec::new();
    let mut c: usize = 0;
    while c < cycles.len()
        invariant
            n == nodes@.len(),
            c <= cycles@.len(),
            out@.len() == c,
            forall|c2: int| 0 <= c2 < cycles@.len() ==> idx_cycle(es, nodes@, #[trigger] cycles@[c2]@),
            forall|c2: int| 0 <= c2 < c ==> is_cycle(es, nodes_view(#[trigger] out@[c2]@)),
        decreases cycles@.len() - c,
    {
        let cyc = &cycles[c];
        let mut ns: Vec<DependencyNode> = Vec::new();
        let mut q: usize = 0;
        while q < cyc.len()
            invariant
                n == nodes@.len(),
                *cyc == cycles@[c as int],
                idx_cycle(es, nodes@, cyc@),
                q <= cyc@.len(),
                ns@.len() == q,
                forall|q2: int| 0 <= q2 < q ==> node_view(#[trigger] ns@[q2]) == node_view(nodes@[cyc@[q2] as int]),
            decreases cyc@.len() - q,
        {
            assert(cyc@[q as int] < n);
            ns.push(copy_node(&nodes[cyc[q]]));
            q = q + 1;
        }
        proof {
            let cv = nodes_view(ns@);
            assert(cv[0] == cv[cv.len() - 1]);
            assert forall|i2: int| 0 <= i2 < cv.len() - 1 implies #[trigger] cycle_step(es, cv, i2) by {
                assert(idx_step(es, nodes@, cyc@, i2));
            }
        }
        let ghost before = out@;
        out.push(ns);
        assert forall|c2: int| 0 <= c2 < c + 1 implies is_cycle(es, nodes_view(#[trigger] out@[c2]@)) by {
            if c2 < c {
                assert(out@[c2] == before[c2]);
            }
        }
        c = c + 1;
    }
    proof {
        if out@.len() > 0 && strong_dependencies_acyclic(es) {
            let rank = choose|rank: spec_fn((bool, Seq<char>)) -> int| #[trigger] ranks_edges(es, rank);
            let cv = nodes_view(out@[0]@);
            assert(is_cycle(es, cv));
            lemma_ranked_no_cycle(es, rank, cv, cv.len() - 1);
        }
    }
    out
}

/// How a refusal names a node.
pub open spec fn node_text(n: (bool, Seq<char>)) -> Seq<char> {
    if n.0 {
        "environment "@ + n.1
    } else {
        "child "@ + n.1
    }
}

/// The nodes of a walk, named and joined by ` -> `.
pub open spec fn walk_text(c: Seq<(bool, Seq<char>)>) -> Seq<char>
    decreases c.len(),
{
    if c.len() == 0 {
        Seq::empty()
    } else if c.len() == 1 {
        node_text(c[0])
    } else {
        walk_text(c.drop_last()) + " -> "@ + node_text(c.last())
    }
}

/// The walks `cs`, each in braces, joined by `, `.
pub open spec fn cycles_body(cs: Seq<Seq<(bool, Seq<char>)>>) -> Seq<char>
    decreases cs.len(),
{
    if cs.len() == 0 {
        Seq::empty()
    } else if cs.len() == 1 {
        "{"@ + walk_text(cs[0]) + "}"@
    } else {
        cycles_body(cs.drop_last()) + ", {"@ + walk_text(cs.last()) + "}"@
    }
}

/// How a refusal lists the cycles `cs`: in braces.
pub open spec fn cycles_text(cs: Seq<Seq<(bool, Seq<char>)>>) -> Seq<char> {
    "{"@ + cycles_body(cs) + "}"@
}

/// The cycles of `v`, each as the values of its nodes.
pub open spec fn cycles_view(v: Seq<Vec<DependencyNode>>) -> Seq<Seq<(bool, Seq<char>)>> {
    v.map_values(|c: Vec<DependencyNode>| nodes_view(c@))
}

/// Writes a walk as a refusal names it.
fn format_walk(c: &Vec<DependencyNode>) -> (r: String)
    ensures
        r@ == walk_text(nodes_view(c@)),
{
    let mut out = String::new();
    let mut q: usize = 0;
    while q < c.len()
        invariant
            q <= c@.len(),
            out@ == walk_text(nodes_view(c@).take(q as int)),
        decreases c@.len() - q,
    {
        let ghost before = out@;
        if q > 0 {
            out.append(" -> ");
        }
        let d = c[q].describe();
        assert(d@ == node_text(node_view(c@[q as int])));
        out.append(d.as_str());
        proof {
            let t = nodes_view(c@).take(q + 1);
            assert(t.drop_last() =~= nodes_view(c@).take(q as int));
            assert(t.last() == node_view(c@[q as int]));
            if q == 0 {
                assert(before =~= Seq::<char>::empty());
                assert(out@ =~= node_text(t[0]));
            } else {
                assert(out@ =~= walk_text(t.drop_last()) + " -> "@ + node_text(t.last()));
            }
        }
        q = q + 1;
    }
    assert(nodes_view(c@).take(c@.len() as int) =~= nodes_view(c@));
    out
}

/// Writes cycles as a refusal lists them: each as its nodes joined by
/// ` -> ` in braces, the cycles joined by `, ` in braces.
pub fn format_cycles(cycles: &Vec<Vec<DependencyNode>>) -> (r: String)
    ensures
        r@ == cycles_text(cycles_view(cycles@)),
{
    let mut out = String::new();
    let mut c: usize = 0;
    while c < cycles.len()
        invariant
            c <= cycles@.len(),
            out@ == cycles_body(cycles_view(cycles@).take(c as int)),
        decreases cycles@.len() - c,
    {
        let ghost before = out@;
        if c > 0 {
            out.append(", {");
        } else {
            out.append("{");
        }
        let w = format_walk(&cycles[c]);
        out.append(w.as_str());
        out.append("}");
        proof {
            let t = cycles_view(cycles@).take(c + 1);
            assert(t.drop_last() =~= cycles_view(cycles@).take(c as int));
            assert(t.last() == nodes_view(cycles@[c as int]@));
            if c == 0 {
                assert(before =~= Seq::<char>::empty());
                assert(out@ =~= "{"@ + walk_text(t[0]) + "}"@);
            } else {
                assert(out@ =~= cycles_body(t.drop_last()) + ", {"@ + walk_text(t.last()) + "}"@);
            }
        }
        c = c + 1;
    }
    assert(cycles_view(cycles@).take(cycles@.len() as int) =~= cycles_view(cycles@));
    let mut r = String::from_str("{");
    r.append(out.as_str());
    r.append("}");
    r
}

} // verus!
