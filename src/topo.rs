use vstd::prelude::*;
use crate::graph::{node_wf, nodes_wf, Graph, Node, Prev};

verus! {

/// `a` is an operand of node `i`.
pub open spec fn is_operand(nodes: Seq<Node>, i: int, a: int) -> bool {
    0 <= i < nodes.len() && match nodes[i].prev {
        Prev::Init => false,
        Prev::Unary(x) => x as int == a,
        Prev::Binary(x, y) => x as int == a || y as int == a,
    }
}

/// Node `j` is reachable from node `i` by following operands.
pub open spec fn reaches(nodes: Seq<Node>, i: int, j: int) -> bool
    decreases i,
{
    if i < 0 || i >= nodes.len() {
        false
    } else if i == j {
        true
    } else {
        match nodes[i].prev {
            Prev::Init => false,
            Prev::Unary(a) => a < i && reaches(nodes, a as int, j),
            Prev::Binary(a, b) => (a < i && reaches(nodes, a as int, j)) || (b < i && reaches(nodes, b as int, j)),
        }
    }
}

/// Depth-first traversal from node `i`: operands left to right, each node
/// entered once (`visited`), appended to `topo` once all of its operands are
/// finished. Returns the visited marks and the finished nodes afterwards.
pub open spec fn dfs(nodes: Seq<Node>, i: int, visited: Seq<bool>, topo: Seq<usize>) -> (Seq<bool>, Seq<usize>)
    decreases i,
{
    if i < 0 || i >= nodes.len() || visited[i] {
        (visited, topo)
    } else {
        let v1 = visited.update(i, true);
        match nodes[i].prev {
            Prev::Init => (v1, topo.push(i as usize)),
            Prev::Unary(a) => if a < i {
                let (v2, t2) = dfs(nodes, a as int, v1, topo);
                (v2, t2.push(i as usize))
            } else {
                (v1, topo.push(i as usize))
            },
            Prev::Binary(a, b) => if a < i && b < i {
                let (v2, t2) = dfs(nodes, a as int, v1, topo);
                let (v3, t3) = dfs(nodes, b as int, v2, t2);
                (v3, t3.push(i as usize))
            } else {
                (v1, topo.push(i as usize))
            },
        }
    }
}

/// The post-order of the nodes reachable from `root`.
pub open spec fn post_order(nodes: Seq<Node>, root: int) -> Seq<usize> {
    dfs(nodes, root, Seq::new(nodes.len(), |j: int| false), Seq::empty()).1
}

/// The state of the depth-first traversal: `topo` holds the finished nodes,
/// each once, each after its operands; every visited node is finished or is
/// still open above `bound`.
pub open spec fn dfs_inv(nodes: Seq<Node>, visited: Seq<bool>, topo: Seq<usize>, bound: int) -> bool {
    &&& visited.len() == nodes.len()
    &&& topo.no_duplicates()
    &&& forall|p: int| 0 <= p < topo.len() ==> #[trigger] topo[p] < nodes.len() && visited[topo[p] as int]
    &&& forall|j: int| 0 <= j < nodes.len() && #[trigger] visited[j] ==> topo.contains(j as usize) || j > bound
    &&& forall|p: int, a: int| 0 <= p < topo.len() && #[trigger] is_operand(nodes, topo[p] as int, a)
            ==> topo.take(p).contains(a as usize)
}

/// `order` lists the nodes reachable from `root`, each exactly once, the
/// root first, and every node before each of its operands: when a node's
/// backward rule runs, all of its consumers have already contributed to its
/// gradient.
pub open spec fn is_backward_order(nodes: Seq<Node>, root: int, order: Seq<usize>) -> bool {
    &&& order.no_duplicates()
    &&& forall|k: int| 0 <= k < nodes.len() ==> (order.contains(k as usize) <==> #[trigger] reaches(nodes, root, k))
    &&& forall|p: int| 0 <= p < order.len() ==> #[trigger] order[p] < nodes.len()
    &&& order.len() > 0 && order[0] == root
    &&& forall|p: int, q: int| 0 <= p < order.len() && 0 <= q < order.len()
            && #[trigger] is_operand(nodes, order[p] as int, order[q] as int) ==> p < q
}

proof fn lemma_take_contains(s: Seq<usize>, n: int, m: int, x: usize)
    requires
        0 <= n <= m <= s.len(),
        s.take(n).contains(x),
    ensures
        s.take(m).contains(x),
{
    let k = choose|k: int| 0 <= k < s.take(n).len() && s.take(n)[k] == x;
    assert(s.take(m)[k] == x);
}

proof fn lemma_prefix_contains(s: Seq<usize>, t: Seq<usize>, x: usize)
    requires
        s.len() <= t.len(),
        t.take(s.len() as int) =~= s,
        s.contains(x),
    ensures
        t.contains(x),
{
    let k = choose|k: int| 0 <= k < s.len() && s[k] == x;
    assert(t[k] == x);
}

/// Everything reachable from a finished node is finished.
proof fn lemma_finished_closed(nodes: Seq<Node>, visited: Seq<bool>, topo: Seq<usize>, bound: int, i: usize, k: int)
    requires
        nodes_wf(nodes),
        dfs_inv(nodes, visited, topo, bound),
        topo.contains(i),
        i < nodes.len(),
        reaches(nodes, i as int, k),
    ensures
        topo.contains(k as usize),
    decreases i,
{
    if i != k {
        let p = choose|p: int| 0 <= p < topo.len() && topo[p] == i;
        assert(node_wf(nodes[i as int], i as int));
        assert(topo.take(topo.len() as int) =~= topo);
        match nodes[i as int].prev {
            Prev::Init => {},
            Prev::Unary(a) => {
                assert(is_operand(nodes, topo[p] as int, a as int));
                lemma_take_contains(topo, p, topo.len() as int, a);
                lemma_finished_closed(nodes, visited, topo, bound, a, k);
            },
            Prev::Binary(a, b) => {
                if a < i && reaches(nodes, a as int, k) {
                    assert(is_operand(nodes, topo[p] as int, a as int));
                    lemma_take_contains(topo, p, topo.len() as int, a);
                    lemma_finished_closed(nodes, visited, topo, bound, a, k);
                } else {
                    assert(is_operand(nodes, topo[p] as int, b as int));
                    lemma_take_contains(topo, p, topo.len() as int, b);
                    lemma_finished_closed(nodes, visited, topo, bound, b, k);
                }
            },
        }
    }
}

fn visit(g: &Graph, i: usize, visited: &mut Vec<bool>, topo: &mut Vec<usize>)
    requires
        g.wf(),
        i < g@.len(),
        dfs_inv(g@, old(visited)@, old(topo)@, i as int),
    ensures
        dfs_inv(g@, final(visited)@, final(topo)@, i as int),
        old(topo)@.len() <= final(topo)@.len(),
        final(topo)@.take(old(topo)@.len() as int) =~= old(topo)@,
        final(topo)@.contains(i),
        !old(visited)@[i as int] ==> final(topo)@.len() > 0 && final(topo)@.last() == i,
        (final(visited)@, final(topo)@) == dfs(g@, i as int, old(visited)@, old(topo)@),
        forall|j: int| 0 <= j < g@.len() && #[trigger] final(visited)@[j] ==> old(visited)@[j] || final(topo)@.contains(j as usize),
        forall|j: int| 0 <= j < g@.len() && #[trigger] old(visited)@[j] ==> final(visited)@[j],
        forall|p: int| old(topo)@.len() <= p < final(topo)@.len() ==>
            !old(visited)@[#[trigger] final(topo)@[p] as int] && reaches(g@, i as int, final(topo)@[p] as int),
    decreases i,
{
    if visited[i] {
        assert(topo@.take(topo@.len() as int) =~= topo@);
        return;
    }
    visited.set(i, true);
    let ghost v1 = visited@;
    let ghost t1 = topo@;
    let n = g.node(i);
    assert(node_wf(g@[i as int], i as int));
    assert forall|c: int| 0 <= c < i implies dfs_inv(g@, v1, t1, c) by {
        assert forall|p: int| 0 <= p < t1.len() implies #[trigger] t1[p] < g@.len() && v1[t1[p] as int] by {
            assert(old(visited)@[t1[p] as int]);
        }
        assert forall|j: int| 0 <= j < g@.len() && #[trigger] v1[j] implies t1.contains(j as usize) || j > c by {
            if j != i {
                assert(old(visited)@[j]);
            }
        }
    }
    match n.prev {
        Prev::Init => {},
        Prev::Unary(a) => {
            assert(dfs_inv(g@, visited@, topo@, a as int));
            visit(g, a, visited, topo);
            assert forall|p: int| t1.len() <= p < topo@.len() implies reaches(g@, i as int, #[trigger] topo@[p] as int) by {
                assert(reaches(g@, a as int, topo@[p] as int));
            }
        },
        Prev::Binary(a, b) => {
            assert(dfs_inv(g@, visited@, topo@, a as int));
            visit(g, a, visited, topo);
            let ghost v2 = visited@;
            let ghost t2 = topo@;
            assert(dfs_inv(g@, visited@, topo@, b as int)) by {
                assert forall|j: int| 0 <= j < g@.len() && #[trigger] visited@[j] implies topo@.contains(j as usize) || j > b by {
                    if !topo@.contains(j as usize) && v1[j] && !old(topo)@.contains(j as usize) {
                        if j != i {
                            assert(old(visited)@[j]);
                        }
                    }
                    if v1[j] && t1.contains(j as usize) {
                        lemma_prefix_contains(t1, topo@, j as usize);
                    }
                }
            }
            visit(g, b, visited, topo);
            assert(t2.contains(a));
            proof { lemma_prefix_contains(t2, topo@, a); }
            assert(topo@.take(t1.len() as int) =~= t1) by {
                assert(topo@.take(t2.len() as int) =~= t2);
                assert(t2.take(t1.len() as int) =~= t1);
            }
            assert forall|p: int| t1.len() <= p < topo@.len() implies
                !v1[#[trigger] topo@[p] as int] && reaches(g@, i as int, topo@[p] as int) by {
                if p < t2.len() {
                    assert(topo@[p] == t2[p]);
                    assert(reaches(g@, a as int, topo@[p] as int));
                } else {
                    assert(reaches(g@, b as int, topo@[p] as int));
                }
            }
        },
    }
    let ghost t3 = topo@;
    let ghost v3 = visited@;
    assert(t3.take(t1.len() as int) =~= t1);
    assert(!t3.contains(i)) by {
        if t3.contains(i) {
            let p = choose|p: int| 0 <= p < t3.len() && t3[p] == i;
            if p >= t1.len() {
                assert(!v1[t3[p] as int]);
            } else {
                assert(t1[p] == i);
                assert(old(visited)@[i as int]);
            }
        }
    }
    topo.push(i);
    assert(topo@.take(t3.len() as int) =~= t3);
    proof {
        let tf = topo@;
        assert(tf.no_duplicates()) by {
            assert forall|x: int, y: int| 0 <= x < y < tf.len() implies tf[x] != tf[y] by {
                if y == t3.len() {
                    assert(tf[y] == i);
                    assert(tf[x] == t3[x]);
                    assert(t3.contains(t3[x]));
                } else {
                    assert(tf[x] == t3[x] && tf[y] == t3[y]);
                }
            }
        }
        assert(forall|p: int| 0 <= p < t1.len() ==> #[trigger] t1[p] < g@.len() && v1[t1[p] as int]) by {
            assert forall|p: int| 0 <= p < t1.len() implies #[trigger] t1[p] < g@.len() && v1[t1[p] as int] by {
                assert(old(visited)@[t1[p] as int]);
            }
        }
        assert(v1[i as int]);
        assert(visited@[i as int]);
        assert forall|p: int| 0 <= p < tf.len() implies #[trigger] tf[p] < g@.len() && visited@[tf[p] as int] by {
            if p < t3.len() {
                assert(tf[p] == t3[p]);
                assert(t3[p] < g@.len() && v3[t3[p] as int]);
            } else {
                assert(tf[p] == i);
            }
        }
        assert forall|p: int, q: int| 0 <= p < tf.len() && #[trigger] is_operand(g@, tf[p] as int, q)
            implies tf.take(p).contains(q as usize) by {
            if p < t3.len() {
                assert(tf.take(p) =~= t3.take(p));
            } else {
                assert(tf.take(p) =~= t3);
                match n.prev {
                    Prev::Init => {},
                    Prev::Unary(a) => {},
                    Prev::Binary(a, b) => {},
                }
            }
        }
        assert forall|j: int| 0 <= j < g@.len() && #[trigger] visited@[j] implies tf.contains(j as usize) || j > i by {
            if j == i {
                assert(tf[t3.len() as int] == i);
            } else if t3.contains(j as usize) {
                lemma_prefix_contains(t3, tf, j as usize);
            }
        }
        assert(tf[t3.len() as int] == i);
        assert forall|j: int| 0 <= j < g@.len() && #[trigger] visited@[j] implies old(visited)@[j] || tf.contains(j as usize) by {
            if t3.contains(j as usize) {
                lemma_prefix_contains(t3, tf, j as usize);
            }
        }
        assert forall|j: int| 0 <= j < g@.len() && #[trigger] old(visited)@[j] implies visited@[j] by {
            assert(v1[j]);
        }
        assert forall|p: int| old(topo)@.len() <= p < tf.len() implies
            !old(visited)@[#[trigger] tf[p] as int] && reaches(g@, i as int, tf[p] as int) by {
            if p < t3.len() {
                assert(tf[p] == t3[p]);
            }
        }
    }
}

/// Depth-first post-order of the nodes reachable from `root`: every node
/// after all of its operands, each node once, the root last.
pub fn topological_sort(g: &Graph, root: usize) -> (r: Vec<usize>)
    requires
        g.wf(),
        root < g@.len(),
    ensures
        r@.no_duplicates(),
        forall|k: int| 0 <= k < g@.len() ==> (r@.contains(k as usize) <==> #[trigger] reaches(g@, root as int, k)),
        forall|p: int| 0 <= p < r@.len() ==> #[trigger] r@[p] < g@.len(),
        r@.len() > 0 && r@.last() == root,
        forall|p: int, q: int| 0 <= p < r@.len() && 0 <= q < r@.len()
            && #[trigger] is_operand(g@, r@[p] as int, r@[q] as int) ==> q < p,
        r@ == post_order(g@, root as int),
{
    let mut visited: Vec<bool> = Vec::new();
    let n = g.len();
    while visited.len() < n
        invariant
            visited.len() <= n,
            n == g@.len(),
            forall|j: int| 0 <= j < visited.len() ==> !#[trigger] visited@[j],
        decreases n - visited.len(),
    {
        visited.push(false);
    }
    let mut topo: Vec<usize> = Vec::new();
    assert(topo@.no_duplicates());
    assert(visited@ =~= Seq::new(g@.len(), |j: int| false));
    visit(g, root, &mut visited, &mut topo);
    proof {
        let t = topo@;
        assert forall|k: int| 0 <= k < g@.len() implies (t.contains(k as usize) <==> #[trigger] reaches(g@, root as int, k)) by {
            if reaches(g@, root as int, k) {
                lemma_finished_closed(g@, visited@, t, root as int, root, k);
            }
            if t.contains(k as usize) {
                let p = choose|p: int| 0 <= p < t.len() && t[p] == k as usize;
                assert(reaches(g@, root as int, t[p] as int));
            }
        }
        assert forall|p: int, q: int| 0 <= p < t.len() && 0 <= q < t.len()
            && #[trigger] is_operand(g@, t[p] as int, t[q] as int) implies q < p by {
            assert(t.take(p).contains(t[q]));
            let k = choose|k: int| 0 <= k < t.take(p).len() && t.take(p)[k] == t[q];
            assert(t[k] == t[q]);
        }
    }
    topo
}

/// The order in which the backward pass visits the nodes reachable from
/// `root`: the depth-first post-order reversed, so the root comes first and
/// leaves last.
pub fn backward_order(g: &Graph, root: usize) -> (r: Vec<usize>)
    requires
        g.wf(),
        root < g@.len(),
    ensures
        is_backward_order(g@, root as int, r@),
        r@ == post_order(g@, root as int).reverse(),
{
    let topo = topological_sort(g, root);
    let ghost t = topo@;
    let mut r: Vec<usize> = Vec::new();
    let mut k: usize = topo.len();
    while k > 0
        invariant
            k <= t.len(),
            t == topo@,
            r@.len() == t.len() - k,
            forall|p: int| 0 <= p < r@.len() ==> #[trigger] r@[p] == t[t.len() - 1 - p],
        decreases k,
    {
        k = k - 1;
        r.push(topo[k]);
    }
    proof {
        let o = r@;
        let n = t.len() as int;
        assert forall|x: int, y: int| 0 <= x < y < o.len() implies o[x] != o[y] by {
            assert(o[x] == t[n - 1 - x] && o[y] == t[n - 1 - y]);
        }
        assert forall|k: int| 0 <= k < g@.len() implies (o.contains(k as usize) <==> #[trigger] reaches(g@, root as int, k)) by {
            if o.contains(k as usize) {
                let p = choose|p: int| 0 <= p < o.len() && o[p] == k as usize;
                assert(t[n - 1 - p] == k as usize);
                assert(t.contains(k as usize));
            }
            if reaches(g@, root as int, k) {
                assert(t.contains(k as usize));
                let p = choose|p: int| 0 <= p < n && t[p] == k as usize;
                assert(o[n - 1 - p] == k as usize);
            }
        }
        assert forall|p: int| 0 <= p < o.len() implies #[trigger] o[p] < g@.len() by {
            assert(o[p] == t[n - 1 - p]);
        }
        assert(o[0] == t[n - 1]);
        assert(o =~= t.reverse());
        assert forall|p: int, q: int| 0 <= p < o.len() && 0 <= q < o.len()
            && #[trigger] is_operand(g@, o[p] as int, o[q] as int) implies p < q by {
            assert(o[p] == t[n - 1 - p] && o[q] == t[n - 1 - q]);
            assert(is_operand(g@, t[n - 1 - p] as int, t[n - 1 - q] as int));
        }
    }
    r
}

/// Reachability is transitive.
pub proof fn lemma_reaches_trans(nodes: Seq<Node>, i: int, j: int, k: int)
    requires
        reaches(nodes, i, j),
        reaches(nodes, j, k),
    ensures
        reaches(nodes, i, k),
    decreases i,
{
    if i != j {
        match nodes[i].prev {
            Prev::Init => {},
            Prev::Unary(a) => {
                lemma_reaches_trans(nodes, a as int, j, k);
            },
            Prev::Binary(a, b) => {
                if a < i && reaches(nodes, a as int, j) {
                    lemma_reaches_trans(nodes, a as int, j, k);
                } else {
                    lemma_reaches_trans(nodes, b as int, j, k);
                }
            },
        }
    }
}

/// A node shared by two consumers that both feed the output (`c = f(a)`,
/// `d = g(a)`, `e = h(c, d)`) appears exactly once in the backward order,
/// after both consumers: by the time its own rule runs, its gradient has
/// received the contribution of each path, once.
pub proof fn law_shared_operand_visited_once_after_consumers(
    nodes: Seq<Node>,
    root: int,
    order: Seq<usize>,
    a: int,
    c: int,
    d: int,
)
    requires
        nodes_wf(nodes),
        is_backward_order(nodes, root, order),
        reaches(nodes, root, c),
        reaches(nodes, root, d),
        is_operand(nodes, c, a),
        is_operand(nodes, d, a),
    ensures
        0 <= a < nodes.len(),
        order.contains(a as usize),
        forall|q1: int, q2: int| 0 <= q1 < order.len() && 0 <= q2 < order.len()
            && order[q1] == a && order[q2] == a ==> q1 == q2,
        forall|p: int, q: int| 0 <= p < order.len() && 0 <= q < order.len()
            && order[p] == c && order[q] == a ==> p < q,
        forall|p: int, q: int| 0 <= p < order.len() && 0 <= q < order.len()
            && order[p] == d && order[q] == a ==> p < q,
{
    assert(node_wf(nodes[c], c));
    assert(0 <= a < c);
    assert(reaches(nodes, a, a));
    assert(reaches(nodes, c, a));
    lemma_reaches_trans(nodes, root, c, a);
    assert(reaches(nodes, root, a));
    assert forall|p: int, q: int| 0 <= p < order.len() && 0 <= q < order.len()
        && order[p] == c && order[q] == a implies p < q by {
        assert(is_operand(nodes, order[p] as int, order[q] as int));
    }
    assert forall|p: int, q: int| 0 <= p < order.len() && 0 <= q < order.len()
        && order[p] == d && order[q] == a implies p < q by {
        assert(is_operand(nodes, order[p] as int, order[q] as int));
    }
}

} // verus!
