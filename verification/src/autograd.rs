use vstd::prelude::*;

verus! {

/// The children lists of a computation graph, as plain sequences.
pub open spec fn graph_view(children: Seq<Vec<usize>>) -> Seq<Seq<usize>> {
    children.map_values(|v: Vec<usize>| v@)
}

/// Every child named in the graph is one of its nodes.
pub open spec fn closed_graph(g: Seq<Seq<usize>>) -> bool {
    forall|u: int, k: int| 0 <= u < g.len() && 0 <= k < g[u].len() ==> (#[trigger] g[u][k]) < g.len()
}

/// `v` is one of the children of `u`.
pub open spec fn edge(g: Seq<Seq<usize>>, u: usize, v: usize) -> bool {
    u < g.len() && g[u as int].contains(v)
}

/// A non-empty sequence of nodes, each a child of the one before it.
pub open spec fn is_path(g: Seq<Seq<usize>>, path: Seq<usize>) -> bool {
    &&& path.len() > 0
    &&& forall|i: int| 0 <= i < path.len() - 1 ==> edge(g, #[trigger] path[i], path[i + 1])
}

/// Some path leads from `a` to `b` (every node reaches itself).
pub open spec fn reachable(g: Seq<Seq<usize>>, a: usize, b: usize) -> bool {
    exists|path: Seq<usize>| #[trigger] is_path(g, path) && path[0] == a && path.last() == b
}

/// Every node reaches itself.
pub proof fn lemma_reachable_refl(g: Seq<Seq<usize>>, a: usize)
    ensures
        reachable(g, a, a),
{
    let p = seq![a];
    assert(is_path(g, p));
}

/// Following one more edge keeps a node reachable.
pub proof fn lemma_reachable_step(g: Seq<Seq<usize>>, a: usize, u: usize, v: usize)
    requires
        reachable(g, a, u),
        edge(g, u, v),
    ensures
        reachable(g, a, v),
{
    let p = choose|path: Seq<usize>| #[trigger] is_path(g, path) && path[0] == a && path.last() == u;
    let q = p.push(v);
    assert forall|i: int| 0 <= i < q.len() - 1 implies edge(g, #[trigger] q[i], q[i + 1]) by {
        if i < p.len() - 1 {
            assert(q[i] == p[i] && q[i + 1] == p[i + 1]);
        } else {
            assert(q[i] == u && q[i + 1] == v);
        }
    }
    assert(is_path(g, q));
}

/// A set of nodes that holds `a` and every child of its members holds every
/// node reachable from `a`.
pub proof fn lemma_closed_set_holds_reachable(g: Seq<Seq<usize>>, s: Seq<usize>, a: usize, b: usize)
    requires
        s.contains(a),
        forall|u: usize, v: usize| s.contains(u) && #[trigger] edge(g, u, v) ==> s.contains(v),
        reachable(g, a, b),
    ensures
        s.contains(b),
{
    let p = choose|path: Seq<usize>| #[trigger] is_path(g, path) && path[0] == a && path.last() == b;
    lemma_path_stays_in(g, s, p, p.len() - 1);
}

proof fn lemma_path_stays_in(g: Seq<Seq<usize>>, s: Seq<usize>, p: Seq<usize>, i: int)
    requires
        is_path(g, p),
        0 <= i < p.len(),
        s.contains(p[0]),
        forall|u: usize, v: usize| s.contains(u) && #[trigger] edge(g, u, v) ==> s.contains(v),
    ensures
        s.contains(p[i]),
    decreases i,
{
    if i > 0 {
        lemma_path_stays_in(g, s, p, i - 1);
        assert(edge(g, p[i - 1], p[i]));
    }
}

/// Number of `false` entries.
pub open spec fn count_unvisited(s: Seq<bool>) -> nat
    decreases s.len(),
{
    if s.len() == 0 {
        0
    } else {
        count_unvisited(s.drop_last()) + if s.last() {
            0nat
        } else {
            1nat
        }
    }
}

/// Marking more entries never adds unvisited ones, and marking an unvisited
/// entry removes one.
pub proof fn lemma_count_unvisited(s1: Seq<bool>, s2: Seq<bool>, k: int)
    requires
        s1.len() == s2.len(),
        forall|i: int| 0 <= i < s1.len() && #[trigger] s1[i] ==> s2[i],
    ensures
        count_unvisited(s2) <= count_unvisited(s1),
        0 <= k < s1.len() && !s1[k] && s2[k] ==> count_unvisited(s2) < count_unvisited(s1),
    decreases s1.len(),
{
    if s1.len() > 0 {
        let t1 = s1.drop_last();
        let t2 = s2.drop_last();
        assert forall|i: int| 0 <= i < t1.len() && #[trigger] t1[i] implies t2[i] by {
            assert(s1[i] ==> s2[i]);
        }
        lemma_count_unvisited(t1, t2, k);
    }
}

/// Depth-first visit of `u`, given the marks `vis` of the nodes already seen
/// and the post-order `ord` so far: `u` is marked, its children are visited
/// in the order they are listed, skipping those already marked, and `u` is
/// appended. Returns the marks and the post-order after the visit; a node
/// out of range or already marked leaves both unchanged.
pub open spec fn dfs_node(g: Seq<Seq<usize>>, u: usize, vis: Seq<bool>, ord: Seq<usize>) -> (Seq<bool>, Seq<usize>)
    decreases count_unvisited(vis), 0nat, 0nat,
{
    if u < vis.len() && !vis[u as int] {
        proof {
            lemma_count_unvisited(vis, vis.update(u as int, true), u as int);
        }
        let r = dfs_children(g, u, g[u as int].len(), vis.update(u as int, true), ord);
        (r.0, r.1.push(u))
    } else {
        (vis, ord)
    }
}

/// The depth-first visits of the first `k` children of `u`, in order,
/// starting from the marks `vis` and the post-order `ord`.
pub open spec fn dfs_children(g: Seq<Seq<usize>>, u: usize, k: nat, vis: Seq<bool>, ord: Seq<usize>) -> (
    Seq<bool>,
    Seq<usize>,
)
    decreases count_unvisited(vis), 1nat, k,
{
    if k == 0 {
        (vis, ord)
    } else {
        let r = dfs_children(g, u, (k - 1) as nat, vis, ord);
        let c = g[u as int][k - 1];
        if c < r.0.len() && !r.0[c as int] && count_unvisited(r.0) <= count_unvisited(vis) {
            dfs_node(g, c, r.0, r.1)
        } else {
            r
        }
    }
}

/// The depth-first post-order of the nodes reachable from `root`, with no
/// node marked at the start.
pub open spec fn dfs_postorder(g: Seq<Seq<usize>>, root: usize) -> Seq<usize> {
    dfs_node(g, root, Seq::new(g.len(), |i: int| false), Seq::empty()).1
}

/// Stepping from `u` to its child `c`: every node whose visit is under way,
/// `u` included, reaches `c`.
proof fn lemma_stack_reaches_child(
    g: Seq<Seq<usize>>,
    stack: Set<usize>,
    order0: Seq<usize>,
    order: Seq<usize>,
    u: usize,
    c: usize,
    n: nat,
)
    requires
        edge(g, u, c),
        u < n,
        !order.contains(u),
        forall|s: usize| #[trigger] stack.contains(s) ==> s < n && !order0.contains(s) && reachable(g, s, u),
        forall|s: usize| #[trigger] stack.contains(s) ==> !order.contains(s),
    ensures
        forall|s: usize| #[trigger] stack.insert(u).contains(s) ==> s < n && !order.contains(s) && reachable(g, s, c),
{
    assert forall|s: usize| #[trigger] stack.insert(u).contains(s) implies s < n && !order.contains(s) && reachable(
        g,
        s,
        c,
    ) by {
        if s == u {
            lemma_reachable_refl(g, u);
            lemma_reachable_step(g, u, u, c);
        } else {
            lemma_reachable_step(g, s, u, c);
        }
    }
}

/// Depth-first post-order visit of `u` and of every unvisited node below it.
/// `stack` holds the nodes whose visit is under way.
#[verifier::rlimit(60)]
fn visit(
    children: &Vec<Vec<usize>>,
    u: usize,
    visited: &mut Vec<bool>,
    order: &mut Vec<usize>,
    Ghost(root): Ghost<usize>,
    Ghost(stack): Ghost<Set<usize>>,
)
    requires
        closed_graph(graph_view(children@)),
        u < children@.len(),
        old(visited)@.len() == children@.len(),
        !old(visited)@[u as int],
        forall|v: usize|
            v < children@.len() ==> (#[trigger] old(visited)@[v as int] <==> (old(order)@.contains(v)
                || stack.contains(v))),
        forall|s: usize|
            #[trigger] stack.contains(s) ==> s < children@.len() && !old(order)@.contains(s) && reachable(
                graph_view(children@),
                s,
                u,
            ),
        old(order)@.no_duplicates(),
        forall|i: int| 0 <= i < old(order)@.len() ==> #[trigger] old(order)@[i] < children@.len(),
        forall|i: int, c: usize|
            0 <= i < old(order)@.len() && #[trigger] edge(graph_view(children@), old(order)@[i], c)
                ==> old(visited)@[c as int],
        forall|i: int, c: usize|
            0 <= i < old(order)@.len() && #[trigger] edge(graph_view(children@), old(order)@[i], c) ==> (
            exists|j: int| 0 <= j < i && old(order)@[j] == c) || reachable(
                graph_view(children@),
                c,
                old(order)@[i],
            ),
        reachable(graph_view(children@), root, u),
        forall|v: usize|
            v < children@.len() && #[trigger] old(visited)@[v as int] ==> reachable(
                graph_view(children@),
                root,
                v,
            ),
    ensures
        final(visited)@.len() == children@.len(),
        forall|v: usize|
            v < children@.len() ==> (#[trigger] final(visited)@[v as int] <==> (final(order)@.contains(v)
                || stack.contains(v))),
        forall|v: usize| v < children@.len() && #[trigger] old(visited)@[v as int] ==> final(visited)@[v as int],
        final(order)@.len() > old(order)@.len(),
        final(order)@.subrange(0, old(order)@.len() as int) == old(order)@,
        final(order)@.contains(u),
        final(order)@.last() == u,
        forall|v: usize|
            #[trigger] final(order)@.contains(v) ==> old(order)@.contains(v) || (v < children@.len()
                && !old(visited)@[v as int]),
        final(order)@.no_duplicates(),
        forall|i: int| 0 <= i < final(order)@.len() ==> #[trigger] final(order)@[i] < children@.len(),
        forall|i: int, c: usize|
            0 <= i < final(order)@.len() && #[trigger] edge(graph_view(children@), final(order)@[i], c)
                ==> final(visited)@[c as int],
        forall|i: int, c: usize|
            0 <= i < final(order)@.len() && #[trigger] edge(graph_view(children@), final(order)@[i], c) ==> (
            exists|j: int| 0 <= j < i && final(order)@[j] == c) || reachable(
                graph_view(children@),
                c,
                final(order)@[i],
            ),
        forall|v: usize|
            v < children@.len() && #[trigger] final(visited)@[v as int] ==> reachable(
                graph_view(children@),
                root,
                v,
            ),
        (final(visited)@, final(order)@) == dfs_node(graph_view(children@), u, old(visited)@, old(order)@),
    decreases count_unvisited(old(visited)@),
{
    let ghost g = graph_view(children@);
    let ghost visited0 = visited@;
    let ghost order0 = order@;
    let nodes = children.len();
    visited.set(u, true);
    proof {
        lemma_count_unvisited(visited0, visited@, u as int);
    }
    let ghost vis1 = visited@;
    let kids = &children[u];
    assert(kids@ == g[u as int]);
    let ghost stack2 = stack.insert(u);
    let mut k: usize = 0;
    while k < kids.len()
        invariant
            g == graph_view(children@),
            closed_graph(g),
            kids@ == g[u as int],
            u < children@.len(),
            k <= kids@.len(),
            visited@.len() == children@.len(),
            visited@[u as int],
            !order@.contains(u),
            !visited0[u as int],
            stack2 == stack.insert(u),
            forall|v: usize|
                v < children@.len() ==> (#[trigger] visited@[v as int] <==> (order@.contains(v)
                    || stack2.contains(v))),
            forall|s: usize|
                #[trigger] stack.contains(s) ==> s < children@.len() && !order0.contains(s) && reachable(g, s, u),
            forall|s: usize| #[trigger] stack.contains(s) ==> !order@.contains(s),
            forall|v: usize| v < children@.len() && #[trigger] visited0[v as int] ==> visited@[v as int],
            order@.len() >= order0.len(),
            order@.subrange(0, order0.len() as int) == order0,
            order@.no_duplicates(),
            forall|i: int| 0 <= i < order@.len() ==> #[trigger] order@[i] < children@.len(),
            forall|i: int, c: usize|
                0 <= i < order@.len() && #[trigger] edge(g, order@[i], c) ==> visited@[c as int],
            forall|i: int, c: usize|
                0 <= i < order@.len() && #[trigger] edge(g, order@[i], c) ==> (exists|j: int|
                    0 <= j < i && order@[j] == c) || reachable(g, c, order@[i]),
            reachable(g, root, u),
            forall|v: usize| v < children@.len() && #[trigger] visited@[v as int] ==> reachable(g, root, v),
            forall|j: int| 0 <= j < k ==> visited@[#[trigger] kids@[j] as int],
            count_unvisited(visited@) < count_unvisited(visited0),
            visited0 == old(visited)@,
            nodes == children@.len(),
            forall|v: usize|
                #[trigger] order@.contains(v) ==> order0.contains(v) || (v < children@.len() && !visited0[v as int]),
            visited0.len() == children@.len(),
            vis1 == visited0.update(u as int, true),
            (visited@, order@) == dfs_children(g, u, k as nat, vis1, order0),
        decreases kids@.len() - k,
    {
        let c = kids[k];
        assert(c < children@.len());
        assert(edge(g, u, c)) by {
            assert(g[u as int][k as int] == c);
        }
        if !visited[c] {
            proof {
                lemma_stack_reaches_child(g, stack, order0, order@, u, c, children@.len());
                lemma_reachable_step(g, root, u, c);
            }
            let ghost before = visited@;
            let ghost order_before = order@;
            assert(count_unvisited(visited@) < count_unvisited(old(visited)@));
            proof {
                assert forall|i: int| 0 <= i < vis1.len() && #[trigger] vis1[i] implies before[i] by {
                    let v = i as usize;
                    if i != u as int {
                        assert(vis1[i] == visited0[i]);
                        assert(visited0[v as int]);
                    }
                }
                lemma_count_unvisited(vis1, before, 0);
            }
            visit(children, c, visited, order, Ghost(root), Ghost(stack2));
            proof {
                assert forall|i: int| 0 <= i < before.len() && #[trigger] before[i] implies visited@[i] by {
                    let v = i as usize;
                    assert(before[v as int]);
                }
                lemma_count_unvisited(before, visited@, 0);
                assert forall|v: usize|
                    #[trigger] order@.contains(v) implies order0.contains(v) || (v < children@.len()
                        && !visited0[v as int]) by {
                    if !order_before.contains(v) {
                        assert(v < children@.len() && !before[v as int]);
                        if visited0[v as int] {
                            assert(before[v as int]);
                        }
                    }
                }
                assert(order@.subrange(0, order0.len() as int) =~= order0);
            }
        }
        k = k + 1;
    }
    proof {
        assert forall|c: usize| #[trigger] edge(g, u, c) implies visited@[c as int] by {
            let j = choose|j: int| 0 <= j < kids@.len() && kids@[j] == c;
            assert(visited@[kids@[j] as int]);
        }
    }
    let ghost order1 = order@;
    order.push(u);
    proof {
        assert(order@.subrange(0, order0.len() as int) =~= order0);
        assert forall|i: int, c: usize|
            0 <= i < order@.len() && #[trigger] edge(g, order@[i], c) implies (exists|j: int|
                0 <= j < i && order@[j] == c) || reachable(g, c, order@[i]) by {
            if i < order1.len() {
                assert(order@[i] == order1[i]);
                if exists|j: int| 0 <= j < i && order1[j] == c {
                    let j = choose|j: int| 0 <= j < i && order1[j] == c;
                    assert(order@[j] == c);
                }
            } else {
                assert(order@[i] == u);
                assert(visited@[c as int]);
                if order1.contains(c) {
                    let j = choose|j: int| 0 <= j < order1.len() && order1[j] == c;
                    assert(order@[j] == c);
                } else if c == u {
                    lemma_reachable_refl(g, u);
                } else {
                    assert(stack.contains(c));
                }
            }
        }
        assert forall|v: usize| v < children@.len() implies (#[trigger] visited@[v as int] <==> (
        order@.contains(v) || stack.contains(v))) by {
            if order1.contains(v) {
                let j = choose|j: int| 0 <= j < order1.len() && order1[j] == v;
                assert(order@[j] == v);
            }
            if order@.contains(v) {
                let j = choose|j: int| 0 <= j < order@.len() && order@[j] == v;
                if j < order1.len() {
                    assert(order1[j] == v);
                }
            }
            if v == u {
                assert(order@[order1.len() as int] == u);
            }
        }
        assert(order@[order1.len() as int] == u);
        assert forall|v: usize|
            #[trigger] order@.contains(v) implies order0.contains(v) || (v < children@.len() && !visited0[v as int]) by {
            let j = choose|j: int| 0 <= j < order@.len() && order@[j] == v;
            if j < order1.len() {
                assert(order1[j] == v);
                assert(order1.contains(v));
            }
        }
    }
}

/// The order in which the backward pass visits a computation graph: the
/// depth-first post-order from `root`, children taken in the order they are
/// listed, each node once. `children[u]` lists the inputs of node `u`. Every
/// node reachable from `root` appears, and no other; `root` comes last; and
/// every child comes before its parent unless the child itself reaches the
/// parent (which an acyclic graph rules out).
pub fn topological_order(children: &Vec<Vec<usize>>, root: usize) -> (order: Vec<usize>)
    requires
        root < children@.len(),
        closed_graph(graph_view(children@)),
    ensures
        order@.no_duplicates(),
        order@.len() > 0,
        order@.last() == root,
        forall|v: usize| #[trigger] order@.contains(v) <==> reachable(graph_view(children@), root, v),
        forall|i: int, c: usize|
            0 <= i < order@.len() && #[trigger] edge(graph_view(children@), order@[i], c) ==> (exists|j: int|
                0 <= j < i && order@[j] == c) || reachable(graph_view(children@), c, order@[i]),
        order@ == dfs_postorder(graph_view(children@), root),
{
    let ghost g = graph_view(children@);
    let n = children.len();
    let mut visited: Vec<bool> = Vec::new();
    let mut i: usize = 0;
    while i < n
        invariant
            i <= n,
            n == children@.len(),
            visited@.len() == i,
            forall|j: int| 0 <= j < i ==> !(#[trigger] visited@[j]),
        decreases n - i,
    {
        visited.push(false);
        i = i + 1;
    }
    let mut order: Vec<usize> = Vec::new();
    proof {
        lemma_reachable_refl(g, root);
        assert(visited@ =~= Seq::new(g.len(), |j: int| false));
        assert(order@ =~= Seq::<usize>::empty());
    }
    visit(children, root, &mut visited, &mut order, Ghost(root), Ghost(Set::empty()));
    proof {
        assert forall|u: usize, v: usize| order@.contains(u) && #[trigger] edge(g, u, v) implies order@.contains(
            v,
        ) by {
            let j = choose|j: int| 0 <= j < order@.len() && order@[j] == u;
            assert(edge(g, order@[j], v));
            assert(visited@[v as int]);
        }
        assert forall|v: usize| #[trigger] order@.contains(v) <==> reachable(g, root, v) by {
            if reachable(g, root, v) {
                lemma_closed_set_holds_reachable(g, order@, root, v);
            }
            if order@.contains(v) {
                let j = choose|j: int| 0 <= j < order@.len() && order@[j] == v;
                assert(v < children@.len());
                assert(visited@[v as int]);
            }
        }
    }
    order
}

} // verus!
