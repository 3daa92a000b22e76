//! The order in which reverse-mode differentiation visits a computation graph.
//!
//! Nodes are numbered `0..n`; `parents[v]` lists the inputs of node `v`, in
//! order. Gradients flow from a node to its parents, so a node must be handled
//! before each of its parents: the reverse of a topological order in which every
//! parent comes before its children.
use vstd::prelude::*;

verus! {

/// The parent lists of a graph, as sequences.
pub open spec fn adjacency(parents: Seq<Vec<usize>>) -> Seq<Seq<usize>> {
    parents.map_values(|v: Vec<usize>| v@)
}

/// Every parent named is a node of the graph.
pub open spec fn graph_ok(g: Seq<Seq<usize>>) -> bool {
    &&& g.len() <= usize::MAX
    &&& forall|v: int, j: int| 0 <= v < g.len() && 0 <= j < g[v].len() ==> #[trigger] g[v][j] < g.len()
}

/// `b` is a parent of `a`.
pub open spec fn step(g: Seq<Seq<usize>>, a: usize, b: usize) -> bool {
    &&& (a as int) < g.len()
    &&& g[a as int].contains(b)
}

/// `path` leads from `root` to `v`, each node followed by one of its parents.
pub open spec fn is_path_from(g: Seq<Seq<usize>>, path: Seq<usize>, root: usize, v: usize) -> bool {
    &&& path.len() >= 1
    &&& path[0] == root
    &&& path.last() == v
    &&& forall|i: int| 0 <= i < path.len() - 1 ==> step(g, #[trigger] path[i], path[i + 1])
}

/// `v` is `root` or one of its ancestors.
pub open spec fn reachable(g: Seq<Seq<usize>>, root: usize, v: usize) -> bool {
    exists|path: Seq<usize>| #[trigger] is_path_from(g, path, root, v)
}

/// Every parent has a smaller rank than its child.
pub open spec fn ranked(g: Seq<Seq<usize>>, rank: spec_fn(usize) -> int) -> bool {
    forall|v: int, j: int|
        0 <= v < g.len() && 0 <= j < g[v].len() ==> rank(#[trigger] g[v][j]) < rank(v as usize)
}

/// The graph has no cycle: some ranking puts every parent below its children.
pub open spec fn acyclic(g: Seq<Seq<usize>>) -> bool {
    exists|rank: spec_fn(usize) -> int| ranked(g, rank)
}

/// Each parent of each node of `order` comes before it in `order`.
pub open spec fn topologically_ordered(g: Seq<Seq<usize>>, order: Seq<usize>) -> bool {
    forall|a: int, j: int|
        0 <= a < order.len() && 0 <= j < g[order[a] as int].len() ==> exists|b: int|
            0 <= b < a && order[b] == #[trigger] g[order[a] as int][j]
}

/// Number of nodes not yet visited.
pub open spec fn unvisited_count(visited: Seq<bool>) -> nat
    decreases visited.len(),
{
    if visited.len() == 0 {
        0
    } else {
        unvisited_count(visited.drop_last()) + (if visited.last() {
            0nat
        } else {
            1nat
        })
    }
}

/// Parents still to be examined by the frames of the stack.
pub open spec fn pending(g: Seq<Seq<usize>>, st: Seq<(usize, usize)>) -> nat
    decreases st.len(),
{
    if st.len() == 0 {
        0
    } else {
        let f = st.last();
        pending(g, st.drop_last()) + (if f.1 == 0 || f.1 > g[f.0 as int].len() {
            0nat
        } else {
            (g[f.0 as int].len() - f.1) as nat
        })
    }
}

/// The number of frames that are nodes in progress: all but a fresh top frame.
pub open spec fn gray_len(st: Seq<(usize, usize)>) -> int {
    if st.len() > 0 && st.last().1 == 0 {
        st.len() - 1
    } else {
        st.len() as int
    }
}

/// `v` is a node in progress: one of the frames below a fresh top frame.
pub open spec fn is_gray(st: Seq<(usize, usize)>, v: int) -> bool {
    exists|i: int| 0 <= i < gray_len(st) && (#[trigger] st[i]).0 == v
}

/// The frames form a chain from the root, each node a parent of the one below it.
#[verifier::opaque]
pub open spec fn frames_ok(g: Seq<Seq<usize>>, root: usize, st: Seq<(usize, usize)>) -> bool {
    let l = st.len() as int;
    &&& forall|i: int|
        0 <= i < l ==> (#[trigger] st[i]).0 < g.len() && reachable(g, root, st[i].0) && st[i].1
            <= g[st[i].0 as int].len()
    &&& l > 0 ==> st[0].0 == root
    &&& forall|i: int|
        0 <= i < l - 1 ==> 1 <= (#[trigger] st[i]).1 && st[i + 1].0 == g[st[i].0 as int][st[i].1 - 1]
}

/// The nodes in progress are visited, unfinished and distinct; a fresh top node is
/// unvisited, and a fresh node at the bottom is the first one.
#[verifier::opaque]
pub open spec fn gray_ok(visited: Seq<bool>, order: Seq<usize>, st: Seq<(usize, usize)>) -> bool {
    let l = st.len() as int;
    let k = gray_len(st);
    &&& forall|i: int|
        0 <= i < k ==> 1 <= (#[trigger] st[i]).1 && visited[st[i].0 as int] && !order.contains(
            st[i].0,
        )
    &&& forall|i: int, j: int| 0 <= i < j < k ==> (#[trigger] st[i]).0 != (#[trigger] st[j]).0
    &&& (l > 0 && st[l - 1].1 == 0) ==> !visited[st[l - 1].0 as int]
    &&& (l > 0 && st[0].1 == 0) ==> (l == 1 && order.len() == 0)
}

/// The parents that each node in progress has moved past are finished.
#[verifier::opaque]
pub open spec fn done_ok(g: Seq<Seq<usize>>, order: Seq<usize>, st: Seq<(usize, usize)>) -> bool {
    forall|i: int, j: int|
        0 <= i < gray_len(st) && 0 <= j < (#[trigger] st[i]).1 && (j < st[i].1 - 1 || i == st.len()
            - 1) ==> order.contains(#[trigger] g[st[i].0 as int][j])
}

/// The visited nodes are the finished ones and the ones in progress.
#[verifier::opaque]
pub open spec fn visited_ok(g: Seq<Seq<usize>>, visited: Seq<bool>, order: Seq<usize>, st: Seq<(usize, usize)>) -> bool {
    &&& visited.len() == g.len()
    &&& forall|v: int|
        0 <= v < g.len() ==> (#[trigger] visited[v] <==> (order.contains(v as usize) || is_gray(
            st,
            v,
        )))
}

/// The finished nodes are distinct, visited, reachable and in topological order.
#[verifier::opaque]
pub open spec fn order_ok(g: Seq<Seq<usize>>, root: usize, visited: Seq<bool>, order: Seq<usize>) -> bool {
    &&& order.no_duplicates()
    &&& forall|a: int| 0 <= a < order.len() ==> (#[trigger] order[a]) < g.len() && visited[order[a] as int]
    &&& forall|v: int| 0 <= v < g.len() && #[trigger] visited[v] ==> reachable(g, root, v as usize)
    &&& topologically_ordered(g, order)
}

/// The state of the depth-first search. The stack holds frames `(node, next
/// parent to examine)`.
pub open spec fn dfs_inv(
    g: Seq<Seq<usize>>,
    root: usize,
    visited: Seq<bool>,
    order: Seq<usize>,
    st: Seq<(usize, usize)>,
) -> bool {
    &&& frames_ok(g, root, st)
    &&& gray_ok(visited, order, st)
    &&& done_ok(g, order, st)
    &&& visited_ok(g, visited, order, st)
    &&& order_ok(g, root, visited, order)
    &&& st.len() == 0 ==> (order.len() > 0 && order.last() == root)
}

pub proof fn lemma_reach_root(g: Seq<Seq<usize>>, root: usize)
    ensures
        reachable(g, root, root),
{
    assert(is_path_from(g, seq![root], root, root));
}

pub proof fn lemma_reach_step(g: Seq<Seq<usize>>, root: usize, v: usize, p: usize)
    requires
        reachable(g, root, v),
        step(g, v, p),
    ensures
        reachable(g, root, p),
{
    let path = choose|path: Seq<usize>| #[trigger] is_path_from(g, path, root, v);
    let path2 = path.push(p);
    assert forall|i: int| 0 <= i < path2.len() - 1 implies step(g, #[trigger] path2[i], path2[i + 1]) by {
        if i < path.len() - 1 {
            assert(path2[i + 1] == path[i + 1]);
        } else {
            assert(path2[i] == v);
        }
    }
    assert(is_path_from(g, path2, root, p));
}

/// Every ancestor of a node of a parent-closed set containing the root is in the set.
proof fn lemma_closed_contains_path(g: Seq<Seq<usize>>, order: Seq<usize>, path: Seq<usize>, root: usize, i: int)
    requires
        order.contains(root),
        topologically_ordered(g, order),
        path.len() >= 1,
        path[0] == root,
        forall|k: int| 0 <= k < path.len() - 1 ==> step(g, #[trigger] path[k], path[k + 1]),
        0 <= i < path.len(),
    ensures
        order.contains(path[i]),
    decreases i,
{
    if i > 0 {
        lemma_closed_contains_path(g, order, path, root, i - 1);
        let u = path[i - 1];
        let a = choose|a: int| 0 <= a < order.len() && order[a] == u;
        assert(step(g, path[i - 1], path[i]));
        let j = choose|j: int| 0 <= j < g[u as int].len() && g[u as int][j] == path[i];
        assert(g[order[a] as int][j] == path[i]);
        let b = choose|b: int| 0 <= b < a && order[b] == #[trigger] g[order[a] as int][j];
        assert(order[b] == path[i]);
    }
}

proof fn lemma_unvisited_update(visited: Seq<bool>, i: int)
    requires
        0 <= i < visited.len(),
        !visited[i],
    ensures
        unvisited_count(visited.update(i, true)) + 1 == unvisited_count(visited),
    decreases visited.len(),
{
    let u = visited.update(i, true);
    if i == visited.len() - 1 {
        assert(u.drop_last() =~= visited.drop_last());
    } else {
        lemma_unvisited_update(visited.drop_last(), i);
        assert(u.drop_last() =~= visited.drop_last().update(i, true));
    }
}

/// Nodes deeper in the chain of the stack have smaller ranks.
proof fn lemma_chain_rank(
    g: Seq<Seq<usize>>,
    rank: spec_fn(usize) -> int,
    st: Seq<(usize, usize)>,
    i: int,
    j: int,
)
    requires
        ranked(g, rank),
        forall|x: int| 0 <= x < st.len() ==> (#[trigger] st[x]).0 < g.len(),
        forall|x: int| 0 <= x < st.len() ==> (#[trigger] st[x]).1 <= g[st[x].0 as int].len(),
        forall|x: int|
            0 <= x < st.len() - 1 ==> 1 <= (#[trigger] st[x]).1 && st[x + 1].0 == g[st[x].0 as int][st[x].1
                - 1],
        0 <= i < j < st.len(),
    ensures
        rank(st[j].0) < rank(st[i].0),
    decreases j - i,
{
    let v = st[j - 1].0;
    assert(st[j - 1].1 >= 1);
    assert(st[j].0 == g[v as int][st[j - 1].1 - 1]);
    assert(rank(g[v as int][st[j - 1].1 - 1]) < rank(v as usize));
    if i < j - 1 {
        lemma_chain_rank(g, rank, st, i, j - 1);
    }
}

/// What the invariant says of the top frame `(node, c)` and of the frames below it.
#[verifier::opaque]
pub open spec fn top_facts(
    g: Seq<Seq<usize>>,
    root: usize,
    rank: spec_fn(usize) -> int,
    visited: Seq<bool>,
    order: Seq<usize>,
    st: Seq<(usize, usize)>,
) -> bool {
    let l = st.len() as int;
    let node = st.last().0;
    let c = st.last().1;
    let base = st.drop_last();
    &&& l > 0
    &&& node < g.len()
    &&& visited.len() == g.len()
    &&& reachable(g, root, node)
    &&& c <= g[node as int].len()
    &&& !order.contains(node)
    &&& (c == 0 <==> !visited[node as int])
    &&& base.len() == l - 1
    &&& gray_len(base) == l - 1
    &&& forall|i: int|
        0 <= i < l - 1 ==> (#[trigger] st[i]) == base[i] && st[i].0 != node && st[i].0 < g.len() && 1
            <= st[i].1 && visited[st[i].0 as int] && !order.contains(st[i].0) && rank(node) < rank(
            st[i].0,
        )
    &&& forall|i: int, j: int| 0 <= i < j < l - 1 ==> (#[trigger] st[i]).0 != (#[trigger] st[j]).0
    &&& forall|j: int| 0 <= j < c ==> order.contains(#[trigger] g[node as int][j])
    &&& forall|i: int, j: int|
        0 <= i < l - 1 && 0 <= j < (#[trigger] st[i]).1 - 1 ==> order.contains(
            #[trigger] g[st[i].0 as int][j],
        )
    &&& frames_ok(g, root, base)
    &&& l >= 2 ==> node == g[st[l - 2].0 as int][st[l - 2].1 - 1]
    &&& l == 1 ==> node == root
    &&& forall|v: int|
        0 <= v < g.len() && v != node ==> (#[trigger] visited[v] <==> (order.contains(v as usize)
            || is_gray(base, v)))
    &&& order_ok(g, root, visited, order)
}

proof fn lemma_popped_node(
    g: Seq<Seq<usize>>,
    root: usize,
    visited: Seq<bool>,
    order: Seq<usize>,
    st: Seq<(usize, usize)>,
)
    requires
        dfs_inv(g, root, visited, order, st),
        st.len() > 0,
    ensures
        st.last().0 < g.len(),
        visited.len() == g.len(),
        reachable(g, root, st.last().0),
        st.last().1 <= g[st.last().0 as int].len(),
        !order.contains(st.last().0),
        (st.last().1 == 0 <==> !visited[st.last().0 as int]),
        forall|j: int| 0 <= j < st.last().1 ==> order.contains(#[trigger] g[st.last().0 as int][j]),
        st.len() >= 2 ==> st[st.len() - 2].1 >= 1 && st.last().0 == g[st[st.len() - 2].0 as int][st[st.len()
            - 2].1 - 1],
        st.len() == 1 ==> st.last().0 == root,
        gray_len(st.drop_last()) == st.len() - 1,
        frames_ok(g, root, st.drop_last()),
{
    reveal(frames_ok);
    reveal(gray_ok);
    reveal(done_ok);
    reveal(visited_ok);
    let l = st.len() as int;
    let node = st.last().0;
    let c = st.last().1;
    let base = st.drop_last();
    assert(st[l - 1] == st.last());
    if c == 0 {
        assert(!visited[node as int]);
        assert(!order.contains(node)) by {
            reveal(order_ok);
            if order.contains(node) {
                let a = choose|a: int| 0 <= a < order.len() && order[a] == node;
                assert(visited[order[a] as int]);
            }
        }
    } else {
        assert(visited[node as int]);
    }
    assert forall|j: int| 0 <= j < c implies order.contains(#[trigger] g[node as int][j]) by {
        assert(0 <= j < st[l - 1].1);
    }
    assert forall|i: int| 0 <= i < base.len() implies (#[trigger] base[i]) == st[i] by {}
    if l >= 2 {
        assert(st[l - 2].1 >= 1);
        assert(base.last() == st[l - 2]);
    }
}

proof fn lemma_popped_lower(
    g: Seq<Seq<usize>>,
    root: usize,
    rank: spec_fn(usize) -> int,
    visited: Seq<bool>,
    order: Seq<usize>,
    st: Seq<(usize, usize)>,
)
    requires
        ranked(g, rank),
        dfs_inv(g, root, visited, order, st),
        st.len() > 0,
    ensures
        forall|i: int|
            0 <= i < st.len() - 1 ==> (#[trigger] st[i]) == st.drop_last()[i] && st[i].0 != st.last().0
                && st[i].0 < g.len() && 1 <= st[i].1 && visited[st[i].0 as int] && !order.contains(st[i].0)
                && rank(st.last().0) < rank(st[i].0),
        forall|i: int, j: int| 0 <= i < j < st.len() - 1 ==> (#[trigger] st[i]).0 != (#[trigger] st[j]).0,
        forall|i: int, j: int|
            0 <= i < st.len() - 1 && 0 <= j < (#[trigger] st[i]).1 - 1 ==> order.contains(
                #[trigger] g[st[i].0 as int][j],
            ),
{
    reveal(frames_ok);
    reveal(gray_ok);
    reveal(done_ok);
    let l = st.len() as int;
    let c = st.last().1;
    assert(st[l - 1] == st.last());
    assert forall|i: int|
        0 <= i < l - 1 implies (#[trigger] st[i]) == st.drop_last()[i] && st[i].0 != st.last().0
            && st[i].0 < g.len() && 1 <= st[i].1 && visited[st[i].0 as int] && !order.contains(st[i].0)
            && rank(st.last().0) < rank(st[i].0) by {
        lemma_chain_rank(g, rank, st, i, l - 1);
        assert(0 <= i < gray_len(st));
        if c == 0 {
            assert(!visited[st.last().0 as int]);
        } else {
            assert(st[i].0 != st[l - 1].0);
        }
    }
    assert forall|i: int, j: int| 0 <= i < j < l - 1 implies (#[trigger] st[i]).0 != (#[trigger] st[j]).0 by {
        assert(0 <= j < gray_len(st));
    }
    assert forall|i: int, j: int|
        0 <= i < l - 1 && 0 <= j < (#[trigger] st[i]).1 - 1 implies order.contains(
        #[trigger] g[st[i].0 as int][j],
    ) by {
        assert(0 <= i < gray_len(st));
    }
}

proof fn lemma_popped_visited(
    g: Seq<Seq<usize>>,
    root: usize,
    visited: Seq<bool>,
    order: Seq<usize>,
    st: Seq<(usize, usize)>,
)
    requires
        dfs_inv(g, root, visited, order, st),
        st.len() > 0,
    ensures
        forall|v: int|
            0 <= v < g.len() && v != st.last().0 ==> (#[trigger] visited[v] <==> (order.contains(
                v as usize,
            ) || is_gray(st.drop_last(), v))),
{
    reveal(visited_ok);
    reveal(gray_ok);
    let l = st.len() as int;
    let base = st.drop_last();
    assert(st[l - 1] == st.last());
    assert(gray_len(base) == l - 1) by {
        reveal(frames_ok);
        if l >= 2 {
            assert(base.last() == st[l - 2]);
        }
    }
    assert forall|v: int| 0 <= v < g.len() && v != st.last().0 implies (#[trigger] visited[v] <==> (
    order.contains(v as usize) || is_gray(base, v))) by {
        if is_gray(st, v) {
            let i = choose|i: int| 0 <= i < gray_len(st) && (#[trigger] st[i]).0 == v;
            assert(i < l - 1);
            assert(base[i].0 == v);
        }
        if is_gray(base, v) {
            let i = choose|i: int| 0 <= i < gray_len(base) && (#[trigger] base[i]).0 == v;
            assert(st[i].0 == v);
        }
    }
}

proof fn lemma_popped(
    g: Seq<Seq<usize>>,
    root: usize,
    rank: spec_fn(usize) -> int,
    visited: Seq<bool>,
    order: Seq<usize>,
    st: Seq<(usize, usize)>,
)
    requires
        ranked(g, rank),
        dfs_inv(g, root, visited, order, st),
        st.len() > 0,
    ensures
        top_facts(g, root, rank, visited, order, st),
{
    lemma_popped_node(g, root, visited, order, st);
    lemma_popped_lower(g, root, rank, visited, order, st);
    lemma_popped_visited(g, root, visited, order, st);
    reveal(top_facts);
}

/// A visited parent of the top node is finished: the graph has no cycle, so it
/// is no node in progress.
proof fn lemma_visited_parent_finished(
    g: Seq<Seq<usize>>,
    root: usize,
    rank: spec_fn(usize) -> int,
    visited: Seq<bool>,
    order: Seq<usize>,
    st: Seq<(usize, usize)>,
    next: usize,
)
    requires
        top_facts(g, root, rank, visited, order, st),
        next < g.len(),
        rank(next) < rank(st.last().0),
        visited[next as int],
    ensures
        order.contains(next),
{
    reveal(top_facts);
    let l = st.len() as int;
    let base = st.drop_last();
    assert(next != st.last().0);
    if !order.contains(next) {
        assert(is_gray(base, next as int));
        let i = choose|i: int| 0 <= i < gray_len(base) && (#[trigger] base[i]).0 == next as int;
        assert(st[i] == base[i]);
    }
}

proof fn lemma_advance_frames(
    g: Seq<Seq<usize>>,
    root: usize,
    rank: spec_fn(usize) -> int,
    visited: Seq<bool>,
    order: Seq<usize>,
    st: Seq<(usize, usize)>,
    st2: Seq<(usize, usize)>,
)
    requires
        graph_ok(g),
        top_facts(g, root, rank, visited, order, st),
        st.last().1 < g[st.last().0 as int].len(),
        st.last().1 < usize::MAX,
        st2 == st.drop_last().push((st.last().0, (st.last().1 + 1) as usize)) || st2 == st.drop_last().push(
            (st.last().0, (st.last().1 + 1) as usize),
        ).push((g[st.last().0 as int][st.last().1 as int], 0usize)),
    ensures
        frames_ok(g, root, st2),
{
    reveal(top_facts);
    reveal(frames_ok);
    let l = st.len() as int;
    let node = st.last().0;
    let c = st.last().1;
    let next = g[node as int][c as int];
    let base = st.drop_last();
    assert(next < g.len());
    assert(step(g, node, next)) by {
        assert(g[node as int][c as int] == next);
    }
    lemma_reach_step(g, root, node, next);
    assert forall|i: int| 0 <= i < l - 1 implies (#[trigger] st2[i]) == base[i] by {}
    assert(st2[l - 1] == (node, (c + 1) as usize));
    if st2.len() > l {
        assert(st2[l] == (next, 0usize));
    }
    if l >= 2 {
        assert(base[l - 2] == st[l - 2]);
    }
}

proof fn lemma_advance_gray(
    g: Seq<Seq<usize>>,
    root: usize,
    rank: spec_fn(usize) -> int,
    visited: Seq<bool>,
    order: Seq<usize>,
    st: Seq<(usize, usize)>,
    st2: Seq<(usize, usize)>,
)
    requires
        top_facts(g, root, rank, visited, order, st),
        st.last().1 < usize::MAX,
        st2 == st.drop_last().push((st.last().0, (st.last().1 + 1) as usize)) || (st2 == st.drop_last().push(
            (st.last().0, (st.last().1 + 1) as usize),
        ).push((g[st.last().0 as int][st.last().1 as int], 0usize)) && !visited.update(
            st.last().0 as int,
            true,
        )[g[st.last().0 as int][st.last().1 as int] as int]),
    ensures
        gray_ok(visited.update(st.last().0 as int, true), order, st2),
        gray_len(st2) == st.len(),
{
    reveal(top_facts);
    reveal(gray_ok);
    let l = st.len() as int;
    let node = st.last().0;
    let c = st.last().1;
    let visited2 = visited.update(node as int, true);
    assert forall|i: int| 0 <= i < l - 1 implies (#[trigger] st2[i]) == st[i] by {}
    assert(st2[l - 1] == (node, (c + 1) as usize));
    assert(gray_len(st2) == l);
    assert forall|i: int| 0 <= i < l implies 1 <= (#[trigger] st2[i]).1 && visited2[st2[i].0 as int]
        && !order.contains(st2[i].0) by {}
    assert forall|i: int, j: int| 0 <= i < j < l implies (#[trigger] st2[i]).0 != (#[trigger] st2[j]).0 by {
        if j < l - 1 {
            assert(st[i].0 != st[j].0);
        }
    }
}

proof fn lemma_advance_done(
    g: Seq<Seq<usize>>,
    root: usize,
    rank: spec_fn(usize) -> int,
    visited: Seq<bool>,
    order: Seq<usize>,
    st: Seq<(usize, usize)>,
    st2: Seq<(usize, usize)>,
)
    requires
        top_facts(g, root, rank, visited, order, st),
        st.last().1 < usize::MAX,
        (st2 == st.drop_last().push((st.last().0, (st.last().1 + 1) as usize)) && order.contains(
            g[st.last().0 as int][st.last().1 as int],
        )) || st2 == st.drop_last().push((st.last().0, (st.last().1 + 1) as usize)).push(
            (g[st.last().0 as int][st.last().1 as int], 0usize),
        ),
        gray_len(st2) == st.len(),
    ensures
        done_ok(g, order, st2),
{
    reveal(top_facts);
    reveal(done_ok);
    let l = st.len() as int;
    let node = st.last().0;
    let c = st.last().1;
    assert forall|i: int| 0 <= i < l - 1 implies (#[trigger] st2[i]) == st[i] by {}
    assert(st2[l - 1] == (node, (c + 1) as usize));
    assert forall|i: int, j: int|
        0 <= i < gray_len(st2) && 0 <= j < (#[trigger] st2[i]).1 && (j < st2[i].1 - 1 || i == st2.len()
            - 1) implies order.contains(#[trigger] g[st2[i].0 as int][j]) by {
        if i < l - 1 {
            assert(i != st2.len() - 1);
            assert(st2[i] == st[i]);
        } else {
            if j < c {
            } else {
                assert(j == c);
            }
        }
    }
}

proof fn lemma_advance_visited(
    g: Seq<Seq<usize>>,
    root: usize,
    rank: spec_fn(usize) -> int,
    visited: Seq<bool>,
    order: Seq<usize>,
    st: Seq<(usize, usize)>,
    st2: Seq<(usize, usize)>,
)
    requires
        top_facts(g, root, rank, visited, order, st),
        st.last().1 < usize::MAX,
        st2 == st.drop_last().push((st.last().0, (st.last().1 + 1) as usize)) || st2 == st.drop_last().push(
            (st.last().0, (st.last().1 + 1) as usize),
        ).push((g[st.last().0 as int][st.last().1 as int], 0usize)),
        gray_len(st2) == st.len(),
    ensures
        visited_ok(g, visited.update(st.last().0 as int, true), order, st2),
{
    reveal(top_facts);
    reveal(visited_ok);
    let l = st.len() as int;
    let node = st.last().0;
    let base = st.drop_last();
    let visited2 = visited.update(node as int, true);
    assert forall|i: int| 0 <= i < l - 1 implies (#[trigger] st2[i]) == base[i] by {}
    assert(st2[l - 1].0 == node);
    assert forall|v: int| 0 <= v < g.len() implies (#[trigger] visited2[v] <==> (order.contains(
        v as usize,
    ) || is_gray(st2, v))) by {
        if v == node {
            assert(is_gray(st2, v));
        } else {
            assert(visited2[v] == visited[v]);
            if is_gray(base, v) {
                let i = choose|i: int| 0 <= i < gray_len(base) && (#[trigger] base[i]).0 == v;
                assert(st2[i].0 == v);
            }
            if is_gray(st2, v) {
                let i = choose|i: int| 0 <= i < gray_len(st2) && (#[trigger] st2[i]).0 == v;
                assert(i < l - 1);
                assert(base[i].0 == v);
            }
        }
    }
}

proof fn lemma_order_visit(
    g: Seq<Seq<usize>>,
    root: usize,
    visited: Seq<bool>,
    order: Seq<usize>,
    node: usize,
)
    requires
        order_ok(g, root, visited, order),
        visited.len() == g.len(),
        node < g.len(),
        reachable(g, root, node),
    ensures
        order_ok(g, root, visited.update(node as int, true), order),
{
    reveal(order_ok);
    let visited2 = visited.update(node as int, true);
    assert forall|v: int| 0 <= v < g.len() && #[trigger] visited2[v] implies reachable(g, root, v as usize) by {
        if v != node {
            assert(visited[v]);
        }
    }
    assert forall|a: int| 0 <= a < order.len() implies (#[trigger] order[a]) < g.len() && visited2[order[a] as int] by {
        assert(visited[order[a] as int]);
    }
}

proof fn lemma_pending_advance(g: Seq<Seq<usize>>, st: Seq<(usize, usize)>, st2: Seq<(usize, usize)>)
    requires
        st.len() > 0,
        0 < st.last().1 < g[st.last().0 as int].len(),
        st.last().1 < usize::MAX,
        st2 == st.drop_last().push((st.last().0, (st.last().1 + 1) as usize)) || st2 == st.drop_last().push(
            (st.last().0, (st.last().1 + 1) as usize),
        ).push((g[st.last().0 as int][st.last().1 as int], 0usize)),
    ensures
        pending(g, st2) < pending(g, st),
{
    let node = st.last().0;
    let c = st.last().1;
    let base = st.drop_last();
    let s1 = base.push((node, (c + 1) as usize));
    assert(s1.drop_last() =~= base);
    assert(s1.last() == (node, (c + 1) as usize));
    assert(pending(g, s1) == pending(g, base) + (g[node as int].len() - (c + 1)) as nat);
    assert(pending(g, st) == pending(g, base) + (g[node as int].len() - c) as nat);
    if st2 != s1 {
        assert(st2.drop_last() =~= s1);
        assert(pending(g, st2) == pending(g, s1));
    }
}

proof fn lemma_advance(
    g: Seq<Seq<usize>>,
    root: usize,
    rank: spec_fn(usize) -> int,
    visited: Seq<bool>,
    order: Seq<usize>,
    st: Seq<(usize, usize)>,
    next_visited: bool,
)
    requires
        graph_ok(g),
        ranked(g, rank),
        dfs_inv(g, root, visited, order, st),
        st.len() > 0,
        st.last().1 < g[st.last().0 as int].len(),
        st.last().1 < usize::MAX,
        next_visited == visited.update(st.last().0 as int, true)[g[st.last().0 as int][st.last().1 as int] as int],
    ensures
        ({
            let node = st.last().0;
            let c = st.last().1;
            let next = g[node as int][c as int];
            let visited2 = visited.update(node as int, true);
            let st2 = if next_visited {
                st.drop_last().push((node, (c + 1) as usize))
            } else {
                st.drop_last().push((node, (c + 1) as usize)).push((next, 0usize))
            };
            &&& dfs_inv(g, root, visited2, order, st2)
            &&& (c == 0 && !visited[node as int]) || (c > 0 && visited2 == visited && pending(g, st2)
                < pending(g, st))
        }),
{
    lemma_popped(g, root, rank, visited, order, st);
    let node = st.last().0;
    let c = st.last().1;
    let next = g[node as int][c as int];
    let visited2 = visited.update(node as int, true);
    let st2 = if next_visited {
        st.drop_last().push((node, (c + 1) as usize))
    } else {
        st.drop_last().push((node, (c + 1) as usize)).push((next, 0usize))
    };
    assert(node < g.len() && visited.len() == g.len() && reachable(g, root, node) && (c == 0 <==> !visited[node as int])) by {
        reveal(top_facts);
    }
    assert(next < g.len());
    assert(rank(next) < rank(node)) by {
        assert(g[node as int][c as int] == next);
    }
    if next_visited {
        assert(next != node);
        assert(visited[next as int]);
        lemma_visited_parent_finished(g, root, rank, visited, order, st, next);
    }
    lemma_advance_frames(g, root, rank, visited, order, st, st2);
    lemma_advance_gray(g, root, rank, visited, order, st, st2);
    lemma_advance_done(g, root, rank, visited, order, st, st2);
    lemma_advance_visited(g, root, rank, visited, order, st, st2);
    assert(order_ok(g, root, visited, order)) by {
        reveal(top_facts);
    }
    lemma_order_visit(g, root, visited, order, node);
    if c > 0 {
        assert(visited2 =~= visited);
        lemma_pending_advance(g, st, st2);
    }
}

proof fn lemma_finish_parts(
    g: Seq<Seq<usize>>,
    root: usize,
    rank: spec_fn(usize) -> int,
    visited: Seq<bool>,
    order: Seq<usize>,
    st: Seq<(usize, usize)>,
)
    requires
        top_facts(g, root, rank, visited, order, st),
        st.last().1 >= g[st.last().0 as int].len(),
        g.len() <= usize::MAX,
    ensures
        gray_ok(visited.update(st.last().0 as int, true), order.push(st.last().0), st.drop_last()),
        done_ok(g, order.push(st.last().0), st.drop_last()),
        visited_ok(g, visited.update(st.last().0 as int, true), order.push(st.last().0), st.drop_last()),
        frames_ok(g, root, st.drop_last()),
{
    reveal(top_facts);
    let l = st.len() as int;
    let node = st.last().0;
    let base = st.drop_last();
    let order2 = order.push(node);
    let visited2 = visited.update(node as int, true);
    assert(order2[order.len() as int] == node);
    assert forall|v: usize| v != node implies (order2.contains(v) <==> order.contains(v)) by {
        if order.contains(v) {
            let a = choose|a: int| 0 <= a < order.len() && order[a] == v;
            assert(order2[a] == order[a]);
        }
        if order2.contains(v) {
            let a = choose|a: int| 0 <= a < order2.len() && order2[a] == v;
            assert(a < order.len());
            assert(order[a] == v);
        }
    }
    assert forall|v: usize| order.contains(v) implies order2.contains(v) by {
        let a = choose|a: int| 0 <= a < order.len() && order[a] == v;
        assert(order2[a] == order[a]);
    }
    assert(gray_ok(visited2, order2, base)) by {
        reveal(gray_ok);
        assert forall|i: int| 0 <= i < l - 1 implies 1 <= (#[trigger] base[i]).1 && visited2[base[i].0 as int]
            && !order2.contains(base[i].0) by {
            assert(st[i] == base[i]);
        }
        assert forall|i: int, j: int| 0 <= i < j < l - 1 implies (#[trigger] base[i]).0 != (#[trigger] base[j]).0 by {
            assert(st[i] == base[i]);
            assert(st[j] == base[j]);
        }
        if l >= 2 {
            assert(st[0] == base[0]);
            assert(st[l - 2] == base[l - 2]);
        }
    }
    assert(done_ok(g, order2, base)) by {
        reveal(done_ok);
        assert forall|i: int, j: int|
            0 <= i < gray_len(base) && 0 <= j < (#[trigger] base[i]).1 && (j < base[i].1 - 1 || i
                == base.len() - 1) implies order2.contains(#[trigger] g[base[i].0 as int][j]) by {
            assert(st[i] == base[i]);
            if j < base[i].1 - 1 {
                assert(order.contains(g[st[i].0 as int][j]));
            } else {
                assert(i == l - 2);
                assert(g[st[i].0 as int][j] == node);
            }
        }
    }
    assert(visited_ok(g, visited2, order2, base)) by {
        reveal(visited_ok);
        assert forall|v: int| 0 <= v < g.len() implies (#[trigger] visited2[v] <==> (order2.contains(
            v as usize,
        ) || is_gray(base, v))) by {
            if v != node {
                assert(visited2[v] == visited[v]);
                assert((v as usize) != node);
                assert(order2.contains(v as usize) == order.contains(v as usize));
            } else {
                assert(order2[order.len() as int] == v as usize);
                assert(order2.contains(v as usize));
            }
        }
    }
}

proof fn lemma_finish_order(
    g: Seq<Seq<usize>>,
    root: usize,
    rank: spec_fn(usize) -> int,
    visited: Seq<bool>,
    order: Seq<usize>,
    st: Seq<(usize, usize)>,
)
    requires
        top_facts(g, root, rank, visited, order, st),
        st.last().1 >= g[st.last().0 as int].len(),
    ensures
        order_ok(g, root, visited.update(st.last().0 as int, true), order.push(st.last().0)),
{
    reveal(top_facts);
    let node = st.last().0;
    let c = st.last().1;
    let order2 = order.push(node);
    let visited2 = visited.update(node as int, true);
    lemma_order_visit(g, root, visited, order, node);
    reveal(order_ok);
    assert(order2[order.len() as int] == node);
    assert forall|a: int| 0 <= a < order2.len() implies (#[trigger] order2[a]) < g.len() && visited2[order2[a] as int] by {
        if a < order.len() {
            assert(order2[a] == order[a]);
        }
    }
    assert forall|a: int, j: int|
        0 <= a < order2.len() && 0 <= j < g[order2[a] as int].len() implies exists|b: int|
        0 <= b < a && order2[b] == #[trigger] g[order2[a] as int][j] by {
        if a < order.len() {
            assert(order2[a] == order[a]);
            let b = choose|b: int| 0 <= b < a && order[b] == #[trigger] g[order[a] as int][j];
            assert(order2[b] == order[b]);
        } else {
            assert(j < c);
            assert(order.contains(g[node as int][j]));
            let b = choose|b: int| 0 <= b < order.len() && order[b] == g[node as int][j];
            assert(order2[b] == order[b]);
        }
    }
    assert(order2.no_duplicates());
}

proof fn lemma_finish(
    g: Seq<Seq<usize>>,
    root: usize,
    rank: spec_fn(usize) -> int,
    visited: Seq<bool>,
    order: Seq<usize>,
    st: Seq<(usize, usize)>,
)
    requires
        graph_ok(g),
        ranked(g, rank),
        dfs_inv(g, root, visited, order, st),
        st.len() > 0,
        st.last().1 >= g[st.last().0 as int].len(),
    ensures
        dfs_inv(g, root, visited.update(st.last().0 as int, true), order.push(st.last().0), st.drop_last()),
        (st.last().1 == 0 && !visited[st.last().0 as int]) || (visited.update(st.last().0 as int, true)
            == visited && pending(g, st.drop_last()) == pending(g, st)),
{
    lemma_popped(g, root, rank, visited, order, st);
    lemma_finish_parts(g, root, rank, visited, order, st);
    lemma_finish_order(g, root, rank, visited, order, st);
    let node = st.last().0;
    let c = st.last().1;
    assert(c == g[node as int].len() && node < g.len() && visited.len() == g.len() && (c == 0 <==> !visited[node as int]) && (st.len() == 1 ==> node
        == root)) by {
        reveal(top_facts);
    }
    assert(order.push(node).last() == node);
    if c > 0 {
        assert(visited.update(node as int, true) =~= visited);
        assert(pending(g, st) == pending(g, st.drop_last()));
    }
}

proof fn lemma_initial(g: Seq<Seq<usize>>, root: usize, visited: Seq<bool>)
    requires
        root < g.len(),
        visited.len() == g.len(),
        forall|v: int| 0 <= v < visited.len() ==> !visited[v],
    ensures
        dfs_inv(g, root, visited, Seq::empty(), seq![(root, 0usize)]),
{
    reveal(frames_ok);
    reveal(gray_ok);
    reveal(done_ok);
    reveal(visited_ok);
    reveal(order_ok);
    lemma_reach_root(g, root);
    let st = seq![(root, 0usize)];
    assert(gray_len(st) == 0);
}

proof fn lemma_final(g: Seq<Seq<usize>>, root: usize, visited: Seq<bool>, order: Seq<usize>)
    requires
        graph_ok(g),
        root < g.len(),
        dfs_inv(g, root, visited, order, Seq::empty()),
    ensures
        order.no_duplicates(),
        forall|v: usize| order.contains(v) <==> reachable(g, root, v),
        topologically_ordered(g, order),
        order.len() > 0,
        order.last() == root,
{
    reveal(order_ok);
    reveal(visited_ok);
    assert(order[order.len() - 1] == root);
    assert(order.contains(root));
    assert forall|v: usize| order.contains(v) <==> reachable(g, root, v) by {
        if order.contains(v) {
            let a = choose|a: int| 0 <= a < order.len() && order[a] == v;
            assert(visited[order[a] as int]);
        }
        if reachable(g, root, v) {
            let path = choose|path: Seq<usize>| #[trigger] is_path_from(g, path, root, v);
            lemma_closed_contains_path(g, order, path, root, path.len() - 1);
        }
    }
}

/// The depth-first post-order from `v`, appended to `done`: each parent of `v`
/// that is not in `done` yet, in the order of `v`'s parent list and each with
/// its own ancestors before it, then `v` itself. `depth` bounds the nesting; the
/// number of nodes is always enough for a graph without cycles.
pub open spec fn post_order(g: Seq<Seq<usize>>, v: usize, done: Seq<usize>, depth: nat) -> Seq<usize>
    decreases depth, 0int,
{
    if depth == 0 {
        done
    } else {
        parents_post_order(g, v, 0, done, (depth - 1) as nat).push(v)
    }
}

/// The post-orders of the parents of `v` from position `i` of its parent list on,
/// appended to `done` one after the other, skipping the parents already in it.
pub open spec fn parents_post_order(g: Seq<Seq<usize>>, v: usize, i: int, done: Seq<usize>, depth: nat) -> Seq<usize>
    decreases depth, g[v as int].len() - i,
{
    if i < 0 || i >= g[v as int].len() {
        done
    } else {
        let p = g[v as int][i];
        let next_done = if done.contains(p) {
            done
        } else {
            post_order(g, p, done, depth)
        };
        parents_post_order(g, v, i + 1, next_done, depth)
    }
}

/// What the search still appends to `done`: the frames from the top of the
/// stack down, the frame at height `k` resuming its parents at its position with
/// depth `g.len() - 1 - k`.
spec fn resume(g: Seq<Seq<usize>>, st: Seq<(usize, usize)>, done: Seq<usize>) -> Seq<usize>
    decreases st.len(),
{
    if st.len() == 0 {
        done
    } else {
        let f = st.last();
        let depth = (g.len() - st.len()) as nat;
        resume(g, st.drop_last(), parents_post_order(g, f.0, f.1 as int, done, depth).push(f.0))
    }
}

/// Distinct node numbers below `n` are at most `n` many.
proof fn lemma_distinct_nodes(s: Seq<usize>, n: int)
    requires
        s.no_duplicates(),
        forall|i: int| 0 <= i < s.len() ==> #[trigger] s[i] < n,
        n >= 0,
    ensures
        s.len() <= n,
{
    let t = Seq::new(s.len(), |i: int| s[i] as int);
    assert(t.no_duplicates()) by {
        assert forall|i: int, j: int| 0 <= i < t.len() && 0 <= j < t.len() && i != j implies t[i] != t[j] by {
            assert(s[i] != s[j]);
        }
    }
    t.unique_seq_to_set();
    vstd::set_lib::lemma_int_range(0, n);
    assert(t.to_set().subset_of(vstd::set_lib::set_int_range(0, n))) by {
        assert forall|x: int| t.to_set().contains(x) implies vstd::set_lib::set_int_range(0, n).contains(x) by {
            let i = choose|i: int| 0 <= i < t.len() && t[i] == x;
            assert(s[i] < n);
        }
    }
    vstd::set_lib::lemma_len_subset(t.to_set(), vstd::set_lib::set_int_range(0, n));
}

/// The frames of the stack, and an unvisited parent of its top node, are
/// distinct nodes: there are at most as many as nodes in the graph.
proof fn lemma_stack_height(
    g: Seq<Seq<usize>>,
    root: usize,
    rank: spec_fn(usize) -> int,
    visited: Seq<bool>,
    order: Seq<usize>,
    st: Seq<(usize, usize)>,
    next: usize,
    with_next: bool,
)
    requires
        top_facts(g, root, rank, visited, order, st),
        next < g.len(),
        with_next ==> next != st.last().0 && !visited[next as int],
    ensures
        st.len() + (if with_next { 1int } else { 0int }) <= g.len(),
{
    reveal(top_facts);
    let l = st.len() as int;
    let nodes = Seq::new(st.len(), |i: int| st[i].0);
    let s = if with_next {
        nodes.push(next)
    } else {
        nodes
    };
    assert(st[l - 1] == st.last());
    assert forall|i: int, j: int| 0 <= i < s.len() && 0 <= j < s.len() && i != j implies s[i] != s[j] by {
        if i < l && j < l {
            if i < l - 1 && j < l - 1 {
                assert(st[i].0 != st[j].0);
            }
        } else if i < l - 1 {
            assert(visited[st[i].0 as int]);
        } else if j < l - 1 {
            assert(visited[st[j].0 as int]);
        }
    }
    assert forall|i: int| 0 <= i < s.len() implies #[trigger] s[i] < g.len() by {
        if i < l - 1 {
            assert(st[i].0 < g.len());
        }
    }
    lemma_distinct_nodes(s, g.len() as int);
}

/// Examining the next parent of the top frame leaves what the search will
/// append unchanged.
proof fn lemma_resume_advance(
    g: Seq<Seq<usize>>,
    root: usize,
    rank: spec_fn(usize) -> int,
    visited: Seq<bool>,
    order: Seq<usize>,
    st: Seq<(usize, usize)>,
    next_visited: bool,
)
    requires
        graph_ok(g),
        ranked(g, rank),
        dfs_inv(g, root, visited, order, st),
        st.len() > 0,
        st.last().1 < g[st.last().0 as int].len(),
        st.last().1 < usize::MAX,
        next_visited == visited.update(st.last().0 as int, true)[g[st.last().0 as int][st.last().1 as int] as int],
    ensures
        ({
            let node = st.last().0;
            let c = st.last().1;
            let next = g[node as int][c as int];
            let st2 = if next_visited {
                st.drop_last().push((node, (c + 1) as usize))
            } else {
                st.drop_last().push((node, (c + 1) as usize)).push((next, 0usize))
            };
            resume(g, st2, order) == resume(g, st, order)
        }),
{
    lemma_popped(g, root, rank, visited, order, st);
    let node = st.last().0;
    let c = st.last().1;
    let next = g[node as int][c as int];
    let base = st.drop_last();
    let depth = (g.len() - st.len()) as nat;
    assert(node < g.len() && visited.len() == g.len()) by {
        reveal(top_facts);
    }
    assert(next < g.len());
    assert(rank(next) < rank(node)) by {
        assert(g[node as int][c as int] == next);
    }
    assert(next != node);
    assert(visited.update(node as int, true)[next as int] == visited[next as int]);
    let mid = base.push((node, (c + 1) as usize));
    assert(mid.drop_last() =~= base);
    assert(resume(g, mid, order) == resume(g, base, parents_post_order(g, node, c + 1, order, depth).push(node)));
    if next_visited {
        assert(visited[next as int]);
        lemma_visited_parent_finished(g, root, rank, visited, order, st, next);
        assert(parents_post_order(g, node, c as int, order, depth) == parents_post_order(g, node, c + 1, order, depth));
    } else {
        assert(!visited[next as int]);
        assert(!order.contains(next)) by {
            reveal(top_facts);
            reveal(order_ok);
            if order.contains(next) {
                let a = choose|a: int| 0 <= a < order.len() && order[a] == next;
                assert(visited[order[a] as int]);
            }
        }
        lemma_stack_height(g, root, rank, visited, order, st, next, true);
        let top = mid.push((next, 0usize));
        assert(top.drop_last() =~= mid);
        assert(depth >= 1);
        let inner = (g.len() - top.len()) as nat;
        assert(inner == depth - 1);
        assert(post_order(g, next, order, depth) == parents_post_order(g, next, 0, order, inner).push(next));
        assert(resume(g, top, order) == resume(g, mid, post_order(g, next, order, depth)));
        assert(parents_post_order(g, node, c as int, order, depth) == parents_post_order(
            g,
            node,
            c + 1,
            post_order(g, next, order, depth),
            depth,
        ));
    }
}

/// The nodes that `root` depends on, itself included, each once, every parent
/// before its children and `root` last: the reverse of the order in which
/// gradients are propagated. It is the depth-first post-order from `root` that
/// examines parents in the order of the parent lists.
pub fn topological_order(parents: &Vec<Vec<usize>>, root: usize) -> (order: Vec<usize>)
    requires
        root < parents.len(),
        graph_ok(adjacency(parents@)),
        acyclic(adjacency(parents@)),
    ensures
        order@.no_duplicates(),
        forall|v: usize| order@.contains(v) <==> reachable(adjacency(parents@), root, v),
        topologically_ordered(adjacency(parents@), order@),
        order.len() > 0,
        order@.last() == root,
        order@ == post_order(adjacency(parents@), root, Seq::empty(), parents.len() as nat),
{
    let ghost g = adjacency(parents@);
    let ghost rank = choose|rank: spec_fn(usize) -> int| ranked(g, rank);
    let n = parents.len();
    let mut visited: Vec<bool> = vec![false; n];
    let mut order: Vec<usize> = Vec::new();
    let mut stack: Vec<(usize, usize)> = Vec::new();
    stack.push((root, 0));
    proof {
        assert(stack@ =~= seq![(root, 0usize)]);
        assert(order@ =~= Seq::<usize>::empty());
        lemma_initial(g, root, visited@);
        assert(stack@.drop_last() =~= Seq::<(usize, usize)>::empty());
        assert(g.len() == n);
        let first = parents_post_order(g, root, 0, order@, (n - 1) as nat).push(root);
        assert(resume(g, Seq::<(usize, usize)>::empty(), first) == first);
        assert(resume(g, stack@, order@) == first);
        assert(post_order(g, root, Seq::empty(), n as nat) == first);
    }
    while stack.len() > 0
        invariant
            g == adjacency(parents@),
            n == parents.len(),
            root < n,
            graph_ok(g),
            ranked(g, rank),
            dfs_inv(g, root, visited@, order@, stack@),
            resume(g, stack@, order@) == post_order(g, root, Seq::empty(), n as nat),
        decreases unvisited_count(visited@), pending(g, stack@), stack.len(),
    {
        let ghost st = stack@;
        let ghost vis = visited@;
        let ghost ord = order@;
        proof {
            lemma_popped_node(g, root, vis, ord, st);
            assert(st.last() == st[st.len() - 1]);
        }
        let (node, child) = stack.pop().unwrap();
        assert(stack@ == st.drop_last());
        if child == 0 {
            if visited[node] {
                continue;
            }
            proof {
                lemma_unvisited_update(vis, node as int);
            }
            visited.set(node, true);
        }
        proof {
            if child != 0 {
                assert(vis.update(node as int, true) =~= vis);
            }
            assert(visited@ == vis.update(node as int, true));
        }
        let np = parents[node].len();
        if child < np {
            let next = parents[node][child];
            stack.push((node, child + 1));
            proof {
                assert(g[node as int][child as int] == next);
            }
            let next_visited = visited[next];
            if !next_visited {
                stack.push((next, 0));
            }
            proof {
                lemma_advance(g, root, rank, vis, ord, st, next_visited);
                lemma_resume_advance(g, root, rank, vis, ord, st, next_visited);
            }
        } else {
            proof {
                lemma_finish(g, root, rank, vis, ord, st);
                assert(resume(g, st, ord) == resume(g, st.drop_last(), ord.push(node)));
            }
            order.push(node);
        }
    }
    proof {
        assert(stack@ =~= Seq::<(usize, usize)>::empty());
        lemma_final(g, root, visited@, order@);
    }
    order
}

} // verus!
