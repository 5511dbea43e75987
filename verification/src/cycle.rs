//! The search for a cycle in a directed graph, depth first.

use crate::digraph::{
    edges_in_range, follows_edge, graph_edges, graph_node_count, graph_nodes, graph_successors,
    indices, is_cycle, is_simple, is_walk, on_cycle, successors,
};
use petgraph::graph::Graph;
use petgraph::Directed;
use vstd::prelude::*;

verus! {

/// The mark of a node that the search has not reached yet.
pub const UNSEEN: u8 = 0;

/// The mark of a node on the stack of the search.
pub const ON_STACK: u8 = 1;

/// The mark of a node that the search has left: all that can be reached
/// from it has been searched.
pub const DONE: u8 = 2;

/// The number of nodes that the search has not reached yet.
pub open spec fn unvisited(marks: Seq<u8>) -> nat
    decreases marks.len(),
{
    if marks.len() == 0 {
        0
    } else if marks.last() == UNSEEN {
        unvisited(marks.drop_last()) + 1
    } else {
        unvisited(marks.drop_last())
    }
}

proof fn lemma_unvisited_update(marks: Seq<u8>, i: int, mark: u8)
    requires
        0 <= i < marks.len(),
        mark != UNSEEN,
    ensures
        marks[i] == UNSEEN ==> unvisited(marks.update(i, mark)) + 1 == unvisited(marks),
        marks[i] != UNSEEN ==> unvisited(marks.update(i, mark)) == unvisited(marks),
    decreases marks.len(),
{
    let changed = marks.update(i, mark);
    if i == marks.len() - 1 {
        assert(changed.drop_last() =~= marks.drop_last());
    } else {
        assert(changed.drop_last() =~= marks.drop_last().update(i, mark));
        lemma_unvisited_update(marks.drop_last(), i, mark);
    }
}

/// The successors of a node are the targets of its edges.
proof fn lemma_successors(edges: Seq<(int, int)>, node: int)
    ensures
        forall|w: int| successors(edges, node).contains(w) <==> edges.contains((node, w)),
    decreases edges.len(),
{
    let found = successors(edges, node);
    if edges.len() == 0 {
        assert forall|w: int| !found.contains(w) && !edges.contains((node, w)) by {}
    } else {
        let rest = edges.drop_last();
        let last = edges.last();
        lemma_successors(rest, node);
        let inner = successors(rest, node);
        assert forall|w: int| found.contains(w) <==> edges.contains((node, w)) by {
            if edges.contains((node, w)) {
                let k = choose|k: int| 0 <= k < edges.len() && edges[k] == (node, w);
                if k < rest.len() {
                    assert(rest[k] == (node, w));
                    assert(inner.contains(w));
                    let q = choose|q: int| 0 <= q < inner.len() && inner[q] == w;
                    if last.0 == node {
                        assert(found[q + 1] == w);
                    }
                } else {
                    assert(found[0] == w);
                }
            }
            if found.contains(w) {
                let q = choose|q: int| 0 <= q < found.len() && found[q] == w;
                if last.0 == node && q == 0 {
                    assert(edges[edges.len() - 1] == (node, w));
                } else {
                    if last.0 == node {
                        assert(inner[q - 1] == w);
                    }
                    assert(inner.contains(w));
                    let k = choose|k: int| 0 <= k < rest.len() && rest[k] == (node, w);
                    assert(edges[k] == (node, w));
                }
            }
        }
    }
}

/// The stack of a depth-first search against its marks: the nodes on the
/// stack are those with the mark `ON_STACK`, each once, and the stack is a
/// walk.
pub open spec fn stack_state(n: nat, edges: Seq<(int, int)>, marks: Seq<u8>, stack: Seq<usize>) -> bool {
    &&& marks.len() == n
    &&& forall|v: int| 0 <= v < n ==> #[trigger] marks[v] <= DONE
    &&& forall|i: int|
        0 <= i < stack.len() ==> (#[trigger] stack[i]) < n && marks[stack[i] as int] == ON_STACK
    &&& forall|v: int| 0 <= v < n && #[trigger] marks[v] == ON_STACK ==> indices(stack).contains(v)
    &&& is_walk(edges, indices(stack))
    &&& stack.no_duplicates()
}

/// The nodes that are done, in the order in which the search left them:
/// every edge of such a node leads to a node that was done before it.
pub open spec fn finished_state(
    n: nat,
    edges: Seq<(int, int)>,
    marks: Seq<u8>,
    finished: Seq<int>,
) -> bool {
    &&& marks.len() == n
    &&& finished.no_duplicates()
    &&& forall|v: int| 0 <= v < n ==> (#[trigger] marks[v] == DONE <==> finished.contains(v))
    &&& forall|i: int| 0 <= i < finished.len() ==> 0 <= #[trigger] finished[i] < n
    &&& forall|i: int, w: int|
        0 <= i < finished.len() && edges.contains((#[trigger] finished[i], w))
            ==> #[trigger] finished.take(i).contains(w)
}

/// What holds of a depth-first search between its steps.
#[verifier::opaque]
pub open spec fn search_state(
    n: nat,
    edges: Seq<(int, int)>,
    marks: Seq<u8>,
    stack: Seq<usize>,
    finished: Seq<int>,
) -> bool {
    stack_state(n, edges, marks, stack) && finished_state(n, edges, marks, finished)
}

/// Along a walk that starts at a node that is done, every node is done, and
/// was so the earlier the further along the walk it lies.
proof fn lemma_walk_among_finished(
    edges: Seq<(int, int)>,
    finished: Seq<int>,
    walk: Seq<int>,
    k: int,
)
    requires
        finished.no_duplicates(),
        forall|i: int, w: int|
            0 <= i < finished.len() && edges.contains((#[trigger] finished[i], w))
                ==> #[trigger] finished.take(i).contains(w),
        is_walk(edges, walk),
        walk.len() >= 1,
        finished.contains(walk[0]),
        0 <= k < walk.len(),
    ensures
        finished.contains(walk[k]),
        finished.index_of(walk[k]) + k <= finished.index_of(walk[0]),
    decreases k,
{
    if k > 0 {
        lemma_walk_among_finished(edges, finished, walk, k - 1);
        let i = finished.index_of(walk[k - 1]);
        assert(follows_edge(edges, walk, k - 1));
        assert(finished.take(i).contains(walk[k]));
        let j = choose|j: int| 0 <= j < finished.take(i).len() && finished.take(i)[j] == walk[k];
        assert(finished[j] == walk[k]);
        assert(finished.index_of(walk[k]) == j) by {
            let q = finished.index_of(walk[k]);
            assert(finished[q] == walk[k]);
        }
    }
}

/// The stack from the first occurrence of `node` on, followed by `node`,
/// is a cycle, where the last node of the stack has an edge to `node`.
proof fn lemma_close_cycle(
    edges: Seq<(int, int)>,
    stack: Seq<usize>,
    pos: int,
    node: usize,
    chain: Seq<usize>,
)
    requires
        is_walk(edges, indices(stack)),
        0 <= pos < stack.len(),
        stack[pos] == node,
        edges.contains((stack.last() as int, node as int)),
        chain == stack.subrange(pos, stack.len() as int).push(node),
        stack.no_duplicates(),
    ensures
        is_cycle(edges, indices(chain)),
        is_simple(indices(chain)),
{
    let walk = indices(chain);
    let base = indices(stack);
    assert forall|x: int, y: int|
        0 <= x < walk.drop_last().len() && 0 <= y < walk.drop_last().len() && x != y implies walk.drop_last()[x]
        != walk.drop_last()[y] by {
        assert(walk.drop_last()[x] == stack[pos + x]);
        assert(walk.drop_last()[y] == stack[pos + y]);
    }
    assert(walk.len() == stack.len() - pos + 1);
    assert forall|x: int| 0 <= x < walk.len() - 1 implies #[trigger] follows_edge(
        edges,
        walk,
        x,
    ) by {
        assert(walk[x] == base[pos + x]);
        if x + 1 < walk.len() - 1 {
            assert(walk[x + 1] == base[pos + x + 1]);
            assert(follows_edge(edges, base, pos + x));
        } else {
            assert(walk[x + 1] == node);
            assert(base[pos + x] == stack.last());
        }
    }
    assert(walk[0] == node);
}

proof fn lemma_enter_stack(
    n: nat,
    edges: Seq<(int, int)>,
    marks: Seq<u8>,
    stack: Seq<usize>,
    node: usize,
)
    requires
        stack_state(n, edges, marks, stack),
        node < n,
        marks[node as int] == UNSEEN,
        stack.len() > 0 ==> edges.contains((stack.last() as int, node as int)),
    ensures
        stack_state(n, edges, marks.update(node as int, ON_STACK), stack.push(node)),
{
    let marks2 = marks.update(node as int, ON_STACK);
    let stack2 = stack.push(node);
    let walk = indices(stack2);
    let base = indices(stack);
    assert forall|x: int| 0 <= x < walk.len() - 1 implies #[trigger] follows_edge(
        edges,
        walk,
        x,
    ) by {
        assert(walk[x] == base[x]);
        if x + 1 < walk.len() - 1 {
            assert(walk[x + 1] == base[x + 1]);
            assert(follows_edge(edges, base, x));
        } else {
            assert(walk[x + 1] == node);
            assert(base[x] == stack.last());
        }
    }
    assert forall|i: int| 0 <= i < stack2.len() implies (#[trigger] stack2[i]) < n && marks2[stack2[i] as int]
        == ON_STACK by {
        if i < stack.len() {
            assert(stack2[i] == stack[i]);
        }
    }
    assert forall|v: int| 0 <= v < n && #[trigger] marks2[v] == ON_STACK implies walk.contains(v) by {
        if v == node {
            assert(walk[stack2.len() - 1] == v);
        } else {
            assert(marks[v] == ON_STACK);
            let at = choose|at: int| 0 <= at < base.len() && base[at] == v;
            assert(walk[at] == v);
        }
    }
    assert forall|v: int| 0 <= v < n implies #[trigger] marks2[v] <= DONE by {
        assert(marks[v] <= DONE);
    }
    assert forall|x: int, y: int|
        0 <= x < stack2.len() && 0 <= y < stack2.len() && x != y implies stack2[x] != stack2[y] by {
        if x < stack.len() {
            assert(stack2[x] == stack[x]);
        }
        if y < stack.len() {
            assert(stack2[y] == stack[y]);
        }
    }
}

proof fn lemma_enter_finished(
    n: nat,
    edges: Seq<(int, int)>,
    marks: Seq<u8>,
    finished: Seq<int>,
    node: usize,
)
    requires
        finished_state(n, edges, marks, finished),
        node < n,
        marks[node as int] == UNSEEN,
    ensures
        finished_state(n, edges, marks.update(node as int, ON_STACK), finished),
{
    let marks2 = marks.update(node as int, ON_STACK);
    assert forall|v: int| 0 <= v < n implies (#[trigger] marks2[v] == DONE <==> finished.contains(
        v,
    )) by {
        assert(marks[v] == DONE <==> finished.contains(v));
    }
}

/// The search state after `node`, not reached before, has been put on the
/// stack.
proof fn lemma_enter(
    n: nat,
    edges: Seq<(int, int)>,
    marks: Seq<u8>,
    stack: Seq<usize>,
    finished: Seq<int>,
    node: usize,
)
    requires
        search_state(n, edges, marks, stack, finished),
        node < n,
        marks[node as int] == UNSEEN,
        stack.len() > 0 ==> edges.contains((stack.last() as int, node as int)),
    ensures
        search_state(n, edges, marks.update(node as int, ON_STACK), stack.push(node), finished),
        unvisited(marks.update(node as int, ON_STACK)) + 1 == unvisited(marks),
{
    reveal(search_state);
    lemma_unvisited_update(marks, node as int, ON_STACK);
    lemma_enter_stack(n, edges, marks, stack, node);
    lemma_enter_finished(n, edges, marks, finished, node);
}

proof fn lemma_leave_stack(
    n: nat,
    edges: Seq<(int, int)>,
    marks: Seq<u8>,
    stack: Seq<usize>,
    node: usize,
)
    requires
        stack_state(n, edges, marks, stack),
        node < n,
        stack.len() > 0,
        stack.last() == node,
        forall|i: int| 0 <= i < stack.len() - 1 ==> stack[i] != node,
    ensures
        stack_state(n, edges, marks.update(node as int, DONE), stack.drop_last()),
{
    let marks2 = marks.update(node as int, DONE);
    let stack2 = stack.drop_last();
    assert forall|i: int| 0 <= i < stack2.len() implies (#[trigger] stack2[i]) < n && marks2[stack2[i] as int]
        == ON_STACK by {
        assert(stack2[i] == stack[i]);
    }
    assert forall|v: int| 0 <= v < n && #[trigger] marks2[v] == ON_STACK implies indices(
        stack2,
    ).contains(v) by {
        assert(marks[v] == ON_STACK);
        let at = choose|at: int| 0 <= at < indices(stack).len() && indices(stack)[at] == v;
        assert(at < stack2.len());
        assert(indices(stack2)[at] == v);
    }
    assert(is_walk(edges, indices(stack2))) by {
        assert forall|x: int| 0 <= x < indices(stack2).len() - 1 implies #[trigger] follows_edge(
            edges,
            indices(stack2),
            x,
        ) by {
            assert(indices(stack2)[x] == indices(stack)[x]);
            assert(indices(stack2)[x + 1] == indices(stack)[x + 1]);
            assert(follows_edge(edges, indices(stack), x));
        }
    }
    assert forall|v: int| 0 <= v < n implies #[trigger] marks2[v] <= DONE by {
        assert(marks[v] <= DONE);
    }
    assert forall|x: int, y: int|
        0 <= x < stack2.len() && 0 <= y < stack2.len() && x != y implies stack2[x] != stack2[y] by {
        assert(stack2[x] == stack[x] && stack2[y] == stack[y]);
    }
}

proof fn lemma_leave_finished(
    n: nat,
    edges: Seq<(int, int)>,
    marks: Seq<u8>,
    finished: Seq<int>,
    node: usize,
)
    requires
        finished_state(n, edges, marks, finished),
        edges_in_range(edges, n),
        node < n,
        marks[node as int] == ON_STACK,
        forall|w: int| edges.contains((node as int, w)) ==> marks[w] == DONE,
    ensures
        finished_state(n, edges, marks.update(node as int, DONE), finished.push(node as int)),
{
    let marks2 = marks.update(node as int, DONE);
    let done = finished.push(node as int);
    assert(!finished.contains(node as int));
    assert(done.no_duplicates());
    assert forall|v: int| 0 <= v < n implies (#[trigger] marks2[v] == DONE <==> done.contains(v)) by {
        if v == node {
            assert(done[done.len() - 1] == v);
        } else {
            assert(marks[v] == DONE <==> finished.contains(v));
            if finished.contains(v) {
                let at = choose|at: int| 0 <= at < finished.len() && finished[at] == v;
                assert(done[at] == v);
            }
            if done.contains(v) {
                let at = choose|at: int| 0 <= at < done.len() && done[at] == v;
                assert(finished[at] == v);
            }
        }
    }
    assert forall|i: int, w: int|
        0 <= i < done.len() && edges.contains((#[trigger] done[i], w)) implies #[trigger] done.take(
        i,
    ).contains(w) by {
        if i < finished.len() {
            assert(done[i] == finished[i]);
            assert(finished.take(i).contains(w));
            assert(done.take(i) =~= finished.take(i));
        } else {
            let e = choose|e: int| 0 <= e < edges.len() && edges[e] == (node as int, w);
            assert(0 <= edges[e].1 < n);
            assert(marks[w] == DONE);
            assert(finished.contains(w));
            assert(done.take(i) =~= finished);
        }
    }
}

/// The search state after `node`, all of whose edges lead to nodes that are
/// done, has left the stack and is done itself.
proof fn lemma_leave(
    n: nat,
    edges: Seq<(int, int)>,
    marks: Seq<u8>,
    stack: Seq<usize>,
    finished: Seq<int>,
    node: usize,
)
    requires
        search_state(n, edges, marks, stack, finished),
        edges_in_range(edges, n),
        node < n,
        stack.len() > 0,
        stack.last() == node,
        forall|i: int| 0 <= i < stack.len() - 1 ==> stack[i] != node,
        forall|w: int| edges.contains((node as int, w)) ==> marks[w] == DONE,
    ensures
        search_state(
            n,
            edges,
            marks.update(node as int, DONE),
            stack.drop_last(),
            finished.push(node as int),
        ),
        unvisited(marks.update(node as int, DONE)) == unvisited(marks),
{
    reveal(search_state);
    lemma_unvisited_update(marks, node as int, DONE);
    lemma_leave_stack(n, edges, marks, stack, node);
    lemma_leave_finished(n, edges, marks, finished, node);
}

/// What the steps of the search read off its state.
proof fn lemma_state_facts(
    n: nat,
    edges: Seq<(int, int)>,
    marks: Seq<u8>,
    stack: Seq<usize>,
    finished: Seq<int>,
)
    requires
        search_state(n, edges, marks, stack, finished),
    ensures
        marks.len() == n,
        is_walk(edges, indices(stack)),
        stack.no_duplicates(),
        forall|v: int| 0 <= v < n ==> #[trigger] marks[v] <= DONE,
        forall|v: int| 0 <= v < n && #[trigger] marks[v] == ON_STACK ==> indices(stack).contains(v),
        forall|v: int| 0 <= v < n && #[trigger] marks[v] == DONE ==> finished.contains(v),
        forall|i: int|
            0 <= i < stack.len() ==> (#[trigger] stack[i]) < n && marks[stack[i] as int] == ON_STACK,
{
    reveal(search_state);
}

/// Searches depth first from `node` for a way back to a node on the stack.
/// It returns the cycle that it closes, or `None` when everything that can
/// be reached from `node` is done without one.
fn dfs_find_cycle(
    graph: &Graph<String, (), Directed, u32>,
    node: usize,
    marks: &mut Vec<u8>,
    stack: &mut Vec<usize>,
    finished: &mut Ghost<Seq<int>>,
) -> (r: Option<Vec<usize>>)
    requires
        search_state(
            graph_nodes(*graph).len(),
            graph_edges(*graph),
            old(marks)@,
            old(stack)@,
            old(finished)@,
        ),
        edges_in_range(graph_edges(*graph), graph_nodes(*graph).len()),
        node < graph_nodes(*graph).len(),
        old(stack)@.len() > 0 ==> graph_edges(*graph).contains(
            (old(stack)@.last() as int, node as int),
        ),
    ensures
        match r {
            Some(chain) => is_cycle(graph_edges(*graph), indices(chain@)) && is_simple(
                indices(chain@),
            ),
            None => {
                &&& search_state(
                    graph_nodes(*graph).len(),
                    graph_edges(*graph),
                    final(marks)@,
                    final(stack)@,
                    final(finished)@,
                )
                &&& final(stack)@ == old(stack)@
                &&& final(marks)@[node as int] == DONE
                &&& unvisited(final(marks)@) <= unvisited(old(marks)@)
                &&& forall|v: int|
                    0 <= v < old(marks)@.len() && old(marks)@[v] != UNSEEN ==> final(marks)@[v] == old(
                        marks,
                    )@[v]
            },
        },
    decreases unvisited(old(marks)@),
{
    let ghost n = graph_nodes(*graph).len();
    let ghost edges = graph_edges(*graph);
    proof {
        lemma_state_facts(n, edges, marks@, stack@, finished@);
    }
    if marks[node] == ON_STACK {
        return Some(close_cycle(graph, node, stack));
    }
    if marks[node] == DONE {
        return None;
    }
    proof {
        lemma_enter(n, edges, marks@, stack@, finished@, node);
        lemma_successors(edges, node as int);
    }
    marks[node] = ON_STACK;
    stack.push(node);
    let targets = graph_successors(graph, node);
    proof {
        assert forall|j: int| 0 <= j < targets@.len() implies (#[trigger] targets@[j]) < n by {
            assert(indices(targets@)[j] == targets@[j]);
            assert(successors(edges, node as int).contains(targets@[j] as int));
            let e = choose|e: int|
                0 <= e < edges.len() && edges[e] == (node as int, targets@[j] as int);
            assert(0 <= edges[e].1 < n);
        }
    }
    let mut k: usize = 0;
    while k < targets.len()
        invariant
            k <= targets.len(),
            forall|j: int| 0 <= j < targets@.len() ==> (#[trigger] targets@[j]) < n,
            n == graph_nodes(*graph).len(),
            edges == graph_edges(*graph),
            edges_in_range(edges, n),
            node < n,
            indices(targets@) == successors(edges, node as int),
            forall|w: int| successors(edges, node as int).contains(w) <==> edges.contains((node as int, w)),
            search_state(n, edges, marks@, stack@, finished@),
            stack@ == old(stack)@.push(node),
            marks@[node as int] == ON_STACK,
            marks@.len() == n,
            old(marks)@.len() == n,
            unvisited(marks@) < unvisited(old(marks)@),
            forall|v: int|
                0 <= v < old(marks)@.len() && old(marks)@[v] != UNSEEN ==> marks@[v] == old(marks)@[v],
            forall|j: int| 0 <= j < k ==> marks@[(#[trigger] targets@[j]) as int] == DONE,
        decreases targets.len() - k,
    {
        let target = targets[k];
        proof {
            assert(indices(targets@)[k as int] == target);
            assert(successors(edges, node as int).contains(target as int));
        }
        let ghost marks_before = marks@;
        match dfs_find_cycle(graph, target, marks, stack, finished) {
            Some(chain) => {
                return Some(chain);
            },
            None => {
                proof {
                    lemma_state_facts(n, edges, marks@, stack@, finished@);
                }
                assert forall|j: int| 0 <= j < k + 1 implies marks@[(#[trigger] targets@[j]) as int]
                    == DONE by {
                    if j < k {
                        assert(marks_before[targets@[j] as int] == DONE);
                    }
                }
            },
        }
        k += 1;
    }
    proof {
        assert forall|w: int| edges.contains((node as int, w)) implies marks@[w] == DONE by {
            assert(successors(edges, node as int).contains(w));
            let q = choose|q: int| 0 <= q < indices(targets@).len() && indices(targets@)[q] == w;
            assert(targets@[q] as int == w);
        }
        assert forall|i: int| 0 <= i < stack@.len() - 1 implies stack@[i] != node by {
            assert(stack@[i] == old(stack)@[i]);
            assert(old(marks)@[old(stack)@[i] as int] == ON_STACK);
        }
        lemma_state_facts(n, edges, marks@, stack@, finished@);
        lemma_leave(n, edges, marks@, stack@, finished@, node);
        finished@ = finished@.push(node as int);
    }
    stack.pop();
    marks[node] = DONE;
    assert(stack@ =~= old(stack)@);
    None
}

/// The cycle that an edge from the top of the stack to `node`, which is on
/// the stack, closes: the stack from `node` on, and `node` again.
fn close_cycle(graph: &Graph<String, (), Directed, u32>, node: usize, stack: &Vec<usize>) -> (chain:
    Vec<usize>)
    requires
        is_walk(graph_edges(*graph), indices(stack@)),
        indices(stack@).contains(node as int),
        stack@.no_duplicates(),
        stack@.len() > 0 ==> graph_edges(*graph).contains((stack@.last() as int, node as int)),
    ensures
        is_cycle(graph_edges(*graph), indices(chain@)),
        is_simple(indices(chain@)),
{
    proof {
        let at = choose|at: int| 0 <= at < indices(stack@).len() && indices(stack@)[at] == node as int;
        assert(stack@[at] == node);
    }
    let mut pos: usize = 0;
    while pos < stack.len() && stack[pos] != node
        invariant
            pos <= stack.len(),
            exists|at: int| pos <= at < stack@.len() && stack@[at] == node,
        decreases stack.len() - pos,
    {
        pos += 1;
    }
    let mut chain: Vec<usize> = Vec::new();
    let mut i: usize = pos;
    while i < stack.len()
        invariant
            pos <= i <= stack.len(),
            chain@ == stack@.subrange(pos as int, i as int),
        decreases stack.len() - i,
    {
        chain.push(stack[i]);
        assert(stack@.subrange(pos as int, i + 1) =~= stack@.subrange(pos as int, i as int).push(
            stack@[i as int],
        ));
        i += 1;
    }
    chain.push(node);
    proof {
        lemma_close_cycle(graph_edges(*graph), stack@, pos as int, node, chain@);
    }
    chain
}

/// Searches for a cycle that can be reached from `start`. Where `start`
/// lies on a cycle, one is found.
pub(crate) fn find_cycle_path(graph: &Graph<String, (), Directed, u32>, start: usize) -> (r: Option<
    Vec<usize>,
>)
    requires
        start < graph_nodes(*graph).len(),
        edges_in_range(graph_edges(*graph), graph_nodes(*graph).len()),
    ensures
        match r {
            Some(chain) => is_cycle(graph_edges(*graph), indices(chain@)) && is_simple(
                indices(chain@),
            ),
            None => !on_cycle(graph_edges(*graph), start as int),
        },
{
    let ghost edges = graph_edges(*graph);
    let n = graph_node_count(graph);
    let mut marks: Vec<u8> = Vec::new();
    let mut i: usize = 0;
    while i < n
        invariant
            i <= n,
            marks@.len() == i,
            forall|v: int| 0 <= v < i ==> marks@[v] == UNSEEN,
        decreases n - i,
    {
        marks.push(UNSEEN);
        i += 1;
    }
    let mut stack: Vec<usize> = Vec::new();
    let mut finished: Ghost<Seq<int>> = Ghost(Seq::empty());
    proof {
        reveal(search_state);
        assert(indices(stack@) =~= Seq::<int>::empty());
    }
    let r = dfs_find_cycle(graph, start, &mut marks, &mut stack, &mut finished);
    proof {
        if r is None && on_cycle(edges, start as int) {
            let walk = choose|walk: Seq<int>| is_cycle(edges, walk) && #[trigger] walk[0] == start as int;
            lemma_state_facts(n as nat, edges, marks@, stack@, finished@);
            reveal(search_state);
            lemma_walk_among_finished(edges, finished@, walk, walk.len() - 1);
        }
    }
    r
}

} // verus!
