//! The dependency graph of value paths, and the order in which they
//! resolve.

use crate::cycle::find_cycle_path;
use crate::digraph::{
    edges_in_range, follows_edge, graph_add_edge, graph_add_node, graph_edge_count, graph_edges,
    graph_new, graph_node_count, graph_node_name, graph_nodes, graph_toposort, indices, is_cycle,
    is_simple, is_topological, GRAPH_LIMIT,
};
use crate::text::{join_text, joined};
use petgraph::graph::Graph;
use petgraph::Directed;
use vstd::prelude::*;

verus! {

/// The location of a value inside a document, written as its dot-joined
/// segments.
#[derive(Debug, PartialEq, Eq, Hash)]
pub struct ValuePath(pub String);

impl View for ValuePath {
    type V = Seq<char>;

    open spec fn view(&self) -> Seq<char> {
        self.0@
    }
}

impl ValuePath {
    pub fn new(path: &str) -> (r: Self)
        ensures
            r@ == path@,
    {
        ValuePath(String::from_str(path))
    }

    pub fn as_str(&self) -> (r: &str)
        ensures
            r@ == self@,
    {
        self.0.as_str()
    }
}

impl Clone for ValuePath {
    fn clone(&self) -> (r: Self)
        ensures
            r@ == self@,
    {
        ValuePath(self.0.clone())
    }
}

/// The nodes after `path` has been registered: it is added at the end
/// unless it is there already.
pub open spec fn with_node(nodes: Seq<Seq<char>>, path: Seq<char>) -> Seq<Seq<char>> {
    if nodes.contains(path) {
        nodes
    } else {
        nodes.push(path)
    }
}

/// The dependencies that the edges stand for. An edge runs from a value to
/// one that depends on it; a dependency names the dependent first.
pub open spec fn edge_dependencies(nodes: Seq<Seq<char>>, edges: Seq<(int, int)>) -> Seq<
    (Seq<char>, Seq<char>),
> {
    Seq::new(edges.len(), |k: int| (nodes[edges[k].1], nodes[edges[k].0]))
}

/// A directed graph over value paths. Its nodes are the paths that were
/// registered, each once; its dependencies are pairs of a path and a path
/// that it depends on.
pub struct DependencyGraph {
    graph: Graph<String, (), Directed, u32>,
}

impl DependencyGraph {
    #[verifier::type_invariant]
    spec fn well_formed(self) -> bool {
        &&& graph_nodes(self.graph).no_duplicates()
        &&& edges_in_range(graph_edges(self.graph), graph_nodes(self.graph).len())
    }

    /// The paths registered so far, in the order of their registration.
    pub closed spec fn nodes(&self) -> Seq<Seq<char>> {
        graph_nodes(self.graph)
    }

    /// The dependencies added so far, each as (dependent, dependency).
    pub closed spec fn dependencies(&self) -> Seq<(Seq<char>, Seq<char>)> {
        edge_dependencies(graph_nodes(self.graph), graph_edges(self.graph))
    }

    pub fn new() -> (r: Self)
        ensures
            r.nodes() == Seq::<Seq<char>>::empty(),
            r.dependencies() == Seq::<(Seq<char>, Seq<char>)>::empty(),
    {
        let r = DependencyGraph { graph: graph_new() };
        assert(r.dependencies() =~= Seq::<(Seq<char>, Seq<char>)>::empty());
        r
    }

    /// The index of the node for `path`, which is created if it is missing.
    #[verifier::loop_isolation(false)]
    fn get_or_create_node(&mut self, path: &str) -> (index: usize)
        requires
            old(self).nodes().len() < GRAPH_LIMIT,
        ensures
            final(self).nodes() == with_node(old(self).nodes(), path@),
            final(self).dependencies() == old(self).dependencies(),
            graph_edges(final(self).graph) == graph_edges(old(self).graph),
            index < final(self).nodes().len(),
            final(self).nodes()[index as int] == path@,
            final(self).nodes().no_duplicates(),
            edges_in_range(graph_edges(final(self).graph), old(self).nodes().len()),
    {
        proof {
            use_type_invariant(&*self);
        }
        let wanted = String::from_str(path);
        let n = graph_node_count(&self.graph);
        let mut i: usize = 0;
        while i < n
            invariant
                i <= n,
                n == graph_nodes(self.graph).len(),
                wanted@ == path@,
                forall|k: int| 0 <= k < i ==> graph_nodes(self.graph)[k] != path@,
            decreases n - i,
        {
            if *graph_node_name(&self.graph, i) == wanted {
                return i;
            }
            i += 1;
        }
        let ghost before = graph_nodes(self.graph);
        let ghost edges = graph_edges(self.graph);
        assert(!before.contains(path@));
        let mut graph = graph_new();
        core::mem::swap(&mut self.graph, &mut graph);
        let index = graph_add_node(&mut graph, wanted);
        proof {
            let after = graph_nodes(graph);
            assert forall|a: int, b: int| 0 <= a < after.len() && 0 <= b < after.len() && a != b implies after[a]
                != after[b] by {
                if a < before.len() {
                    assert(after[a] == before[a]);
                }
                if b < before.len() {
                    assert(after[b] == before[b]);
                }
            }
            assert(edge_dependencies(after, edges) =~= edge_dependencies(before, edges)) by {
                assert forall|k: int| 0 <= k < edges.len() implies after[edges[k].0] == before[edges[k].0]
                    && after[edges[k].1] == before[edges[k].1] by {}
            }
        }
        core::mem::swap(&mut self.graph, &mut graph);
        index
    }

    /// Registers `path` as a node. Registering a path again changes
    /// nothing.
    pub fn add_node(&mut self, path: &ValuePath)
        requires
            old(self).nodes().len() < GRAPH_LIMIT,
        ensures
            final(self).nodes() == with_node(old(self).nodes(), path@),
            final(self).dependencies() == old(self).dependencies(),
    {
        let _ = self.get_or_create_node(path.as_str());
    }

    /// Records that `from` depends on `to`, so that `to` resolves before
    /// `from`. Both paths are registered as nodes.
    pub fn add_dependency(&mut self, from: &ValuePath, to: &ValuePath)
        requires
            old(self).nodes().len() + 1 < GRAPH_LIMIT,
            old(self).dependencies().len() < GRAPH_LIMIT,
        ensures
            final(self).nodes() == with_node(with_node(old(self).nodes(), from@), to@),
            final(self).dependencies() == old(self).dependencies().push((from@, to@)),
    {
        let from_index = self.get_or_create_node(from.as_str());
        let to_index = self.get_or_create_node(to.as_str());
        proof {
            use_type_invariant(&*self);
        }
        let ghost nodes = graph_nodes(self.graph);
        let ghost edges = graph_edges(self.graph);
        assert(nodes[from_index as int] == from@) by {
            let mid = with_node(old(self).nodes(), from@);
            assert(mid[from_index as int] == from@);
            assert(nodes[from_index as int] == mid[from_index as int]);
        }
        let mut graph = graph_new();
        core::mem::swap(&mut self.graph, &mut graph);
        graph_add_edge(&mut graph, to_index, from_index);
        proof {
            let added = edges.push((to_index as int, from_index as int));
            assert(edge_dependencies(nodes, added) =~= edge_dependencies(nodes, edges).push(
                (from@, to@),
            ));
            assert forall|k: int| 0 <= k < added.len() implies 0 <= (#[trigger] added[k]).0
                < nodes.len() && 0 <= added[k].1 < nodes.len() by {
                if k < edges.len() {
                    assert(added[k] == edges[k]);
                }
            }
        }
        core::mem::swap(&mut self.graph, &mut graph);
    }

    /// The number of nodes. No path is registered twice.
    pub fn node_count(&self) -> (n: usize)
        ensures
            n == self.nodes().len(),
            self.nodes().no_duplicates(),
    {
        proof {
            use_type_invariant(self);
        }
        graph_node_count(&self.graph)
    }

    /// The number of dependencies.
    pub fn dependency_count(&self) -> (n: usize)
        ensures
            n == self.dependencies().len(),
    {
        graph_edge_count(&self.graph)
    }

    pub fn is_empty(&self) -> (b: bool)
        ensures
            b == (self.nodes().len() == 0),
    {
        graph_node_count(&self.graph) == 0
    }
}

impl Default for DependencyGraph {
    fn default() -> (r: Self)
        ensures
            r.nodes() == Seq::<Seq<char>>::empty(),
            r.dependencies() == Seq::<(Seq<char>, Seq<char>)>::empty(),
    {
        Self::new()
    }
}

/// `a` stands before `b` in the order.
pub open spec fn comes_before(order: Seq<Seq<char>>, a: Seq<char>, b: Seq<char>) -> bool {
    exists|i: int, j: int| 0 <= i < j < order.len() && #[trigger] order[i] == a && #[trigger] order[j] == b
}

/// `order` lists every node once, and every dependency before the path that
/// depends on it.
pub open spec fn resolution_order(
    order: Seq<Seq<char>>,
    nodes: Seq<Seq<char>>,
    dependencies: Seq<(Seq<char>, Seq<char>)>,
) -> bool {
    &&& order.no_duplicates()
    &&& order.len() == nodes.len()
    &&& forall|p: Seq<char>| order.contains(p) <==> nodes.contains(p)
    &&& forall|k: int|
        0 <= k < dependencies.len() ==> comes_before(
            order,
            (#[trigger] dependencies[k]).1,
            dependencies[k].0,
        )
}

/// The path after position `i` of the chain depends on the path at `i`.
pub open spec fn depends_step(
    dependencies: Seq<(Seq<char>, Seq<char>)>,
    chain: Seq<Seq<char>>,
    i: int,
) -> bool {
    dependencies.contains((chain[i + 1], chain[i]))
}

/// The chain is a circle of dependencies: each path depends on the one
/// before it, and the last path is the first one again.
pub open spec fn dependency_cycle(
    chain: Seq<Seq<char>>,
    dependencies: Seq<(Seq<char>, Seq<char>)>,
) -> bool {
    &&& chain.len() >= 2
    &&& chain[0] == chain.last()
    &&& forall|i: int| 0 <= i < chain.len() - 1 ==> #[trigger] depends_step(dependencies, chain, i)
}

/// No path of the chain but the first, which is also the last, occurs
/// twice in it.
pub open spec fn simple_chain(chain: Seq<Seq<char>>) -> bool {
    chain.drop_last().no_duplicates()
}

/// Some paths depend on each other in a circle.
pub open spec fn has_cycle(dependencies: Seq<(Seq<char>, Seq<char>)>) -> bool {
    exists|chain: Seq<Seq<char>>| dependency_cycle(chain, dependencies)
}

proof fn lemma_chain_positions(
    order: Seq<Seq<char>>,
    nodes: Seq<Seq<char>>,
    dependencies: Seq<(Seq<char>, Seq<char>)>,
    chain: Seq<Seq<char>>,
    k: int,
)
    requires
        resolution_order(order, nodes, dependencies),
        dependency_cycle(chain, dependencies),
        0 <= k < chain.len(),
    ensures
        order.contains(chain[k]),
        order.contains(chain[0]),
        order.index_of(chain[0]) + k <= order.index_of(chain[k]),
    decreases k,
{
    if k == 0 {
        assert(depends_step(dependencies, chain, 0));
        let d = choose|d: int| 0 <= d < dependencies.len() && dependencies[d] == (chain[1], chain[0]);
        assert(comes_before(order, dependencies[d].1, dependencies[d].0));
    } else {
        lemma_chain_positions(order, nodes, dependencies, chain, k - 1);
        assert(depends_step(dependencies, chain, k - 1));
        let d = choose|d: int|
            0 <= d < dependencies.len() && dependencies[d] == (chain[k - 1 + 1], chain[k - 1]);
        assert(comes_before(order, dependencies[d].1, dependencies[d].0));
        let (i, j) = choose|i: int, j: int|
            0 <= i < j < order.len() && #[trigger] order[i] == chain[k - 1] && #[trigger] order[j]
                == chain[k];
        assert(order.index_of(chain[k - 1]) == i) by {
            let q = order.index_of(chain[k - 1]);
            assert(order[q] == chain[k - 1]);
        }
        assert(order.index_of(chain[k]) == j) by {
            let q = order.index_of(chain[k]);
            assert(order[q] == chain[k]);
        }
    }
}

/// A path that depends on itself is a cycle.
pub proof fn law_self_reference(dependencies: Seq<(Seq<char>, Seq<char>)>, path: Seq<char>)
    requires
        dependencies.contains((path, path)),
    ensures
        has_cycle(dependencies),
        dependency_cycle(seq![path, path], dependencies),
{
    let chain = seq![path, path];
    assert(depends_step(dependencies, chain, 0));
    assert(dependency_cycle(chain, dependencies));
}

/// Dependencies that can be put in a resolution order hold no cycle.
pub proof fn lemma_order_excludes_cycle(
    order: Seq<Seq<char>>,
    nodes: Seq<Seq<char>>,
    dependencies: Seq<(Seq<char>, Seq<char>)>,
)
    requires
        resolution_order(order, nodes, dependencies),
    ensures
        !has_cycle(dependencies),
{
    if has_cycle(dependencies) {
        let chain = choose|chain: Seq<Seq<char>>| dependency_cycle(chain, dependencies);
        lemma_chain_positions(order, nodes, dependencies, chain, chain.len() - 1);
    }
}

/// A list of `n` different numbers below `n` holds every number below `n`.
proof fn lemma_permutation(order: Seq<int>, n: nat)
    requires
        order.len() == n,
        order.no_duplicates(),
        forall|i: int| 0 <= i < n ==> 0 <= #[trigger] order[i] < n,
    ensures
        forall|v: int| 0 <= v < n ==> order.contains(v),
{
    let all = vstd::set_lib::set_int_range(0, n as int);
    vstd::set_lib::lemma_int_range(0, n as int);
    order.unique_seq_to_set();
    assert(order.to_set().subset_of(all)) by {
        assert forall|v: int| order.to_set().contains(v) implies all.contains(v) by {
            let i = choose|i: int| 0 <= i < order.len() && order[i] == v;
            assert(0 <= order[i] < n);
        }
    }
    vstd::set_lib::lemma_subset_equality(order.to_set(), all);
    assert forall|v: int| 0 <= v < n implies order.contains(v) by {
        assert(all.contains(v));
        assert(order.to_set().contains(v));
    }
}

/// The views of a list of paths.
pub open spec fn paths(order: Seq<ValuePath>) -> Seq<Seq<char>> {
    order.map_values(|p: ValuePath| p@)
}

/// The views of a list of strings.
pub open spec fn names(chain: Seq<String>) -> Seq<Seq<char>> {
    chain.map_values(|p: String| p@)
}

/// The dependencies hold a cycle; `chain` names one, path by path.
#[derive(Debug, PartialEq, Eq)]
pub struct CycleError {
    pub chain: Vec<String>,
}

/// The text that reports a cycle: its paths with arrows between them.
pub open spec fn cycle_text(chain: Seq<Seq<char>>) -> Seq<char> {
    "Circular dependency detected in values. Cycle involves: "@ + joined(chain, " -> "@)
}

impl CycleError {
    /// The text of this error, for a reader.
    pub fn message(&self) -> (text: String)
        ensures
            text@ == cycle_text(names(self.chain@)),
    {
        let mut text = String::from_str("Circular dependency detected in values. Cycle involves: ");
        text.append(join_text(&self.chain, " -> ").as_str());
        text
    }
}

proof fn lemma_named_order(
    nodes: Seq<Seq<char>>,
    edges: Seq<(int, int)>,
    order: Seq<int>,
    named: Seq<Seq<char>>,
)
    requires
        nodes.no_duplicates(),
        edges_in_range(edges, nodes.len()),
        is_topological(order, nodes.len(), edges),
        named.len() == order.len(),
        forall|i: int| 0 <= i < order.len() ==> #[trigger] named[i] == nodes[order[i]],
    ensures
        resolution_order(named, nodes, edge_dependencies(nodes, edges)),
{
    let n = nodes.len();
    let deps = edge_dependencies(nodes, edges);
    lemma_permutation(order, n);
    assert forall|i: int, j: int| 0 <= i < named.len() && 0 <= j < named.len() && i != j implies named[i]
        != named[j] by {
        assert(order[i] != order[j]);
    }
    assert forall|p: Seq<char>| named.contains(p) <==> nodes.contains(p) by {
        if named.contains(p) {
            let i = choose|i: int| 0 <= i < named.len() && named[i] == p;
            assert(nodes[order[i]] == p);
        }
        if nodes.contains(p) {
            let v = choose|v: int| 0 <= v < nodes.len() && nodes[v] == p;
            assert(order.contains(v));
            let i = choose|i: int| 0 <= i < order.len() && order[i] == v;
            assert(named[i] == p);
        }
    }
    assert forall|k: int| 0 <= k < deps.len() implies comes_before(
        named,
        (#[trigger] deps[k]).1,
        deps[k].0,
    ) by {
        let a = edges[k].0;
        let b = edges[k].1;
        assert(order.contains(a));
        assert(order.contains(b));
        let i = choose|i: int| 0 <= i < order.len() && order[i] == a;
        let j = choose|j: int| 0 <= j < order.len() && order[j] == b;
        assert(edges.contains((order[i], order[j])));
        assert(named[i] == deps[k].1 && named[j] == deps[k].0);
    }
}

proof fn lemma_named_cycle(
    nodes: Seq<Seq<char>>,
    edges: Seq<(int, int)>,
    walk: Seq<int>,
    named: Seq<Seq<char>>,
)
    requires
        is_cycle(edges, walk),
        is_simple(walk),
        nodes.no_duplicates(),
        forall|i: int| 0 <= i < walk.len() ==> 0 <= #[trigger] walk[i] < nodes.len(),
        named.len() == walk.len(),
        forall|i: int| 0 <= i < walk.len() ==> #[trigger] named[i] == nodes[walk[i]],
    ensures
        dependency_cycle(named, edge_dependencies(nodes, edges)),
        simple_chain(named),
{
    let deps = edge_dependencies(nodes, edges);
    assert forall|x: int, y: int|
        0 <= x < named.drop_last().len() && 0 <= y < named.drop_last().len() && x != y implies named.drop_last()[x]
        != named.drop_last()[y] by {
        assert(walk.drop_last()[x] == walk[x] && walk.drop_last()[y] == walk[y]);
        assert(walk[x] != walk[y]);
        assert(named[x] == nodes[walk[x]] && named[y] == nodes[walk[y]]);
    }
    assert forall|i: int| 0 <= i < named.len() - 1 implies #[trigger] depends_step(
        deps,
        named,
        i,
    ) by {
        assert(follows_edge(edges, walk, i));
        let k = choose|k: int| 0 <= k < edges.len() && edges[k] == (walk[i], walk[i + 1]);
        assert(deps[k] == (named[i + 1], named[i]));
    }
}

/// The nodes of a cycle are nodes of the graph.
proof fn lemma_cycle_in_range(edges: Seq<(int, int)>, n: nat, walk: Seq<int>)
    requires
        edges_in_range(edges, n),
        is_cycle(edges, walk),
    ensures
        forall|i: int| 0 <= i < walk.len() ==> 0 <= #[trigger] walk[i] < n,
{
    assert forall|i: int| 0 <= i < walk.len() implies 0 <= #[trigger] walk[i] < n by {
        if i < walk.len() - 1 {
            assert(follows_edge(edges, walk, i));
            let k = choose|k: int| 0 <= k < edges.len() && edges[k] == (walk[i], walk[i + 1]);
            assert(0 <= edges[k].0 < n);
        } else {
            assert(follows_edge(edges, walk, i - 1));
            let k = choose|k: int| 0 <= k < edges.len() && edges[k] == (walk[i - 1], walk[i - 1 + 1]);
            assert(0 <= edges[k].1 < n);
        }
    }
}

impl DependencyGraph {
    /// The names of the nodes with the given indices.
    fn node_names(&self, nodes: &Vec<usize>) -> (r: Vec<String>)
        requires
            forall|i: int| 0 <= i < nodes@.len() ==> (#[trigger] nodes@[i]) < self.nodes().len(),
        ensures
            r@.len() == nodes@.len(),
            forall|i: int| 0 <= i < nodes@.len() ==> (#[trigger] r@[i])@ == self.nodes()[nodes@[i] as int],
    {
        let mut r: Vec<String> = Vec::new();
        let mut i: usize = 0;
        while i < nodes.len()
            invariant
                i <= nodes.len(),
                r@.len() == i,
                forall|k: int| 0 <= k < nodes@.len() ==> (#[trigger] nodes@[k]) < self.nodes().len(),
                forall|k: int| 0 <= k < i ==> (#[trigger] r@[k])@ == self.nodes()[nodes@[k] as int],
            decreases nodes.len() - i,
        {
            r.push(graph_node_name(&self.graph, nodes[i]).clone());
            i += 1;
        }
        r
    }

    /// The order in which the paths resolve: every path after all paths
    /// that it depends on. Where the dependencies hold a cycle there is no
    /// such order, and the error names a cycle.
    pub fn topological_sort(&self) -> (r: Result<Vec<ValuePath>, CycleError>)
        ensures
            match r {
                Ok(order) => resolution_order(paths(order@), self.nodes(), self.dependencies()),
                Err(error) => dependency_cycle(names(error.chain@), self.dependencies())
                    && simple_chain(names(error.chain@)),
            },
            r is Ok <==> !has_cycle(self.dependencies()),
    {
        proof {
            use_type_invariant(self);
        }
        let ghost nodes = graph_nodes(self.graph);
        let ghost edges = graph_edges(self.graph);
        match graph_toposort(&self.graph) {
            Ok(sorted) => {
                let ghost order = indices(sorted@);
                assert forall|i: int| 0 <= i < sorted@.len() implies (#[trigger] sorted@[i])
                    < self.nodes().len() by {
                    assert(order[i] == sorted@[i]);
                }
                let mut result: Vec<ValuePath> = Vec::new();
                let mut i: usize = 0;
                while i < sorted.len()
                    invariant
                        i <= sorted.len(),
                        result@.len() == i,
                        nodes == graph_nodes(self.graph),
                        forall|k: int| 0 <= k < sorted@.len() ==> (#[trigger] sorted@[k]) < nodes.len(),
                        forall|k: int|
                            0 <= k < i ==> (#[trigger] result@[k])@ == nodes[sorted@[k] as int],
                    decreases sorted.len() - i,
                {
                    result.push(ValuePath(graph_node_name(&self.graph, sorted[i]).clone()));
                    i += 1;
                }
                proof {
                    let named = paths(result@);
                    assert forall|k: int| 0 <= k < order.len() implies #[trigger] named[k]
                        == nodes[order[k]] by {
                        assert(result@[k]@ == nodes[sorted@[k] as int]);
                        assert(order[k] == sorted@[k]);
                    }
                    lemma_named_order(nodes, edges, order, named);
                    lemma_order_excludes_cycle(named, nodes, self.dependencies());
                }
                Ok(result)
            },
            Err(node) => {
                let chain = match find_cycle_path(&self.graph, node) {
                    Some(chain) => chain,
                    None => {
                        let mut single: Vec<usize> = Vec::new();
                        single.push(node);
                        single
                    },
                };
                proof {
                    lemma_cycle_in_range(edges, nodes.len(), indices(chain@));
                    assert forall|i: int| 0 <= i < chain@.len() implies (#[trigger] chain@[i])
                        < self.nodes().len() by {
                        assert(indices(chain@)[i] == chain@[i]);
                    }
                }
                let found = self.node_names(&chain);
                proof {
                    let named = names(found@);
                    assert forall|k: int| 0 <= k < chain@.len() implies #[trigger] named[k]
                        == nodes[indices(chain@)[k]] by {
                        assert(found@[k]@ == nodes[chain@[k] as int]);
                    }
                    lemma_named_cycle(nodes, edges, indices(chain@), named);
                }
                Err(CycleError { chain: found })
            },
        }
    }
}

} // verus!
