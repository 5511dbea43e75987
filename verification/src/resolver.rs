//! Resolution of the references between values: the templates of a
//! document are found, ordered by what they refer to, rendered in that
//! order and written back.

use crate::digraph::GRAPH_LIMIT;
use crate::extractor::MiniJinjaReferenceExtractor;
use crate::graph::{
    cycle_text, dependency_cycle, depends_step, has_cycle, names, paths, resolution_order,
    simple_chain, with_node, CycleError, DependencyGraph, ValuePath,
};
use crate::path::{
    diverges, get_at, law_set_keeps_others, lemma_set_well_formed, plain_segments, set_at,
    set_value_at_path, PathError,
};
use crate::renderer::MiniJinjaRenderer;
use crate::text::{contains_char, decimal, decimal_text, join_text, split};
use crate::merge::{combine, fields_of, fresh, merged, merged_all};
use crate::traits::{ReferenceExtractor, RenderError, TemplateRenderer};
use crate::value::{has_key, key_index, lookup, upsert, well_formed, Mapping, Tree, Value};
use vstd::prelude::*;

verus! {

/// The path of the field `key` of the mapping at `prefix`.
pub open spec fn key_path(prefix: Seq<char>, key: Seq<char>) -> Seq<char> {
    if prefix.len() == 0 {
        key
    } else {
        prefix + seq!['.'] + key
    }
}

/// The path of item `i` of the sequence at `prefix`.
pub open spec fn index_path(prefix: Seq<char>, i: nat) -> Seq<char> {
    prefix + seq!['['] + decimal(i) + seq![']']
}

/// The templates of the document `t` at `prefix`, recorded into `base` in
/// the order of the document: each string in which the extractor detects
/// template syntax, under its path. A path that comes again replaces what
/// was recorded for it.
pub open spec fn collected<E: ReferenceExtractor>(
    extractor: E,
    t: Tree,
    prefix: Seq<char>,
    base: Seq<(Seq<char>, Tree)>,
) -> Seq<(Seq<char>, Tree)>
    decreases t, 0nat,
{
    match t {
        Tree::Text(s) => if extractor.detects(s) {
            upsert(base, prefix, Tree::Text(s))
        } else {
            base
        },
        Tree::Dict(fields) => collected_fields(extractor, fields, prefix, base, fields.len()),
        Tree::List(items) => collected_items(extractor, items, prefix, base, items.len()),
        _ => base,
    }
}

/// The templates of the first `n` fields of a mapping at `prefix`.
pub open spec fn collected_fields<E: ReferenceExtractor>(
    extractor: E,
    fields: Seq<(Seq<char>, Tree)>,
    prefix: Seq<char>,
    base: Seq<(Seq<char>, Tree)>,
    n: nat,
) -> Seq<(Seq<char>, Tree)>
    decreases fields, n,
{
    if n == 0 || n > fields.len() {
        base
    } else {
        collected(
            extractor,
            fields[n - 1].1,
            key_path(prefix, fields[n - 1].0),
            collected_fields(extractor, fields, prefix, base, (n - 1) as nat),
        )
    }
}

/// The templates of the first `n` items of a sequence at `prefix`.
pub open spec fn collected_items<E: ReferenceExtractor>(
    extractor: E,
    items: Seq<Tree>,
    prefix: Seq<char>,
    base: Seq<(Seq<char>, Tree)>,
    n: nat,
) -> Seq<(Seq<char>, Tree)>
    decreases items, n,
{
    if n == 0 || n > items.len() {
        base
    } else {
        collected(
            extractor,
            items[n - 1],
            index_path(prefix, (n - 1) as nat),
            collected_items(extractor, items, prefix, base, (n - 1) as nat),
        )
    }
}

/// The document holds a string.
pub open spec fn has_text(t: Tree) -> bool
    decreases t,
{
    match t {
        Tree::Text(s) => true,
        Tree::List(items) => exists|i: int| 0 <= i < items.len() && has_text(#[trigger] items[i]),
        Tree::Dict(fields) => exists|i: int|
            0 <= i < fields.len() && has_text((#[trigger] fields[i]).1),
        _ => false,
    }
}

/// The document holds a string in which the extractor detects template
/// syntax.
pub open spec fn holds_template<E: ReferenceExtractor>(extractor: E, t: Tree) -> bool
    decreases t,
{
    match t {
        Tree::Text(s) => extractor.detects(s),
        Tree::List(items) => exists|i: int|
            0 <= i < items.len() && holds_template(extractor, #[trigger] items[i]),
        Tree::Dict(fields) => exists|i: int|
            0 <= i < fields.len() && holds_template(extractor, (#[trigger] fields[i]).1),
        _ => false,
    }
}

/// Nothing is recorded for a document without templates.
pub proof fn lemma_nothing_collected<E: ReferenceExtractor>(
    extractor: E,
    t: Tree,
    prefix: Seq<char>,
    base: Seq<(Seq<char>, Tree)>,
)
    requires
        !holds_template(extractor, t),
    ensures
        collected(extractor, t, prefix, base) == base,
    decreases t, 0nat,
{
    match t {
        Tree::Dict(fields) => {
            assert forall|i: int| 0 <= i < fields.len() implies !holds_template(
                extractor,
                (#[trigger] fields[i]).1,
            ) by {
                if holds_template(extractor, fields[i].1) {
                    assert(holds_template(extractor, t));
                }
            }
            lemma_nothing_in_fields(extractor, fields, prefix, base, fields.len());
        },
        Tree::List(items) => {
            assert forall|i: int| 0 <= i < items.len() implies !holds_template(
                extractor,
                #[trigger] items[i],
            ) by {
                if holds_template(extractor, items[i]) {
                    assert(holds_template(extractor, t));
                }
            }
            lemma_nothing_in_items(extractor, items, prefix, base, items.len());
        },
        _ => {},
    }
}

proof fn lemma_nothing_in_fields<E: ReferenceExtractor>(
    extractor: E,
    fields: Seq<(Seq<char>, Tree)>,
    prefix: Seq<char>,
    base: Seq<(Seq<char>, Tree)>,
    n: nat,
)
    requires
        forall|i: int| 0 <= i < fields.len() ==> !holds_template(extractor, (#[trigger] fields[i]).1),
        n <= fields.len(),
    ensures
        collected_fields(extractor, fields, prefix, base, n) == base,
    decreases fields, n,
{
    if n > 0 {
        lemma_nothing_in_fields(extractor, fields, prefix, base, (n - 1) as nat);
        assert(!holds_template(extractor, fields[n - 1].1));
        lemma_nothing_collected(extractor, fields[n - 1].1, key_path(prefix, fields[n - 1].0), base);
    }
}

proof fn lemma_nothing_in_items<E: ReferenceExtractor>(
    extractor: E,
    items: Seq<Tree>,
    prefix: Seq<char>,
    base: Seq<(Seq<char>, Tree)>,
    n: nat,
)
    requires
        forall|i: int| 0 <= i < items.len() ==> !holds_template(extractor, #[trigger] items[i]),
        n <= items.len(),
    ensures
        collected_items(extractor, items, prefix, base, n) == base,
    decreases items, n,
{
    if n > 0 {
        lemma_nothing_in_items(extractor, items, prefix, base, (n - 1) as nat);
        assert(!holds_template(extractor, items[n - 1]));
        lemma_nothing_collected(extractor, items[n - 1], index_path(prefix, (n - 1) as nat), base);
    }
}

/// The path of the field `key` below `prefix`.
fn field_path(prefix: &str, key: &str) -> (r: String)
    ensures
        r@ == key_path(prefix@, key@),
{
    if prefix.is_empty() {
        String::from_str(key)
    } else {
        let mut r = String::from_str(prefix);
        r.push('.');
        r.append(key);
        r
    }
}

/// The path of item `i` below `prefix`.
fn item_path(prefix: &str, i: usize) -> (r: String)
    ensures
        r@ == index_path(prefix@, i as nat),
{
    let mut r = String::from_str(prefix);
    r.push('[');
    r.append(decimal_text(i).as_str());
    r.push(']');
    r
}

/// Records the string `text` found at `path` where it is a template, and
/// leaves the record as it is where it is none.
pub fn record_template(templates: &mut Mapping, path: &str, text: &str, is_template: bool)
    ensures
        final(templates)@ == if is_template {
            upsert(old(templates)@, path@, Tree::Text(text@))
        } else {
            old(templates)@
        },
{
    if is_template {
        templates.insert(String::from_str(path), Value::String(String::from_str(text)));
    }
}

/// Records the templates of `value`, which stands at `current_path`, in
/// `templates`: every string in which the extractor detects template syntax
/// is stored under its path.
pub fn collect_template_values<E: ReferenceExtractor>(
    value: &Value,
    current_path: &str,
    templates: &mut Mapping,
    extractor: &E,
)
    ensures
        extractor.specified() ==> final(templates)@ == collected(
            *extractor,
            value@,
            current_path@,
            old(templates)@,
        ),
        !has_text(value@) ==> final(templates)@ == old(templates)@,
    decreases value@,
{
    match value {
        Value::String(s) => {
            let is_template = extractor.contains_template(s.as_str());
            record_template(templates, current_path, s.as_str(), is_template);
        },
        Value::Mapping(map) => {
            let ghost fields = map@;
            let n = map.len();
            let mut i: usize = 0;
            while i < n
                invariant
                    i <= n,
                    n == fields.len(),
                    fields == map@,
                    value@ == Tree::Dict(fields),
                    extractor.specified() ==> templates@ == collected_fields(
                        *extractor,
                        fields,
                        current_path@,
                        old(templates)@,
                        i as nat,
                    ),
                    !has_text(value@) ==> templates@ == old(templates)@,
                decreases n - i,
            {
                proof {
                    if has_text(fields[i as int].1) {
                        let at = i as int;
                        assert(0 <= at < fields.len() && has_text(fields[at].1));
                        assert(has_text(Tree::Dict(fields)));
                    }
                }
                let new_path = field_path(current_path, map.key_at(i).as_str());
                assert(decreases_to!(value@ => value@->Dict_0));
                assert(decreases_to!(fields => fields[i as int]));
                collect_template_values(map.value_at(i), new_path.as_str(), templates, extractor);
                i += 1;
            }
        },
        Value::Sequence(seq) => {
            let ghost items = value@->List_0;
            let mut i: usize = 0;
            while i < seq.len()
                invariant
                    i <= seq.len(),
                    value@ == Tree::List(items),
                    items.len() == seq@.len(),
                    forall|k: int| 0 <= k < seq@.len() ==> items[k] == (#[trigger] seq@[k])@,
                    extractor.specified() ==> templates@ == collected_items(
                        *extractor,
                        items,
                        current_path@,
                        old(templates)@,
                        i as nat,
                    ),
                    !has_text(value@) ==> templates@ == old(templates)@,
                decreases seq.len() - i,
            {
                proof {
                    if has_text(items[i as int]) {
                        let at = i as int;
                        assert(0 <= at < items.len() && has_text(items[at]));
                        assert(has_text(Tree::List(items)));
                    }
                }
                let new_path = item_path(current_path, i);
                assert(decreases_to!(value@ => value@->List_0));
                assert(decreases_to!(items => items[i as int]));
                collect_template_values(&seq[i], new_path.as_str(), templates, extractor);
                i += 1;
            }
        },
        _ => {},
    }
}

/// The views of a list of paths with the references of each.
pub open spec fn reference_views(v: Seq<(String, Vec<String>)>) -> Seq<
    (Seq<char>, Seq<Seq<char>>),
> {
    v.map_values(|e: (String, Vec<String>)| (e.0@, names(e.1@)))
}

/// What the extractor finds in a recorded template.
pub open spec fn references_in<E: ReferenceExtractor>(extractor: E, template: Tree) -> Seq<
    Seq<char>,
> {
    match template {
        Tree::Text(s) => extractor.references(s),
        _ => Seq::empty(),
    }
}

/// Each recorded path with the references of its template.
pub open spec fn planned_references<E: ReferenceExtractor>(
    extractor: E,
    templates: Seq<(Seq<char>, Tree)>,
) -> Seq<(Seq<char>, Seq<Seq<char>>)> {
    Seq::new(templates.len(), |i: int| (templates[i].0, references_in(extractor, templates[i].1)))
}

/// Asks the extractor for the references of every recorded template.
pub fn extract_template_references<E: ReferenceExtractor>(templates: &Mapping, extractor: &E) -> (r:
    Vec<(String, Vec<String>)>)
    ensures
        r@.len() == templates@.len(),
        forall|i: int| 0 <= i < r@.len() ==> (#[trigger] r@[i]).0@ == templates@[i].0,
        extractor.specified() ==> reference_views(r@) == planned_references(
            *extractor,
            templates@,
        ),
{
    let mut r: Vec<(String, Vec<String>)> = Vec::new();
    let n = templates.len();
    let mut i: usize = 0;
    while i < n
        invariant
            i <= n,
            n == templates@.len(),
            r@.len() == i,
            forall|k: int| 0 <= k < i ==> (#[trigger] r@[k]).0@ == templates@[k].0,
            extractor.specified() ==> forall|k: int|
                0 <= k < i ==> names((#[trigger] r@[k]).1@) == references_in(
                    *extractor,
                    templates@[k].1,
                ),
        decreases n - i,
    {
        let found = match templates.value_at(i).as_str() {
            Some(template) => extractor.extract_references(template),
            None => {
                let none: Vec<String> = Vec::new();
                assert(names(none@) =~= Seq::<Seq<char>>::empty());
                none
            },
        };
        r.push((templates.key_at(i).clone(), found));
        i += 1;
    }
    proof {
        if extractor.specified() {
            assert(reference_views(r@) =~= planned_references(*extractor, templates@));
        }
    }
    r
}

/// The nodes after a path and its references have been registered.
pub open spec fn nodes_with(nodes: Seq<Seq<char>>, path: Seq<char>, refs: Seq<Seq<char>>) -> Seq<
    Seq<char>,
>
    decreases refs.len(),
{
    if refs.len() == 0 {
        with_node(nodes, path)
    } else {
        with_node(nodes_with(nodes, path, refs.drop_last()), refs.last())
    }
}

/// The nodes of the graph for the given paths and references: the paths
/// and what they refer to, each once, in the order of their first
/// occurrence.
pub open spec fn planned_nodes(plan: Seq<(Seq<char>, Seq<Seq<char>>)>) -> Seq<Seq<char>>
    decreases plan.len(),
{
    if plan.len() == 0 {
        Seq::empty()
    } else {
        nodes_with(planned_nodes(plan.drop_last()), plan.last().0, plan.last().1)
    }
}

/// The dependencies of the graph for the given paths and references: each
/// path depends on each of its references.
pub open spec fn planned_dependencies(plan: Seq<(Seq<char>, Seq<Seq<char>>)>) -> Seq<
    (Seq<char>, Seq<char>),
>
    decreases plan.len(),
{
    if plan.len() == 0 {
        Seq::empty()
    } else {
        planned_dependencies(plan.drop_last()) + plan.last().1.map_values(
            |r: Seq<char>| (plan.last().0, r),
        )
    }
}

/// The number of paths and references together, which bounds the size of
/// their graph.
pub open spec fn reference_load(plan: Seq<(Seq<char>, Seq<Seq<char>>)>) -> nat
    decreases plan.len(),
{
    if plan.len() == 0 {
        0
    } else {
        reference_load(plan.drop_last()) + 1 + plan.last().1.len()
    }
}

proof fn lemma_nodes_with(nodes: Seq<Seq<char>>, path: Seq<char>, refs: Seq<Seq<char>>)
    ensures
        nodes_with(nodes, path, refs).contains(path),
        nodes_with(nodes, path, refs).len() <= nodes.len() + 1 + refs.len(),
    decreases refs.len(),
{
    if refs.len() == 0 {
        let r = with_node(nodes, path);
        if !nodes.contains(path) {
            assert(r[nodes.len() as int] == path);
        }
    } else {
        lemma_nodes_with(nodes, path, refs.drop_last());
        let inner = nodes_with(nodes, path, refs.drop_last());
        let r = with_node(inner, refs.last());
        let at = choose|at: int| 0 <= at < inner.len() && inner[at] == path;
        assert(r[at] == path);
    }
}

proof fn lemma_plan_sizes(plan: Seq<(Seq<char>, Seq<Seq<char>>)>)
    ensures
        planned_nodes(plan).len() <= reference_load(plan),
        planned_dependencies(plan).len() + plan.len() == reference_load(plan),
    decreases plan.len(),
{
    if plan.len() > 0 {
        lemma_plan_sizes(plan.drop_last());
        lemma_nodes_with(planned_nodes(plan.drop_last()), plan.last().0, plan.last().1);
    }
}

proof fn lemma_load_grows(plan: Seq<(Seq<char>, Seq<Seq<char>>)>, i: int)
    requires
        0 <= i <= plan.len(),
    ensures
        reference_load(plan.take(i)) <= reference_load(plan),
    decreases plan.len() - i,
{
    if i < plan.len() {
        lemma_load_grows(plan, i + 1);
        assert(plan.take(i + 1).drop_last() =~= plan.take(i));
    } else {
        assert(plan.take(i) =~= plan);
    }
}

/// The number of paths and references, or `None` where it is not below
/// the limit of a graph.
fn count_load(references: &Vec<(String, Vec<String>)>) -> (r: Option<usize>)
    ensures
        match r {
            Some(load) => load == reference_load(reference_views(references@)) && load < GRAPH_LIMIT,
            None => reference_load(reference_views(references@)) >= GRAPH_LIMIT,
        },
{
    let ghost plan = reference_views(references@);
    let mut load: usize = 0;
    let mut i: usize = 0;
    assert(plan.take(0) =~= Seq::<(Seq<char>, Seq<Seq<char>>)>::empty());
    while i < references.len()
        invariant
            i <= references.len(),
            plan == reference_views(references@),
            load == reference_load(plan.take(i as int)),
            load < GRAPH_LIMIT,
        decreases references.len() - i,
    {
        let many = references[i].1.len();
        proof {
            assert(plan.take(i + 1).drop_last() =~= plan.take(i as int));
            assert(plan.take(i + 1).last() == plan[i as int]);
            assert(plan[i as int].1.len() == many);
            lemma_load_grows(plan, i + 1);
        }
        if many >= GRAPH_LIMIT || load + 1 >= GRAPH_LIMIT - many {
            return None;
        }
        load = load + 1 + many;
        i += 1;
    }
    assert(plan.take(references.len() as int) =~= plan);
    Some(load)
}

/// The graph in which every path depends on each of its references; `None`
/// where the paths and references are too many for a graph.
pub fn dependency_graph_of(references: &Vec<(String, Vec<String>)>) -> (r: Option<DependencyGraph>)
    ensures
        match r {
            Some(graph) => {
                &&& graph.nodes() == planned_nodes(reference_views(references@))
                &&& graph.dependencies() == planned_dependencies(reference_views(references@))
            },
            None => true,
        },
        r is Some <==> reference_load(reference_views(references@)) < GRAPH_LIMIT,
{
    let ghost plan = reference_views(references@);
    if count_load(references).is_none() {
        return None;
    }
    let mut graph = DependencyGraph::new();
    let mut i: usize = 0;
    assert(plan.take(0) =~= Seq::<(Seq<char>, Seq<Seq<char>>)>::empty());
    while i < references.len()
        invariant
            i <= references.len(),
            plan == reference_views(references@),
            reference_load(plan) < GRAPH_LIMIT,
            graph.nodes() == planned_nodes(plan.take(i as int)),
            graph.dependencies() == planned_dependencies(plan.take(i as int)),
        decreases references.len() - i,
    {
        let ghost before = plan.take(i as int);
        let ghost current = plan.take(i + 1);
        proof {
            assert(current.drop_last() =~= before);
            assert(current.last() == plan[i as int]);
            lemma_plan_sizes(before);
            lemma_plan_sizes(current);
            lemma_load_grows(plan, i + 1);
        }
        let from = ValuePath::new(references[i].0.as_str());
        graph.add_node(&from);
        let refs = &references[i].1;
        let ghost targets = names(refs@);
        assert(targets == plan[i as int].1);
        let mut k: usize = 0;
        assert(targets.take(0) =~= Seq::<Seq<char>>::empty());
        while k < refs.len()
            invariant
                k <= refs.len(),
                from@ == plan[i as int].0,
                targets == names(refs@),
                reference_load(before) + 1 + targets.len() < GRAPH_LIMIT,
                planned_nodes(before).len() <= reference_load(before),
                planned_dependencies(before).len() <= reference_load(before),
                graph.nodes() == nodes_with(planned_nodes(before), from@, targets.take(k as int)),
                graph.dependencies() == planned_dependencies(before) + targets.take(
                    k as int,
                ).map_values(|r: Seq<char>| (from@, r)),
            decreases refs.len() - k,
        {
            proof {
                assert(targets.take(k + 1).drop_last() =~= targets.take(k as int));
                assert(targets.take(k + 1).last() == refs@[k as int]@);
                lemma_nodes_with(planned_nodes(before), from@, targets.take(k as int));
            }
            let to = ValuePath::new(refs[k].as_str());
            graph.add_dependency(&from, &to);
            proof {
                let pairs = targets.take(k as int).map_values(|r: Seq<char>| (from@, r));
                let more = targets.take(k + 1).map_values(|r: Seq<char>| (from@, r));
                assert(more =~= pairs.push((from@, to@)));
                assert(planned_dependencies(before) + more =~= (planned_dependencies(before)
                    + pairs).push((from@, to@)));
            }
            k += 1;
        }
        assert(targets.take(refs.len() as int) =~= targets);
        i += 1;
    }
    assert(plan.take(references.len() as int) =~= plan);
    Some(graph)
}

/// The graph of the dependencies between the recorded templates: each
/// recorded path is a node and depends on every path that its template
/// refers to. `None` where they are too many for a graph.
pub fn build_dependency_graph<E: ReferenceExtractor>(templates: &Mapping, extractor: &E) -> (r:
    Option<DependencyGraph>)
    ensures
        extractor.specified() ==> {
            let plan = planned_references(*extractor, templates@);
            &&& r is Some <==> reference_load(plan) < GRAPH_LIMIT
            &&& r matches Some(graph) ==> graph.nodes() == planned_nodes(plan)
                && graph.dependencies() == planned_dependencies(plan)
        },
{
    let references = extract_template_references(templates, extractor);
    dependency_graph_of(&references)
}

/// Why the references of a document could not be resolved.
#[derive(Debug, PartialEq, Eq)]
pub enum ResolveError {
    /// Some values refer to each other in a circle; `chain` names one, each
    /// path depending on the one before it.
    CircularDependency { chain: Vec<String> },
    /// The templates and their references are too many for a graph.
    TooManyReferences,
    /// The rendered text could not be written back at `path`.
    Path { path: String, error: PathError },
    /// The renderer failed on `template`; `cause` is what it reported, which
    /// is also the text of this error.
    Render { template: String, cause: String },
}

/// The mathematical view of a `ResolveError`.
pub enum ResolveFailure {
    CircularDependency { chain: Seq<Seq<char>> },
    TooManyReferences,
    Path { path: Seq<char>, error: PathError },
    Render { template: Seq<char>, cause: Seq<char> },
}

impl View for ResolveError {
    type V = ResolveFailure;

    open spec fn view(&self) -> ResolveFailure {
        match self {
            ResolveError::CircularDependency { chain } => ResolveFailure::CircularDependency {
                chain: names(chain@),
            },
            ResolveError::TooManyReferences => ResolveFailure::TooManyReferences,
            ResolveError::Path { path, error } => ResolveFailure::Path {
                path: path@,
                error: *error,
            },
            ResolveError::Render { template, cause } => ResolveFailure::Render {
                template: template@,
                cause: cause@,
            },
        }
    }
}

/// The text of an error.
pub open spec fn failure_text(failure: ResolveFailure) -> Seq<char> {
    match failure {
        ResolveFailure::CircularDependency { chain } => cycle_text(chain),
        ResolveFailure::TooManyReferences => "Too many value references to resolve"@,
        ResolveFailure::Path { path, error } => match error {
            PathError::PathNotFound => "Path not found: "@ + path,
            PathError::NotAMapping { on_the_way } => if on_the_way {
                "Cannot navigate path '"@ + path + "': not a mapping"@
            } else if path.contains('.') {
                "Cannot set value at path '"@ + path + "': parent is not a mapping"@
            } else {
                "Cannot set value at path '"@ + path + "': not a mapping"@
            },
        },
        ResolveFailure::Render { template, cause } => cause,
    }
}

impl ResolveError {
    /// The text of this error, for a reader.
    pub fn message(&self) -> (text: String)
        ensures
            text@ == failure_text(self@),
    {
        match self {
            ResolveError::CircularDependency { chain } => {
                let mut text = String::from_str(
                    "Circular dependency detected in values. Cycle involves: ",
                );
                text.append(join_text(chain, " -> ").as_str());
                text
            },
            ResolveError::TooManyReferences => String::from_str(
                "Too many value references to resolve",
            ),
            ResolveError::Path { path, error } => match error {
                PathError::PathNotFound => {
                    let mut text = String::from_str("Path not found: ");
                    text.append(path.as_str());
                    text
                },
                PathError::NotAMapping { on_the_way } => {
                    if *on_the_way {
                        let mut text = String::from_str("Cannot navigate path '");
                        text.append(path.as_str());
                        text.append("': not a mapping");
                        text
                    } else {
                        let mut text = String::from_str("Cannot set value at path '");
                        text.append(path.as_str());
                        if contains_char(path.as_str(), '.') {
                            text.append("': parent is not a mapping");
                        } else {
                            text.append("': not a mapping");
                        }
                        text
                    }
                },
            },
            ResolveError::Render { template, cause } => cause.clone(),
        }
    }
}

/// The view of what a resolution returns.
pub open spec fn outcome(r: Result<Value, ResolveError>) -> Result<Tree, ResolveFailure> {
    match r {
        Ok(value) => Ok(value@),
        Err(error) => Err(error@),
    }
}

/// The document after the template recorded for `path`, if there is one,
/// has been rendered against the document and written back at `path`.
pub open spec fn render_step<R: TemplateRenderer>(
    renderer: R,
    tree: Tree,
    templates: Seq<(Seq<char>, Tree)>,
    path: Seq<char>,
) -> Result<Tree, ResolveFailure> {
    match lookup(templates, path) {
        Some(Tree::Text(template)) => match renderer.rendering(template, tree) {
            Ok(text) => match set_at(tree, split(path, '.'), Tree::Text(text)) {
                Ok(changed) => Ok(changed),
                Err(error) => Err(ResolveFailure::Path { path, error }),
            },
            Err(cause) => Err(ResolveFailure::Render { template, cause }),
        },
        _ => Ok(tree),
    }
}

/// The document after the first `n` paths of `order` have been resolved one
/// after the other, each against the document that the ones before it left.
pub open spec fn resolved_in_order<R: TemplateRenderer>(
    renderer: R,
    tree: Tree,
    templates: Seq<(Seq<char>, Tree)>,
    order: Seq<Seq<char>>,
    n: nat,
) -> Result<Tree, ResolveFailure>
    decreases n,
{
    if n == 0 || n > order.len() {
        Ok(tree)
    } else {
        match resolved_in_order(renderer, tree, templates, order, (n - 1) as nat) {
            Ok(before) => render_step(renderer, before, templates, order[n - 1]),
            Err(failure) => Err(failure),
        }
    }
}

/// Writes the text that `template` rendered to at `path`, or reports why
/// there is none. On an error the document is left as it was.
pub fn apply_rendered(
    values: &mut Value,
    path: &str,
    template: &str,
    rendered: Result<String, RenderError>,
) -> (r: Result<(), ResolveError>)
    ensures
        match rendered {
            Ok(text) => match set_at(old(values)@, split(path@, '.'), Tree::Text(text@)) {
                Ok(changed) => r is Ok && final(values)@ == changed,
                Err(error) => r matches Err(e) && e@ == (ResolveFailure::Path {
                    path: path@,
                    error,
                }) && final(values)@ == old(values)@,
            },
            Err(failed) => r matches Err(e) && e@ == (ResolveFailure::Render {
                template: template@,
                cause: failed@,
            }) && final(values)@ == old(values)@,
        },
{
    match rendered {
        Ok(text) => match set_value_at_path(values, path, Value::String(text)) {
            Ok(()) => Ok(()),
            Err(error) => Err(ResolveError::Path { path: String::from_str(path), error }),
        },
        Err(failed) => Err(
            ResolveError::Render { template: String::from_str(template), cause: failed.message },
        ),
    }
}

/// Resolves the paths of `order` one after the other: the template that is
/// recorded for a path is rendered against the document as the paths before
/// it left it, and the text is written back at the path. A path without a
/// recorded template is passed over.
pub fn resolve_in_order<R: TemplateRenderer>(
    values: Value,
    templates: &Mapping,
    order: &Vec<ValuePath>,
    renderer: &R,
) -> (r: Result<Value, ResolveError>)
    ensures
        renderer.specified() ==> outcome(r) == resolved_in_order(
            *renderer,
            values@,
            templates@,
            paths(order@),
            order@.len(),
        ),
        !(r matches Err(ResolveError::CircularDependency { .. })),
        !(r matches Err(ResolveError::TooManyReferences)),
{
    let mut current = values;
    let mut i: usize = 0;
    while i < order.len()
        invariant
            i <= order.len(),
            renderer.specified() ==> resolved_in_order(
                *renderer,
                values@,
                templates@,
                paths(order@),
                i as nat,
            ) == Ok::<Tree, ResolveFailure>(current@),
        decreases order.len() - i,
    {
        let path = order[i].as_str();
        assert(paths(order@)[i as int] == path@);
        match templates.get(path) {
            Some(recorded) => match recorded.as_str() {
                Some(template) => {
                    let rendered = renderer.render(template, &current);
                    match apply_rendered(&mut current, path, template, rendered) {
                        Ok(()) => {},
                        Err(error) => {
                            proof {
                                if renderer.specified() {
                                    lemma_failure_stays(
                                        *renderer,
                                        values@,
                                        templates@,
                                        paths(order@),
                                        (i + 1) as nat,
                                        order@.len(),
                                    );
                                }
                            }
                            return Err(error);
                        },
                    }
                },
                None => {},
            },
            None => {},
        }
        i += 1;
    }
    Ok(current)
}

/// Once a path has failed, the resolution of further paths changes nothing.
proof fn lemma_failure_stays<R: TemplateRenderer>(
    renderer: R,
    tree: Tree,
    templates: Seq<(Seq<char>, Tree)>,
    order: Seq<Seq<char>>,
    n: nat,
    m: nat,
)
    requires
        n <= m <= order.len(),
        resolved_in_order(renderer, tree, templates, order, n) is Err,
    ensures
        resolved_in_order(renderer, tree, templates, order, m) == resolved_in_order(
            renderer,
            tree,
            templates,
            order,
            n,
        ),
    decreases m - n,
{
    if n < m {
        lemma_failure_stays(renderer, tree, templates, order, n, (m - 1) as nat);
    }
}

/// What the templates of the document `tree` decide of its resolution
/// before anything is rendered: a document without templates is returned as
/// it is; templates and references that are too many for a graph, or that
/// refer to each other in a circle, are an error, which names a circle; in
/// every other case the resolution does not end in one of these two errors.
pub open spec fn is_planned<E: ReferenceExtractor>(
    extractor: E,
    tree: Tree,
    result: Result<Tree, ResolveFailure>,
) -> bool {
    let templates = collected(extractor, tree, ""@, Seq::empty());
    let plan = planned_references(extractor, templates);
    if templates.len() == 0 {
        result == Ok::<Tree, ResolveFailure>(tree)
    } else if reference_load(plan) >= GRAPH_LIMIT {
        result == Err::<Tree, ResolveFailure>(ResolveFailure::TooManyReferences)
    } else if has_cycle(planned_dependencies(plan)) {
        result matches Err(ResolveFailure::CircularDependency { chain }) && dependency_cycle(
            chain,
            planned_dependencies(plan),
        ) && simple_chain(chain)
    } else {
        !(result matches Err(ResolveFailure::CircularDependency { .. })) && !(result matches Err(
            ResolveFailure::TooManyReferences,
        ))
    }
}

/// Whether the templates of the document are rendered: there are some,
/// they fit a graph, and they do not refer to each other in a circle.
pub open spec fn is_rendered<E: ReferenceExtractor>(extractor: E, tree: Tree) -> bool {
    let templates = collected(extractor, tree, ""@, Seq::empty());
    let plan = planned_references(extractor, templates);
    templates.len() > 0 && reference_load(plan) < GRAPH_LIMIT && !has_cycle(
        planned_dependencies(plan),
    )
}

/// What the resolution of the document `tree` may return: what its
/// templates decide before anything is rendered, and, where they are
/// rendered, what resolving the recorded paths gives in some order in which
/// each path comes after all that it depends on.
pub open spec fn is_resolution<E: ReferenceExtractor, R: TemplateRenderer>(
    extractor: E,
    renderer: R,
    tree: Tree,
    result: Result<Tree, ResolveFailure>,
) -> bool {
    let templates = collected(extractor, tree, ""@, Seq::empty());
    let plan = planned_references(extractor, templates);
    &&& is_planned(extractor, tree, result)
    &&& is_rendered(extractor, tree) ==> exists|order: Seq<Seq<char>>|
        resolution_order(order, planned_nodes(plan), planned_dependencies(plan)) && result
            == #[trigger] resolved_in_order(renderer, tree, templates, order, order.len())
}

/// References in a circle fail: where the templates of a document refer to
/// each other in a circle, resolution returns an error and no document, and
/// the error names a circle unless the references are too many for a graph.
pub proof fn law_cycle_fails<E: ReferenceExtractor, R: TemplateRenderer>(
    extractor: E,
    renderer: R,
    tree: Tree,
    result: Result<Tree, ResolveFailure>,
)
    requires
        is_resolution(extractor, renderer, tree, result),
        has_cycle(
            planned_dependencies(
                planned_references(extractor, collected(extractor, tree, ""@, Seq::empty())),
            ),
        ),
    ensures
        result is Err,
        reference_load(
            planned_references(extractor, collected(extractor, tree, ""@, Seq::empty())),
        ) < GRAPH_LIMIT ==> (result matches Err(ResolveFailure::CircularDependency { chain })
            && dependency_cycle(
            chain,
            planned_dependencies(
                planned_references(extractor, collected(extractor, tree, ""@, Seq::empty())),
            ),
        ) && simple_chain(chain)),
{
    let templates = collected(extractor, tree, ""@, Seq::empty());
    let plan = planned_references(extractor, templates);
    let dependencies = planned_dependencies(plan);
    if templates.len() == 0 {
        assert(dependencies.len() == 0);
        let chain = choose|chain: Seq<Seq<char>>| dependency_cycle(chain, dependencies);
        assert(depends_step(dependencies, chain, 0));
    }
}

/// A template is recorded for the path.
pub open spec fn is_recorded(templates: Seq<(Seq<char>, Tree)>, path: Seq<char>) -> bool {
    lookup(templates, path) is Some && lookup(templates, path)->0 is Text
}

/// Resolution changes nothing beside the written paths: after the first `n`
/// paths of `order` have been resolved, a path without brackets leads to
/// what it led to before, where it parts ways with the path of every
/// template that was rendered.
pub proof fn law_resolution_keeps_others<R: TemplateRenderer>(
    renderer: R,
    tree: Tree,
    templates: Seq<(Seq<char>, Tree)>,
    order: Seq<Seq<char>>,
    n: nat,
    q: Seq<Seq<char>>,
)
    requires
        well_formed(tree),
        plain_segments(q),
        n <= order.len(),
        forall|k: int|
            0 <= k < n && is_recorded(templates, #[trigger] order[k]) ==> diverges(
                split(order[k], '.'),
                q,
            ),
        resolved_in_order(renderer, tree, templates, order, n) is Ok,
    ensures
        well_formed(resolved_in_order(renderer, tree, templates, order, n)->Ok_0),
        get_at(resolved_in_order(renderer, tree, templates, order, n)->Ok_0, q) == get_at(tree, q),
    decreases n,
{
    if n > 0 {
        let m = (n - 1) as nat;
        law_resolution_keeps_others(renderer, tree, templates, order, m, q);
        let before = resolved_in_order(renderer, tree, templates, order, m)->Ok_0;
        let path = order[n - 1];
        match lookup(templates, path) {
            Some(Tree::Text(template)) => {
                let text = renderer.rendering(template, before)->Ok_0;
                lemma_set_well_formed(before, split(path, '.'), Tree::Text(text));
                law_set_keeps_others(before, split(path, '.'), Tree::Text(text), q);
            },
            _ => {},
        }
    }
}

/// Resolution rewrites templates only: where it returns a document, a path
/// without brackets leads to what it led to before, if it parts ways with
/// the path of every recorded template.
pub proof fn law_others_unchanged<E: ReferenceExtractor, R: TemplateRenderer>(
    extractor: E,
    renderer: R,
    tree: Tree,
    resolved: Tree,
    q: Seq<Seq<char>>,
)
    requires
        is_resolution(extractor, renderer, tree, Ok::<Tree, ResolveFailure>(resolved)),
        well_formed(tree),
        plain_segments(q),
        forall|k: int|
            0 <= k < collected(extractor, tree, ""@, Seq::empty()).len() ==> diverges(
                split((#[trigger] collected(extractor, tree, ""@, Seq::empty())[k]).0, '.'),
                q,
            ),
    ensures
        get_at(resolved, q) == get_at(tree, q),
{
    let templates = collected(extractor, tree, ""@, Seq::empty());
    let plan = planned_references(extractor, templates);
    if is_rendered(extractor, tree) {
        let order = choose|order: Seq<Seq<char>>|
            resolution_order(order, planned_nodes(plan), planned_dependencies(plan)) && Ok::<
                Tree,
                ResolveFailure,
            >(resolved) == #[trigger] resolved_in_order(
                renderer,
                tree,
                templates,
                order,
                order.len(),
            );
        assert forall|k: int|
            0 <= k < order.len() && is_recorded(templates, #[trigger] order[k]) implies diverges(
            split(order[k], '.'),
            q,
        ) by {
            let at = key_index(templates, order[k]);
            assert(templates[at].0 == order[k]);
        }
        law_resolution_keeps_others(renderer, tree, templates, order, order.len(), q);
    }
}

/// Each field of a mapping without templates is without templates, and
/// the other way round.
pub proof fn lemma_plain_fields<E: ReferenceExtractor>(
    extractor: E,
    fields: Seq<(Seq<char>, Tree)>,
)
    ensures
        !holds_template(extractor, Tree::Dict(fields)) <==> forall|i: int|
            0 <= i < fields.len() ==> !holds_template(extractor, (#[trigger] fields[i]).1),
{
    let t = Tree::Dict(fields);
    if !holds_template(extractor, t) {
        assert forall|i: int| 0 <= i < fields.len() implies !holds_template(
            extractor,
            (#[trigger] fields[i]).1,
        ) by {
            if holds_template(extractor, fields[i].1) {
                assert(holds_template(extractor, t));
            }
        }
    }
}

/// Each item of a sequence without templates is without templates, and
/// the other way round.
pub proof fn lemma_plain_items<E: ReferenceExtractor>(extractor: E, items: Seq<Tree>)
    ensures
        !holds_template(extractor, Tree::List(items)) <==> forall|i: int|
            0 <= i < items.len() ==> !holds_template(extractor, #[trigger] items[i]),
{
    let t = Tree::List(items);
    if !holds_template(extractor, t) {
        assert forall|i: int| 0 <= i < items.len() implies !holds_template(
            extractor,
            #[trigger] items[i],
        ) by {
            if holds_template(extractor, items[i]) {
                assert(exists|k: int|
                    0 <= k < items.len() && holds_template(extractor, #[trigger] items[k]));
                assert(t->List_0 == items);
                assert(holds_template(extractor, t));
            }
        }
    }
}

/// What `fresh` keeps are fields of `b`.
proof fn lemma_fresh_from(a: Seq<(Seq<char>, Tree)>, b: Seq<(Seq<char>, Tree)>, j: int)
    requires
        0 <= j < fresh(a, b).len(),
    ensures
        b.contains(fresh(a, b)[j]),
    decreases b.len(),
{
    if b.len() > 0 {
        let rest = b.drop_last();
        if has_key(a, b.last().0) || j < fresh(a, rest).len() {
            lemma_fresh_from(a, rest, j);
            let at = choose|at: int| 0 <= at < rest.len() && rest[at] == fresh(a, rest)[j];
            assert(b[at] == fresh(a, b)[j]);
        } else {
            assert(b[b.len() - 1] == fresh(a, b)[j]);
        }
    }
}

/// Combining two values without templates gives a value without templates.
pub proof fn lemma_combine_keeps_plain<E: ReferenceExtractor>(extractor: E, old: Tree, new: Tree)
    requires
        !holds_template(extractor, old),
        !holds_template(extractor, new),
    ensures
        !holds_template(extractor, combine(old, new)),
    decreases old, 1nat,
{
    match (old, new) {
        (Tree::Dict(a), Tree::Dict(b)) => {
            law_merge_keeps_plain(extractor, a, b);
        },
        (Tree::List(a), Tree::List(b)) => {
            lemma_plain_items(extractor, a);
            lemma_plain_items(extractor, b);
            lemma_plain_items(extractor, a + b);
            assert forall|i: int| 0 <= i < (a + b).len() implies !holds_template(
                extractor,
                #[trigger] (a + b)[i],
            ) by {
                if i < a.len() {
                    assert((a + b)[i] == a[i]);
                } else {
                    assert((a + b)[i] == b[i - a.len()]);
                }
            }
        },
        _ => {},
    }
}

/// Merge makes no templates: the merge of two mappings without templates is
/// a mapping without templates.
pub proof fn law_merge_keeps_plain<E: ReferenceExtractor>(
    extractor: E,
    a: Seq<(Seq<char>, Tree)>,
    b: Seq<(Seq<char>, Tree)>,
)
    requires
        !holds_template(extractor, Tree::Dict(a)),
        !holds_template(extractor, Tree::Dict(b)),
    ensures
        !holds_template(extractor, Tree::Dict(merged(a, b))),
    decreases a, 0nat,
{
    let m = merged(a, b);
    lemma_plain_fields(extractor, a);
    lemma_plain_fields(extractor, b);
    lemma_plain_fields(extractor, m);
    assert forall|i: int| 0 <= i < m.len() implies !holds_template(
        extractor,
        (#[trigger] m[i]).1,
    ) by {
        if i < a.len() {
            match lookup(b, a[i].0) {
                Some(v) => {
                    let at = key_index(b, a[i].0);
                    assert(v == b[at].1);
                    lemma_combine_keeps_plain(extractor, a[i].1, v);
                },
                None => {},
            }
        } else {
            lemma_fresh_from(a, b, i - a.len());
            let found = fresh(a, b)[i - a.len()];
            let at = choose|at: int| 0 <= at < b.len() && b[at] == found;
            assert(m[i] == b[at]);
        }
    }
}

/// The merge of documents without templates is without templates.
pub proof fn law_merged_all_keeps_plain<E: ReferenceExtractor>(extractor: E, sources: Seq<Tree>)
    requires
        forall|i: int|
            0 <= i < sources.len() ==> (#[trigger] sources[i]) is Dict && !holds_template(
                extractor,
                sources[i],
            ),
    ensures
        !holds_template(extractor, Tree::Dict(merged_all(sources))),
    decreases sources.len(),
{
    if sources.len() == 0 {
        lemma_plain_fields(extractor, merged_all(sources));
    } else {
        let front = sources.drop_last();
        assert forall|i: int| 0 <= i < front.len() implies (#[trigger] front[i]) is Dict
            && !holds_template(extractor, front[i]) by {
            assert(front[i] == sources[i]);
        }
        law_merged_all_keeps_plain(extractor, front);
        let last = sources[sources.len() - 1];
        assert(last == Tree::Dict(fields_of(last)));
        law_merge_keeps_plain(extractor, merged_all(front), fields_of(last));
    }
}

/// Documents without templates resolve to their merge: whatever resolution
/// returns for the merge of such documents is that merge itself.
pub proof fn law_plain_documents_resolve_to_their_merge<
    E: ReferenceExtractor,
    R: TemplateRenderer,
>(extractor: E, renderer: R, sources: Seq<Tree>, result: Result<Tree, ResolveFailure>)
    requires
        forall|i: int|
            0 <= i < sources.len() ==> (#[trigger] sources[i]) is Dict && !holds_template(
                extractor,
                sources[i],
            ),
        is_resolution(extractor, renderer, Tree::Dict(merged_all(sources)), result),
    ensures
        result == Ok::<Tree, ResolveFailure>(Tree::Dict(merged_all(sources))),
{
    law_merged_all_keeps_plain(extractor, sources);
    law_passthrough(extractor, renderer, Tree::Dict(merged_all(sources)), result);
}

/// A document without templates passes through resolution unchanged.
pub proof fn law_passthrough<E: ReferenceExtractor, R: TemplateRenderer>(
    extractor: E,
    renderer: R,
    tree: Tree,
    result: Result<Tree, ResolveFailure>,
)
    requires
        !holds_template(extractor, tree),
        is_resolution(extractor, renderer, tree, result),
    ensures
        result == Ok::<Tree, ResolveFailure>(tree),
{
    lemma_nothing_collected(extractor, tree, ""@, Seq::empty());
}

/// Resolves the references between the values of a document with the given
/// extractor and renderer. The strings that hold template syntax are
/// rendered in an order in which each comes after the values it refers to,
/// each against the document as those before it left it, and are replaced
/// by what they render to. A document without templates is returned as it
/// is; references in a circle are an error.
pub fn resolve_with<E: ReferenceExtractor, R: TemplateRenderer>(
    values: Value,
    extractor: &E,
    renderer: &R,
) -> (r: Result<Value, ResolveError>)
    ensures
        extractor.specified() && renderer.specified() ==> is_resolution(
            *extractor,
            *renderer,
            values@,
            outcome(r),
        ),
        extractor.specified() ==> is_planned(*extractor, values@, outcome(r)),
        !has_text(values@) ==> outcome(r) == Ok::<Tree, ResolveFailure>(values@),
        r matches Err(ResolveError::CircularDependency { chain }) ==> chain@.len() >= 2
            && chain@[0]@ == chain@.last()@,
{
    let mut templates = Mapping::new();
    collect_template_values(&values, "", &mut templates, extractor);
    if templates.is_empty() {
        return Ok(values);
    }
    let graph = match build_dependency_graph(&templates, extractor) {
        Some(graph) => graph,
        None => {
            return Err(ResolveError::TooManyReferences);
        },
    };
    let order = match graph.topological_sort() {
        Ok(order) => order,
        Err(CycleError { chain }) => {
            assert(names(chain@)[0] == chain@[0]@);
            assert(names(chain@).last() == chain@.last()@);
            return Err(ResolveError::CircularDependency { chain });
        },
    };
    resolve_in_order(values, &templates, &order, renderer)
}

/// Resolves the references between the values of a document: expressions
/// in double braces are found with regular expressions and rendered with
/// `minijinja`.
pub fn resolve_value_references(values: Value) -> (r: Result<Value, ResolveError>)
    ensures
        is_resolution(MiniJinjaReferenceExtractor, MiniJinjaRenderer, values@, outcome(r)),
{
    let extractor = MiniJinjaReferenceExtractor::new();
    let renderer = MiniJinjaRenderer::new();
    resolve_with(values, &extractor, &renderer)
}

} // verus!
