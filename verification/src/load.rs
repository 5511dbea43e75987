//! Loading: the documents of several sources and inline overrides of the
//! form `dotted.path=literal` are merged in their order, and the references
//! between the values of the result are resolved.

use crate::extractor::MiniJinjaReferenceExtractor;
use crate::merge::{lemma_merged, merge_maps, merged, merged_all, merged_field};
use crate::path::{get_at, lemma_plain_segment};
use crate::renderer::MiniJinjaRenderer;
use crate::resolver::{is_resolution, resolve_value_references, ResolveError, ResolveFailure};
use crate::text::{chars_of, first_index, lemma_first_index_is, split, split_text};
use crate::value::{
    key_index, keys_distinct, lemma_key_index_unique, lookup, well_formed, Mapping, Tree, Value,
};
use vstd::prelude::*;

verus! {

/// The string slices of a list of strings.
pub fn get_value_files_as_refs(strings: &Vec<String>) -> (r: Vec<&str>)
    ensures
        r@.len() == strings@.len(),
        forall|i: int| 0 <= i < r@.len() ==> (#[trigger] r@[i])@ == strings@[i]@,
{
    let mut r: Vec<&str> = Vec::new();
    let mut i: usize = 0;
    while i < strings.len()
        invariant
            i <= strings.len(),
            r@.len() == i,
            forall|k: int| 0 <= k < i ==> (#[trigger] r@[k])@ == strings@[k]@,
        decreases strings.len() - i,
    {
        r.push(strings[i].as_str());
        i += 1;
    }
    r
}

/// Whether a source identifier is an inline override, which is so where it
/// holds an equals sign, and not the name of a document.
pub fn is_inline_override(identifier: &str) -> (b: bool)
    ensures
        b == identifier@.contains('='),
{
    crate::text::contains_char(identifier, '=')
}

/// The single field that an override of the path `segments` stands for:
/// the first segment, which holds the field for the rest of the path, or
/// the literal where the path ends.
pub open spec fn override_fields(segments: Seq<Seq<char>>, literal: Seq<char>) -> Seq<
    (Seq<char>, Tree),
>
    decreases segments.len(),
{
    if segments.len() == 0 {
        Seq::empty()
    } else if segments.len() == 1 {
        seq![(segments[0], Tree::Text(literal))]
    } else {
        seq![(segments[0], Tree::Dict(override_fields(segments.skip(1), literal)))]
    }
}

/// The document that an inline override stands for. The dotted path is
/// what stands before the first equals sign, the literal what stands behind
/// it; the literal is a string whatever it looks like. A text without an
/// equals sign is a path with the empty literal.
pub open spec fn inline_override(input: Seq<char>) -> Tree {
    let at = first_index(input, '=');
    let path = input.take(at);
    let literal = if at < input.len() {
        input.skip(at + 1)
    } else {
        Seq::empty()
    };
    Tree::Dict(override_fields(split(path, '.'), literal))
}

/// The fields of an override hold its first segment alone.
proof fn lemma_override_fields(segments: Seq<Seq<char>>, literal: Seq<char>)
    requires
        segments.len() >= 1,
    ensures
        keys_distinct(override_fields(segments, literal)),
        override_fields(segments, literal).len() == 1,
        override_fields(segments, literal)[0].0 == segments[0],
        lookup(override_fields(segments, literal), segments[0]) == Some(
            override_fields(segments, literal)[0].1,
        ),
{
    lemma_key_index_unique(override_fields(segments, literal), 0);
}

/// An override read back along its own path gives its literal.
proof fn lemma_override_alone(segments: Seq<Seq<char>>, literal: Seq<char>)
    requires
        segments.len() >= 1,
        forall|i: int| 0 <= i < segments.len() ==> !(#[trigger] segments[i]).contains('['),
    ensures
        get_at(Tree::Dict(override_fields(segments, literal)), segments) == Some(
            Tree::Text(literal),
        ),
    decreases segments.len(),
{
    lemma_override_fields(segments, literal);
    lemma_plain_segment(Tree::Dict(override_fields(segments, literal)), segments[0]);
    let rest = segments.skip(1);
    if segments.len() > 1 {
        assert forall|i: int| 0 <= i < rest.len() implies !(#[trigger] rest[i]).contains('[') by {
            assert(rest[i] == segments[i + 1]);
        }
        lemma_override_alone(rest, literal);
    } else {
        assert(get_at(Tree::Text(literal), rest) == Some(Tree::Text(literal)));
    }
}

/// An inline override wins where it is merged last: whatever the fields
/// `base` hold, after the override of a path has been merged into them the
/// path leads to the literal of the override.
pub proof fn law_override_wins(
    base: Seq<(Seq<char>, Tree)>,
    segments: Seq<Seq<char>>,
    literal: Seq<char>,
)
    requires
        well_formed(Tree::Dict(base)),
        segments.len() >= 1,
        forall|i: int| 0 <= i < segments.len() ==> !(#[trigger] segments[i]).contains('['),
    ensures
        get_at(Tree::Dict(merged(base, override_fields(segments, literal))), segments) == Some(
            Tree::Text(literal),
        ),
    decreases segments.len(),
{
    let over = override_fields(segments, literal);
    let key = segments[0];
    let rest = segments.skip(1);
    lemma_override_fields(segments, literal);
    lemma_plain_segment(Tree::Dict(merged(base, over)), key);
    lemma_merged(base, over);
    assert(lookup(merged(base, over), key) == merged_field(lookup(base, key), Some(over[0].1)));
    if segments.len() == 1 {
        assert(rest.len() == 0);
    } else {
        assert forall|i: int| 0 <= i < rest.len() implies !(#[trigger] rest[i]).contains('[') by {
            assert(rest[i] == segments[i + 1]);
        }
        match lookup(base, key) {
            Some(Tree::Dict(inner)) => {
                let at = key_index(base, key);
                assert(well_formed(base[at].1));
                law_override_wins(inner, rest, literal);
            },
            _ => {
                lemma_override_alone(rest, literal);
            },
        }
    }
}

/// The document that the inline override `input` stands for: `a.b=x` is a
/// mapping with the field `a`, which is a mapping with the field `b`, which
/// is the string `x`.
pub fn parse_yaml_string(input: &str) -> (r: Value)
    ensures
        r@ == inline_override(input@),
{
    let chars = chars_of(input);
    let n = chars.len();
    let mut at: usize = 0;
    while at < n && chars[at] != '='
        invariant
            at <= n,
            n == input@.len(),
            chars@ == input@,
            forall|k: int| 0 <= k < at ==> input@[k] != '=',
        decreases n - at,
    {
        at += 1;
    }
    proof {
        lemma_first_index_is(input@, '=', at as int);
    }
    let path = input.substring_char(0, at);
    let literal = if at < n {
        String::from_str(input.substring_char(at + 1, n))
    } else {
        String::new()
    };
    assert(path@ =~= input@.take(at as int));
    assert(at < n ==> literal@ =~= input@.skip(at + 1));
    let segments = split_text(path, '.');
    let ghost parts = split(path@, '.');
    let mut k: usize = segments.len() - 1;
    let mut inner = Mapping::new();
    inner.insert(segments[k].clone(), Value::String(literal));
    proof {
        assert(parts.skip(k as int).len() == 1);
        assert(parts.skip(k as int)[0] == parts[k as int]);
        assert(inner@ =~= override_fields(parts.skip(k as int), literal@));
    }
    while k > 0
        invariant
            k < segments@.len(),
            parts == segments@.map_values(|p: String| p@),
            inner@ == override_fields(parts.skip(k as int), literal@),
        decreases k,
    {
        k -= 1;
        let mut outer = Mapping::new();
        outer.insert(segments[k].clone(), Value::Mapping(inner));
        proof {
            assert(parts.skip(k as int).skip(1) =~= parts.skip(k + 1));
            assert(parts.skip(k as int)[0] == parts[k as int]);
            assert(outer@ =~= override_fields(parts.skip(k as int), literal@));
        }
        inner = outer;
    }
    assert(parts.skip(0) =~= parts);
    Value::Mapping(inner)
}

/// One source of values, as it stands after reading.
#[derive(Debug, PartialEq)]
pub enum Source {
    /// An inline override, `dotted.path=literal`.
    Inline(String),
    /// The document that was read from the source `identifier`.
    Document { identifier: String, content: Value },
    /// The source `identifier` could not be read or decoded.
    Unreadable { identifier: String, cause: String },
}

/// The mathematical view of a source.
pub enum SourceView {
    Inline(Seq<char>),
    Document { identifier: Seq<char>, content: Tree },
    Unreadable { identifier: Seq<char>, cause: Seq<char> },
}

impl View for Source {
    type V = SourceView;

    open spec fn view(&self) -> SourceView {
        match self {
            Source::Inline(text) => SourceView::Inline(text@),
            Source::Document { identifier, content } => SourceView::Document {
                identifier: identifier@,
                content: content@,
            },
            Source::Unreadable { identifier, cause } => SourceView::Unreadable {
                identifier: identifier@,
                cause: cause@,
            },
        }
    }
}

/// Why a list of sources could not be loaded.
#[derive(Debug, PartialEq, Eq)]
pub enum LoadError {
    /// A source could not be read or decoded.
    SourceLoad { source_identifier: String, cause: String },
    /// The document of a source is not a mapping at its top level.
    InvalidRootShape { source_identifier: String },
    /// The references between the merged values could not be resolved.
    Resolution(ResolveError),
}

/// The mathematical view of a `LoadError`.
pub enum LoadFailure {
    SourceLoad { source_identifier: Seq<char>, cause: Seq<char> },
    InvalidRootShape { source_identifier: Seq<char> },
    Resolution(ResolveFailure),
}

impl View for LoadError {
    type V = LoadFailure;

    open spec fn view(&self) -> LoadFailure {
        match self {
            LoadError::SourceLoad { source_identifier, cause } => LoadFailure::SourceLoad {
                source_identifier: source_identifier@,
                cause: cause@,
            },
            LoadError::InvalidRootShape { source_identifier } => LoadFailure::InvalidRootShape {
                source_identifier: source_identifier@,
            },
            LoadError::Resolution(error) => LoadFailure::Resolution(error@),
        }
    }
}

/// The text of an error. For a source that could not be read it names the
/// source and ends there: the cause is in the error's field. For failed
/// references it goes on with the text of that failure.
pub open spec fn load_failure_text(failure: LoadFailure) -> Seq<char> {
    match failure {
        LoadFailure::SourceLoad { source_identifier, cause } =>
            "Failed to read values YAML file: "@ + source_identifier,
        LoadFailure::InvalidRootShape { source_identifier } =>
            "Expected top-level YAML structure to be a mapping."@,
        LoadFailure::Resolution(failure) => "Failed to resolve value references in YAML files: "@
            + crate::resolver::failure_text(failure),
    }
}

impl LoadError {
    /// The text of this error, for a reader.
    pub fn message(&self) -> (text: String)
        ensures
            text@ == load_failure_text(self@),
    {
        match self {
            LoadError::SourceLoad { source_identifier, cause } => {
                let mut text = String::from_str("Failed to read values YAML file: ");
                text.append(source_identifier.as_str());
                text
            },
            LoadError::InvalidRootShape { source_identifier } => String::from_str(
                "Expected top-level YAML structure to be a mapping.",
            ),
            LoadError::Resolution(error) => {
                let mut text = String::from_str(
                    "Failed to resolve value references in YAML files: ",
                );
                text.append(error.message().as_str());
                text
            },
        }
    }
}

/// What stops the loading at a source, if anything does: that it could not
/// be read, or that its document is not a mapping.
pub open spec fn source_failure(source: SourceView) -> Option<LoadFailure> {
    match source {
        SourceView::Inline(_) => None,
        SourceView::Document { identifier, content } => if content is Dict {
            None
        } else {
            Some(LoadFailure::InvalidRootShape { source_identifier: identifier })
        },
        SourceView::Unreadable { identifier, cause } => Some(
            LoadFailure::SourceLoad { source_identifier: identifier, cause },
        ),
    }
}

/// The document that a source contributes to the merge.
pub open spec fn source_document(source: SourceView) -> Tree {
    match source {
        SourceView::Inline(text) => inline_override(text),
        SourceView::Document { identifier, content } => content,
        SourceView::Unreadable { identifier, cause } => Tree::Null,
    }
}

/// The views of a list of sources.
pub open spec fn source_views(sources: Seq<Source>) -> Seq<SourceView> {
    sources.map_values(|s: Source| s@)
}

/// The documents of a list of sources.
pub open spec fn source_documents(sources: Seq<SourceView>) -> Seq<Tree> {
    sources.map_values(|s: SourceView| source_document(s))
}

/// The view of what loading returns.
pub open spec fn load_outcome(r: Result<Value, LoadError>) -> Result<Tree, LoadFailure> {
    match r {
        Ok(value) => Ok(value@),
        Err(error) => Err(error@),
    }
}

/// What resolution returned, as loading reports it.
pub open spec fn as_load_outcome(r: Result<Tree, ResolveFailure>) -> Result<Tree, LoadFailure> {
    match r {
        Ok(tree) => Ok(tree),
        Err(failure) => Err(LoadFailure::Resolution(failure)),
    }
}

/// What stops the loading of the sources: the failure of the first source
/// that has one.
pub open spec fn first_failure(sources: Seq<SourceView>) -> Option<LoadFailure>
    decreases sources.len(),
{
    if sources.len() == 0 {
        None
    } else {
        match source_failure(sources[0]) {
            Some(failure) => Some(failure),
            None => first_failure(sources.skip(1)),
        }
    }
}

/// Merges the sources in their order into one mapping. It stops at the
/// first source that could not be read or whose document is not a mapping.
pub fn merge_loaded(sources: Vec<Source>) -> (r: Result<Value, LoadError>)
    ensures
        match first_failure(source_views(sources@)) {
            Some(failure) => load_outcome(r) == Err::<Tree, LoadFailure>(failure),
            None => load_outcome(r) == Ok::<Tree, LoadFailure>(
                Tree::Dict(merged_all(source_documents(source_views(sources@)))),
            ),
        },
{
    let ghost views = source_views(sources@);
    let ghost documents = source_documents(views);
    let mut pending = sources;
    let mut yaml_values = Mapping::new();
    let n = pending.len();
    let mut i: usize = 0;
    assert(documents.take(0) =~= Seq::<Tree>::empty());
    assert(views.skip(0) =~= views);
    while i < n
        invariant
            i <= n,
            n == sources@.len(),
            pending@.len() == n,
            views == source_views(sources@),
            documents == source_documents(views),
            forall|k: int| i <= k < n ==> pending@[k] == sources@[k],
            first_failure(views) == first_failure(views.skip(i as int)),
            yaml_values@ == merged_all(documents.take(i as int)),
        decreases n - i,
    {
        let mut source = Source::Inline(String::new());
        core::mem::swap(&mut pending[i], &mut source);
        proof {
            assert(documents.take(i + 1).drop_last() =~= documents.take(i as int));
            assert(documents.take(i + 1).last() == source_document(sources@[i as int]@));
            assert(views.skip(i as int)[0] == sources@[i as int]@);
            assert(views.skip(i as int).skip(1) =~= views.skip(i + 1));
        }
        let yaml = match source {
            Source::Inline(text) => parse_yaml_string(text.as_str()),
            Source::Document { identifier, content } => {
                match content {
                    Value::Mapping(_) => content,
                    _ => {
                        return Err(LoadError::InvalidRootShape { source_identifier: identifier });
                    },
                }
            },
            Source::Unreadable { identifier, cause } => {
                return Err(LoadError::SourceLoad { source_identifier: identifier, cause });
            },
        };
        match yaml {
            Value::Mapping(map) => {
                merge_maps(&mut yaml_values, map);
            },
            _ => {},
        }
        i += 1;
    }
    assert(documents.take(n as int) =~= documents);
    Ok(Value::Mapping(yaml_values))
}

/// Loads the sources into one document. They are merged in their order,
/// so that a later source wins where two sources differ, and the references
/// between the values of the result are resolved. Loading stops at the first
/// source that could not be read or whose document is not a mapping.
pub fn load_yaml_files(sources: Vec<Source>) -> (r: Result<Value, LoadError>)
    ensures
        match first_failure(source_views(sources@)) {
            Some(failure) => load_outcome(r) == Err::<Tree, LoadFailure>(failure),
            None => exists|resolved: Result<Tree, ResolveFailure>|
                {
                    &&& #[trigger] is_resolution(
                        MiniJinjaReferenceExtractor,
                        MiniJinjaRenderer,
                        Tree::Dict(merged_all(source_documents(source_views(sources@)))),
                        resolved,
                    )
                    &&& load_outcome(r) == as_load_outcome(resolved)
                },
        },
{
    let merged_values = match merge_loaded(sources) {
        Ok(value) => value,
        Err(error) => {
            return Err(error);
        },
    };
    match resolve_value_references(merged_values) {
        Ok(value) => {
            assert(is_resolution(
                MiniJinjaReferenceExtractor,
                MiniJinjaRenderer,
                merged_values@,
                Ok::<Tree, ResolveFailure>(value@),
            ));
            Ok(value)
        },
        Err(error) => {
            assert(is_resolution(
                MiniJinjaReferenceExtractor,
                MiniJinjaRenderer,
                merged_values@,
                Err::<Tree, ResolveFailure>(error@),
            ));
            Err(LoadError::Resolution(error))
        },
    }
}

} // verus!
