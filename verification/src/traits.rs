//! The two capabilities that resolution is built on: finding the
//! references in a template, and rendering a template.
//!
//! An implementation whose answers are a function of its arguments can say
//! so: it states the function and answers `true` in `specified`. For such
//! implementations the contracts of this crate say exactly what resolution
//! returns. Of any other implementation they say only what holds whatever
//! it answers.

use crate::graph::names;
use crate::value::{Tree, Value};
use vstd::prelude::*;

verus! {

/// A template could not be rendered; `message` says why.
#[derive(Debug, PartialEq, Eq)]
pub struct RenderError {
    pub message: String,
}

impl View for RenderError {
    type V = Seq<char>;

    open spec fn view(&self) -> Seq<char> {
        self.message@
    }
}

/// Finds template expressions in strings.
pub trait ReferenceExtractor {
    /// The paths that the expressions of `template` refer to, one for each
    /// expression, from left to right. It counts where `specified` holds.
    open spec fn references(&self, template: Seq<char>) -> Seq<Seq<char>> {
        Seq::empty()
    }

    /// Whether `s` holds template syntax. It counts where `specified` holds.
    open spec fn detects(&self, s: Seq<char>) -> bool {
        false
    }

    /// Whether `references` and `detects` say what this extractor answers.
    open spec fn specified(&self) -> bool {
        false
    }

    /// The paths that the expressions of `template_str` refer to.
    fn extract_references(&self, template_str: &str) -> (r: Vec<String>)
        ensures
            self.specified() ==> names(r@) == self.references(template_str@),
    ;

    /// Whether `s` holds template syntax.
    fn contains_template(&self, s: &str) -> (r: bool)
        ensures
            self.specified() ==> r == self.detects(s@),
    ;
}

/// Renders a template against a document.
pub trait TemplateRenderer {
    /// The text that `template` renders to against `context`, or the reason
    /// why it does not render. It counts where `specified` holds.
    open spec fn rendering(&self, template: Seq<char>, context: Tree) -> Result<
        Seq<char>,
        Seq<char>,
    > {
        Err(Seq::empty())
    }

    /// Whether `rendering` says what this renderer answers.
    open spec fn specified(&self) -> bool {
        false
    }

    /// Renders `template_str` with the values of `context`.
    fn render(&self, template_str: &str, context: &Value) -> (r: Result<String, RenderError>)
        ensures
            self.specified() ==> match r {
                Ok(text) => self.rendering(template_str@, context@) == Ok::<Seq<char>, Seq<char>>(
                    text@,
                ),
                Err(error) => self.rendering(template_str@, context@) == Err::<
                    Seq<char>,
                    Seq<char>,
                >(error@),
            },
    ;
}

} // verus!
