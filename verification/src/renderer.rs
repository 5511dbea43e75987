//! Rendering of templates with `minijinja`.
//!
//! The document that a template is rendered against is handed over as text
//! in the flow style of YAML, which this module writes. The reader of that
//! text follows at most 128 levels of nesting; a document that is nested
//! deeper does not render.

use crate::traits::{RenderError, TemplateRenderer};
use crate::value::{Tree, Value};
use vstd::prelude::*;

verus! {

/// The character of a hexadecimal digit.
pub open spec fn hex_char(d: nat) -> char {
    if d == 0 {
        '0'
    } else if d == 1 {
        '1'
    } else if d == 2 {
        '2'
    } else if d == 3 {
        '3'
    } else if d == 4 {
        '4'
    } else if d == 5 {
        '5'
    } else if d == 6 {
        '6'
    } else if d == 7 {
        '7'
    } else if d == 8 {
        '8'
    } else if d == 9 {
        '9'
    } else if d == 10 {
        'A'
    } else if d == 11 {
        'B'
    } else if d == 12 {
        'C'
    } else if d == 13 {
        'D'
    } else if d == 14 {
        'E'
    } else {
        'F'
    }
}

/// The eight hexadecimal digits of a code point.
pub open spec fn hex8(code: nat) -> Seq<char> {
    seq![
        hex_char((code / 0x10000000) % 16),
        hex_char((code / 0x1000000) % 16),
        hex_char((code / 0x100000) % 16),
        hex_char((code / 0x10000) % 16),
        hex_char((code / 0x1000) % 16),
        hex_char((code / 0x100) % 16),
        hex_char((code / 0x10) % 16),
        hex_char(code % 16),
    ]
}

/// A character that stands for itself between double quotes: a printable
/// character of ASCII other than the quote and the backslash.
pub open spec fn is_plain(c: char) -> bool {
    ' ' <= c <= '~' && c != '"' && c != '\\'
}

/// A character as it is written between double quotes: itself, or an
/// escape with its code point.
pub open spec fn escaped_char(c: char) -> Seq<char> {
    if is_plain(c) {
        seq![c]
    } else {
        seq!['\\', 'U'] + hex8(c as nat)
    }
}

/// A text as it is written between double quotes.
pub open spec fn escaped(s: Seq<char>) -> Seq<char>
    decreases s.len(),
{
    if s.len() == 0 {
        Seq::empty()
    } else {
        escaped(s.drop_last()) + escaped_char(s.last())
    }
}

/// A text as a scalar in double quotes.
pub open spec fn quoted(s: Seq<char>) -> Seq<char> {
    seq!['"'] + escaped(s) + seq!['"']
}

/// A document in the flow style of YAML: `null`, `true` and `false`, the
/// literal of a number, a text in double quotes, a sequence in brackets and
/// a mapping in braces with its keys in double quotes.
pub open spec fn encoded(t: Tree) -> Seq<char>
    decreases t, 0nat,
{
    match t {
        Tree::Null => seq!['n', 'u', 'l', 'l'],
        Tree::Bool(b) => if b {
            seq!['t', 'r', 'u', 'e']
        } else {
            seq!['f', 'a', 'l', 's', 'e']
        },
        Tree::Number(text) => text,
        Tree::Text(s) => quoted(s),
        Tree::List(items) => seq!['['] + encoded_items(items, items.len()) + seq![']'],
        Tree::Dict(fields) => seq!['{'] + encoded_fields(fields, fields.len()) + seq!['}'],
    }
}

/// The first `n` items, with commas between them.
pub open spec fn encoded_items(items: Seq<Tree>, n: nat) -> Seq<char>
    decreases items, n,
{
    if n == 0 || n > items.len() {
        Seq::empty()
    } else if n == 1 {
        encoded(items[0])
    } else {
        encoded_items(items, (n - 1) as nat) + seq![','] + encoded(items[n - 1])
    }
}

/// The first `n` fields, each as its key, a colon and its value, with
/// commas between them.
pub open spec fn encoded_fields(fields: Seq<(Seq<char>, Tree)>, n: nat) -> Seq<char>
    decreases fields, n,
{
    if n == 0 || n > fields.len() {
        Seq::empty()
    } else if n == 1 {
        quoted(fields[0].0) + seq![':', ' '] + encoded(fields[0].1)
    } else {
        encoded_fields(fields, (n - 1) as nat) + seq![','] + quoted(fields[n - 1].0) + seq![
            ':',
            ' ',
        ] + encoded(fields[n - 1].1)
    }
}

fn hex_digit(d: u32) -> (c: char)
    requires
        d < 16,
    ensures
        c == hex_char(d as nat),
{
    if d == 0 {
        '0'
    } else if d == 1 {
        '1'
    } else if d == 2 {
        '2'
    } else if d == 3 {
        '3'
    } else if d == 4 {
        '4'
    } else if d == 5 {
        '5'
    } else if d == 6 {
        '6'
    } else if d == 7 {
        '7'
    } else if d == 8 {
        '8'
    } else if d == 9 {
        '9'
    } else if d == 10 {
        'A'
    } else if d == 11 {
        'B'
    } else if d == 12 {
        'C'
    } else if d == 13 {
        'D'
    } else if d == 14 {
        'E'
    } else {
        'F'
    }
}

fn write_escaped_char(c: char, out: &mut String)
    ensures
        final(out)@ == old(out)@ + escaped_char(c),
{
    if ' ' <= c && c <= '~' && c != '"' && c != '\\' {
        out.push(c);
        assert(out@ =~= old(out)@ + escaped_char(c));
    } else {
        let code: u32 = c as u32;
        out.push('\\');
        out.push('U');
        out.push(hex_digit((code / 0x10000000) % 16));
        out.push(hex_digit((code / 0x1000000) % 16));
        out.push(hex_digit((code / 0x100000) % 16));
        out.push(hex_digit((code / 0x10000) % 16));
        out.push(hex_digit((code / 0x1000) % 16));
        out.push(hex_digit((code / 0x100) % 16));
        out.push(hex_digit((code / 0x10) % 16));
        out.push(hex_digit(code % 16));
        assert(out@ =~= old(out)@ + escaped_char(c));
    }
}

fn write_quoted(s: &str, out: &mut String)
    ensures
        final(out)@ == old(out)@ + quoted(s@),
{
    out.push('"');
    let chars = crate::text::chars_of(s);
    let mut i: usize = 0;
    assert(s@.take(0) =~= Seq::<char>::empty());
    while i < chars.len()
        invariant
            i <= chars.len(),
            chars@ == s@,
            out@ == old(out)@ + seq!['"'] + escaped(s@.take(i as int)),
        decreases chars.len() - i,
    {
        proof {
            assert(s@.take(i + 1).drop_last() =~= s@.take(i as int));
            assert(s@.take(i + 1).last() == s@[i as int]);
        }
        write_escaped_char(chars[i], out);
        assert(out@ =~= old(out)@ + seq!['"'] + escaped(s@.take(i + 1)));
        i += 1;
    }
    assert(s@.take(chars.len() as int) =~= s@);
    out.push('"');
    assert(out@ =~= old(out)@ + quoted(s@));
}

/// Appends the document in the flow style of YAML.
pub fn write_document(value: &Value, out: &mut String)
    ensures
        final(out)@ == old(out)@ + encoded(value@),
    decreases value@,
{
    match value {
        Value::Null => {
            out.push('n');
            out.push('u');
            out.push('l');
            out.push('l');
            assert(out@ =~= old(out)@ + encoded(value@));
        },
        Value::Bool(b) => {
            if *b {
                out.push('t');
                out.push('r');
                out.push('u');
                out.push('e');
            } else {
                out.push('f');
                out.push('a');
                out.push('l');
                out.push('s');
                out.push('e');
            }
            assert(out@ =~= old(out)@ + encoded(value@));
        },
        Value::Number(n) => {
            out.append(n.as_str());
        },
        Value::String(s) => {
            write_quoted(s.as_str(), out);
        },
        Value::Sequence(items) => {
            out.push('[');
            let ghost trees = value@->List_0;
            let mut i: usize = 0;
            while i < items.len()
                invariant
                    i <= items.len(),
                    value@ == Tree::List(trees),
                    trees.len() == items@.len(),
                    forall|k: int| 0 <= k < items@.len() ==> trees[k] == (#[trigger] items@[k])@,
                    out@ == old(out)@ + seq!['['] + encoded_items(trees, i as nat),
                decreases items.len() - i,
            {
                if i > 0 {
                    out.push(',');
                }
                assert(decreases_to!(value@ => value@->List_0));
                assert(decreases_to!(trees => trees[i as int]));
                write_document(&items[i], out);
                assert(out@ =~= old(out)@ + seq!['['] + encoded_items(trees, (i + 1) as nat));
                i += 1;
            }
            out.push(']');
            assert(out@ =~= old(out)@ + encoded(value@));
        },
        Value::Mapping(m) => {
            out.push('{');
            let ghost fields = m@;
            let n = m.len();
            let mut i: usize = 0;
            while i < n
                invariant
                    i <= n,
                    n == fields.len(),
                    fields == m@,
                    value@ == Tree::Dict(fields),
                    out@ == old(out)@ + seq!['{'] + encoded_fields(fields, i as nat),
                decreases n - i,
            {
                if i > 0 {
                    out.push(',');
                }
                write_quoted(m.key_at(i).as_str(), out);
                out.push(':');
                out.push(' ');
                assert(decreases_to!(value@ => value@->Dict_0));
                assert(decreases_to!(fields => fields[i as int]));
                write_document(m.value_at(i), out);
                assert(out@ =~= old(out)@ + seq!['{'] + encoded_fields(fields, (i + 1) as nat));
                i += 1;
            }
            out.push('}');
            assert(out@ =~= old(out)@ + encoded(value@));
        },
    }
}

/// The document in the flow style of YAML.
pub fn encode(value: &Value) -> (text: String)
    ensures
        text@ == encoded(value@),
{
    let mut text = String::new();
    write_document(value, &mut text);
    assert(text@ =~= encoded(value@));
    text
}

/// Why `minijinja` gave no text for a template. Each holds the text of the
/// error that was reported.
#[derive(Debug, PartialEq, Eq)]
pub enum InlineError {
    /// The template could not be parsed.
    Parse(String),
    /// The parsed template was not found again.
    Lookup(String),
    /// The document could not be handed over, or rendering failed.
    Render(String),
}

/// The mathematical view of an `InlineError`.
pub enum InlineFailure {
    Parse(Seq<char>),
    Lookup(Seq<char>),
    Render(Seq<char>),
}

impl View for InlineError {
    type V = InlineFailure;

    open spec fn view(&self) -> InlineFailure {
        match self {
            InlineError::Parse(text) => InlineFailure::Parse(text@),
            InlineError::Lookup(text) => InlineFailure::Lookup(text@),
            InlineError::Render(text) => InlineFailure::Render(text@),
        }
    }
}

/// What the template renders to with the default environment of
/// `minijinja`, against the document that `serde_yaml` reads from the YAML
/// text, or the step that failed with the text of the error that it reported.
pub uninterp spec fn template_output(template: Seq<char>, context_yaml: Seq<char>) -> Result<
    Seq<char>,
    InlineFailure,
>;

/// The view of a rendered text or of a failure.
pub open spec fn output_view(r: Result<String, InlineError>) -> Result<Seq<char>, InlineFailure> {
    match r {
        Ok(text) => Ok(text@),
        Err(error) => Err(error@),
    }
}

/// `Environment::add_template`, `Environment::get_template`,
/// `serde_yaml::from_str` and `Template::render`: renders the template,
/// registered under the name `inline` in a new environment, against the
/// document read from the YAML text. An error comes back with the step that
/// reported it.
#[verifier::external_body]
fn render_inline(template: &str, context_yaml: &str) -> (r: Result<String, InlineError>)
    ensures
        output_view(r) == template_output(template@, context_yaml@),
{
    let mut env = minijinja::Environment::new();
    if let Err(e) = env.add_template("inline", template) {
        return Err(InlineError::Parse(e.to_string()));
    }
    let compiled = match env.get_template("inline") {
        Ok(compiled) => compiled,
        Err(e) => return Err(InlineError::Lookup(e.to_string())),
    };
    match serde_yaml::from_str::<minijinja::Value>(context_yaml) {
        Ok(context) => compiled.render(context).map_err(|e| InlineError::Render(e.to_string())),
        Err(e) => Err(InlineError::Render(e.to_string())),
    }
}

/// The text with which a failure to render `template` is reported.
pub open spec fn inline_failure_text(template: Seq<char>, failure: InlineFailure) -> Seq<char> {
    match failure {
        InlineFailure::Parse(_) => "Failed to parse template: "@ + template,
        InlineFailure::Lookup(text) => text,
        InlineFailure::Render(text) => "Failed to render value reference '"@ + template + "': "@
            + text,
    }
}

/// The renderer that hands templates to `minijinja`.
#[derive(Debug, Clone, Copy, PartialEq, Eq)]
pub struct MiniJinjaRenderer;

impl MiniJinjaRenderer {
    pub fn new() -> (r: Self)
        ensures
            r == MiniJinjaRenderer,
            r.specified(),
    {
        MiniJinjaRenderer
    }
}

impl Default for MiniJinjaRenderer {
    fn default() -> (r: Self)
        ensures
            r == MiniJinjaRenderer,
    {
        Self::new()
    }
}

impl TemplateRenderer for MiniJinjaRenderer {
    /// What `minijinja` renders against the document written as YAML.
    open spec fn rendering(&self, template: Seq<char>, context: Tree) -> Result<
        Seq<char>,
        Seq<char>,
    > {
        match template_output(template, encoded(context)) {
            Ok(text) => Ok(text),
            Err(failure) => Err(inline_failure_text(template, failure)),
        }
    }

    open spec fn specified(&self) -> bool {
        true
    }

    fn render(&self, template_str: &str, context: &Value) -> (r: Result<String, RenderError>) {
        let context_yaml = encode(context);
        match render_inline(template_str, context_yaml.as_str()) {
            Ok(text) => Ok(text),
            Err(InlineError::Parse(_)) => {
                let mut message = String::from_str("Failed to parse template: ");
                message.append(template_str);
                Err(RenderError { message })
            },
            Err(InlineError::Lookup(message)) => Err(RenderError { message }),
            Err(InlineError::Render(reported)) => {
                let mut message = String::from_str("Failed to render value reference '");
                message.append(template_str);
                message.append("': ");
                message.append(reported.as_str());
                Err(RenderError { message })
            },
        }
    }
}

} // verus!
