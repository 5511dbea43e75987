//! Addressing values by dotted paths.

use crate::text::{
    chars_of, first_index, is_digit, lemma_first_index, lemma_first_index_is, split, split_text,
};
use crate::value::{
    key_index, keys_distinct, lemma_key_index_unique, lemma_upsert_distinct, lookup, upsert,
    well_formed, Tree, Value,
};
use vstd::prelude::*;

verus! {

/// Why a path could not be followed to the place of a write.
#[derive(Debug, PartialEq, Eq, Clone, Copy)]
pub enum PathError {
    /// A segment before the last one names a field that does not exist.
    PathNotFound,
    /// A node that the path leads through, where `on_the_way` holds, or else
    /// the node that is to take the last segment as its field, is not a
    /// mapping.
    NotAMapping { on_the_way: bool },
}

/// The document after `v` has been written at the field that `segments`
/// names. All segments but the last name fields that exist in mappings; the
/// last one is stored in the mapping reached, which gains the field if it
/// lacks it. An empty list of segments names no field.
pub open spec fn set_at(t: Tree, segments: Seq<Seq<char>>, v: Tree) -> Result<Tree, PathError>
    decreases segments.len(),
{
    if segments.len() == 0 {
        Err(PathError::PathNotFound)
    } else {
        match t {
            Tree::Dict(e) => {
                if segments.len() == 1 {
                    Ok(Tree::Dict(upsert(e, segments[0], v)))
                } else {
                    match lookup(e, segments[0]) {
                        Some(child) => match set_at(child, segments.skip(1), v) {
                            Ok(changed) => Ok(
                                Tree::Dict(
                                    e.update(key_index(e, segments[0]), (segments[0], changed)),
                                ),
                            ),
                            Err(error) => Err(error),
                        },
                        None => Err(PathError::PathNotFound),
                    }
                }
            },
            _ => Err(PathError::NotAMapping { on_the_way: segments.len() > 1 }),
        }
    }
}

/// The views of a list of strings.
pub open spec fn texts(parts: Seq<String>) -> Seq<Seq<char>> {
    parts.map_values(|p: String| p@)
}

fn set_in(value: &mut Value, parts: &Vec<String>, pos: usize, new_val: Value) -> (r: Result<
    (),
    PathError,
>)
    requires
        pos < parts@.len(),
    ensures
        match r {
            Ok(()) => set_at(old(value)@, texts(parts@).skip(pos as int), new_val@) == Ok::<
                Tree,
                PathError,
            >(final(value)@),
            Err(e) => set_at(old(value)@, texts(parts@).skip(pos as int), new_val@) == Err::<
                Tree,
                PathError,
            >(e) && final(value)@ == old(value)@,
        },
    decreases parts@.len() - pos,
{
    let ghost segments = texts(parts@).skip(pos as int);
    assert(segments.len() == parts@.len() - pos);
    assert(segments[0] == parts@[pos as int]@);
    match value {
        Value::Mapping(m) => {
            if pos == parts.len() - 1 {
                m.insert(parts[pos].clone(), new_val);
                Ok(())
            } else {
                match m.index_of(parts[pos].as_str()) {
                    Some(i) => {
                        let ghost before = m@;
                        let mut child = m.take_value(i);
                        assert(segments.skip(1) =~= texts(parts@).skip(pos + 1));
                        let r = set_in(&mut child, parts, pos + 1, new_val);
                        m.put_value(i, child);
                        proof {
                            if r is Err {
                                assert(m@ =~= before);
                            } else {
                                assert(m@ =~= before.update(i as int, (segments[0], child@)));
                            }
                        }
                        r
                    },
                    None => Err(PathError::PathNotFound),
                }
            }
        },
        _ => Err(PathError::NotAMapping { on_the_way: pos < parts.len() - 1 }),
    }
}

/// Writes `new_val` at the field that the dotted `path` names. Every
/// segment but the last has to name an existing field of a mapping; nothing
/// is created on the way, and on an error the document is left as it was.
pub fn set_value_at_path(value: &mut Value, path: &str, new_val: Value) -> (r: Result<
    (),
    PathError,
>)
    ensures
        match r {
            Ok(()) => set_at(old(value)@, split(path@, '.'), new_val@) == Ok::<Tree, PathError>(
                final(value)@,
            ),
            Err(e) => set_at(old(value)@, split(path@, '.'), new_val@) == Err::<Tree, PathError>(e)
                && final(value)@ == old(value)@,
        },
{
    let parts = split_text(path, '.');
    assert(texts(parts@).skip(0) =~= split(path@, '.'));
    set_in(value, &parts, 0, new_val)
}

/// Not empty, and digits only.
pub open spec fn all_digits(s: Seq<char>) -> bool {
    s.len() > 0 && forall|i: int| 0 <= i < s.len() ==> is_digit(#[trigger] s[i])
}

/// The number that the decimal digits stand for.
pub open spec fn number_of(digits: Seq<char>) -> nat
    decreases digits.len(),
{
    if digits.len() == 0 {
        0
    } else {
        number_of(digits.drop_last()) * 10 + (digits.last() as nat - '0' as nat) as nat
    }
}

/// The item that the bracketed indices lead to, as in `[0][12]`: each
/// index picks an item of a sequence.
pub open spec fn item_at(t: Tree, brackets: Seq<char>) -> Option<Tree>
    decreases brackets.len(),
{
    if brackets.len() == 0 {
        Some(t)
    } else {
        let close = first_index(brackets, ']');
        if brackets[0] == '[' && 0 <= close < brackets.len() && all_digits(
            brackets.subrange(1, close),
        ) {
            match t {
                Tree::List(items) => {
                    let i = number_of(brackets.subrange(1, close));
                    if i < items.len() {
                        item_at(items[i as int], brackets.skip(close + 1))
                    } else {
                        None
                    }
                },
                _ => None,
            }
        } else {
            None
        }
    }
}

/// The value that one segment of a path leads to: the field of a mapping
/// that the segment names before its first bracket, and from there the item
/// that its bracketed indices lead to.
pub open spec fn step_into(t: Tree, segment: Seq<char>) -> Option<Tree> {
    let open = first_index(segment, '[');
    match t {
        Tree::Dict(fields) => match lookup(fields, segment.take(open)) {
            Some(child) => item_at(child, segment.skip(open)),
            None => None,
        },
        _ => None,
    }
}

/// The value that the segments lead to, one after the other; `None` where
/// a field or an item on the way does not exist.
pub open spec fn get_at(t: Tree, segments: Seq<Seq<char>>) -> Option<Tree>
    decreases segments.len(),
{
    if segments.len() == 0 {
        Some(t)
    } else {
        match step_into(t, segments[0]) {
            Some(child) => get_at(child, segments.skip(1)),
            None => None,
        }
    }
}

/// A segment without a bracket names a field and nothing more.
pub proof fn lemma_plain_segment(t: Tree, segment: Seq<char>)
    requires
        !segment.contains('['),
    ensures
        step_into(t, segment) == match t {
            Tree::Dict(fields) => lookup(fields, segment),
            _ => None,
        },
{
    lemma_first_index(segment, '[');
    if first_index(segment, '[') < segment.len() {
        assert(segment.contains(segment[first_index(segment, '[')]));
    }
    assert(segment.take(segment.len() as int) =~= segment);
    assert(segment.skip(segment.len() as int).len() == 0);
}

/// What was written at a path is read back from it: after a write along
/// segments without brackets has succeeded, the segments lead to the value
/// that was written.
pub proof fn law_set_then_get(t: Tree, segments: Seq<Seq<char>>, v: Tree)
    requires
        well_formed(t),
        forall|i: int| 0 <= i < segments.len() ==> !(#[trigger] segments[i]).contains('['),
        set_at(t, segments, v) is Ok,
    ensures
        get_at(set_at(t, segments, v)->Ok_0, segments) == Some(v),
    decreases segments.len(),
{
    let fields = t->Dict_0;
    let key = segments[0];
    let rest = segments.skip(1);
    let written = set_at(t, segments, v)->Ok_0;
    lemma_plain_segment(written, key);
    if segments.len() == 1 {
        lemma_upsert_distinct(fields, key, v);
        assert(get_at(v, rest) == Some(v));
    } else {
        let at = key_index(fields, key);
        let child = fields[at].1;
        let changed = set_at(child, rest, v)->Ok_0;
        assert forall|i: int| 0 <= i < rest.len() implies !(#[trigger] rest[i]).contains('[') by {
            assert(rest[i] == segments[i + 1]);
        }
        assert(well_formed(child));
        law_set_then_get(child, rest, v);
        let updated = fields.update(at, (key, changed));
        assert(keys_distinct(updated)) by {
            assert forall|i: int, j: int| 0 <= i < j < updated.len() implies updated[i].0
                != updated[j].0 by {
                assert(updated[i].0 == fields[i].0 && updated[j].0 == fields[j].0);
            }
        }
        lemma_key_index_unique(updated, at);
        assert(step_into(written, key) == Some(changed));
    }
}

/// No segment holds a bracket, so that each names a field and nothing more.
pub open spec fn plain_segments(q: Seq<Seq<char>>) -> bool {
    forall|i: int| 0 <= i < q.len() ==> !(#[trigger] q[i]).contains('[')
}

/// Both paths have a segment at place `i`, and the two differ.
pub open spec fn differ_at(p: Seq<Seq<char>>, q: Seq<Seq<char>>, i: int) -> bool {
    0 <= i < p.len() && i < q.len() && p[i] != q[i]
}

/// The two paths part ways: neither leads to or through the place that the
/// other names.
pub open spec fn diverges(p: Seq<Seq<char>>, q: Seq<Seq<char>>) -> bool {
    exists|i: int| #[trigger] differ_at(p, q, i)
}

/// A write leaves a well-formed document well formed.
pub proof fn lemma_set_well_formed(t: Tree, segments: Seq<Seq<char>>, v: Tree)
    requires
        well_formed(t),
        well_formed(v),
        set_at(t, segments, v) is Ok,
    ensures
        well_formed(set_at(t, segments, v)->Ok_0),
    decreases segments.len(),
{
    let fields = t->Dict_0;
    let key = segments[0];
    if segments.len() == 1 {
        let stored = upsert(fields, key, v);
        lemma_upsert_distinct(fields, key, v);
        assert forall|i: int| 0 <= i < stored.len() implies well_formed(
            (#[trigger] stored[i]).1,
        ) by {
            if i < fields.len() && stored[i] == fields[i] {
                assert(well_formed(fields[i].1));
            }
        }
    } else {
        let at = key_index(fields, key);
        let child = fields[at].1;
        assert(well_formed(child));
        lemma_set_well_formed(child, segments.skip(1), v);
        let changed = set_at(child, segments.skip(1), v)->Ok_0;
        let stored = fields.update(at, (key, changed));
        assert forall|i: int, j: int| 0 <= i < j < stored.len() implies stored[i].0
            != stored[j].0 by {
            assert(stored[i].0 == fields[i].0 && stored[j].0 == fields[j].0);
        }
        assert forall|i: int| 0 <= i < stored.len() implies well_formed(
            (#[trigger] stored[i]).1,
        ) by {
            if i != at {
                assert(well_formed(fields[i].1));
            }
        }
    }
}

/// A write changes nothing beside its path: what a path without brackets
/// leads to stays as it was, where that path and the path of the write part
/// ways.
pub proof fn law_set_keeps_others(t: Tree, segments: Seq<Seq<char>>, v: Tree, q: Seq<Seq<char>>)
    requires
        well_formed(t),
        set_at(t, segments, v) is Ok,
        plain_segments(q),
        diverges(segments, q),
    ensures
        get_at(set_at(t, segments, v)->Ok_0, q) == get_at(t, q),
    decreases segments.len(),
{
    let fields = t->Dict_0;
    let key = segments[0];
    let written = set_at(t, segments, v)->Ok_0;
    let place = choose|i: int| #[trigger] differ_at(segments, q, i);
    lemma_plain_segment(t, q[0]);
    lemma_plain_segment(written, q[0]);
    if segments.len() == 1 {
        lemma_upsert_distinct(fields, key, v);
        assert(step_into(written, q[0]) == step_into(t, q[0]));
    } else {
        let at = key_index(fields, key);
        let child = fields[at].1;
        let changed = set_at(child, segments.skip(1), v)->Ok_0;
        lemma_key_index_unique(fields, at);
        assert(fields.update(at, (key, changed)) =~= upsert(fields, key, changed));
        lemma_upsert_distinct(fields, key, changed);
        if q[0] == key {
            assert(differ_at(segments.skip(1), q.skip(1), place - 1));
            assert forall|i: int| 0 <= i < q.skip(1).len() implies !(#[trigger] q.skip(1)[i]).contains(
                '[',
            ) by {
                assert(q.skip(1)[i] == q[i + 1]);
            }
            assert(well_formed(child));
            law_set_keeps_others(child, segments.skip(1), v, q.skip(1));
            assert(step_into(written, q[0]) == Some(changed));
            assert(step_into(t, q[0]) == Some(child));
        } else {
            assert(step_into(written, q[0]) == step_into(t, q[0]));
        }
    }
}

proof fn lemma_number_grows(digits: Seq<char>, k: int)
    requires
        0 <= k <= digits.len(),
    ensures
        number_of(digits.take(k)) <= number_of(digits),
    decreases digits.len() - k,
{
    if k < digits.len() {
        lemma_number_grows(digits, k + 1);
        assert(digits.take(k + 1).drop_last() =~= digits.take(k));
    } else {
        assert(digits.take(k) =~= digits);
    }
}

/// The item of `value` that the bracketed indices in `chars` from `from`
/// on lead to.
#[verifier::loop_isolation(false)]
fn item_of<'a>(value: &'a Value, chars: &Vec<char>, from: usize) -> (r: Option<&'a Value>)
    requires
        from <= chars@.len(),
    ensures
        match r {
            Some(v) => item_at(value@, chars@.skip(from as int)) == Some(v@),
            None => item_at(value@, chars@.skip(from as int)) is None,
        },
    decreases chars@.len() - from,
{
    let ghost brackets = chars@.skip(from as int);
    let n = chars.len();
    if from == n {
        return Some(value);
    }
    assert(brackets[0] == chars@[from as int]);
    if chars[from] != '[' {
        return None;
    }
    let mut close: usize = from;
    while close < n && chars[close] != ']'
        invariant
            from <= close <= n,
            n == chars@.len(),
            forall|k: int| from <= k < close ==> chars@[k] != ']',
        decreases n - close,
    {
        close += 1;
    }
    proof {
        assert forall|k: int| 0 <= k < close - from implies brackets[k] != ']' by {
            assert(brackets[k] == chars@[from + k]);
        }
        if close < n {
            assert(brackets[close - from] == chars@[close as int]);
        }
        lemma_first_index_is(brackets, ']', close - from);
    }
    if close == n || close == from + 1 {
        proof {
            if close < n {
                assert(brackets.subrange(1, close - from).len() == 0);
            }
        }
        return None;
    }
    let ghost digits = brackets.subrange(1, close - from);
    assert(digits.len() == close - from - 1);
    let items = match value {
        Value::Sequence(items) => items,
        _ => {
            return None;
        },
    };
    let mut index: usize = 0;
    let mut at: usize = from + 1;
    assert(digits.take(0) =~= Seq::<char>::empty());
    while at < close
        invariant
            from + 1 <= at <= close,
            close < n,
            n == chars@.len(),
            brackets == chars@.skip(from as int),
            digits == brackets.subrange(1, close - from),
            forall|k: int| 0 <= k < at - from - 1 ==> is_digit(#[trigger] digits[k]),
            index == number_of(digits.take(at - from - 1)),
            at > from + 1 ==> index < items@.len(),
        decreases close - at,
    {
        let c = chars[at];
        assert(digits[at - from - 1] == c);
        if !('0' <= c && c <= '9') {
            return None;
        }
        let digit: u8 = (c as u8) - ('0' as u8);
        proof {
            assert(digits.take(at - from).drop_last() =~= digits.take(at - from - 1));
            assert(digits.take(at - from).last() == c);
            lemma_number_grows(digits, at - from);
        }
        let next: u128 = (index as u128) * 10 + (digit as u128);
        if next >= items.len() as u128 {
            return None;
        }
        index = next as usize;
        at += 1;
    }
    proof {
        assert(digits.take(close - from - 1) =~= digits);
        assert(brackets.skip(close - from + 1) =~= chars@.skip(close + 1));
        assert(decreases_to!(value@ => value@->List_0));
    }
    item_of(&items[index], chars, close + 1)
}

/// Reads the value at the dotted `path`. A segment names a field of a
/// mapping; behind the name it may hold indices in brackets, each of which
/// picks an item of a sequence, as in `servers[0].name`. `None` where a
/// field or an item on the way does not exist; nothing is made up for it.
#[verifier::loop_isolation(false)]
pub fn get_value_at_path<'a>(value: &'a Value, path: &str) -> (r: Option<&'a Value>)
    ensures
        match r {
            Some(v) => get_at(value@, split(path@, '.')) == Some(v@),
            None => get_at(value@, split(path@, '.')) is None,
        },
{
    let parts = split_text(path, '.');
    let ghost segments = split(path@, '.');
    let mut current: &'a Value = value;
    let mut i: usize = 0;
    assert(segments.skip(0) =~= segments);
    while i < parts.len()
        invariant
            i <= parts.len(),
            segments == parts@.map_values(|p: String| p@),
            get_at(value@, segments) == get_at(current@, segments.skip(i as int)),
        decreases parts.len() - i,
    {
        let part = parts[i].as_str();
        let chars = chars_of(part);
        let mut open: usize = 0;
        while open < chars.len() && chars[open] != '['
            invariant
                open <= chars.len(),
                forall|k: int| 0 <= k < open ==> chars@[k] != '[',
            decreases chars.len() - open,
        {
            open += 1;
        }
        proof {
            lemma_first_index_is(part@, '[', open as int);
            assert(segments.skip(i as int)[0] == part@);
            assert(segments.skip(i as int).skip(1) =~= segments.skip(i + 1));
        }
        let key = part.substring_char(0, open);
        assert(key@ =~= part@.take(open as int));
        let child = match current.get(key) {
            Some(child) => child,
            None => {
                return None;
            },
        };
        current = match item_of(child, &chars, open) {
            Some(item) => item,
            None => {
                return None;
            },
        };
        i += 1;
    }
    assert(segments.skip(parts.len() as int).len() == 0);
    Some(current)
}

} // verus!
