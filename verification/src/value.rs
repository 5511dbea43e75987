//! The document model: a tree of mappings, sequences and scalars, with the
//! mathematical view that all contracts of this crate speak of.

use crate::text::is_digit;
use vstd::prelude::*;

verus! {

/// The mathematical view of a document.
pub enum Tree {
    Null,
    Bool(bool),
    /// A number, held as its literal text.
    Number(Seq<char>),
    Text(Seq<char>),
    List(Seq<Tree>),
    /// The fields of a mapping, in insertion order.
    Dict(Seq<(Seq<char>, Tree)>),
}

/// No key occurs twice among the entries.
pub open spec fn keys_distinct(e: Seq<(Seq<char>, Tree)>) -> bool {
    forall|i: int, j: int| 0 <= i < j < e.len() ==> e[i].0 != e[j].0
}

/// Some entry has the key `k`.
pub open spec fn has_key(e: Seq<(Seq<char>, Tree)>, k: Seq<char>) -> bool {
    exists|i: int| 0 <= i < e.len() && #[trigger] e[i].0 == k
}

/// The position of an entry with key `k`; it is the only one where the keys
/// are distinct.
pub open spec fn key_index(e: Seq<(Seq<char>, Tree)>, k: Seq<char>) -> int {
    choose|i: int| 0 <= i < e.len() && #[trigger] e[i].0 == k
}

/// The value stored under `k`, if any.
pub open spec fn lookup(e: Seq<(Seq<char>, Tree)>, k: Seq<char>) -> Option<Tree> {
    if has_key(e, k) {
        Some(e[key_index(e, k)].1)
    } else {
        None
    }
}

/// The entries after storing `v` under `k`: an existing entry keeps its
/// place, a new one goes to the end.
pub open spec fn upsert(e: Seq<(Seq<char>, Tree)>, k: Seq<char>, v: Tree) -> Seq<(Seq<char>, Tree)> {
    if has_key(e, k) {
        e.update(key_index(e, k), (k, v))
    } else {
        e.push((k, v))
    }
}

/// Every mapping of the document holds each of its keys once.
pub open spec fn well_formed(t: Tree) -> bool
    decreases t,
{
    match t {
        Tree::Dict(fields) => keys_distinct(fields) && forall|i: int|
            0 <= i < fields.len() ==> well_formed(#[trigger] fields[i].1),
        Tree::List(items) => forall|i: int| 0 <= i < items.len() ==> well_formed(#[trigger] items[i]),
        _ => true,
    }
}

/// Where the keys are distinct, an entry's key is found at that entry.
pub proof fn lemma_key_index_unique(e: Seq<(Seq<char>, Tree)>, i: int)
    requires
        keys_distinct(e),
        0 <= i < e.len(),
    ensures
        has_key(e, e[i].0),
        key_index(e, e[i].0) == i,
        lookup(e, e[i].0) == Some(e[i].1),
{
    assert(e[i].0 == e[i].0);
    let j = key_index(e, e[i].0);
    assert(0 <= j < e.len() && e[j].0 == e[i].0);
    if j < i {
        assert(e[j].0 != e[i].0);
    } else if i < j {
        assert(e[i].0 != e[j].0);
    }
}

/// Storing a value keeps the keys distinct.
pub proof fn lemma_upsert_distinct(e: Seq<(Seq<char>, Tree)>, k: Seq<char>, v: Tree)
    requires
        keys_distinct(e),
    ensures
        keys_distinct(upsert(e, k, v)),
        has_key(upsert(e, k, v), k),
        lookup(upsert(e, k, v), k) == Some(v),
        forall|other: Seq<char>| other != k ==> lookup(upsert(e, k, v), other) == lookup(e, other),
        forall|other: Seq<char>| other != k ==> has_key(upsert(e, k, v), other) == has_key(e, other),
{
    let r = upsert(e, k, v);
    if has_key(e, k) {
        let p = key_index(e, k);
        assert(r.len() == e.len());
        assert forall|i: int| 0 <= i < r.len() implies #[trigger] r[i].0 == e[i].0 by {}
        assert(keys_distinct(r));
        assert(r[p].0 == k);
        lemma_key_index_unique(r, p);
        assert forall|other: Seq<char>| other != k implies lookup(r, other) == lookup(e, other)
            && has_key(r, other) == has_key(e, other) by {
            if has_key(e, other) {
                let q = key_index(e, other);
                assert(r[q].0 == other);
                lemma_key_index_unique(r, q);
                lemma_key_index_unique(e, q);
            } else if has_key(r, other) {
                let q = key_index(r, other);
                assert(e[q].0 == other);
            }
        }
    } else {
        assert forall|i: int, j: int| 0 <= i < j < r.len() implies r[i].0 != r[j].0 by {
            if j == e.len() {
                assert(r[i].0 == e[i].0);
            }
        }
        let p = e.len() as int;
        assert(r[p].0 == k);
        lemma_key_index_unique(r, p);
        assert forall|other: Seq<char>| other != k implies lookup(r, other) == lookup(e, other)
            && has_key(r, other) == has_key(e, other) by {
            if has_key(e, other) {
                let q = key_index(e, other);
                assert(r[q].0 == other);
                lemma_key_index_unique(r, q);
                lemma_key_index_unique(e, q);
            } else if has_key(r, other) {
                let q = key_index(r, other);
                assert(e[q].0 == other);
            }
        }
    }
}

/// The number of decimal digits that `s` starts with.
pub open spec fn leading_digits(s: Seq<char>) -> nat
    decreases s.len(),
{
    if s.len() > 0 && is_digit(s[0]) {
        1 + leading_digits(s.skip(1))
    } else {
        0
    }
}

/// A plus or minus sign.
pub open spec fn is_sign(c: char) -> bool {
    c == '+' || c == '-'
}

/// The text without the sign that it may start with.
pub open spec fn unsigned(s: Seq<char>) -> Seq<char> {
    if s.len() > 0 && is_sign(s[0]) {
        s.skip(1)
    } else {
        s
    }
}

/// One or more decimal digits and nothing else.
pub open spec fn digits_only(s: Seq<char>) -> bool {
    s.len() >= 1 && leading_digits(s) == s.len()
}

/// Nothing, or an exponent: `e` or `E`, a sign or none, and digits.
pub open spec fn exponent_text(s: Seq<char>) -> bool {
    s.len() == 0 || ((s[0] == 'e' || s[0] == 'E') && digits_only(unsigned(s.skip(1))))
}

/// What may follow the integer digits of a numeral: a point with digits
/// behind it or none, and then an exponent or none.
pub open spec fn fraction_text(s: Seq<char>) -> bool {
    if s.len() > 0 && s[0] == '.' {
        leading_digits(s.skip(1)) >= 1 && exponent_text(
            s.skip(1 + leading_digits(s.skip(1)) as int),
        )
    } else {
        exponent_text(s)
    }
}

/// A decimal numeral: a sign or none, integer digits without a needless
/// zero in front, and a fraction and an exponent or none, as in `42`,
/// `-0.5` and `1.5e-7`.
pub open spec fn decimal_literal(s: Seq<char>) -> bool {
    let body = unsigned(s);
    let n = leading_digits(body);
    n >= 1 && (n == 1 || body[0] != '0') && fraction_text(body.skip(n as int))
}

/// A text that is the literal of a number: a decimal numeral, or one of
/// `.inf`, `-.inf` and `.nan`.
pub open spec fn number_text(s: Seq<char>) -> bool {
    decimal_literal(s) || s == ".inf"@ || s == "-.inf"@ || s == ".nan"@
}

/// The end of the run of digits that starts at `from`.
fn digit_run(chars: &Vec<char>, from: usize) -> (to: usize)
    requires
        from <= chars@.len(),
    ensures
        from <= to <= chars@.len(),
        to - from == leading_digits(chars@.skip(from as int)),
{
    let mut to: usize = from;
    while to < chars.len() && '0' <= chars[to] && chars[to] <= '9'
        invariant
            from <= to <= chars@.len(),
            leading_digits(chars@.skip(from as int)) == (to - from) + leading_digits(
                chars@.skip(to as int),
            ),
        decreases chars@.len() - to,
    {
        proof {
            let rest = chars@.skip(to as int);
            assert(rest[0] == chars@[to as int]);
            assert(rest.skip(1) =~= chars@.skip(to + 1));
        }
        to += 1;
    }
    proof {
        let rest = chars@.skip(to as int);
        if to < chars@.len() {
            assert(rest[0] == chars@[to as int]);
        }
    }
    to
}

/// The place behind the sign at `from`, if there is one.
fn behind_sign(chars: &Vec<char>, from: usize) -> (to: usize)
    requires
        from <= chars@.len(),
    ensures
        from <= to <= chars@.len(),
        chars@.skip(to as int) == unsigned(chars@.skip(from as int)),
{
    let ghost rest = chars@.skip(from as int);
    if from < chars.len() && (chars[from] == '+' || chars[from] == '-') {
        assert(rest[0] == chars@[from as int]);
        assert(rest.skip(1) =~= chars@.skip(from + 1));
        from + 1
    } else {
        proof {
            if from < chars@.len() {
                assert(rest[0] == chars@[from as int]);
            }
        }
        from
    }
}

/// Whether what stands from `from` on is nothing or an exponent.
fn is_exponent(chars: &Vec<char>, from: usize) -> (b: bool)
    requires
        from <= chars@.len(),
    ensures
        b == exponent_text(chars@.skip(from as int)),
{
    let ghost rest = chars@.skip(from as int);
    if from == chars.len() {
        return true;
    }
    assert(rest[0] == chars@[from as int]);
    if chars[from] != 'e' && chars[from] != 'E' {
        return false;
    }
    assert(rest.skip(1) =~= chars@.skip(from + 1));
    let start = behind_sign(chars, from + 1);
    let end = digit_run(chars, start);
    start < chars.len() && end == chars.len()
}

/// Whether what stands from `from` on may follow the integer digits of a
/// numeral.
fn is_fraction(chars: &Vec<char>, from: usize) -> (b: bool)
    requires
        from <= chars@.len(),
    ensures
        b == fraction_text(chars@.skip(from as int)),
{
    let ghost rest = chars@.skip(from as int);
    if from < chars.len() && chars[from] == '.' {
        assert(rest[0] == chars@[from as int]);
        assert(rest.skip(1) =~= chars@.skip(from + 1));
        let end = digit_run(chars, from + 1);
        assert(rest.skip(1 + (end - from - 1)) =~= chars@.skip(end as int));
        end > from + 1 && is_exponent(chars, end)
    } else {
        proof {
            if from < chars@.len() {
                assert(rest[0] == chars@[from as int]);
            }
        }
        is_exponent(chars, from)
    }
}

/// Whether the characters are a decimal numeral.
fn is_decimal(chars: &Vec<char>) -> (b: bool)
    ensures
        b == decimal_literal(chars@),
{
    assert(chars@.skip(0) =~= chars@);
    let start = behind_sign(chars, 0);
    let end = digit_run(chars, start);
    let ghost body = chars@.skip(start as int);
    assert(body.skip(end - start) =~= chars@.skip(end as int));
    if end == start {
        return false;
    }
    assert(body[0] == chars@[start as int]);
    if end - start > 1 && chars[start] == '0' {
        return false;
    }
    is_fraction(chars, end)
}

/// A number of a document. It is held as the text of its literal, so that
/// integers and decimal fractions of any size pass through unchanged.
#[derive(Debug, PartialEq, Eq)]
pub struct Number {
    text: String,
}

impl View for Number {
    type V = Seq<char>;

    closed spec fn view(&self) -> Seq<char> {
        self.text@
    }
}

impl Number {
    #[verifier::type_invariant]
    spec fn holds_a_literal(self) -> bool {
        number_text(self.text@)
    }

    /// The number whose literal is `text`; `None` for a text that is not
    /// the literal of a number.
    pub fn new(text: &str) -> (r: Option<Self>)
        ensures
            match r {
                Some(n) => n@ == text@ && number_text(text@),
                None => !number_text(text@),
            },
    {
        let chars = crate::text::chars_of(text);
        let owned = String::from_str(text);
        if is_decimal(&chars) || owned == String::from_str(".inf") || owned == String::from_str(
            "-.inf",
        ) || owned == String::from_str(".nan") {
            Some(Number { text: owned })
        } else {
            None
        }
    }

    /// The literal of this number.
    pub fn as_str(&self) -> (r: &str)
        ensures
            r@ == self@,
            number_text(r@),
    {
        proof {
            use_type_invariant(self);
        }
        self.text.as_str()
    }
}

impl Clone for Number {
    fn clone(&self) -> (r: Self)
        ensures
            r@ == self@,
    {
        proof {
            use_type_invariant(self);
        }
        Number { text: self.text.clone() }
    }
}

/// A node of a document.
#[derive(Debug, PartialEq)]
pub enum Value {
    Null,
    Bool(bool),
    Number(Number),
    String(String),
    Sequence(Vec<Value>),
    Mapping(Mapping),
}

/// A mapping from string keys to values. It keeps its fields in the order
/// in which their keys were first inserted, and holds no key twice.
#[derive(Debug, PartialEq)]
pub struct Mapping {
    entries: Vec<(String, Value)>,
}

/// The views of the items of a sequence.
pub open spec fn items_view(items: Seq<Value>) -> Seq<Tree> {
    Seq::new(items.len(), |i: int| items[i]@)
}

impl View for Value {
    type V = Tree;

    open spec fn view(&self) -> Tree
        decreases self,
    {
        match self {
            Value::Null => Tree::Null,
            Value::Bool(b) => Tree::Bool(*b),
            Value::Number(n) => Tree::Number(n@),
            Value::String(s) => Tree::Text(s@),
            Value::Sequence(items) => Tree::List(
                Seq::new(
                    items@.len(),
                    |i: int|
                        if 0 <= i < items@.len() {
                            items@[i]@
                        } else {
                            Tree::Null
                        },
                ),
            ),
            Value::Mapping(m) => Tree::Dict(m@),
        }
    }
}

impl View for Mapping {
    type V = Seq<(Seq<char>, Tree)>;

    closed spec fn view(&self) -> Seq<(Seq<char>, Tree)>
        decreases self,
    {
        Seq::new(
            self.entries@.len(),
            |i: int|
                if 0 <= i < self.entries@.len() {
                    (self.entries@[i].0@, self.entries@[i].1@)
                } else {
                    (Seq::empty(), Tree::Null)
                },
        )
    }
}

/// The view of stored entries, item by item.
spec fn entries_view(entries: Seq<(String, Value)>) -> Seq<(Seq<char>, Tree)> {
    Seq::new(entries.len(), |i: int| (entries[i].0@, entries[i].1@))
}

proof fn lemma_mapping_view(m: Mapping)
    ensures
        m@ == entries_view(m.entries@),
{
    assert(m@ =~= entries_view(m.entries@));
}

impl Mapping {
    #[verifier::type_invariant]
    spec fn holds_no_key_twice(self) -> bool {
        keys_distinct(entries_view(self.entries@))
    }

    /// The empty mapping.
    pub fn new() -> (r: Self)
        ensures
            r@ == Seq::<(Seq<char>, Tree)>::empty(),
    {
        let r = Mapping { entries: Vec::new() };
        proof {
            lemma_mapping_view(r);
            assert(r@ =~= Seq::<(Seq<char>, Tree)>::empty());
        }
        r
    }

    /// Every mapping holds each key once. This does nothing when it runs;
    /// it hands the fact to a proof.
    #[inline(always)]
    pub fn keys_are_distinct(&self)
        ensures
            keys_distinct(self@),
    {
        proof {
            use_type_invariant(self);
            lemma_mapping_view(*self);
        }
    }

    /// The number of fields.
    pub fn len(&self) -> (n: usize)
        ensures
            n == self@.len(),
            keys_distinct(self@),
    {
        proof {
            use_type_invariant(self);
            lemma_mapping_view(*self);
        }
        self.entries.len()
    }

    pub fn is_empty(&self) -> (b: bool)
        ensures
            b == (self@.len() == 0),
    {
        proof {
            lemma_mapping_view(*self);
        }
        self.entries.len() == 0
    }

    /// The key of the field at position `i`.
    pub fn key_at(&self, i: usize) -> (k: &String)
        requires
            i < self@.len(),
        ensures
            k@ == self@[i as int].0,
    {
        proof {
            lemma_mapping_view(*self);
        }
        &self.entries[i].0
    }

    /// The value of the field at position `i`.
    pub fn value_at(&self, i: usize) -> (v: &Value)
        requires
            i < self@.len(),
        ensures
            v@ == self@[i as int].1,
    {
        proof {
            lemma_mapping_view(*self);
        }
        &self.entries[i].1
    }

    /// The position of the field with the given key.
    pub fn index_of(&self, key: &str) -> (r: Option<usize>)
        ensures
            keys_distinct(self@),
            match r {
                Some(i) => i < self@.len() && self@[i as int].0 == key@ && has_key(self@, key@)
                    && key_index(self@, key@) == i,
                None => !has_key(self@, key@),
            },
    {
        proof {
            use_type_invariant(self);
            lemma_mapping_view(*self);
        }
        let wanted = String::from_str(key);
        let mut i: usize = 0;
        while i < self.entries.len()
            invariant
                i <= self.entries.len(),
                wanted@ == key@,
                self@ == entries_view(self.entries@),
                keys_distinct(self@),
                forall|j: int| 0 <= j < i ==> self@[j].0 != key@,
            decreases self.entries.len() - i,
        {
            if self.entries[i].0 == wanted {
                proof {
                    lemma_key_index_unique(self@, i as int);
                }
                return Some(i);
            }
            i += 1;
        }
        None
    }

    /// The value stored under `key`, if any.
    pub fn get(&self, key: &str) -> (r: Option<&Value>)
        ensures
            keys_distinct(self@),
            match r {
                Some(v) => lookup(self@, key@) == Some(v@),
                None => lookup(self@, key@) is None,
            },
    {
        match self.index_of(key) {
            Some(i) => Some(self.value_at(i)),
            None => None,
        }
    }

    pub fn contains_key(&self, key: &str) -> (b: bool)
        ensures
            b == has_key(self@, key@),
    {
        self.index_of(key).is_some()
    }

    /// Stores `value` under `key`. A field that exists keeps its place and
    /// gets the new value; a new field goes to the end.
    pub fn insert(&mut self, key: String, value: Value)
        ensures
            final(self)@ == upsert(old(self)@, key@, value@),
    {
        match self.index_of(key.as_str()) {
            Some(i) => {
                self.put_value(i, value);
                assert(self@ =~= upsert(old(self)@, key@, value@));
            },
            None => {
                proof {
                    use_type_invariant(&*self);
                    lemma_mapping_view(*self);
                    lemma_upsert_distinct(old(self)@, key@, value@);
                }
                let ghost before = self.entries@;
                let mut entries: Vec<(String, Value)> = Vec::new();
                core::mem::swap(&mut self.entries, &mut entries);
                entries.push((key, value));
                assert(entries_view(entries@) =~= upsert(entries_view(before), key@, value@));
                core::mem::swap(&mut self.entries, &mut entries);
                proof {
                    lemma_mapping_view(*self);
                }
            },
        }
    }

    /// Moves the value at position `i` out and leaves `Null` in its place.
    pub fn take_value(&mut self, i: usize) -> (v: Value)
        requires
            i < old(self)@.len(),
        ensures
            v@ == old(self)@[i as int].1,
            final(self)@ == old(self)@.update(i as int, (old(self)@[i as int].0, Tree::Null)),
    {
        proof {
            use_type_invariant(&*self);
            lemma_mapping_view(*self);
        }
        let ghost before = self.entries@;
        let mut entries: Vec<(String, Value)> = Vec::new();
        core::mem::swap(&mut self.entries, &mut entries);
        let mut v = Value::Null;
        core::mem::swap(&mut entries[i].1, &mut v);
        proof {
            let now = entries_view(entries@);
            let was = entries_view(before);
            assert(now =~= was.update(i as int, (was[i as int].0, Tree::Null)));
            assert forall|a: int, b: int| 0 <= a < b < now.len() implies now[a].0 != now[b].0 by {
                assert(now[a].0 == was[a].0 && now[b].0 == was[b].0);
            }
        }
        core::mem::swap(&mut self.entries, &mut entries);
        proof {
            lemma_mapping_view(*self);
        }
        v
    }

    /// Replaces the value at position `i`.
    pub fn put_value(&mut self, i: usize, value: Value)
        requires
            i < old(self)@.len(),
        ensures
            final(self)@ == old(self)@.update(i as int, (old(self)@[i as int].0, value@)),
    {
        proof {
            use_type_invariant(&*self);
            lemma_mapping_view(*self);
        }
        let ghost before = self.entries@;
        let mut entries: Vec<(String, Value)> = Vec::new();
        core::mem::swap(&mut self.entries, &mut entries);
        let mut v = value;
        core::mem::swap(&mut entries[i].1, &mut v);
        proof {
            let now = entries_view(entries@);
            let was = entries_view(before);
            assert(now =~= was.update(i as int, (was[i as int].0, value@)));
            assert forall|a: int, b: int| 0 <= a < b < now.len() implies now[a].0 != now[b].0 by {
                assert(now[a].0 == was[a].0 && now[b].0 == was[b].0);
            }
        }
        core::mem::swap(&mut self.entries, &mut entries);
        proof {
            lemma_mapping_view(*self);
        }
    }
}

impl Clone for Mapping {
    #[verifier::loop_isolation(false)]
    fn clone(&self) -> (r: Self)
        ensures
            r@ == self@,
        decreases self,
    {
        proof {
            use_type_invariant(self);
            lemma_mapping_view(*self);
        }
        let mut out: Vec<(String, Value)> = Vec::new();
        let mut i: usize = 0;
        while i < self.entries.len()
            invariant
                i <= self.entries.len(),
                out.len() == i,
                forall|j: int|
                    0 <= j < i ==> out@[j].0@ == self.entries@[j].0@ && out@[j].1@
                        == self.entries@[j].1@,
            decreases self.entries.len() - i,
        {
            out.push((self.entries[i].0.clone(), self.entries[i].1.clone()));
            i += 1;
        }
        assert(entries_view(out@) =~= entries_view(self.entries@));
        let r = Mapping { entries: out };
        proof {
            lemma_mapping_view(r);
        }
        r
    }
}

impl Clone for Value {
    #[verifier::loop_isolation(false)]
    fn clone(&self) -> (r: Self)
        ensures
            r@ == self@,
        decreases self,
    {
        match self {
            Value::Null => Value::Null,
            Value::Bool(b) => Value::Bool(*b),
            Value::Number(n) => Value::Number(n.clone()),
            Value::String(s) => Value::String(s.clone()),
            Value::Sequence(items) => {
                let mut out: Vec<Value> = Vec::new();
                let mut i: usize = 0;
                while i < items.len()
                    invariant
                        i <= items.len(),
                        out.len() == i,
                        forall|j: int| 0 <= j < i ==> out@[j]@ == items@[j]@,
                    decreases items.len() - i,
                {
                    out.push(items[i].clone());
                    i += 1;
                }
                let r = Value::Sequence(out);
                assert(r@->List_0 =~= self@->List_0);
                r
            },
            Value::Mapping(m) => Value::Mapping(m.clone()),
        }
    }
}

impl Value {
    /// Every document is well formed: each of its mappings holds each of its
    /// keys once. This walks the document and changes nothing; it hands the
    /// fact to a proof.
    #[verifier::loop_isolation(false)]
    pub fn assure_well_formed(&self)
        ensures
            well_formed(self@),
        decreases self,
    {
        match self {
            Value::Sequence(items) => {
                let mut i: usize = 0;
                while i < items.len()
                    invariant
                        i <= items.len(),
                        forall|k: int| 0 <= k < i ==> well_formed(#[trigger] items@[k]@),
                    decreases items.len() - i,
                {
                    items[i].assure_well_formed();
                    i += 1;
                }
                proof {
                    let trees = self@->List_0;
                    assert forall|k: int| 0 <= k < trees.len() implies well_formed(
                        #[trigger] trees[k],
                    ) by {
                        assert(trees[k] == items@[k]@);
                    }
                }
            },
            Value::Mapping(m) => {
                proof {
                    use_type_invariant(m);
                    lemma_mapping_view(*m);
                }
                let mut i: usize = 0;
                while i < m.entries.len()
                    invariant
                        i <= m.entries.len(),
                        forall|k: int| 0 <= k < i ==> well_formed(#[trigger] m.entries@[k].1@),
                    decreases m.entries.len() - i,
                {
                    m.entries[i].1.assure_well_formed();
                    i += 1;
                }
                proof {
                    let fields = m@;
                    assert forall|k: int| 0 <= k < fields.len() implies well_formed(
                        #[trigger] fields[k].1,
                    ) by {
                        assert(fields[k].1 == m.entries@[k].1@);
                    }
                }
            },
            _ => {},
        }
    }

    /// The field `key` of a mapping; `None` for a missing key and for a
    /// value that is no mapping.
    pub fn get(&self, key: &str) -> (r: Option<&Value>)
        ensures
            match r {
                Some(v) => self@ is Dict && lookup(self@->Dict_0, key@) == Some(v@),
                None => self@ is Dict ==> lookup(self@->Dict_0, key@) is None,
            },
    {
        match self {
            Value::Mapping(m) => m.get(key),
            _ => None,
        }
    }

    /// The text of a string value.
    pub fn as_str(&self) -> (r: Option<&str>)
        ensures
            match r {
                Some(s) => self@ == Tree::Text(s@),
                None => !(self@ is Text),
            },
    {
        match self {
            Value::String(s) => Some(s.as_str()),
            _ => None,
        }
    }
}

} // verus!
