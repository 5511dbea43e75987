//! Deep merge of documents.
//!
//! Two mappings merge key by key: nested mappings merge in turn, sequences
//! are concatenated, and in every other case the later value replaces the
//! earlier one.

use crate::value::{
    has_key, items_view, key_index, keys_distinct, lemma_key_index_unique, lookup, Mapping, Tree,
    Value,
};
use vstd::prelude::*;

verus! {

/// What a field holds after a later value `new` has been merged into the
/// value `old` that it held before.
pub open spec fn combine(old: Tree, new: Tree) -> Tree
    decreases old, 1nat,
{
    match (old, new) {
        (Tree::Dict(a), Tree::Dict(b)) => Tree::Dict(merged(a, b)),
        (Tree::List(a), Tree::List(b)) => Tree::List(a + b),
        _ => new,
    }
}

/// The entries of `b` whose keys `a` does not hold, in the order of `b`.
pub open spec fn fresh(a: Seq<(Seq<char>, Tree)>, b: Seq<(Seq<char>, Tree)>) -> Seq<
    (Seq<char>, Tree),
>
    decreases b.len(),
{
    if b.len() == 0 {
        Seq::empty()
    } else if has_key(a, b.last().0) {
        fresh(a, b.drop_last())
    } else {
        fresh(a, b.drop_last()).push(b.last())
    }
}

/// The fields of `a` after the fields of `b` have been merged into them:
/// the fields of `a` in their order, each combined with the field of `b`
/// under the same key where there is one, followed by the fields that only
/// `b` has.
pub open spec fn merged(a: Seq<(Seq<char>, Tree)>, b: Seq<(Seq<char>, Tree)>) -> Seq<
    (Seq<char>, Tree),
>
    decreases a, 0nat,
{
    Seq::new(
        a.len(),
        |i: int|
            if 0 <= i < a.len() {
                (
                    a[i].0,
                    match lookup(b, a[i].0) {
                        Some(v) => combine(a[i].1, v),
                        None => a[i].1,
                    },
                )
            } else {
                (Seq::empty(), Tree::Null)
            },
    ) + fresh(a, b)
}

/// What `fresh` keeps: exactly the keys of `b` that `a` lacks, each once and
/// with the value that `b` gives it.
pub proof fn lemma_fresh(a: Seq<(Seq<char>, Tree)>, b: Seq<(Seq<char>, Tree)>)
    requires
        keys_distinct(b),
    ensures
        keys_distinct(fresh(a, b)),
        forall|k: Seq<char>| has_key(fresh(a, b), k) <==> (has_key(b, k) && !has_key(a, k)),
        forall|k: Seq<char>| has_key(fresh(a, b), k) ==> lookup(fresh(a, b), k) == lookup(b, k),
        forall|i: int| 0 <= i < fresh(a, b).len() ==> !has_key(a, #[trigger] fresh(a, b)[i].0),
    decreases b.len(),
{
    let f = fresh(a, b);
    if b.len() == 0 {
        assert forall|k: Seq<char>| !has_key(f, k) by {}
    } else {
        let rest = b.drop_last();
        let last = b.last();
        let n = b.len() - 1;
        assert(keys_distinct(rest)) by {
            assert forall|i: int, j: int| 0 <= i < j < rest.len() implies rest[i].0 != rest[j].0 by {
                assert(rest[i] == b[i] && rest[j] == b[j]);
            }
        }
        lemma_fresh(a, rest);
        let r = fresh(a, rest);
        assert(!has_key(rest, last.0)) by {
            if has_key(rest, last.0) {
                let q = key_index(rest, last.0);
                assert(rest[q] == b[q]);
                assert(b[q].0 != b[n].0);
            }
        }
        assert forall|k: Seq<char>| has_key(rest, k) implies has_key(b, k) && lookup(b, k)
            == lookup(rest, k) by {
            let q = key_index(rest, k);
            assert(rest[q] == b[q]);
            lemma_key_index_unique(b, q);
            lemma_key_index_unique(rest, q);
        }
        assert forall|k: Seq<char>| has_key(b, k) implies has_key(rest, k) || k == last.0 by {
            let q = key_index(b, k);
            if q < n {
                assert(rest[q] == b[q]);
            }
        }
        lemma_key_index_unique(b, n);
        if has_key(a, last.0) {
            assert(f == r);
        } else {
            assert(f == r.push(last));
            assert(!has_key(r, last.0));
            assert forall|i: int, j: int| 0 <= i < j < f.len() implies f[i].0 != f[j].0 by {
                if j == r.len() {
                    assert(f[i] == r[i]);
                    assert(has_key(r, r[i].0));
                } else {
                    assert(f[i] == r[i] && f[j] == r[j]);
                }
            }
            assert(f[r.len() as int].0 == last.0);
            lemma_key_index_unique(f, r.len() as int);
            assert forall|k: Seq<char>| has_key(r, k) implies has_key(f, k) && lookup(f, k)
                == lookup(r, k) by {
                let q = key_index(r, k);
                assert(f[q] == r[q]);
                lemma_key_index_unique(f, q);
                lemma_key_index_unique(r, q);
            }
            assert forall|k: Seq<char>| has_key(f, k) implies has_key(r, k) || k == last.0 by {
                let q = key_index(f, k);
                if q < r.len() {
                    assert(f[q] == r[q]);
                }
            }
            assert forall|i: int| 0 <= i < f.len() implies !has_key(a, #[trigger] f[i].0) by {
                if i < r.len() {
                    assert(f[i] == r[i]);
                }
            }
        }
    }
}

/// The value that a key has after a merge, from the values that the two
/// sides give it.
pub open spec fn merged_field(x: Option<Tree>, y: Option<Tree>) -> Option<Tree> {
    match (x, y) {
        (Some(old), Some(new)) => Some(combine(old, new)),
        (Some(old), None) => Some(old),
        (None, _) => y,
    }
}

/// Merge is additive and works key by key: the result holds each key of
/// either side once, and under it the earlier value, the later value, or,
/// where both sides have the key, their combination.
pub proof fn lemma_merged(a: Seq<(Seq<char>, Tree)>, b: Seq<(Seq<char>, Tree)>)
    requires
        keys_distinct(a),
        keys_distinct(b),
    ensures
        keys_distinct(merged(a, b)),
        merged(a, b).len() == a.len() + fresh(a, b).len(),
        forall|i: int| 0 <= i < a.len() ==> (#[trigger] merged(a, b)[i]).0 == a[i].0,
        forall|k: Seq<char>| has_key(merged(a, b), k) <==> (has_key(a, k) || has_key(b, k)),
        forall|k: Seq<char>| lookup(merged(a, b), k) == merged_field(lookup(a, k), lookup(b, k)),
{
    let m = merged(a, b);
    let f = fresh(a, b);
    lemma_fresh(a, b);
    assert(m.len() == a.len() + f.len());
    assert forall|i: int| 0 <= i < a.len() implies (#[trigger] m[i]).0 == a[i].0 by {}
    assert forall|i: int| a.len() <= i < m.len() implies #[trigger] m[i] == f[i - a.len()] by {}
    assert forall|i: int, j: int| 0 <= i < j < m.len() implies m[i].0 != m[j].0 by {
        if j < a.len() {
            assert(m[i].0 == a[i].0 && m[j].0 == a[j].0);
        } else if i < a.len() {
            assert(m[i].0 == a[i].0);
            assert(m[j] == f[j - a.len()]);
            assert(!has_key(a, f[j - a.len()].0));
        } else {
            assert(m[i] == f[i - a.len()] && m[j] == f[j - a.len()]);
        }
    }
    assert forall|k: Seq<char>|
        (has_key(m, k) <==> (has_key(a, k) || has_key(b, k))) && lookup(m, k) == merged_field(
            lookup(a, k),
            lookup(b, k),
        ) by {
        if has_key(a, k) {
            let p = key_index(a, k);
            lemma_key_index_unique(a, p);
            assert(m[p].0 == k);
            lemma_key_index_unique(m, p);
        } else if has_key(b, k) {
            assert(has_key(f, k));
            let q = key_index(f, k);
            lemma_key_index_unique(f, q);
            assert(m[a.len() + q] == f[q]);
            lemma_key_index_unique(m, a.len() + q);
        } else {
            if has_key(m, k) {
                let p = key_index(m, k);
                if p < a.len() {
                    assert(m[p].0 == a[p].0);
                } else {
                    assert(m[p] == f[p - a.len()]);
                    assert(has_key(f, k));
                }
            }
        }
    }
}

/// Map merge is recursive: where both sides hold a mapping under a key,
/// the result holds the merge of the two mappings under it.
pub proof fn law_merge_nested(
    a: Seq<(Seq<char>, Tree)>,
    b: Seq<(Seq<char>, Tree)>,
    k: Seq<char>,
    x: Seq<(Seq<char>, Tree)>,
    y: Seq<(Seq<char>, Tree)>,
)
    requires
        keys_distinct(a),
        keys_distinct(b),
        lookup(a, k) == Some(Tree::Dict(x)),
        lookup(b, k) == Some(Tree::Dict(y)),
    ensures
        lookup(merged(a, b), k) == Some(Tree::Dict(merged(x, y))),
{
    lemma_merged(a, b);
}

/// Sequence merge concatenates: where both sides hold a sequence under a
/// key, the result holds the earlier items followed by the later ones, all
/// of them and in their order.
pub proof fn law_merge_sequences(
    a: Seq<(Seq<char>, Tree)>,
    b: Seq<(Seq<char>, Tree)>,
    k: Seq<char>,
    x: Seq<Tree>,
    y: Seq<Tree>,
)
    requires
        keys_distinct(a),
        keys_distinct(b),
        lookup(a, k) == Some(Tree::List(x)),
        lookup(b, k) == Some(Tree::List(y)),
    ensures
        lookup(merged(a, b), k) == Some(Tree::List(x + y)),
{
    lemma_merged(a, b);
}

/// In every other case the later value wins: where the later side holds
/// a value under a key and the two sides do not both hold mappings or both
/// hold sequences under it, the result holds the later value.
pub proof fn law_merge_last_wins(
    a: Seq<(Seq<char>, Tree)>,
    b: Seq<(Seq<char>, Tree)>,
    k: Seq<char>,
    y: Tree,
)
    requires
        keys_distinct(a),
        keys_distinct(b),
        lookup(b, k) == Some(y),
        !(lookup(a, k) matches Some(Tree::Dict(_)) && y is Dict),
        !(lookup(a, k) matches Some(Tree::List(_)) && y is List),
    ensures
        lookup(merged(a, b), k) == Some(y),
{
    lemma_merged(a, b);
}

/// Merge is additive: a key that only the earlier side holds keeps its
/// value.
pub proof fn law_merge_keeps(a: Seq<(Seq<char>, Tree)>, b: Seq<(Seq<char>, Tree)>, k: Seq<char>)
    requires
        keys_distinct(a),
        keys_distinct(b),
        lookup(b, k) is None,
    ensures
        lookup(merged(a, b), k) == lookup(a, k),
{
    lemma_merged(a, b);
}

/// The effect of one more field of `b` on the merge: it is combined with
/// the field of `a` under its key, or goes to the end.
proof fn lemma_merged_step(a: Seq<(Seq<char>, Tree)>, b: Seq<(Seq<char>, Tree)>, j: int)
    requires
        keys_distinct(a),
        keys_distinct(b),
        0 <= j < b.len(),
    ensures
        keys_distinct(merged(a, b.take(j))),
        has_key(a, b[j].0) ==> {
            let p = key_index(a, b[j].0);
            &&& 0 <= p < a.len()
            &&& has_key(merged(a, b.take(j)), b[j].0)
            &&& key_index(merged(a, b.take(j)), b[j].0) == p
            &&& merged(a, b.take(j))[p].1 == a[p].1
            &&& merged(a, b.take(j + 1)) == merged(a, b.take(j)).update(
                p,
                (b[j].0, combine(a[p].1, b[j].1)),
            )
        },
        !has_key(a, b[j].0) ==> {
            &&& !has_key(merged(a, b.take(j)), b[j].0)
            &&& merged(a, b.take(j + 1)) == merged(a, b.take(j)).push(b[j])
        },
{
    let b0 = b.take(j);
    let b1 = b.take(j + 1);
    let k = b[j].0;
    assert(b1.drop_last() =~= b0);
    assert(b1.last() == b[j]);
    assert(keys_distinct(b0)) by {
        assert forall|x: int, y: int| 0 <= x < y < b0.len() implies b0[x].0 != b0[y].0 by {
            assert(b0[x] == b[x] && b0[y] == b[y]);
        }
    }
    assert(keys_distinct(b1)) by {
        assert forall|x: int, y: int| 0 <= x < y < b1.len() implies b1[x].0 != b1[y].0 by {
            assert(b1[x] == b[x] && b1[y] == b[y]);
        }
    }
    assert(!has_key(b0, k)) by {
        if has_key(b0, k) {
            let q = key_index(b0, k);
            assert(b0[q] == b[q]);
        }
    }
    assert(b1[j] == b[j]);
    lemma_key_index_unique(b1, j);
    assert forall|other: Seq<char>| other != k implies lookup(b1, other) == lookup(b0, other) by {
        if has_key(b0, other) {
            let q = key_index(b0, other);
            assert(b0[q] == b[q] && b1[q] == b[q]);
            lemma_key_index_unique(b0, q);
            lemma_key_index_unique(b1, q);
        } else if has_key(b1, other) {
            let q = key_index(b1, other);
            assert(b1[q] == b[q]);
            assert(q < j);
            assert(b0[q] == b[q]);
        }
    }
    lemma_merged(a, b0);
    lemma_merged(a, b1);
    let m0 = merged(a, b0);
    let m1 = merged(a, b1);
    if has_key(a, k) {
        let p = key_index(a, k);
        lemma_key_index_unique(a, p);
        assert(m0[p].0 == k);
        lemma_key_index_unique(m0, p);
        assert(fresh(a, b1) == fresh(a, b0));
        assert(m1 =~= m0.update(p, (k, combine(a[p].1, b[j].1)))) by {
            assert forall|i: int| 0 <= i < a.len() && i != p implies m1[i] == m0[i] by {
                assert(a[i].0 != k) by {
                    if i < p {
                        assert(a[i].0 != a[p].0);
                    } else {
                        assert(a[p].0 != a[i].0);
                    }
                }
            }
        }
    } else {
        assert(fresh(a, b1) == fresh(a, b0).push(b[j]));
        assert(m1 =~= m0.push(b[j])) by {
            assert forall|i: int| 0 <= i < a.len() implies m1[i] == m0[i] by {
                assert(has_key(a, a[i].0));
            }
        }
    }
}

/// Merges `new_value` into what a field held before.
pub fn merge_values(existing: Value, new_value: Value) -> (r: Value)
    ensures
        r@ == combine(existing@, new_value@),
    decreases existing@, 1nat,
{
    let ghost old_tree = existing@;
    let ghost new_tree = new_value@;
    match (existing, new_value) {
        (Value::Mapping(mut a), Value::Mapping(b)) => {
            merge_maps(&mut a, b);
            Value::Mapping(a)
        },
        (Value::Sequence(mut a), Value::Sequence(mut b)) => {
            a.append(&mut b);
            let r = Value::Sequence(a);
            assert(r@->List_0 =~= old_tree->List_0 + new_tree->List_0);
            r
        },
        (_, n) => n,
    }
}

/// Merges the fields of `new_map` into `existing_map`.
pub fn merge_maps(existing_map: &mut Mapping, new_map: Mapping)
    ensures
        final(existing_map)@ == merged(old(existing_map)@, new_map@),
    decreases old(existing_map)@, 0nat,
{
    let mut rest = new_map;
    let n = rest.len();
    existing_map.keys_are_distinct();
    let ghost a = existing_map@;
    let ghost b = new_map@;
    proof {
        assert(b.take(0) =~= Seq::<(Seq<char>, Tree)>::empty());
        lemma_merged(a, b.take(0));
        assert(merged(a, b.take(0)) =~= a);
    }
    let mut j: usize = 0;
    while j < n
        invariant
            j <= n,
            n == b.len(),
            rest@.len() == n,
            keys_distinct(a),
            keys_distinct(b),
            a == old(existing_map)@,
            forall|i: int| j <= i < n ==> rest@[i] == b[i],
            existing_map@ == merged(a, b.take(j as int)),
        decreases n - j,
    {
        let key = rest.key_at(j).clone();
        let value = rest.take_value(j);
        proof {
            lemma_merged_step(a, b, j as int);
        }
        match existing_map.index_of(key.as_str()) {
            Some(i) => {
                let before = existing_map.take_value(i);
                let after = merge_values(before, value);
                existing_map.put_value(i, after);
                assert(existing_map@ =~= merged(a, b.take(j + 1)));
            },
            None => {
                existing_map.insert(key, value);
                assert(existing_map@ =~= merged(a, b.take(j + 1)));
            },
        }
        j += 1;
    }
    assert(b.take(n as int) =~= b);
}

/// Why a list of documents could not be merged.
#[derive(Debug, PartialEq, Eq, Clone, Copy)]
pub enum MergeError {
    /// The document at this position is not a mapping at its top level.
    InvalidRootShape { index: usize },
}

/// The fields of a mapping; no fields for any other node.
pub open spec fn fields_of(t: Tree) -> Seq<(Seq<char>, Tree)> {
    match t {
        Tree::Dict(e) => e,
        _ => Seq::empty(),
    }
}

/// The fields that result from merging the documents from left to right,
/// starting from the empty mapping.
pub open spec fn merged_all(sources: Seq<Tree>) -> Seq<(Seq<char>, Tree)>
    decreases sources.len(),
{
    if sources.len() == 0 {
        Seq::empty()
    } else {
        merged(merged_all(sources.drop_last()), fields_of(sources.last()))
    }
}

/// Every document is a mapping that holds no key twice at its top level.
pub open spec fn all_mappings(sources: Seq<Tree>) -> bool {
    forall|i: int|
        0 <= i < sources.len() ==> (#[trigger] sources[i]) is Dict && keys_distinct(
            fields_of(sources[i]),
        )
}

/// Merging into the empty mapping gives the merged mapping itself.
pub proof fn lemma_merge_into_empty(b: Seq<(Seq<char>, Tree)>)
    requires
        keys_distinct(b),
    ensures
        merged(Seq::empty(), b) == b,
    decreases b.len(),
{
    let a = Seq::<(Seq<char>, Tree)>::empty();
    assert(merged(a, b) =~= fresh(a, b));
    if b.len() > 0 {
        assert(keys_distinct(b.drop_last())) by {
            assert forall|i: int, j: int| 0 <= i < j < b.drop_last().len() implies b.drop_last()[i].0
                != b.drop_last()[j].0 by {
                assert(b.drop_last()[i] == b[i] && b.drop_last()[j] == b[j]);
            }
        }
        lemma_merge_into_empty(b.drop_last());
        assert(merged(a, b.drop_last()) =~= fresh(a, b.drop_last()));
        assert(!has_key(a, b.last().0));
        assert(fresh(a, b) =~= b);
    } else {
        assert(fresh(a, b) =~= b);
    }
}

/// The merge of mappings without repeated keys has no repeated keys.
pub proof fn lemma_merged_all_distinct(sources: Seq<Tree>)
    requires
        all_mappings(sources),
    ensures
        keys_distinct(merged_all(sources)),
    decreases sources.len(),
{
    if sources.len() > 0 {
        assert forall|i: int| 0 <= i < sources.drop_last().len() implies (
        #[trigger] sources.drop_last()[i]) is Dict && keys_distinct(
            fields_of(sources.drop_last()[i]),
        ) by {
            assert(sources.drop_last()[i] == sources[i]);
        }
        lemma_merged_all_distinct(sources.drop_last());
        assert(sources.last() == sources[sources.len() - 1]);
        lemma_merged(merged_all(sources.drop_last()), fields_of(sources.last()));
    }
}

/// Merging is associative over a list of documents: to merge the first
/// documents into one and then merge that with the rest gives what merging
/// the whole list gives.
pub proof fn law_merge_grouping(first: Seq<Tree>, rest: Seq<Tree>)
    requires
        all_mappings(first),
        all_mappings(rest),
    ensures
        merged_all(first + rest) == merged_all(seq![Tree::Dict(merged_all(first))] + rest),
    decreases rest.len(),
{
    let grouped = seq![Tree::Dict(merged_all(first))];
    if rest.len() == 0 {
        assert(first + rest =~= first);
        assert(grouped + rest =~= grouped);
        assert(grouped.drop_last() =~= Seq::<Tree>::empty());
        assert(merged_all(grouped.drop_last()) =~= Seq::<(Seq<char>, Tree)>::empty());
        lemma_merged_all_distinct(first);
        lemma_merge_into_empty(merged_all(first));
        assert(grouped.last() == Tree::Dict(merged_all(first)));
    } else {
        let shorter = rest.drop_last();
        assert forall|i: int| 0 <= i < shorter.len() implies (#[trigger] shorter[i]) is Dict
            && keys_distinct(fields_of(shorter[i])) by {
            assert(shorter[i] == rest[i]);
        }
        law_merge_grouping(first, shorter);
        assert((first + rest).drop_last() =~= first + shorter);
        assert((grouped + rest).drop_last() =~= grouped + shorter);
        assert((first + rest).last() == rest.last());
        assert((grouped + rest).last() == rest.last());
    }
}

/// Merging three documents in order is merging the third into the merge of
/// the first two.
pub proof fn law_merge_three(a: Tree, b: Tree, c: Tree)
    requires
        all_mappings(seq![a, b, c]),
    ensures
        merged_all(seq![a, b, c]) == merged_all(seq![Tree::Dict(merged_all(seq![a, b])), c]),
{
    let all = seq![a, b, c];
    let front = seq![a, b];
    let back = seq![c];
    let grouped = seq![Tree::Dict(merged_all(front)), c];
    assert(all[0] == a && all[1] == b && all[2] == c);
    assert forall|i: int| 0 <= i < front.len() implies (#[trigger] front[i]) is Dict
        && keys_distinct(fields_of(front[i])) by {
        assert(front[i] == all[i]);
    }
    assert forall|i: int| 0 <= i < back.len() implies (#[trigger] back[i]) is Dict && keys_distinct(
        fields_of(back[i]),
    ) by {
        assert(back[i] == all[2]);
    }
    law_merge_grouping(front, back);
    assert(front + back =~= all);
    assert(seq![Tree::Dict(merged_all(front))] + back =~= grouped);
}

/// Merges the documents from left to right into one mapping. Every
/// document has to be a mapping at its top level.
pub fn merge_sources(sources: Vec<Value>) -> (r: Result<Value, MergeError>)
    ensures
        match r {
            Ok(v) => {
                &&& forall|i: int| 0 <= i < sources@.len() ==> (#[trigger] sources@[i]@) is Dict
                &&& v@ == Tree::Dict(merged_all(items_view(sources@)))
            },
            Err(MergeError::InvalidRootShape { index }) => {
                &&& index < sources@.len()
                &&& !(sources@[index as int]@ is Dict)
                &&& forall|i: int| 0 <= i < index ==> (#[trigger] sources@[i]@) is Dict
            },
        },
{
    let ghost trees = items_view(sources@);
    let mut pending = sources;
    let mut merged_map = Mapping::new();
    let n = pending.len();
    let mut i: usize = 0;
    assert(trees.take(0) =~= Seq::<Tree>::empty());
    while i < n
        invariant
            i <= n,
            n == sources@.len(),
            pending@.len() == n,
            trees == items_view(sources@),
            forall|k: int| i <= k < n ==> pending@[k] == sources@[k],
            forall|k: int| 0 <= k < i ==> (#[trigger] sources@[k]@) is Dict,
            merged_map@ == merged_all(trees.take(i as int)),
        decreases n - i,
    {
        let mut source = Value::Null;
        core::mem::swap(&mut pending[i], &mut source);
        match source {
            Value::Mapping(m) => {
                proof {
                    assert(trees.take(i + 1).drop_last() =~= trees.take(i as int));
                    assert(trees.take(i + 1).last() == trees[i as int]);
                }
                merge_maps(&mut merged_map, m);
            },
            _ => {
                return Err(MergeError::InvalidRootShape { index: i });
            },
        }
        i += 1;
    }
    assert(trees.take(n as int) =~= trees);
    Ok(Value::Mapping(merged_map))
}

} // verus!
